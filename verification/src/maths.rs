pub mod rational;
