//! Search for a 24-reaching expression over four input numbers.
//!
//! Candidates are postfix token strings: the characters `1`-`4` name the
//! four input positions, `+ - * /` the operators.  A candidate is evaluated
//! by a stack machine over exact rationals, modelled by [`spec_run`]; the
//! winning candidate is rendered to infix text, modelled by [`spec_render`].
use vstd::prelude::*;

verus! {

use crate::maths::rational::Rational;
use crate::maths::rational::Frac;
use crate::maths::rational::frac_wf;
use crate::maths::rational::frac_mag;
use crate::maths::rational::frac_add;
use crate::maths::rational::frac_sub;
use crate::maths::rational::frac_mul;
use crate::maths::rational::frac_div;
use crate::maths::rational::frac_int_value;
use crate::maths::rational::int_frac;

/// Largest magnitude of an input number the search accepts; keeps every
/// intermediate fraction representable in `i128` (see [`cap`]).
pub const NUM_LIMIT: i128 = 1_000_000_000;

/// The target total.
pub const TARGET: i128 = 24;

/// An operand token: one of the four input positions.
pub open spec fn is_digit_char(c: char) -> bool {
    c == '1' || c == '2' || c == '3' || c == '4'
}

/// The input position a digit token names.
pub open spec fn digit_index(c: char) -> int {
    if c == '1' {
        0
    } else if c == '2' {
        1
    } else if c == '3' {
        2
    } else {
        3
    }
}

/// An operator token.
pub open spec fn is_op_char(c: char) -> bool {
    c == '+' || c == '-' || c == '*' || c == '/'
}

/// Apply one operator to two fractions; division by a zero value fails.
pub open spec fn apply_op(c: char, a: Frac, b: Frac) -> Option<Frac> {
    if c == '+' {
        Some(frac_add(a, b))
    } else if c == '-' {
        Some(frac_sub(a, b))
    } else if c == '*' {
        Some(frac_mul(a, b))
    } else if b.n == 0 {
        None
    } else {
        Some(frac_div(a, b))
    }
}

/// The input numbers as mathematical integers.
pub open spec fn int_seq(s: Seq<i128>) -> Seq<int> {
    s.map_values(|v: i128| v as int)
}

/// The fractions a stack of rationals denotes.
pub open spec fn views(s: Seq<Rational>) -> Seq<Frac> {
    s.map_values(|r: Rational| r@)
}

/// The postfix stack machine, from token `i` on: push the named input on a
/// digit token, combine the two topmost values on an operator token.
/// `None` when a token is unknown, the stack underflows, or a division by
/// zero occurs.
pub open spec fn spec_run(expr: Seq<char>, nums: Seq<int>, stack: Seq<Frac>, i: nat) -> Option<
    Seq<Frac>,
>
    decreases expr.len() - i,
{
    if i >= expr.len() {
        Some(stack)
    } else {
        let c = expr[i as int];
        if is_digit_char(c) {
            spec_run(expr, nums, stack.push(int_frac(nums[digit_index(c)])), i + 1)
        } else if is_op_char(c) {
            if stack.len() < 2 {
                None
            } else {
                match apply_op(c, stack[stack.len() - 2], stack[stack.len() - 1]) {
                    Some(f) => spec_run(expr, nums, stack.drop_last().drop_last().push(f), i + 1),
                    None => None,
                }
            }
        } else {
            None
        }
    }
}

/// What a postfix candidate evaluates to: the integer value of the single
/// remaining fraction, if the run ends with exactly one.
pub open spec fn spec_eval(expr: Seq<char>, nums: Seq<int>) -> Option<int> {
    match spec_run(expr, nums, Seq::empty(), 0) {
        Some(st) => if st.len() == 1 {
            frac_int_value(st[0])
        } else {
            None
        },
        None => None,
    }
}

/// Magnitude bound for a fraction built from `k` operator applications
/// over inputs of magnitude at most [`NUM_LIMIT`]: each application at
/// most doubles the product of its operands' bounds.  A candidate holds
/// at most three operators, so `cap(3)` bounds every value met, and it
/// fits comfortably in `i128`.
pub open spec fn cap(k: int) -> int {
    if k <= 0 {
        1000000000
    } else if k == 1 {
        2000000000000000000
    } else if k == 2 {
        4000000000000000000000000000
    } else {
        8000000000000000000000000000000000000
    }
}

/// The combination law for [`cap`] in the range a candidate can reach.
proof fn lemma_cap_combine(k1: int, k2: int)
    requires
        0 <= k1,
        0 <= k2,
        k1 + k2 + 1 <= 3,
    ensures
        2 * cap(k1) * cap(k2) == cap(k1 + k2 + 1),
        cap(k1 + k2 + 1) <= cap(3),
{
}

/// Sum over a stack of operator counts of each element's token weight:
/// an element built from `k` operator tokens consumed `2k + 1` tokens.
pub open spec fn weight_sum(ks: Seq<int>) -> int
    decreases ks.len(),
{
    if ks.len() == 0 {
        0
    } else {
        weight_sum(ks.drop_last()) + 2 * ks.last() + 1
    }
}

proof fn lemma_weight_push(ks: Seq<int>, k: int)
    ensures
        weight_sum(ks.push(k)) == weight_sum(ks) + 2 * k + 1,
{
    assert(ks.push(k).drop_last() =~= ks);
    assert(ks.push(k).last() == k);
}

proof fn lemma_weight_nonneg(ks: Seq<int>)
    requires
        forall|j: int| 0 <= j < ks.len() ==> 0 <= #[trigger] ks[j],
    ensures
        weight_sum(ks) >= 0,
    decreases ks.len(),
{
    if ks.len() > 0 {
        lemma_weight_nonneg(ks.drop_last());
    }
}

/// The two topmost weights are part of the total.
proof fn lemma_weight_two_top(ks: Seq<int>)
    requires
        ks.len() >= 2,
        forall|j: int| 0 <= j < ks.len() ==> 0 <= #[trigger] ks[j],
    ensures
        (2 * ks[ks.len() - 2] + 1) + (2 * ks.last() + 1) <= weight_sum(ks),
{
    let d1 = ks.drop_last();
    let dd = d1.drop_last();
    assert forall|j: int| 0 <= j < dd.len() implies 0 <= #[trigger] dd[j] by {
        assert(dd[j] == ks[j]);
    }
    lemma_weight_nonneg(dd);
    assert(weight_sum(ks) == weight_sum(d1) + 2 * ks.last() + 1);
    assert(weight_sum(d1) == weight_sum(dd) + 2 * d1.last() + 1);
    assert(d1.last() == ks[ks.len() - 2]);
}

/// Evaluate a postfix candidate over the four input numbers with exact
/// rational arithmetic.  Mirrors [`spec_eval`]: `Some` exactly when the
/// candidate is well formed and denotes an integer.
///
/// The candidate length and input bounds keep every intermediate
/// numerator and denominator within `i128` (see [`cap`]); a candidate
/// holds at most seven tokens.
pub fn evaluate_expression(expr: &str, numbers: &[i128; 4]) -> (r: Option<i128>)
    requires
        expr@.len() <= 7,
        forall|j: int| 0 <= j < 4 ==> -NUM_LIMIT <= #[trigger] numbers[j] <= NUM_LIMIT,
    ensures
        spec_eval(expr@, int_seq(numbers@)) is None ==> r is None,
        spec_eval(expr@, int_seq(numbers@)) matches Some(v) ==> r matches Some(q) && q as int
            == v,
{
    let ghost nums = int_seq(numbers@);
    let n = expr.unicode_len();
    let mut stack: Vec<Rational> = Vec::with_capacity(4);
    let ghost mut ks: Seq<int> = Seq::<int>::empty();
    proof {
        assert(views(stack@) =~= Seq::<Frac>::empty());
    }
    let mut i: usize = 0;
    while i < n
        invariant
            n == expr@.len(),
            n <= 7,
            nums == int_seq(numbers@),
            forall|j: int| 0 <= j < 4 ==> -NUM_LIMIT <= #[trigger] numbers[j] <= NUM_LIMIT,
            i <= n,
            ks.len() == stack@.len(),
            forall|j: int| 0 <= j < ks.len() ==> 0 <= #[trigger] ks[j],
            weight_sum(ks) <= i as int,
            forall|j: int|
                0 <= j < stack@.len() ==> frac_wf(#[trigger] stack@[j]@) && frac_mag(stack@[j]@)
                    <= cap(ks[j]),
            spec_run(expr@, nums, Seq::<Frac>::empty(), 0) == spec_run(
                expr@,
                nums,
                views(stack@),
                i as nat,
            ),
        decreases n - i,
    {
        let c = expr.get_char(i);
        let ghost vs_old = views(stack@);
        if c == '1' || c == '2' || c == '3' || c == '4' {
            let idx: usize = if c == '1' {
                0
            } else if c == '2' {
                1
            } else if c == '3' {
                2
            } else {
                3
            };
            stack.push(Rational::from_int(numbers[idx]));
            proof {
                lemma_weight_push(ks, 0);
                ks = ks.push(0);
                assert(views(stack@) =~= vs_old.push(int_frac(nums[digit_index(c)])));
                assert forall|j: int|
                    0 <= j < stack@.len() implies frac_wf(#[trigger] stack@[j]@) && frac_mag(
                    stack@[j]@,
                ) <= cap(ks[j]) by {
                    if j < stack@.len() - 1 {
                        assert(stack@[j]@ == vs_old[j]);
                    }
                }
            }
        } else if c == '+' || c == '-' || c == '*' || c == '/' {
            if stack.len() < 2 {
                proof {
                    assert(spec_run(expr@, nums, vs_old, i as nat) is None);
                }
                return None;
            }
            let op2 = stack.pop().unwrap();
            let op1 = stack.pop().unwrap();
            let ghost k2 = ks.last();
            let ghost k1 = ks[ks.len() - 2];
            proof {
                lemma_weight_two_top(ks);
                assert(k1 + k2 + 1 <= 3);
                lemma_cap_combine(k1, k2);
                assert(op1@ == vs_old[vs_old.len() - 2] && op2@ == vs_old[vs_old.len() - 1]);
                assert(2 * frac_mag(op1@) * frac_mag(op2@) <= 2 * cap(k1) * cap(k2))
                    by (nonlinear_arith)
                    requires
                        1 <= frac_mag(op1@) <= cap(k1),
                        1 <= frac_mag(op2@) <= cap(k2),
                ;
            }
            let result = if c == '+' {
                op1.add(&op2)
            } else if c == '-' {
                op1.sub(&op2)
            } else if c == '*' {
                op1.mul(&op2)
            } else {
                match op1.div(&op2) {
                    Some(v) => v,
                    None => {
                        proof {
                            assert(apply_op(c, op1@, op2@) is None);
                            assert(spec_run(expr@, nums, vs_old, i as nat) is None);
                        }
                        return None;
                    },
                }
            };
            stack.push(result);
            proof {
                let dd = ks.drop_last().drop_last();
                lemma_weight_push(dd, k1 + k2 + 1);
                assert(weight_sum(ks.drop_last()) == weight_sum(dd) + 2 * k1 + 1);
                assert(weight_sum(ks) == weight_sum(ks.drop_last()) + 2 * k2 + 1);
                ks = dd.push(k1 + k2 + 1);
                assert(apply_op(c, op1@, op2@) == Some(result@));
                assert(views(stack@) =~= vs_old.drop_last().drop_last().push(result@));
                assert forall|j: int|
                    0 <= j < stack@.len() implies frac_wf(#[trigger] stack@[j]@) && frac_mag(
                    stack@[j]@,
                ) <= cap(ks[j]) by {
                    if j < stack@.len() - 1 {
                        assert(stack@[j]@ == vs_old[j]);
                        assert(ks[j] == dd[j]);
                    }
                }
            }
        } else {
            proof {
                assert(spec_run(expr@, nums, vs_old, i as nat) is None);
            }
            return None;
        }
        i += 1;
    }
    proof {
        assert(spec_run(expr@, nums, views(stack@), i as nat) == Some(views(stack@)));
    }
    if stack.len() > 1 {
        return None;
    }
    let ghost vs_final = views(stack@);
    let result = match stack.pop() {
        Some(v) => v,
        None => {
            return None;
        },
    };
    proof {
        assert(vs_final.len() == 1 && vs_final[0] == result@);
        assert(weight_sum(ks) == weight_sum(ks.drop_last()) + 2 * ks.last() + 1);
        assert(ks.drop_last().len() == 0);
        assert(ks.last() <= 3);
        assert(frac_mag(result@) <= cap(3));
        assert(result@.n != i128::MIN);
    }
    result.evaluate_int()
}

/// The decimal digit character for `d` in `0 ..= 9`.
pub open spec fn decimal_digit(d: int) -> char {
    if d == 0 {
        '0'
    } else if d == 1 {
        '1'
    } else if d == 2 {
        '2'
    } else if d == 3 {
        '3'
    } else if d == 4 {
        '4'
    } else if d == 5 {
        '5'
    } else if d == 6 {
        '6'
    } else if d == 7 {
        '7'
    } else if d == 8 {
        '8'
    } else {
        '9'
    }
}

/// The decimal digits of a nonnegative number, most significant first.
pub open spec fn spec_digits(n: nat) -> Seq<char>
    decreases n,
{
    if n < 10 {
        seq![decimal_digit(n as int)]
    } else {
        spec_digits(n / 10) + seq![decimal_digit((n % 10) as int)]
    }
}

/// The decimal rendering of an integer: digits, with a leading `-` when
/// negative.
pub open spec fn spec_int_chars(v: int) -> Seq<char> {
    if v < 0 {
        seq!['-'] + spec_digits((-v) as nat)
    } else {
        spec_digits(v as nat)
    }
}

/// Relies on `i128`'s `Display` implementation (via `ToString`): the
/// decimal digits of the value, with a leading `-` when negative.
#[verifier::external_body]
fn int_to_string(v: i128) -> (r: String)
    ensures
        r@ == spec_int_chars(v as int),
{
    v.to_string()
}

/// Combine two rendered operands under one operator: sums and differences
/// are parenthesized, products and quotients are not.
pub open spec fn render_op(c: char, a: Seq<char>, b: Seq<char>) -> Seq<char> {
    if c == '+' || c == '-' {
        seq!['('] + a + seq![' ', c, ' '] + b + seq![')']
    } else {
        a + seq![' ', c, ' '] + b
    }
}

/// The stack machine of [`spec_run`], rebuilding text instead of values:
/// digit tokens push the decimal rendering of the named input, operator
/// tokens combine the two topmost fragments.
pub open spec fn spec_render(expr: Seq<char>, nums: Seq<int>, stack: Seq<Seq<char>>, i: nat) -> Option<
    Seq<Seq<char>>,
>
    decreases expr.len() - i,
{
    if i >= expr.len() {
        Some(stack)
    } else {
        let c = expr[i as int];
        if is_digit_char(c) {
            spec_render(expr, nums, stack.push(spec_int_chars(nums[digit_index(c)])), i + 1)
        } else if is_op_char(c) {
            if stack.len() < 2 {
                None
            } else {
                spec_render(
                    expr,
                    nums,
                    stack.drop_last().drop_last().push(
                        render_op(c, stack[stack.len() - 2], stack[stack.len() - 1]),
                    ),
                    i + 1,
                )
            }
        } else {
            None
        }
    }
}

/// The infix text a postfix candidate renders to, if the rebuild ends with
/// exactly one fragment.
pub open spec fn spec_infix(expr: Seq<char>, nums: Seq<int>) -> Option<Seq<char>> {
    match spec_render(expr, nums, Seq::empty(), 0) {
        Some(st) => if st.len() == 1 {
            Some(st[0])
        } else {
            None
        },
        None => None,
    }
}

/// The text fragments a stack of strings holds.
pub open spec fn str_views(s: Seq<String>) -> Seq<Seq<char>> {
    s.map_values(|t: String| t@)
}

/// Render a postfix candidate to infix text.  Mirrors [`spec_infix`]:
/// sums and differences are wrapped in parentheses, products and
/// quotients are left bare.
pub fn postfix_to_infix(expr: &str, numbers: &[i128; 4]) -> (r: Option<String>)
    ensures
        spec_infix(expr@, int_seq(numbers@)) is None ==> r is None,
        spec_infix(expr@, int_seq(numbers@)) matches Some(s) ==> r matches Some(t) && t@ == s,
{
    let ghost nums = int_seq(numbers@);
    let n = expr.unicode_len();
    let mut stack: Vec<String> = Vec::with_capacity(4);
    proof {
        assert(str_views(stack@) =~= Seq::<Seq<char>>::empty());
    }
    let mut i: usize = 0;
    while i < n
        invariant
            n == expr@.len(),
            nums == int_seq(numbers@),
            i <= n,
            spec_render(expr@, nums, Seq::<Seq<char>>::empty(), 0) == spec_render(
                expr@,
                nums,
                str_views(stack@),
                i as nat,
            ),
        decreases n - i,
    {
        let c = expr.get_char(i);
        let ghost vs_old = str_views(stack@);
        if c == '1' || c == '2' || c == '3' || c == '4' {
            let idx: usize = if c == '1' {
                0
            } else if c == '2' {
                1
            } else if c == '3' {
                2
            } else {
                3
            };
            stack.push(int_to_string(numbers[idx]));
            proof {
                assert(str_views(stack@) =~= vs_old.push(spec_int_chars(nums[digit_index(c)])));
            }
        } else if c == '+' || c == '-' || c == '*' || c == '/' {
            if stack.len() < 2 {
                proof {
                    assert(spec_render(expr@, nums, vs_old, i as nat) is None);
                }
                return None;
            }
            let op2 = match stack.pop() {
                Some(v) => v,
                None => {
                    return None;
                },
            };
            let op1 = match stack.pop() {
                Some(v) => v,
                None => {
                    return None;
                },
            };
            let mut t = String::new();
            if c == '+' || c == '-' {
                t.append("(");
                t.append(op1.as_str());
                if c == '+' {
                    t.append(" + ");
                } else {
                    t.append(" - ");
                }
                t.append(op2.as_str());
                t.append(")");
            } else {
                t.append(op1.as_str());
                if c == '*' {
                    t.append(" * ");
                } else {
                    t.append(" / ");
                }
                t.append(op2.as_str());
            }
            proof {
                reveal_strlit("(");
                reveal_strlit(")");
                reveal_strlit(" + ");
                reveal_strlit(" - ");
                reveal_strlit(" * ");
                reveal_strlit(" / ");
                assert(t@ =~= render_op(c, op1@, op2@));
            }
            stack.push(t);
            proof {
                assert(str_views(stack@) =~= vs_old.drop_last().drop_last().push(
                    render_op(c, vs_old[vs_old.len() - 2], vs_old[vs_old.len() - 1]),
                ));
            }
        } else {
            proof {
                assert(spec_render(expr@, nums, vs_old, i as nat) is None);
            }
            return None;
        }
        i += 1;
    }
    proof {
        assert(spec_render(expr@, nums, str_views(stack@), i as nat) == Some(str_views(stack@)));
    }
    if stack.len() > 1 {
        return None;
    }
    let ghost vs_final = str_views(stack@);
    match stack.pop() {
        Some(t) => {
            proof {
                assert(vs_final.len() == 1 && vs_final[0] == t@);
            }
            Some(t)
        },
        None => None,
    }
}

/// A shape: a template telling, slot by slot, whether the next postfix
/// token is an operand (`N`) or an operator (`O`); the final token of any
/// postfix expression is an operator.
pub open spec fn shape_ok(shape: Seq<char>) -> bool {
    &&& shape.len() >= 1
    &&& shape.last() == 'O'
    &&& forall|j: int| 0 <= j < shape.len() ==> #[trigger] shape[j] == 'N' || shape[j] == 'O'
}

/// `e` fills the slots of `shape` from `start` on: a digit not yet used
/// (neither in `excl` nor earlier in `e`) in every `N` slot, an operator
/// in every `O` slot.
pub open spec fn fits(e: Seq<char>, shape: Seq<char>, start: int, excl: Seq<char>) -> bool {
    &&& 0 <= start <= shape.len()
    &&& e.len() + start == shape.len()
    &&& forall|j: int|
        0 <= j < e.len() && shape[start + j] == 'N' ==> is_digit_char(#[trigger] e[j])
            && !excl.contains(e[j])
    &&& forall|j: int|
        0 <= j < e.len() && shape[start + j] != 'N' ==> is_op_char(#[trigger] e[j])
    &&& forall|j1: int, j2: int|
        #![trigger e[j1], e[j2]]
        0 <= j1 < j2 < e.len() && shape[start + j1] == 'N' && shape[start + j2] == 'N' ==> e[j1]
            != e[j2]
}

/// The digit tokens, in generation order.
pub open spec fn nth_digit(m: int) -> char {
    if m == 0 {
        '1'
    } else if m == 1 {
        '2'
    } else if m == 2 {
        '3'
    } else {
        '4'
    }
}

/// The operator tokens, in generation order.
pub open spec fn nth_op(m: int) -> char {
    if m == 0 {
        '+'
    } else if m == 1 {
        '-'
    } else if m == 2 {
        '*'
    } else {
        '/'
    }
}

/// Membership in a pushed sequence is membership or equality with the
/// pushed element.
proof fn lemma_push_contains<A>(s: Seq<A>, x: A, y: A)
    ensures
        s.push(x).contains(y) <==> (s.contains(y) || y == x),
{
    if s.push(x).contains(y) {
        let m = choose|m: int| 0 <= m < s.push(x).len() && s.push(x)[m] == y;
        if m < s.len() {
            assert(s[m] == y);
        }
    }
    if s.contains(y) {
        let m = choose|m: int| 0 <= m < s.len() && s[m] == y;
        assert(s.push(x)[m] == y);
    }
    if y == x {
        assert(s.push(x)[s.len() as int] == y);
    }
}

/// Filling an `N` slot: `d + t` fills from `start` exactly when `t` fills
/// from `start + 1` with `d` marked used.
proof fn lemma_fits_step_digit(shape: Seq<char>, start: int, excl: Seq<char>, d: char, t: Seq<
    char,
>, e: Seq<char>)
    requires
        0 <= start < shape.len() - 1,
        shape[start] == 'N',
        is_digit_char(d),
        !excl.contains(d),
        e == seq![d] + t,
    ensures
        fits(e, shape, start, excl) <==> fits(t, shape, start + 1, excl.push(d)),
{
    assert(e.len() == t.len() + 1);
    assert(e[0] == d);
    assert forall|j: int| 0 <= j < t.len() implies e[j + 1] == #[trigger] t[j] by {}
    assert forall|x: char| #[trigger]
        excl.push(d).contains(x) <==> excl.contains(x) || x == d by {
        lemma_push_contains(excl, d, x);
    }
    if fits(e, shape, start, excl) {
        assert forall|j: int|
            0 <= j < t.len() && shape[start + 1 + j] == 'N' implies is_digit_char(
            #[trigger] t[j],
        ) && !excl.push(d).contains(t[j]) by {
            assert(t[j] == e[j + 1]);
            assert(is_digit_char(e[j + 1]) && !excl.contains(e[j + 1]));
            assert(e[j + 1] != e[0]);
        }
        assert forall|j: int|
            0 <= j < t.len() && shape[start + 1 + j] != 'N' implies is_op_char(
            #[trigger] t[j],
        ) by {
            assert(t[j] == e[j + 1]);
        }
        assert forall|j1: int, j2: int|
            #![trigger t[j1], t[j2]]
            0 <= j1 < j2 < t.len() && shape[start + 1 + j1] == 'N' && shape[start + 1 + j2]
                == 'N' implies t[j1] != t[j2] by {
            assert(t[j1] == e[j1 + 1] && t[j2] == e[j2 + 1]);
        }
    }
    if fits(t, shape, start + 1, excl.push(d)) {
        assert forall|j: int|
            0 <= j < e.len() && shape[start + j] == 'N' implies is_digit_char(#[trigger] e[j])
            && !excl.contains(e[j]) by {
            if j > 0 {
                assert(e[j] == t[j - 1]);
            }
        }
        assert forall|j: int|
            0 <= j < e.len() && shape[start + j] != 'N' implies is_op_char(#[trigger] e[j]) by {
            assert(j > 0);
            assert(e[j] == t[j - 1]);
        }
        assert forall|j1: int, j2: int|
            #![trigger e[j1], e[j2]]
            0 <= j1 < j2 < e.len() && shape[start + j1] == 'N' && shape[start + j2]
                == 'N' implies e[j1] != e[j2] by {
            if j1 == 0 {
                assert(e[j2] == t[j2 - 1]);
                assert(!excl.push(d).contains(t[j2 - 1]));
            } else {
                assert(e[j1] == t[j1 - 1] && e[j2] == t[j2 - 1]);
            }
        }
    }
}

/// Filling an `O` slot: `c + t` fills from `start` exactly when `t` fills
/// from `start + 1`; the used-digit set is untouched.
proof fn lemma_fits_step_op(shape: Seq<char>, start: int, excl: Seq<char>, c: char, t: Seq<char>, e: Seq<
    char,
>)
    requires
        0 <= start < shape.len() - 1,
        shape[start] == 'O',
        is_op_char(c),
        e == seq![c] + t,
    ensures
        fits(e, shape, start, excl) <==> fits(t, shape, start + 1, excl),
{
    assert(e.len() == t.len() + 1);
    assert(e[0] == c);
    assert forall|j: int| 0 <= j < t.len() implies e[j + 1] == #[trigger] t[j] by {}
    if fits(e, shape, start, excl) {
        assert forall|j: int|
            0 <= j < t.len() && shape[start + 1 + j] == 'N' implies is_digit_char(
            #[trigger] t[j],
        ) && !excl.contains(t[j]) by {
            assert(t[j] == e[j + 1]);
        }
        assert forall|j: int|
            0 <= j < t.len() && shape[start + 1 + j] != 'N' implies is_op_char(
            #[trigger] t[j],
        ) by {
            assert(t[j] == e[j + 1]);
        }
        assert forall|j1: int, j2: int|
            #![trigger t[j1], t[j2]]
            0 <= j1 < j2 < t.len() && shape[start + 1 + j1] == 'N' && shape[start + 1 + j2]
                == 'N' implies t[j1] != t[j2] by {
            assert(t[j1] == e[j1 + 1] && t[j2] == e[j2 + 1]);
        }
    }
    if fits(t, shape, start + 1, excl) {
        assert forall|j: int|
            0 <= j < e.len() && shape[start + j] == 'N' implies is_digit_char(#[trigger] e[j])
            && !excl.contains(e[j]) by {
            assert(j > 0);
            assert(e[j] == t[j - 1]);
        }
        assert forall|j: int|
            0 <= j < e.len() && shape[start + j] != 'N' implies is_op_char(#[trigger] e[j]) by {
            if j > 0 {
                assert(e[j] == t[j - 1]);
            }
        }
        assert forall|j1: int, j2: int|
            #![trigger e[j1], e[j2]]
            0 <= j1 < j2 < e.len() && shape[start + j1] == 'N' && shape[start + j2]
                == 'N' implies e[j1] != e[j2] by {
            assert(j1 > 0);
            assert(e[j1] == t[j1 - 1] && e[j2] == t[j2 - 1]);
        }
    }
}

/// The last slot of a shape takes exactly the single operator tokens.
proof fn lemma_fits_last(shape: Seq<char>, start: int, excl: Seq<char>, e: Seq<char>)
    requires
        shape.len() >= 1,
        start == shape.len() - 1,
        shape[start] == 'O',
    ensures
        fits(e, shape, start, excl) <==> (e.len() == 1 && is_op_char(e[0])),
{
    if e.len() == 1 && is_op_char(e[0]) {
        assert(fits(e, shape, start, excl));
    }
}

/// True exactly when `c` occurs in `excluded`.
fn char_in(excluded: &Vec<char>, c: char) -> (r: bool)
    ensures
        r == excluded@.contains(c),
{
    let mut j: usize = 0;
    while j < excluded.len()
        invariant
            j <= excluded@.len(),
            forall|m: int| 0 <= m < j ==> excluded@[m] != c,
        decreases excluded@.len() - j,
    {
        if excluded[j] == c {
            return true;
        }
        j += 1;
    }
    false
}

/// The digit token for generation step `k`.
fn nth_digit_str(k: usize) -> (s: &'static str)
    requires
        k < 4,
    ensures
        s@ =~= seq![nth_digit(k as int)],
{
    proof {
        reveal_strlit("1");
        reveal_strlit("2");
        reveal_strlit("3");
        reveal_strlit("4");
    }
    if k == 0 {
        "1"
    } else if k == 1 {
        "2"
    } else if k == 2 {
        "3"
    } else {
        "4"
    }
}

/// The operator token for generation step `k`.
fn nth_op_str(k: usize) -> (s: &'static str)
    requires
        k < 4,
    ensures
        s@ =~= seq![nth_op(k as int)],
{
    proof {
        reveal_strlit("+");
        reveal_strlit("-");
        reveal_strlit("*");
        reveal_strlit("/");
    }
    if k == 0 {
        "+"
    } else if k == 1 {
        "-"
    } else if k == 2 {
        "*"
    } else {
        "/"
    }
}

/// All fillings of `shape` from `starting_index` on that avoid the digits
/// in `excluded`: a vector holding exactly the strings [`fits`] admits.
/// The exclusion set is pushed and popped symmetrically and is restored on
/// every return.
pub fn gen_exprs_recursive(shape: &str, excluded: &mut Vec<char>, starting_index: usize) -> (r:
    Option<Vec<String>>)
    requires
        shape_ok(shape@),
        starting_index < shape@.len(),
    ensures
        final(excluded)@ == old(excluded)@,
        match r {
            Some(v) => forall|e: Seq<char>| #[trigger]
                str_views(v@).contains(e) <==> fits(
                    e,
                    shape@,
                    starting_index as int,
                    old(excluded)@,
                ),
            None => false,
        },
    decreases shape@.len() - starting_index,
{
    let n = shape.unicode_len();
    let ghost start = starting_index as int;
    let ghost excl0 = excluded@;
    if starting_index == n - 1 {
        let first_char = shape.get_char(starting_index);
        if first_char == 'O' {
            let mut v: Vec<String> = Vec::new();
            v.push(String::from_str("+"));
            v.push(String::from_str("-"));
            v.push(String::from_str("*"));
            v.push(String::from_str("/"));
            proof {
                reveal_strlit("+");
                reveal_strlit("-");
                reveal_strlit("*");
                reveal_strlit("/");
                assert(str_views(v@).len() == 4);
                assert(str_views(v@)[0] =~= seq!['+']);
                assert(str_views(v@)[1] =~= seq!['-']);
                assert(str_views(v@)[2] =~= seq!['*']);
                assert(str_views(v@)[3] =~= seq!['/']);
                assert forall|e: Seq<char>| #[trigger]
                    str_views(v@).contains(e) <==> fits(e, shape@, start, excl0) by {
                    lemma_fits_last(shape@, start, excl0, e);
                    if str_views(v@).contains(e) {
                        let m = choose|m: int|
                            0 <= m < str_views(v@).len() && str_views(v@)[m] == e;
                        assert(e.len() == 1 && is_op_char(e[0]));
                    }
                    if e.len() == 1 && is_op_char(e[0]) {
                        if e[0] == '+' {
                            assert(e =~= str_views(v@)[0]);
                        } else if e[0] == '-' {
                            assert(e =~= str_views(v@)[1]);
                        } else if e[0] == '*' {
                            assert(e =~= str_views(v@)[2]);
                        } else {
                            assert(e =~= str_views(v@)[3]);
                        }
                    }
                }
            }
            Some(v)
        } else {
            proof {
                assert(shape@[start] == 'O');
                assert(false);
            }
            None
        }
    } else {
        let next_char = shape.get_char(starting_index);
        if next_char == 'N' {
            let mut result: Vec<String> = Vec::new();
            proof {
                assert(str_views(result@) =~= Seq::<Seq<char>>::empty());
            }
            let mut k: usize = 0;
            while k < 4
                invariant
                    shape_ok(shape@),
                    start == starting_index as int,
                    starting_index + 1 < shape@.len(),
                    shape@[start] == 'N',
                    starting_index < usize::MAX,
                    k <= 4,
                    excluded@ == excl0,
                    forall|e: Seq<char>| #[trigger]
                        str_views(result@).contains(e) <==> (fits(e, shape@, start, excl0)
                            && exists|m: int| 0 <= m < k && e[0] == #[trigger] nth_digit(m)),
                decreases 4 - k,
            {
                let ds = nth_digit_str(k);
                let dc = ds.get_char(0);
                let ghost d = nth_digit(k as int);
                proof {
                    assert(dc == d);
                }
                if !char_in(excluded, dc) {
                    excluded.push(dc);
                    proof {
                        assert(excluded@ == excl0.push(d));
                    }
                    let tails = match gen_exprs_recursive(shape, excluded, starting_index + 1) {
                        Some(ts) => ts,
                        None => {
                            proof {
                                assert(false);
                            }
                            return None;
                        },
                    };
                    let ghost old_set = str_views(result@);
                    let mut ti: usize = 0;
                    while ti < tails.len()
                        invariant
                            ti <= tails@.len(),
                            shape_ok(shape@),
                            start == starting_index as int,
                            starting_index + 1 < shape@.len(),
                            shape@[start] == 'N',
                            k < 4,
                            d == nth_digit(k as int),
                            ds@ =~= seq![d],
                            is_digit_char(d),
                            !excl0.contains(d),
                            excluded@ == excl0.push(d),
                            forall|t: Seq<char>| #[trigger]
                                str_views(tails@).contains(t) <==> fits(
                                    t,
                                    shape@,
                                    start + 1,
                                    excl0.push(d),
                                ),
                            forall|e: Seq<char>| #[trigger]
                                old_set.contains(e) <==> (fits(e, shape@, start, excl0)
                                    && exists|m: int|
                                    0 <= m < k && e[0] == #[trigger] nth_digit(m)),
                            forall|e: Seq<char>| #[trigger]
                                str_views(result@).contains(e) <==> (old_set.contains(e)
                                    || exists|m: int|
                                    0 <= m < ti && e == seq![d] + #[trigger] str_views(
                                        tails@,
                                    )[m]),
                        decreases tails@.len() - ti,
                    {
                        let mut s = String::from_str(ds);
                        s.append(tails[ti].as_str());
                        proof {
                            assert(s@ =~= seq![d] + str_views(tails@)[ti as int]);
                        }
                        let ghost before = str_views(result@);
                        result.push(s);
                        proof {
                            assert(str_views(result@) =~= before.push(
                                seq![d] + str_views(tails@)[ti as int],
                            ));
                            assert forall|e: Seq<char>| #[trigger]
                                str_views(result@).contains(e) <==> (old_set.contains(e)
                                    || exists|m: int|
                                    0 <= m < ti + 1 && e == seq![d] + #[trigger] str_views(
                                        tails@,
                                    )[m]) by {
                                lemma_push_contains(
                                    before,
                                    seq![d] + str_views(tails@)[ti as int],
                                    e,
                                );
                            }
                        }
                        ti += 1;
                    }
                    excluded.pop();
                    proof {
                        assert(excluded@ =~= excl0);
                        assert forall|e: Seq<char>| #[trigger]
                            str_views(result@).contains(e) <==> (fits(e, shape@, start, excl0)
                                && exists|m: int|
                                0 <= m < k + 1 && e[0] == #[trigger] nth_digit(m)) by {
                            if str_views(result@).contains(e) {
                                if !old_set.contains(e) {
                                    let m = choose|m: int|
                                        0 <= m < tails@.len() && e == seq![d] + str_views(
                                            tails@,
                                        )[m];
                                    let t = str_views(tails@)[m];
                                    assert(str_views(tails@).contains(t));
                                    lemma_fits_step_digit(shape@, start, excl0, d, t, e);
                                    assert(e[0] == d);
                                    assert(e[0] == nth_digit(k as int));
                                }
                            }
                            if fits(e, shape@, start, excl0) && exists|m: int|
                                0 <= m < k + 1 && e[0] == #[trigger] nth_digit(m) {
                                let m = choose|m: int|
                                    0 <= m < k + 1 && e[0] == #[trigger] nth_digit(m);
                                if m == k {
                                    let t = e.subrange(1, e.len() as int);
                                    assert(e =~= seq![d] + t);
                                    lemma_fits_step_digit(shape@, start, excl0, d, t, e);
                                    assert(str_views(tails@).contains(t));
                                    let mi = choose|mi: int|
                                        0 <= mi < str_views(tails@).len() && str_views(
                                            tails@,
                                        )[mi] == t;
                                    assert(e == seq![d] + str_views(tails@)[mi]);
                                }
                            }
                        }
                    }
                } else {
                    proof {
                        assert forall|e: Seq<char>| #[trigger]
                            str_views(result@).contains(e) <==> (fits(e, shape@, start, excl0)
                                && exists|m: int|
                                0 <= m < k + 1 && e[0] == #[trigger] nth_digit(m)) by {
                            if fits(e, shape@, start, excl0) && e.len() > 0 && e[0] == nth_digit(
                                k as int,
                            ) {
                                assert(is_digit_char(e[0]) && !excl0.contains(e[0]));
                                assert(false);
                            }
                        }
                    }
                }
                k += 1;
            }
            proof {
                assert forall|e: Seq<char>| #[trigger]
                    str_views(result@).contains(e) <==> fits(e, shape@, start, excl0) by {
                    if fits(e, shape@, start, excl0) {
                        assert(e.len() > 0);
                        assert(is_digit_char(e[0]));
                        assert(e[0] == nth_digit(0) || e[0] == nth_digit(1) || e[0] == nth_digit(
                            2,
                        ) || e[0] == nth_digit(3));
                    }
                }
            }
            Some(result)
        } else {
            proof {
                assert(shape@[start] == 'O');
            }
            let tails = match gen_exprs_recursive(shape, excluded, starting_index + 1) {
                Some(ts) => ts,
                None => {
                    proof {
                        assert(false);
                    }
                    return None;
                },
            };
            let mut result: Vec<String> = Vec::new();
            proof {
                assert(str_views(result@) =~= Seq::<Seq<char>>::empty());
            }
            let mut k: usize = 0;
            while k < 4
                invariant
                    shape_ok(shape@),
                    start == starting_index as int,
                    starting_index + 1 < shape@.len(),
                    shape@[start] == 'O',
                    k <= 4,
                    excluded@ == excl0,
                    forall|t: Seq<char>| #[trigger]
                        str_views(tails@).contains(t) <==> fits(t, shape@, start + 1, excl0),
                    forall|e: Seq<char>| #[trigger]
                        str_views(result@).contains(e) <==> (fits(e, shape@, start, excl0)
                            && exists|m: int| 0 <= m < k && e[0] == #[trigger] nth_op(m)),
                decreases 4 - k,
            {
                let os = nth_op_str(k);
                let ghost c = nth_op(k as int);
                let ghost set_k = str_views(result@);
                let mut ti: usize = 0;
                while ti < tails.len()
                    invariant
                        ti <= tails@.len(),
                        shape_ok(shape@),
                        start == starting_index as int,
                        starting_index + 1 < shape@.len(),
                        shape@[start] == 'O',
                        k < 4,
                        c == nth_op(k as int),
                        os@ =~= seq![c],
                        excluded@ == excl0,
                        forall|t: Seq<char>| #[trigger]
                            str_views(tails@).contains(t) <==> fits(t, shape@, start + 1, excl0),
                        forall|e: Seq<char>| #[trigger]
                            set_k.contains(e) <==> (fits(e, shape@, start, excl0) && exists|m: int|
                                0 <= m < k && e[0] == #[trigger] nth_op(m)),
                        forall|e: Seq<char>| #[trigger]
                            str_views(result@).contains(e) <==> (set_k.contains(e) || exists|
                            m: int,
                            |
                                0 <= m < ti && e == seq![c] + #[trigger] str_views(tails@)[m]),
                    decreases tails@.len() - ti,
                {
                    let mut s = String::from_str(os);
                    s.append(tails[ti].as_str());
                    proof {
                        assert(s@ =~= seq![c] + str_views(tails@)[ti as int]);
                    }
                    let ghost before = str_views(result@);
                    result.push(s);
                    proof {
                        assert(str_views(result@) =~= before.push(
                            seq![c] + str_views(tails@)[ti as int],
                        ));
                        assert forall|e: Seq<char>| #[trigger]
                            str_views(result@).contains(e) <==> (set_k.contains(e) || exists|
                            m: int,
                            |
                                0 <= m < ti + 1 && e == seq![c] + #[trigger] str_views(
                                    tails@,
                                )[m]) by {
                            lemma_push_contains(before, seq![c] + str_views(tails@)[ti as int], e);
                        }
                    }
                    ti += 1;
                }
                proof {
                    assert forall|e: Seq<char>| #[trigger]
                        str_views(result@).contains(e) <==> (fits(e, shape@, start, excl0)
                            && exists|m: int|
                            0 <= m < k + 1 && e[0] == #[trigger] nth_op(m)) by {
                        if str_views(result@).contains(e) {
                            if !set_k.contains(e) {
                                let m = choose|m: int|
                                    0 <= m < tails@.len() && e == seq![c] + str_views(tails@)[m];
                                let t = str_views(tails@)[m];
                                assert(str_views(tails@).contains(t));
                                lemma_fits_step_op(shape@, start, excl0, c, t, e);
                                assert(e[0] == nth_op(k as int));
                            }
                        }
                        if fits(e, shape@, start, excl0) && exists|m: int|
                            0 <= m < k + 1 && e[0] == #[trigger] nth_op(m) {
                            let m = choose|m: int| 0 <= m < k + 1 && e[0] == #[trigger] nth_op(m);
                            if m == k {
                                let t = e.subrange(1, e.len() as int);
                                assert(e =~= seq![c] + t);
                                lemma_fits_step_op(shape@, start, excl0, c, t, e);
                                assert(str_views(tails@).contains(t));
                                let mi = choose|mi: int|
                                    0 <= mi < str_views(tails@).len() && str_views(tails@)[mi]
                                        == t;
                                assert(e == seq![c] + str_views(tails@)[mi]);
                            }
                        }
                    }
                }
                k += 1;
            }
            proof {
                assert forall|e: Seq<char>| #[trigger]
                    str_views(result@).contains(e) <==> fits(e, shape@, start, excl0) by {
                    if fits(e, shape@, start, excl0) {
                        assert(e.len() > 0);
                        assert(is_op_char(e[0]));
                        assert(e[0] == nth_op(0) || e[0] == nth_op(1) || e[0] == nth_op(2) || e[0]
                            == nth_op(3));
                    }
                }
            }
            Some(result)
        }
    }
}

/// All fillings of a whole shape with fresh digits: exactly the candidate
/// strings [`fits`] admits over an empty exclusion set.
pub fn gen_exprs(shape: &str) -> (r: Option<Vec<String>>)
    requires
        shape_ok(shape@),
    ensures
        match r {
            Some(v) => forall|e: Seq<char>| #[trigger]
                str_views(v@).contains(e) <==> fits(e, shape@, 0, Seq::<char>::empty()),
            None => false,
        },
{
    let mut excluded: Vec<char> = Vec::with_capacity(4);
    proof {
        assert(excluded@ =~= Seq::<char>::empty());
    }
    gen_exprs_recursive(shape, &mut excluded, 0)
}

/// Length of the stack an optional machine state holds; `-1` for failure.
pub open spec fn opt_stack_len<A>(o: Option<Seq<A>>) -> int {
    match o {
        Some(s) => s.len() as int,
        None => -1,
    }
}

/// A successful value run forces the text rebuild to succeed alongside
/// it, with stacks of equal length throughout: rendering can only fail
/// where evaluation already failed.
proof fn lemma_render_parallel(
    expr: Seq<char>,
    nums: Seq<int>,
    sv: Seq<Frac>,
    ss: Seq<Seq<char>>,
    i: nat,
)
    requires
        sv.len() == ss.len(),
        spec_run(expr, nums, sv, i) is Some,
    ensures
        spec_render(expr, nums, ss, i) is Some,
        opt_stack_len(spec_render(expr, nums, ss, i)) == opt_stack_len(
            spec_run(expr, nums, sv, i),
        ),
    decreases expr.len() - i,
{
    if i >= expr.len() {
    } else {
        let c = expr[i as int];
        if is_digit_char(c) {
            lemma_render_parallel(
                expr,
                nums,
                sv.push(int_frac(nums[digit_index(c)])),
                ss.push(spec_int_chars(nums[digit_index(c)])),
                i + 1,
            );
        } else {
            match apply_op(c, sv[sv.len() - 2], sv[sv.len() - 1]) {
                Some(f) => {
                    lemma_render_parallel(
                        expr,
                        nums,
                        sv.drop_last().drop_last().push(f),
                        ss.drop_last().drop_last().push(
                            render_op(c, ss[ss.len() - 2], ss[ss.len() - 1]),
                        ),
                        i + 1,
                    );
                },
                None => {},
            }
        }
    }
}

/// Rendering never produces empty text: a numeral has at least one
/// digit, and combining fragments only adds characters.
proof fn lemma_render_nonempty(expr: Seq<char>, nums: Seq<int>, ss: Seq<Seq<char>>, i: nat)
    requires
        forall|j: int| 0 <= j < ss.len() ==> #[trigger] ss[j].len() > 0,
        spec_render(expr, nums, ss, i) is Some,
    ensures
        forall|j: int|
            0 <= j < opt_stack(spec_render(expr, nums, ss, i)).len() ==> #[trigger] opt_stack(
                spec_render(expr, nums, ss, i),
            )[j].len() > 0,
    decreases expr.len() - i,
{
    if i >= expr.len() {
    } else {
        let c = expr[i as int];
        if is_digit_char(c) {
            let ss2 = ss.push(spec_int_chars(nums[digit_index(c)]));
            assert(spec_int_chars(nums[digit_index(c)]).len() > 0);
            assert forall|j: int| 0 <= j < ss2.len() implies #[trigger] ss2[j].len() > 0 by {
                if j < ss.len() {
                    assert(ss2[j] == ss[j]);
                }
            }
            lemma_render_nonempty(expr, nums, ss2, i + 1);
        } else {
            let combined = render_op(c, ss[ss.len() - 2], ss[ss.len() - 1]);
            let ss2 = ss.drop_last().drop_last().push(combined);
            assert forall|j: int| 0 <= j < ss2.len() implies #[trigger] ss2[j].len() > 0 by {
                if j < ss.len() - 2 {
                    assert(ss2[j] == ss[j]);
                }
            }
            lemma_render_nonempty(expr, nums, ss2, i + 1);
        }
    }
}

/// The five postfix shapes over four operands, in search order.
pub open spec fn spec_shapes() -> Seq<Seq<char>> {
    seq!["NNNNOOO"@, "NNNOONO"@, "NNNONOO"@, "NNONONO"@, "NNONNOO"@]
}

/// A candidate: a filling of one of the five shapes, four distinct digit
/// tokens in the operand slots and operators in the rest.
pub open spec fn is_candidate(e: Seq<char>) -> bool {
    exists|si: int|
        0 <= si < 5 && #[trigger] fits(e, spec_shapes()[si], 0, Seq::<char>::empty())
}

/// The shape searched at step `k`.
fn nth_shape(k: usize) -> (s: &'static str)
    requires
        k < 5,
    ensures
        s@ == spec_shapes()[k as int],
        shape_ok(s@),
        s@.len() == 7,
{
    proof {
        reveal_strlit("NNNNOOO");
        reveal_strlit("NNNOONO");
        reveal_strlit("NNNONOO");
        reveal_strlit("NNONONO");
        reveal_strlit("NNONNOO");
    }
    if k == 0 {
        proof {
            assert(shape_ok("NNNNOOO"@));
        }
        "NNNNOOO"
    } else if k == 1 {
        proof {
            assert(shape_ok("NNNOONO"@));
        }
        "NNNOONO"
    } else if k == 2 {
        proof {
            assert(shape_ok("NNNONOO"@));
        }
        "NNNONOO"
    } else if k == 3 {
        proof {
            assert(shape_ok("NNONONO"@));
        }
        "NNONONO"
    } else {
        proof {
            assert(shape_ok("NNONNOO"@));
        }
        "NNONNOO"
    }
}

/// Search the whole candidate space for an expression totalling exactly
/// [`TARGET`]: `Some` holds infix text rendered from a candidate that
/// evaluates to the target, and `None` is returned only when no candidate
/// over the five shapes reaches it.
pub fn try_solve(numbers: &[i128; 4]) -> (r: Option<String>)
    requires
        forall|j: int| 0 <= j < 4 ==> -NUM_LIMIT <= #[trigger] numbers[j] <= NUM_LIMIT,
    ensures
        r matches Some(s) ==> exists|e: Seq<char>|
            is_candidate(e) && #[trigger] spec_eval(e, int_seq(numbers@)) == Some(TARGET as int)
                && spec_infix(e, int_seq(numbers@)) == Some(s@),
        r matches Some(s) ==> s@.len() > 0,
        r is None ==> forall|e: Seq<char>|
            is_candidate(e) ==> #[trigger] spec_eval(e, int_seq(numbers@)) != Some(TARGET as int),
{
    let ghost nums = int_seq(numbers@);
    let mut si: usize = 0;
    while si < 5
        invariant
            nums == int_seq(numbers@),
            si <= 5,
            forall|j: int| 0 <= j < 4 ==> -NUM_LIMIT <= #[trigger] numbers[j] <= NUM_LIMIT,
            forall|e: Seq<char>, sj: int|
                0 <= sj < si && #[trigger] fits(e, spec_shapes()[sj], 0, Seq::<char>::empty())
                    ==> spec_eval(e, nums) != Some(TARGET as int),
        decreases 5 - si,
    {
        let shape = nth_shape(si);
        let exprs = match gen_exprs(shape) {
            Some(v) => v,
            None => {
                proof {
                    assert(false);
                }
                return None;
            },
        };
        let mut ei: usize = 0;
        while ei < exprs.len()
            invariant
                nums == int_seq(numbers@),
                si < 5,
                ei <= exprs@.len(),
                forall|j: int| 0 <= j < 4 ==> -NUM_LIMIT <= #[trigger] numbers[j] <= NUM_LIMIT,
                shape@ == spec_shapes()[si as int],
                shape@.len() == 7,
                forall|t: Seq<char>| #[trigger]
                    str_views(exprs@).contains(t) <==> fits(t, shape@, 0, Seq::<char>::empty()),
                forall|m: int|
                    0 <= m < ei ==> spec_eval(#[trigger] str_views(exprs@)[m], nums) != Some(
                        TARGET as int,
                    ),
            decreases exprs@.len() - ei,
        {
            let expr = &exprs[ei];
            proof {
                assert(str_views(exprs@)[ei as int] == expr@);
                assert(str_views(exprs@).contains(expr@));
                assert(fits(expr@, shape@, 0, Seq::<char>::empty()));
                assert(expr@.len() == 7);
            }
            let found = match evaluate_expression(expr.as_str(), numbers) {
                Some(v) => v == TARGET,
                None => false,
            };
            if found {
                proof {
                    assert(spec_eval(expr@, nums) == Some(TARGET as int));
                    match spec_run(expr@, nums, Seq::<Frac>::empty(), 0) {
                        Some(st) => {
                            lemma_render_parallel(
                                expr@,
                                nums,
                                Seq::<Frac>::empty(),
                                Seq::<Seq<char>>::empty(),
                                0,
                            );
                        },
                        None => {
                            assert(false);
                        },
                    }
                    assert(spec_infix(expr@, nums) is Some);
                    assert(is_candidate(expr@));
                }
                let out = postfix_to_infix(expr.as_str(), numbers);
                proof {
                    assert(out matches Some(t) && spec_infix(expr@, nums) == Some(t@));
                    lemma_render_nonempty(expr@, nums, Seq::<Seq<char>>::empty(), 0);
                    let rst = opt_stack(spec_render(expr@, nums, Seq::<Seq<char>>::empty(), 0));
                    assert(spec_infix(expr@, nums) == Some(rst[0]));
                    assert(rst[0].len() > 0);
                }
                return out;
            }
            proof {
                assert(spec_eval(str_views(exprs@)[ei as int], nums) != Some(TARGET as int));
            }
            ei += 1;
        }
        proof {
            assert forall|e: Seq<char>| #[trigger]
                fits(e, spec_shapes()[si as int], 0, Seq::<char>::empty()) implies spec_eval(
                e,
                nums,
            ) != Some(TARGET as int) by {
                assert(str_views(exprs@).contains(e));
                let m = choose|m: int|
                    0 <= m < str_views(exprs@).len() && str_views(exprs@)[m] == e;
                assert(spec_eval(str_views(exprs@)[m], nums) != Some(TARGET as int));
            }
        }
        si += 1;
    }
    proof {
        assert forall|e: Seq<char>| is_candidate(e) implies spec_eval(e, nums) != Some(
            TARGET as int,
        ) by {
            let sj = choose|sj: int|
                0 <= sj < 5 && #[trigger] fits(e, spec_shapes()[sj], 0, Seq::<char>::empty());
        }
    }
    None
}

/// A fully specified expression tree: leaves name input positions, nodes
/// carry an operator.  The mathematical reading of the infix text the
/// renderer emits.
pub enum Expr {
    Leaf { idx: int },
    Node { op: char, left: Box<Expr>, right: Box<Expr> },
}

/// The exact rational value of a tree, failing on an out-of-range leaf,
/// an unknown operator, or a division by a zero value.
pub open spec fn tree_eval(t: Expr, nums: Seq<int>) -> Option<Frac>
    decreases t,
{
    match t {
        Expr::Leaf { idx } => if 0 <= idx < 4 {
            Some(int_frac(nums[idx]))
        } else {
            None
        },
        Expr::Node { op, left, right } => {
            if !is_op_char(op) {
                None
            } else {
                match (tree_eval(*left, nums), tree_eval(*right, nums)) {
                    (Some(a), Some(b)) => apply_op(op, a, b),
                    _ => None,
                }
            }
        },
    }
}

/// The infix text of a tree, under the renderer's parenthesization rule.
pub open spec fn tree_render(t: Expr, nums: Seq<int>) -> Seq<char>
    decreases t,
{
    match t {
        Expr::Leaf { idx } => spec_int_chars(nums[idx]),
        Expr::Node { op, left, right } => render_op(
            op,
            tree_render(*left, nums),
            tree_render(*right, nums),
        ),
    }
}

/// The input positions a tree's leaves name, left to right.
pub open spec fn tree_leaves(t: Expr) -> Seq<int>
    decreases t,
{
    match t {
        Expr::Leaf { idx } => seq![idx],
        Expr::Node { op, left, right } => tree_leaves(*left) + tree_leaves(*right),
    }
}

/// All leaves of a stack of trees, stack order.
spec fn stack_leaves(ts: Seq<Expr>) -> Seq<int>
    decreases ts.len(),
{
    if ts.len() == 0 {
        Seq::empty()
    } else {
        stack_leaves(ts.drop_last()) + tree_leaves(ts.last())
    }
}

/// The input positions named by the digit tokens among the first `i`
/// tokens of a candidate, in token order.
spec fn digit_idxs(e: Seq<char>, i: nat) -> Seq<int>
    decreases i,
{
    if i == 0 || i > e.len() {
        Seq::empty()
    } else if is_digit_char(e[i - 1]) {
        digit_idxs(e, (i - 1) as nat).push(digit_index(e[i - 1]))
    } else {
        digit_idxs(e, (i - 1) as nat)
    }
}

/// Count of operand slots among the first `i` slots of a shape.
spec fn n_slots(shape: Seq<char>, i: nat) -> int
    decreases i,
{
    if i == 0 || i > shape.len() {
        0
    } else if shape[i - 1] == 'N' {
        n_slots(shape, (i - 1) as nat) + 1
    } else {
        n_slots(shape, (i - 1) as nat)
    }
}

/// The machine state a successful optional run holds.
pub open spec fn opt_stack<A>(o: Option<Seq<A>>) -> Seq<A> {
    match o {
        Some(s) => s,
        None => Seq::empty(),
    }
}

/// Each tree on the stack evaluates to the matching value and renders to
/// the matching text.
spec fn tree_stack_matches(ts: Seq<Expr>, vs: Seq<Frac>, ss: Seq<Seq<char>>, nums: Seq<
    int,
>) -> bool {
    &&& ts.len() == vs.len()
    &&& ts.len() == ss.len()
    &&& forall|j: int|
        0 <= j < ts.len() ==> tree_eval(#[trigger] ts[j], nums) == Some(vs[j]) && tree_render(
            ts[j],
            nums,
        ) == ss[j]
}

/// The value run and the text run of one candidate build, step for step,
/// the same expression trees: whatever both runs produce is the
/// evaluation and the rendering of a common tree stack whose leaves are
/// the candidate's digit tokens in order.
proof fn lemma_run_trees(
    expr: Seq<char>,
    nums: Seq<int>,
    i: nat,
    vst: Seq<Frac>,
    sst: Seq<Seq<char>>,
    tst: Seq<Expr>,
)
    requires
        nums.len() == 4,
        i <= expr.len(),
        tree_stack_matches(tst, vst, sst, nums),
        stack_leaves(tst) == digit_idxs(expr, i),
        spec_run(expr, nums, vst, i) is Some,
        spec_render(expr, nums, sst, i) is Some,
    ensures
        exists|tfin: Seq<Expr>|
            #[trigger] tree_stack_matches(
                tfin,
                opt_stack(spec_run(expr, nums, vst, i)),
                opt_stack(spec_render(expr, nums, sst, i)),
                nums,
            ) && stack_leaves(tfin) == digit_idxs(expr, expr.len()),
    decreases expr.len() - i,
{
    if i >= expr.len() {
        assert(tree_stack_matches(
            tst,
            opt_stack(spec_run(expr, nums, vst, i)),
            opt_stack(spec_render(expr, nums, sst, i)),
            nums,
        ));
    } else {
        let c = expr[i as int];
        if is_digit_char(c) {
            let idx = digit_index(c);
            let leaf = Expr::Leaf { idx };
            let vst2 = vst.push(int_frac(nums[idx]));
            let sst2 = sst.push(spec_int_chars(nums[idx]));
            let tst2 = tst.push(leaf);
            assert(tree_stack_matches(tst2, vst2, sst2, nums)) by {
                assert forall|j: int|
                    0 <= j < tst2.len() implies tree_eval(#[trigger] tst2[j], nums) == Some(
                    vst2[j],
                ) && tree_render(tst2[j], nums) == sst2[j] by {
                    if j < tst.len() {
                        assert(tst2[j] == tst[j] && vst2[j] == vst[j] && sst2[j] == sst[j]);
                    }
                }
            }
            assert(stack_leaves(tst2) == digit_idxs(expr, i + 1)) by {
                assert(tst2.drop_last() =~= tst);
                assert(digit_idxs(expr, i + 1) == digit_idxs(expr, i).push(idx));
                assert(stack_leaves(tst2) == stack_leaves(tst) + seq![idx]);
                assert(stack_leaves(tst) + seq![idx] =~= stack_leaves(tst).push(idx));
            }
            lemma_run_trees(expr, nums, i + 1, vst2, sst2, tst2);
            let tfin = choose|tfin: Seq<Expr>|
                #[trigger] tree_stack_matches(
                    tfin,
                    opt_stack(spec_run(expr, nums, vst2, i + 1)),
                    opt_stack(spec_render(expr, nums, sst2, i + 1)),
                    nums,
                ) && stack_leaves(tfin) == digit_idxs(expr, expr.len());
            assert(tree_stack_matches(
                tfin,
                opt_stack(spec_run(expr, nums, vst, i)),
                opt_stack(spec_render(expr, nums, sst, i)),
                nums,
            ));
        } else {
            assert(is_op_char(c));
            assert(vst.len() >= 2);
            let a = vst[vst.len() - 2];
            let b = vst[vst.len() - 1];
            match apply_op(c, a, b) {
                Some(f) => {
                    let node = Expr::Node {
                        op: c,
                        left: Box::new(tst[tst.len() - 2]),
                        right: Box::new(tst[tst.len() - 1]),
                    };
                    let vst2 = vst.drop_last().drop_last().push(f);
                    let sst2 = sst.drop_last().drop_last().push(
                        render_op(c, sst[sst.len() - 2], sst[sst.len() - 1]),
                    );
                    let tst2 = tst.drop_last().drop_last().push(node);
                    assert(tree_eval(node, nums) == Some(f));
                    assert(tree_render(node, nums) == render_op(
                        c,
                        sst[sst.len() - 2],
                        sst[sst.len() - 1],
                    ));
                    assert(tree_stack_matches(tst2, vst2, sst2, nums)) by {
                        assert forall|j: int|
                            0 <= j < tst2.len() implies tree_eval(#[trigger] tst2[j], nums)
                            == Some(vst2[j]) && tree_render(tst2[j], nums) == sst2[j] by {
                            if j < tst.len() - 2 {
                                assert(tst2[j] == tst[j] && vst2[j] == vst[j] && sst2[j]
                                    == sst[j]);
                            }
                        }
                    }
                    assert(stack_leaves(tst2) == digit_idxs(expr, i + 1)) by {
                        let dd = tst.drop_last().drop_last();
                        assert(tst2.drop_last() =~= dd);
                        assert(tst.drop_last().last() == tst[tst.len() - 2]);
                        assert(stack_leaves(tst) == stack_leaves(tst.drop_last()) + tree_leaves(
                            tst.last(),
                        ));
                        assert(stack_leaves(tst.drop_last()) == stack_leaves(dd) + tree_leaves(
                            tst.drop_last().last(),
                        ));
                        assert(stack_leaves(tst) == stack_leaves(dd) + tree_leaves(
                            tst[tst.len() - 2],
                        ) + tree_leaves(tst[tst.len() - 1]));
                        assert(stack_leaves(tst2) == stack_leaves(dd) + tree_leaves(node));
                        assert(stack_leaves(dd) + tree_leaves(node) =~= stack_leaves(dd)
                            + tree_leaves(tst[tst.len() - 2]) + tree_leaves(
                            tst[tst.len() - 1],
                        ));
                        assert(digit_idxs(expr, i + 1) == digit_idxs(expr, i));
                    }
                    lemma_run_trees(expr, nums, i + 1, vst2, sst2, tst2);
                    let tfin = choose|tfin: Seq<Expr>|
                        #[trigger] tree_stack_matches(
                            tfin,
                            opt_stack(spec_run(expr, nums, vst2, i + 1)),
                            opt_stack(spec_render(expr, nums, sst2, i + 1)),
                            nums,
                        ) && stack_leaves(tfin) == digit_idxs(expr, expr.len());
                    assert(tree_stack_matches(
                        tfin,
                        opt_stack(spec_run(expr, nums, vst, i)),
                        opt_stack(spec_render(expr, nums, sst, i)),
                        nums,
                    ));
                },
                None => {
                    assert(false);
                },
            }
        }
    }
}

/// The digit tokens of a filled shape name pairwise distinct positions in
/// range, one for each operand slot passed.
proof fn lemma_digit_idxs_fits(e: Seq<char>, shape: Seq<char>, excl: Seq<char>, i: nat)
    requires
        fits(e, shape, 0, excl),
        i <= e.len(),
    ensures
        digit_idxs(e, i).len() == n_slots(shape, i),
        digit_idxs(e, i).no_duplicates(),
        forall|p: int|
            0 <= p < digit_idxs(e, i).len() ==> 0 <= #[trigger] digit_idxs(e, i)[p] < 4,
        forall|x: int| #[trigger]
            digit_idxs(e, i).contains(x) ==> exists|j: int|
                0 <= j < i && is_digit_char(#[trigger] e[j]) && digit_index(e[j]) == x,
    decreases i,
{
    if i == 0 {
    } else {
        lemma_digit_idxs_fits(e, shape, excl, (i - 1) as nat);
        let prev = digit_idxs(e, (i - 1) as nat);
        let pos = i - 1;
        assert(is_digit_char(e[pos]) <==> shape[pos] == 'N');
        if is_digit_char(e[pos]) {
            let x0 = digit_index(e[pos]);
            assert(digit_idxs(e, i) == prev.push(x0));
            assert(!prev.contains(x0)) by {
                if prev.contains(x0) {
                    let j = choose|j: int|
                        0 <= j < i - 1 && is_digit_char(#[trigger] e[j]) && digit_index(e[j])
                            == x0;
                    assert(e[j] == e[pos]);
                    assert(shape[j] == 'N' && shape[pos] == 'N');
                    assert(false);
                }
            }
            assert(prev.push(x0).no_duplicates()) by {
                assert forall|p1: int, p2: int|
                    0 <= p1 < prev.push(x0).len() && 0 <= p2 < prev.push(x0).len() && p1
                        != p2 implies prev.push(x0)[p1] != prev.push(x0)[p2] by {
                    if p1 < prev.len() && p2 < prev.len() {
                        assert(prev[p1] != prev[p2]);
                    } else if p1 < prev.len() {
                        assert(prev[p1] != x0);
                    } else if p2 < prev.len() {
                        assert(prev[p2] != x0);
                    }
                }
            }
            assert forall|x: int| #[trigger]
                digit_idxs(e, i).contains(x) implies exists|j: int|
                    0 <= j < i && is_digit_char(#[trigger] e[j]) && digit_index(e[j]) == x by {
                lemma_push_contains(prev, x0, x);
                if prev.contains(x) {
                    let j = choose|j: int|
                        0 <= j < i - 1 && is_digit_char(#[trigger] e[j]) && digit_index(e[j])
                            == x;
                    assert(0 <= j < i && is_digit_char(e[j]) && digit_index(e[j]) == x);
                } else {
                    assert(is_digit_char(e[pos]) && digit_index(e[pos]) == x);
                }
            }
        } else {
            assert(digit_idxs(e, i) == prev);
            assert forall|x: int| #[trigger]
                digit_idxs(e, i).contains(x) implies exists|j: int|
                    0 <= j < i && is_digit_char(#[trigger] e[j]) && digit_index(e[j]) == x by {
                let j = choose|j: int|
                    0 <= j < i - 1 && is_digit_char(#[trigger] e[j]) && digit_index(e[j]) == x;
                assert(0 <= j < i && is_digit_char(e[j]) && digit_index(e[j]) == x);
            }
        }
    }
}

/// Every shape in the search has exactly four operand slots.
proof fn lemma_shape_slots(si: int)
    requires
        0 <= si < 5,
    ensures
        spec_shapes()[si].len() == 7,
        n_slots(spec_shapes()[si], 7) == 4,
{
    reveal_strlit("NNNNOOO");
    reveal_strlit("NNNOONO");
    reveal_strlit("NNNONOO");
    reveal_strlit("NNONONO");
    reveal_strlit("NNONNOO");
    reveal_with_fuel(n_slots, 9);
    if si == 0 {
        assert(n_slots("NNNNOOO"@, 7) == 4);
    } else if si == 1 {
        assert(n_slots("NNNOONO"@, 7) == 4);
    } else if si == 2 {
        assert(n_slots("NNNONOO"@, 7) == 4);
    } else if si == 3 {
        assert(n_slots("NNONONO"@, 7) == 4);
    } else {
        assert(n_slots("NNONNOO"@, 7) == 4);
    }
}

/// Any text the search can return is the rendering of an expression tree
/// over the four inputs that evaluates, in exact rational arithmetic, to
/// the value the search checked — and the tree uses each of the four
/// input positions exactly once: no omission, no duplication, no extra
/// numeral.
pub proof fn lemma_solution_is_expression(e: Seq<char>, nums: Seq<int>, s: Seq<char>, v: int)
    requires
        nums.len() == 4,
        is_candidate(e),
        spec_eval(e, nums) == Some(v),
        spec_infix(e, nums) == Some(s),
    ensures
        exists|t: Expr|
            {
                &&& #[trigger] tree_render(t, nums) == s
                &&& tree_eval(t, nums) matches Some(f) && frac_int_value(f) == Some(v)
                &&& tree_leaves(t).len() == 4
                &&& tree_leaves(t).no_duplicates()
                &&& forall|m: int| 0 <= m < 4 ==> tree_leaves(t).contains(m)
            },
{
    let sj = choose|sj: int|
        0 <= sj < 5 && #[trigger] fits(e, spec_shapes()[sj], 0, Seq::<char>::empty());
    let shape = spec_shapes()[sj];
    lemma_shape_slots(sj);
    assert(e.len() == 7);
    lemma_digit_idxs_fits(e, shape, Seq::<char>::empty(), 7);
    assert(spec_run(e, nums, Seq::<Frac>::empty(), 0) is Some);
    assert(spec_render(e, nums, Seq::<Seq<char>>::empty(), 0) is Some);
    assert(stack_leaves(Seq::<Expr>::empty()) == digit_idxs(e, 0));
    lemma_run_trees(e, nums, 0, Seq::<Frac>::empty(), Seq::<Seq<char>>::empty(), Seq::<
        Expr,
    >::empty());
    let tfin = choose|tfin: Seq<Expr>|
        #[trigger] tree_stack_matches(
            tfin,
            opt_stack(spec_run(e, nums, Seq::<Frac>::empty(), 0)),
            opt_stack(spec_render(e, nums, Seq::<Seq<char>>::empty(), 0)),
            nums,
        ) && stack_leaves(tfin) == digit_idxs(e, e.len());
    let st = opt_stack(spec_run(e, nums, Seq::<Frac>::empty(), 0));
    let rst = opt_stack(spec_render(e, nums, Seq::<Seq<char>>::empty(), 0));
    assert(st.len() == 1 && frac_int_value(st[0]) == Some(v));
    assert(rst.len() == 1 && rst[0] == s);
    let t = tfin[0];
    assert(tree_eval(t, nums) == Some(st[0]));
    assert(tree_render(t, nums) == s);
    assert(tree_leaves(t) == digit_idxs(e, 7)) by {
        assert(stack_leaves(tfin) == stack_leaves(tfin.drop_last()) + tree_leaves(t));
        assert(tfin.drop_last() =~= Seq::<Expr>::empty());
        assert(stack_leaves(tfin.drop_last()) + tree_leaves(t) =~= tree_leaves(t));
        assert(e.len() == 7);
    }
    let leaves = tree_leaves(t);
    assert(leaves.len() == 4 && leaves.no_duplicates());
    assert forall|m: int| 0 <= m < 4 implies leaves.contains(m) by {
        let l0 = leaves[0];
        let l1 = leaves[1];
        let l2 = leaves[2];
        let l3 = leaves[3];
        assert(l0 != l1 && l0 != l2 && l0 != l3 && l1 != l2 && l1 != l3 && l2 != l3);
        assert(0 <= l0 < 4 && 0 <= l1 < 4 && 0 <= l2 < 4 && 0 <= l3 < 4);
        assert(l0 == m || l1 == m || l2 == m || l3 == m);
        if l0 == m {
            assert(leaves.contains(m));
        } else if l1 == m {
            assert(leaves.contains(m));
        } else if l2 == m {
            assert(leaves.contains(m));
        } else {
            assert(leaves.contains(m));
        }
    }
    assert({
        &&& tree_render(t, nums) == s
        &&& tree_eval(t, nums) matches Some(f) && frac_int_value(f) == Some(v)
        &&& tree_leaves(t).len() == 4
        &&& tree_leaves(t).no_duplicates()
        &&& forall|m: int| 0 <= m < 4 ==> tree_leaves(t).contains(m)
    });
}

/// Count of digit tokens among the first `i` tokens.
spec fn d_to(e: Seq<char>, i: int) -> int
    decreases i,
{
    if i <= 0 || i > e.len() {
        0
    } else if is_digit_char(e[i - 1]) {
        d_to(e, i - 1) + 1
    } else {
        d_to(e, i - 1)
    }
}

/// Count of operator tokens among the first `i` tokens.
spec fn o_to(e: Seq<char>, i: int) -> int
    decreases i,
{
    if i <= 0 || i > e.len() {
        0
    } else if is_op_char(e[i - 1]) {
        o_to(e, i - 1) + 1
    } else {
        o_to(e, i - 1)
    }
}

/// Over known tokens, digit and operator counts split every prefix.
proof fn lemma_counts_total(e: Seq<char>, i: int)
    requires
        0 <= i <= e.len(),
        forall|j: int| 0 <= j < e.len() ==> is_digit_char(#[trigger] e[j]) || is_op_char(e[j]),
    ensures
        d_to(e, i) + o_to(e, i) == i,
    decreases i,
{
    if i > 0 {
        lemma_counts_total(e, i - 1);
    }
}

/// A successful run keeps the books: the stack holds one value for each
/// digit passed less each operator passed, and every operator token finds
/// at least two values on the stack.
proof fn lemma_run_balance(e: Seq<char>, nums: Seq<int>, stack: Seq<Frac>, i: int)
    requires
        0 <= i <= e.len(),
        spec_run(e, nums, stack, i as nat) is Some,
        stack.len() == d_to(e, i) - o_to(e, i),
    ensures
        forall|j: int| i <= j < e.len() && is_op_char(#[trigger] e[j]) ==> d_to(e, j) - o_to(e, j)
            >= 2,
        opt_stack_len(spec_run(e, nums, stack, i as nat)) == d_to(e, e.len() as int) - o_to(
            e,
            e.len() as int,
        ),
    decreases e.len() - i,
{
    if i < e.len() {
        let c = e[i];
        if is_digit_char(c) {
            let stack2 = stack.push(int_frac(nums[digit_index(c)]));
            assert(d_to(e, i + 1) == d_to(e, i) + 1);
            assert(o_to(e, i + 1) == o_to(e, i));
            lemma_run_balance(e, nums, stack2, i + 1);
        } else {
            assert(is_op_char(c));
            assert(stack.len() >= 2);
            assert(d_to(e, i) - o_to(e, i) >= 2);
            match apply_op(c, stack[stack.len() - 2], stack[stack.len() - 1]) {
                Some(f) => {
                    let stack2 = stack.drop_last().drop_last().push(f);
                    assert(d_to(e, i + 1) == d_to(e, i));
                    assert(o_to(e, i + 1) == o_to(e, i) + 1);
                    lemma_run_balance(e, nums, stack2, i + 1);
                },
                None => {
                    assert(false);
                },
            }
        }
    }
}

/// Seven tokens that could stand in a candidate in any order: every token
/// is a digit or an operator, and no digit repeats.
pub open spec fn is_token_arrangement(e: Seq<char>) -> bool {
    &&& e.len() == 7
    &&& forall|j: int| 0 <= j < 7 ==> is_digit_char(#[trigger] e[j]) || is_op_char(e[j])
    &&& forall|j1: int, j2: int|
        #![trigger e[j1], e[j2]]
        0 <= j1 < j2 < 7 && is_digit_char(e[j1]) && is_digit_char(e[j2]) ==> e[j1] != e[j2]
}

/// The five searched shapes are exhaustive: any arrangement of the seven
/// tokens that evaluates to a value at all fills one of them.  Together
/// with the contract of [`try_solve`], a `None` answer therefore rules
/// out every postfix arrangement of the tokens, not only the enumerated
/// ones.
pub proof fn lemma_arrangements_are_candidates(e: Seq<char>, nums: Seq<int>)
    requires
        is_token_arrangement(e),
        spec_eval(e, nums) is Some,
    ensures
        is_candidate(e),
{
    assert(spec_run(e, nums, Seq::<Frac>::empty(), 0) is Some);
    assert(d_to(e, 0) == 0 && o_to(e, 0) == 0);
    lemma_run_balance(e, nums, Seq::<Frac>::empty(), 0);
    assert(opt_stack_len(spec_run(e, nums, Seq::<Frac>::empty(), 0)) == 1);
    lemma_counts_total(e, 7);
    assert(d_to(e, 1) == d_to(e, 0) + (if is_digit_char(e[0]) {
        1int
    } else {
        0int
    }));
    assert(d_to(e, 2) == d_to(e, 1) + (if is_digit_char(e[1]) {
        1int
    } else {
        0int
    }));
    assert(d_to(e, 3) == d_to(e, 2) + (if is_digit_char(e[2]) {
        1int
    } else {
        0int
    }));
    assert(d_to(e, 4) == d_to(e, 3) + (if is_digit_char(e[3]) {
        1int
    } else {
        0int
    }));
    assert(d_to(e, 5) == d_to(e, 4) + (if is_digit_char(e[4]) {
        1int
    } else {
        0int
    }));
    assert(d_to(e, 6) == d_to(e, 5) + (if is_digit_char(e[5]) {
        1int
    } else {
        0int
    }));
    assert(d_to(e, 7) == d_to(e, 6) + (if is_digit_char(e[6]) {
        1int
    } else {
        0int
    }));
    assert forall|j: int| 0 <= j < 7 implies d_to(e, j) + o_to(e, j) == j by {
        lemma_counts_total(e, j);
    }
    assert forall|j: int| 0 <= j < 7 && is_op_char(#[trigger] e[j]) implies 2 * d_to(e, j) >= j
        + 2 by {
        assert(d_to(e, j) - o_to(e, j) >= 2);
    }
    assert forall|j: int| 0 <= j < 7 implies !(is_digit_char(#[trigger] e[j]) && is_op_char(
        e[j],
    )) by {}
    let b0 = is_digit_char(e[0]);
    let b1 = is_digit_char(e[1]);
    let b2 = is_digit_char(e[2]);
    let b3 = is_digit_char(e[3]);
    let b4 = is_digit_char(e[4]);
    let b5 = is_digit_char(e[5]);
    let b6 = is_digit_char(e[6]);
    assert(b0 && b1 && !b6);
    assert((b2 && b3 && !b4 && !b5) || (b2 && !b3 && b4 && !b5) || (b2 && !b3 && !b4 && b5) || (
    !b2 && b3 && b4 && !b5) || (!b2 && b3 && !b4 && b5));
    reveal_strlit("NNNNOOO");
    reveal_strlit("NNNOONO");
    reveal_strlit("NNNONOO");
    reveal_strlit("NNONONO");
    reveal_strlit("NNONNOO");
    let si: int = if b2 && b3 {
        0
    } else if b2 && b5 {
        1
    } else if b2 && b4 {
        2
    } else if b4 {
        4
    } else {
        3
    };
    let shape = spec_shapes()[si];
    assert(shape.len() == 7);
    assert forall|j: int| 0 <= j < 7 implies (shape[j] == 'N' <==> is_digit_char(
        #[trigger] e[j],
    )) by {
        if j == 0 {
        } else if j == 1 {
        } else if j == 2 {
        } else if j == 3 {
        } else if j == 4 {
        } else if j == 5 {
        } else {
        }
    }
    assert(fits(e, shape, 0, Seq::<char>::empty())) by {
        assert forall|j: int|
            0 <= j < e.len() && shape[j] == 'N' implies is_digit_char(#[trigger] e[j])
            && !Seq::<char>::empty().contains(e[j]) by {}
        assert forall|j: int|
            0 <= j < e.len() && shape[j] != 'N' implies is_op_char(#[trigger] e[j]) by {}
    }
    assert(is_candidate(e));
}

} // verus!
