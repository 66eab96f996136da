//! What a slider is set to: a number within its bounds, and a whole one where the
//! slider takes no fractions.
use vstd::prelude::*;
use crate::doubles::Exact;
use crate::json::{JsonNumber, NumberModel};

verus! {

/// The integers that stay integers as doubles, and are written as such.
pub open spec fn whole_limit() -> int {
    9_000_000_000_000_000
}

/// A number, counted in the smallest steps between doubles: an integer below the limit
/// or a finite double.
pub open spec fn steps(n: NumberModel) -> Option<int> {
    match n {
        NumberModel::Natural(x) => if x < whole_limit() {
            Some(x * crate::doubles::one())
        } else {
            None
        },
        NumberModel::Negative(x) => if -whole_limit() < x < whole_limit() {
            Some(x * crate::doubles::one())
        } else {
            None
        },
        NumberModel::Real { bits, .. } => if crate::doubles::is_finite(bits) {
            Some(crate::doubles::steps_of(bits))
        } else {
            None
        },
    }
}

/// An integer as a number.
pub open spec fn number_of(v: int) -> NumberModel {
    if v >= 0 {
        NumberModel::Natural(v as u64)
    } else {
        NumberModel::Negative(v as i64)
    }
}

/// Whether a number is so small that it is written as an integer where it is one.
pub open spec fn is_small(x: int) -> bool {
    -whole_limit() * crate::doubles::one() < x < whole_limit() * crate::doubles::one()
}

/// Whether a number is an integer.
pub open spec fn is_whole(x: int) -> bool {
    x % (crate::doubles::one() as int) == 0
}

/// The lower of two bounds.
pub open spec fn lower(a: NumberModel, b: NumberModel) -> NumberModel {
    if steps(b)->Some_0 < steps(a)->Some_0 {
        b
    } else {
        a
    }
}

/// The upper of two bounds.
pub open spec fn upper(a: NumberModel, b: NumberModel) -> NumberModel {
    if steps(b)->Some_0 < steps(a)->Some_0 {
        a
    } else {
        b
    }
}

/// Whether a number lies between two bounds, whichever is the lower.
pub open spec fn is_between(x: int, a: NumberModel, b: NumberModel) -> bool {
    steps(lower(a, b))->Some_0 <= x <= steps(upper(a, b))->Some_0
}

/// A number brought within two bounds.
pub open spec fn held(n: NumberModel, a: NumberModel, b: NumberModel) -> NumberModel {
    if steps(n)->Some_0 < steps(lower(a, b))->Some_0 {
        lower(a, b)
    } else if steps(upper(a, b))->Some_0 < steps(n)->Some_0 {
        upper(a, b)
    } else {
        n
    }
}

/// What a number between two bounds is made where fractions are not taken: the nearest
/// integer, or the one on its other side where that is not between them, or a bound
/// where none is.
pub open spec fn made_whole(n: NumberModel, a: NumberModel, b: NumberModel) -> NumberModel {
    let one = crate::doubles::one();
    let x = steps(n)->Some_0;
    let nearest = crate::doubles::rounded(x);
    let next = if nearest * one < x {
        nearest + 1
    } else {
        nearest - 1
    };
    if is_between(nearest * one, a, b) {
        number_of(nearest)
    } else if is_between(next * one, a, b) {
        number_of(next)
    } else if nearest * one < x {
        lower(a, b)
    } else {
        upper(a, b)
    }
}

/// What a slider with the bounds `a` and `b` is set to by a number; none where one of
/// the three is an integer at or above the limit.
pub open spec fn slid(
    n: NumberModel,
    a: NumberModel,
    b: NumberModel,
    fraction: bool,
) -> Option<NumberModel> {
    if steps(n) is None || steps(a) is None || steps(b) is None {
        None
    } else {
        let v = held(n, a, b);
        let x = steps(v)->Some_0;
        Some(
            if is_whole(x) && is_small(x) {
                number_of(x / (crate::doubles::one() as int))
            } else if fraction || !is_small(x) {
                v
            } else {
                made_whole(v, a, b)
            },
        )
    }
}

/// The exact value of a number.
fn exact(n: &JsonNumber) -> (r: Option<Exact>)
    ensures
        match r {
            Some(x) => steps(n@) == Some(x.steps()),
            None => steps(n@) is None,
        },
{
    match n {
        JsonNumber::Natural(x) => if *x < 9_000_000_000_000_000 {
            Some(Exact::of_whole(*x as i64))
        } else {
            None
        },
        JsonNumber::Negative(x) => if -9_000_000_000_000_000 < *x && *x < 9_000_000_000_000_000 {
            Some(Exact::of_whole(*x))
        } else {
            None
        },
        JsonNumber::Real { bits, .. } => Exact::of_bits(*bits),
    }
}

/// An integer as a number.
fn integer(v: i64) -> (r: JsonNumber)
    ensures
        r@ == number_of(v as int),
{
    if v >= 0 {
        JsonNumber::Natural(v as u64)
    } else {
        JsonNumber::Negative(v)
    }
}

/// What a slider with the bounds `a` and `b` is set to by a number.
pub fn slide(n: &JsonNumber, a: &JsonNumber, b: &JsonNumber, fraction: bool) -> (r: Option<JsonNumber>)
    ensures
        match r {
            Some(v) => slid(n@, a@, b@, fraction) == Some(v@),
            None => slid(n@, a@, b@, fraction) is None,
        },
{
    let (x, x1, x2) = match (exact(n), exact(a), exact(b)) {
        (Some(x), Some(x1), Some(x2)) => (x, x1, x2),
        _ => {
            return None;
        },
    };
    let (low, lo, high, hi) = if x2.is_less(&x1) {
        (b, x2, a, x1)
    } else {
        (a, x1, b, x2)
    };
    let (v, at) = if x.is_less(&lo) {
        (low, lo)
    } else if hi.is_less(&x) {
        (high, hi)
    } else {
        (n, x)
    };
    let top = Exact::of_whole(9_000_000_000_000_000);
    let bottom = Exact::of_whole(-9_000_000_000_000_000);
    if !bottom.is_less(&at) || !at.is_less(&top) {
        return Some(v.copy());
    }
    let (nearest, whole) = at.nearest();
    if whole {
        proof {
            let o = crate::doubles::one() as int;
            vstd::arithmetic::power2::lemma_pow2_pos(1074);
            vstd::arithmetic::div_mod::lemma_fundamental_div_mod_converse(
                at.steps(),
                o,
                nearest as int,
                0,
            );
        }
        return Some(integer(nearest));
    }
    if fraction {
        return Some(v.copy());
    }
    let first = Exact::of_whole(nearest);
    if !first.is_less(&lo) && !hi.is_less(&first) {
        return Some(integer(nearest));
    }
    let below = first.is_less(&at);
    let next: i64 = if below {
        nearest + 1
    } else {
        nearest - 1
    };
    let second = Exact::of_whole(next);
    if !second.is_less(&lo) && !hi.is_less(&second) {
        return Some(integer(next));
    }
    if below {
        Some(low.copy())
    } else {
        Some(high.copy())
    }
}

/// The steps of an integer below the limit.
proof fn lemma_steps_of_integer(v: int)
    requires
        -whole_limit() < v < whole_limit(),
    ensures
        steps(number_of(v)) == Some(v * crate::doubles::one()),
        is_whole(v * crate::doubles::one()),
        is_small(v * crate::doubles::one()),
        (v * crate::doubles::one()) / (crate::doubles::one() as int) == v,
{
    let o = crate::doubles::one() as int;
    vstd::arithmetic::power2::lemma_pow2_pos(1074);
    assert(v * o == v * o + 0);
    vstd::arithmetic::div_mod::lemma_fundamental_div_mod_converse(v * o, o, v, 0);
    assert(-9_000_000_000_000_000 * o < v * o < 9_000_000_000_000_000 * o) by (nonlinear_arith)
        requires
            -9_000_000_000_000_000 < v < 9_000_000_000_000_000,
            o > 0,
    ;
}

/// The integers beside a number that is none are far below the limit.
proof fn lemma_beside(n: NumberModel)
    requires
        steps(n) is Some,
        !is_whole(steps(n)->Some_0),
    ensures
        -whole_limit() + 1 < crate::doubles::rounded(steps(n)->Some_0) < whole_limit() - 1,
{
    let o = crate::doubles::one() as int;
    let x = steps(n)->Some_0;
    vstd::arithmetic::power2::lemma_pow2_pos(1074);
    match n {
        NumberModel::Natural(v) => {
            lemma_steps_of_integer(v as int);
        },
        NumberModel::Negative(v) => {
            lemma_steps_of_integer(v as int);
        },
        NumberModel::Real { bits, .. } => {
            crate::doubles::lemma_fraction_is_small(bits);
        },
    }
    crate::doubles::lemma_rounding(x, x);
    let r = crate::doubles::rounded(x);
    assert(-0x10_0000_0000_0001 < r < 0x10_0000_0000_0001) by (nonlinear_arith)
        requires
            (r - 1) * o < x < (r + 1) * o,
            -0x10_0000_0000_0000 * o < x < 0x10_0000_0000_0000 * o,
            o > 0,
    ;
}

/// The integer that a small whole number is, as a number, is that number.
proof fn lemma_written_whole(x: int)
    requires
        is_whole(x),
        is_small(x),
    ensures
        steps(number_of(x / (crate::doubles::one() as int))) == Some(x),
{
    let o = crate::doubles::one() as int;
    vstd::arithmetic::power2::lemma_pow2_pos(1074);
    crate::doubles::lemma_rounding(x, x);
    let v = x / o;
    assert(-9_000_000_000_000_000 < v < 9_000_000_000_000_000) by (nonlinear_arith)
        requires
            x == v * o,
            -9_000_000_000_000_000 * o < x < 9_000_000_000_000_000 * o,
            o > 0,
    ;
    lemma_steps_of_integer(v);
}

/// Whatever a slider is set to lies between its bounds.
pub proof fn law_slider_stays_in_range(
    n: NumberModel,
    a: NumberModel,
    b: NumberModel,
    fraction: bool,
)
    ensures
        slid(n, a, b, fraction) matches Some(v) ==> steps(v) is Some && is_between(
            steps(v)->Some_0,
            a,
            b,
        ),
{
    if slid(n, a, b, fraction) is Some {
        let v = held(n, a, b);
        let x = steps(v)->Some_0;
        if is_whole(x) && is_small(x) {
            lemma_written_whole(x);
        } else if !fraction && is_small(x) {
            lemma_beside(v);
            let r = crate::doubles::rounded(x);
            lemma_steps_of_integer(r);
            lemma_steps_of_integer(r + 1);
            lemma_steps_of_integer(r - 1);
        }
    }
}

/// A number between the bounds is kept where it is an integer, or where the slider takes
/// fractions.
pub proof fn law_slider_keeps_what_fits(
    n: NumberModel,
    a: NumberModel,
    b: NumberModel,
    fraction: bool,
)
    requires
        steps(n) is Some,
        steps(a) is Some,
        steps(b) is Some,
        is_between(steps(n)->Some_0, a, b),
        fraction || is_whole(steps(n)->Some_0),
    ensures
        slid(n, a, b, fraction) matches Some(v) && steps(v) == steps(n),
{
    let x = steps(n)->Some_0;
    if is_whole(x) && is_small(x) {
        lemma_written_whole(x);
    }
}

/// A slider that takes no fractions is set to an integer, where one lies between its
/// bounds.
pub proof fn law_whole_slider_is_whole(n: NumberModel, a: NumberModel, b: NumberModel, k: int)
    requires
        is_between(k * crate::doubles::one(), a, b),
    ensures
        slid(n, a, b, false) matches Some(v) ==> steps(v) is Some && is_whole(steps(v)->Some_0),
{
    if slid(n, a, b, false) is Some {
        let one = crate::doubles::one();
        let o = one as int;
        let v = held(n, a, b);
        let x = steps(v)->Some_0;
        vstd::arithmetic::power2::lemma_pow2_pos(1074);
        crate::doubles::lemma_rounding(x, x);
        if is_whole(x) && is_small(x) {
            lemma_written_whole(x);
        } else if is_small(x) {
            lemma_beside(v);
            let r = crate::doubles::rounded(x);
            lemma_steps_of_integer(r);
            lemma_steps_of_integer(r + 1);
            lemma_steps_of_integer(r - 1);
            if r * o < x {
                if k * o <= r * o {
                } else {
                    assert(k * o >= (r + 1) * o) by (nonlinear_arith)
                        requires
                            k * o > r * o,
                            o > 0,
                    ;
                }
            } else {
                if k * o >= r * o {
                } else {
                    assert(k * o <= (r - 1) * o) by (nonlinear_arith)
                        requires
                            k * o < r * o,
                            o > 0,
                    ;
                }
            }
        } else if !is_whole(x) {
            lemma_large_is_whole(v);
        }
    }
}

/// A number that is not small is an integer.
proof fn lemma_large_is_whole(n: NumberModel)
    requires
        steps(n) is Some,
        !is_small(steps(n)->Some_0),
    ensures
        is_whole(steps(n)->Some_0),
{
    let o = crate::doubles::one() as int;
    vstd::arithmetic::power2::lemma_pow2_pos(1074);
    match n {
        NumberModel::Natural(v) => {
            lemma_steps_of_integer(v as int);
        },
        NumberModel::Negative(v) => {
            lemma_steps_of_integer(v as int);
        },
        NumberModel::Real { bits, .. } => {
            crate::doubles::lemma_fraction_is_small(bits);
            assert(0x10_0000_0000_0000 * o < whole_limit() * o && -whole_limit() * o
                < -0x10_0000_0000_0000 * o) by (nonlinear_arith)
                requires
                    o > 0,
            ;
        },
    }
}

/// What a slider was set to is kept when the slider is set to it again.
pub proof fn law_sliding_twice_is_sliding_once(
    n: NumberModel,
    a: NumberModel,
    b: NumberModel,
    fraction: bool,
)
    ensures
        slid(n, a, b, fraction) matches Some(v) ==> slid(v, a, b, fraction) == Some(v),
{
    if slid(n, a, b, fraction) is Some {
        let o = crate::doubles::one() as int;
        let v = held(n, a, b);
        let x = steps(v)->Some_0;
        let end = slid(n, a, b, fraction)->Some_0;
        vstd::arithmetic::power2::lemma_pow2_pos(1074);
        law_slider_stays_in_range(n, a, b, fraction);
        crate::doubles::lemma_rounding(x, x);
        if is_whole(x) && is_small(x) {
            lemma_written_whole(x);
        } else if !fraction && is_small(x) {
            lemma_beside(v);
            let r = crate::doubles::rounded(x);
            lemma_steps_of_integer(r);
            lemma_steps_of_integer(r + 1);
            lemma_steps_of_integer(r - 1);
            let next = if r * o < x {
                r + 1
            } else {
                r - 1
            };
            if !is_between(r * o, a, b) && !is_between(next * o, a, b) {
                lemma_bound_again(v, a, b);
            }
        }
    }
}

/// Where no integer lies between the bounds, the bound that a number is brought to
/// stays.
proof fn lemma_bound_again(n: NumberModel, a: NumberModel, b: NumberModel)
    requires
        steps(n) is Some,
        steps(a) is Some,
        steps(b) is Some,
        is_between(steps(n)->Some_0, a, b),
        !is_whole(steps(n)->Some_0),
        ({
            let o = crate::doubles::one();
            let x = steps(n)->Some_0;
            let r = crate::doubles::rounded(x);
            let next = if r * o < x {
                r + 1
            } else {
                r - 1
            };
            !is_between(r * o, a, b) && !is_between(next * o, a, b)
        }),
    ensures
        ({
            let end = made_whole(n, a, b);
            slid(end, a, b, false) == Some(end)
        }),
{
    let o = crate::doubles::one() as int;
    let x = steps(n)->Some_0;
    let r = crate::doubles::rounded(x);
    let end = made_whole(n, a, b);
    let y = steps(end)->Some_0;
    let s = crate::doubles::rounded(y);
    vstd::arithmetic::power2::lemma_pow2_pos(1074);
    crate::doubles::lemma_rounding(x, y);
    crate::doubles::lemma_rounding(y, x);
    crate::doubles::lemma_rounding(r, r);
    assert((r + 1) * o == r * o + o && (r - 1) * o == r * o - o) by (nonlinear_arith);
    if r * o < x {
        // From `r` up to the next integer there is only the range.
        assert(r * o < y <= x);
        crate::doubles::lemma_rounding(r * o, y);
        assert(s == r);
    } else {
        assert(x <= y < r * o);
        crate::doubles::lemma_rounding(y, r * o);
        assert(s == r);
    }
    crate::doubles::lemma_rounding(y, y);
    if is_whole(y) {
        let k = y / o;
        crate::doubles::lemma_rounding(k, k);
        assert(s == k);
    }
    if !is_small(y) {
        lemma_large_is_whole(end);
    }
}

/// A number outside the bounds is brought to the bound that it lies beyond, where the
/// slider takes fractions or that bound is an integer.
pub proof fn law_slider_stops_at_its_bounds(
    n: NumberModel,
    a: NumberModel,
    b: NumberModel,
    fraction: bool,
)
    requires
        steps(n) is Some,
        steps(a) is Some,
        steps(b) is Some,
        steps(a)->Some_0 <= steps(b)->Some_0,
    ensures
        steps(n)->Some_0 <= steps(a)->Some_0 && (fraction || is_whole(steps(a)->Some_0)) ==> (slid(
            n,
            a,
            b,
            fraction,
        ) matches Some(v) && steps(v) == steps(a)),
        steps(n)->Some_0 >= steps(b)->Some_0 && (fraction || is_whole(steps(b)->Some_0)) ==> (slid(
            n,
            a,
            b,
            fraction,
        ) matches Some(v) && steps(v) == steps(b)),
        slid(n, b, a, fraction) matches Some(v) && (slid(n, a, b, fraction) matches Some(w) && steps(
            v,
        ) == steps(w)),
{
    let x = steps(held(n, a, b))->Some_0;
    if is_whole(x) && is_small(x) {
        lemma_written_whole(x);
    }
    if steps(a) == steps(b) {
        let y = steps(held(n, b, a))->Some_0;
        assert(x == y);
        law_slider_stays_in_range(n, a, b, fraction);
        law_slider_stays_in_range(n, b, a, fraction);
    }
}

/// A slider that takes no fractions is set to the integer between its bounds that is
/// nearest to the number, once that is brought within them.
pub proof fn law_whole_slider_is_nearest(
    n: NumberModel,
    a: NumberModel,
    b: NumberModel,
    k: int,
)
    requires
        steps(n) is Some,
        steps(a) is Some,
        steps(b) is Some,
        is_between(k * crate::doubles::one(), a, b),
    ensures
        ({
            let x = steps(held(n, a, b))->Some_0;
            let y = k * crate::doubles::one();
            slid(n, a, b, false) matches Some(v) && (steps(v) matches Some(z) && (if z >= x {
                z - x
            } else {
                x - z
            }) <= (if y >= x {
                y - x
            } else {
                x - y
            }))
        }),
{
    let o = crate::doubles::one() as int;
    let v = held(n, a, b);
    let x = steps(v)->Some_0;
    vstd::arithmetic::power2::lemma_pow2_pos(1074);
    crate::doubles::lemma_rounding(x, x);
    crate::doubles::lemma_nearest(x, k);
    if is_whole(x) && is_small(x) {
        lemma_written_whole(x);
    } else if is_small(x) {
        lemma_beside(v);
        let r = crate::doubles::rounded(x);
        lemma_steps_of_integer(r);
        lemma_steps_of_integer(r + 1);
        lemma_steps_of_integer(r - 1);
        assert((r + 1) * o == r * o + o && (r - 1) * o == r * o - o) by (nonlinear_arith);
        if k * o > r * o {
            assert(k * o >= (r + 1) * o) by (nonlinear_arith)
                requires
                    k * o > r * o,
                    o > 0,
            ;
        }
        if k * o < r * o {
            assert(k * o <= (r - 1) * o) by (nonlinear_arith)
                requires
                    k * o < r * o,
                    o > 0,
            ;
        }
    } else {
        lemma_large_is_whole(v);
    }
}

} // verus!
