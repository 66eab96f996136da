//! Doubles by their bits. Every finite double is a whole number of the smallest steps
//! between doubles, so they are compared and rounded as integers, exactly.
use vstd::prelude::*;
use vstd::arithmetic::power2::pow2;

verus! {

/// How many of the smallest steps between doubles make one.
pub open spec fn one() -> nat {
    pow2(1074)
}

/// The exponent field of a double.
pub open spec fn exponent_field(bits: u64) -> nat {
    (bits as nat % 0x8000_0000_0000_0000) / 0x10_0000_0000_0000
}

/// Whether a double is a number, and not an infinity or none.
pub open spec fn is_finite(bits: u64) -> bool {
    exponent_field(bits) < 0x7ff
}

/// The significand of a double, with the bit that a normal one leaves out.
pub open spec fn significand(bits: u64) -> nat {
    let stored = bits as nat % 0x10_0000_0000_0000;
    if exponent_field(bits) == 0 {
        stored
    } else {
        0x10_0000_0000_0000 + stored
    }
}

/// The power of two that a double's significand is multiplied by.
pub open spec fn scale_of(bits: u64) -> nat {
    if exponent_field(bits) == 0 {
        0
    } else {
        (exponent_field(bits) - 1) as nat
    }
}

/// A finite double, counted in steps.
pub open spec fn steps_of(bits: u64) -> int {
    let size = significand(bits) * pow2(scale_of(bits));
    if bits < 0x8000_0000_0000_0000 {
        size as int
    } else {
        -size
    }
}

/// The integer nearest to a number of steps; of two, the one further from zero.
pub open spec fn rounded(steps: int) -> int {
    if steps >= 0 {
        (2 * steps + one()) / (2 * one() as int)
    } else {
        -((one() - 2 * steps) / (2 * one() as int))
    }
}

/// A number of steps: a small significand times a power of two, and a sign.
#[derive(Clone, Copy)]
pub struct Exact {
    negative: bool,
    significand: u64,
    scale: u32,
}

impl Exact {
    /// How many steps it is from zero.
    pub closed spec fn size(self) -> nat {
        (self.significand as nat) * pow2(self.scale as nat)
    }

    /// How many steps it is.
    pub closed spec fn steps(self) -> int {
        if self.negative {
            -(self.size() as int)
        } else {
            self.size() as int
        }
    }

    #[verifier::type_invariant]
    closed spec fn well_formed(self) -> bool {
        self.significand < 0x20_0000_0000_0000 && self.scale < 2046
    }

    /// A finite double.
    pub fn of_bits(bits: u64) -> (r: Option<Exact>)
        ensures
            match r {
                Some(x) => is_finite(bits) && x.steps() == steps_of(bits),
                None => !is_finite(bits),
            },
    {
        let stored = bits % 0x10_0000_0000_0000;
        let field = (bits % 0x8000_0000_0000_0000) / 0x10_0000_0000_0000;
        let negative = bits >= 0x8000_0000_0000_0000;
        if field >= 0x7ff {
            None
        } else if field == 0 {
            Some(Exact { negative, significand: stored, scale: 0 })
        } else {
            Some(
                Exact {
                    negative,
                    significand: 0x10_0000_0000_0000 + stored,
                    scale: (field - 1) as u32,
                },
            )
        }
    }

    /// An integer that is a double.
    pub fn of_whole(v: i64) -> (r: Exact)
        requires
            -0x20_0000_0000_0000 < v < 0x20_0000_0000_0000,
        ensures
            r.steps() == v * one(),
    {
        if v < 0 {
            proof {
                assert((-v) * pow2(1074) == -(v * pow2(1074))) by (nonlinear_arith);
            }
            Exact { negative: true, significand: (-v) as u64, scale: 1074 }
        } else {
            Exact { negative: false, significand: v as u64, scale: 1074 }
        }
    }

    /// Whether this is smaller than another, both without their signs.
    fn is_nearer(&self, other: &Exact) -> (r: bool)
        ensures
            r == (self.size() < other.size()),
    {
        proof {
            use_type_invariant(self);
            use_type_invariant(other);
        }
        if self.scale >= other.scale {
            let gap = self.scale - other.scale;
            proof {
                lemma_common_scale(
                    self.significand as nat,
                    gap as nat,
                    other.scale as nat,
                    other.significand as nat,
                );
            }
            if gap >= 64 {
                proof {
                    lemma_far(self.significand as nat, gap as nat);
                }
                self.significand == 0 && other.significand > 0
            } else {
                let p = two_to(gap);
                proof {
                    assert(self.significand as int * p as int <= 0x20_0000_0000_0000
                        * 0x1_0000_0000_0000_0000) by (nonlinear_arith)
                        requires
                            self.significand < 0x20_0000_0000_0000,
                            p <= 0x1_0000_0000_0000_0000,
                    ;
                }
                (self.significand as u128) * p < other.significand as u128
            }
        } else {
            let gap = other.scale - self.scale;
            proof {
                lemma_common_scale(
                    other.significand as nat,
                    gap as nat,
                    self.scale as nat,
                    self.significand as nat,
                );
            }
            if gap >= 64 {
                proof {
                    lemma_far(other.significand as nat, gap as nat);
                }
                other.significand > 0
            } else {
                let p = two_to(gap);
                proof {
                    assert(other.significand as int * p as int <= 0x20_0000_0000_0000
                        * 0x1_0000_0000_0000_0000) by (nonlinear_arith)
                        requires
                            other.significand < 0x20_0000_0000_0000,
                            p <= 0x1_0000_0000_0000_0000,
                    ;
                }
                (self.significand as u128) < (other.significand as u128) * p
            }
        }
    }

    /// Whether this is less than another.
    pub fn is_less(&self, other: &Exact) -> (r: bool)
        ensures
            r == (self.steps() < other.steps()),
    {
        match (self.negative, other.negative) {
            (false, false) => self.is_nearer(other),
            (true, true) => other.is_nearer(self),
            (false, true) => false,
            (true, false) => {
                let zero = Exact { negative: false, significand: 0, scale: 0 };
                proof {
                    assert(zero.size() == 0) by (nonlinear_arith)
                        requires
                            zero.size() == 0 * pow2(0),
                    ;
                }
                zero.is_nearer(self) || zero.is_nearer(other)
            },
        }
    }

    /// The whole part without the sign, whether there is nothing behind it, and whether
    /// there is a half or more.
    fn split(&self) -> (r: (u64, bool, bool))
        requires
            self.size() < 9_000_000_000_000_000 * one(),
        ensures
            r.0 == self.size() / one(),
            r.0 < 9_000_000_000_000_000,
            r.1 == (self.size() % one() == 0),
            r.2 == (2 * (self.size() % one()) >= one()),
    {
        proof {
            use_type_invariant(self);
            vstd::arithmetic::power2::lemma_pow2_pos(1074);
            lemma_quotient_below(self.size(), one(), 9_000_000_000_000_000);
        }
        if self.scale >= 1074 {
            let gap = self.scale - 1074;
            proof {
                lemma_whole(self.significand as nat, gap as nat);
                if gap >= 64 {
                    lemma_far(self.significand as nat, gap as nat);
                }
            }
            if gap >= 64 {
                (0, true, false)
            } else {
                let p = two_to(gap);
                let whole = (self.significand as u128) * p;
                (whole as u64, true, false)
            }
        } else {
            let gap = 1074 - self.scale;
            proof {
                lemma_parts(self.significand as nat, self.scale as nat, gap as nat);
            }
            if gap >= 64 {
                proof {
                    lemma_far(1, gap as nat);
                    lemma_small(self.significand as nat, pow2(gap as nat));
                }
                (0, self.significand == 0, false)
            } else {
                let p = two_to(gap);
                let n = self.significand as u128;
                let left = n % p;
                ((n / p) as u64, left == 0, 2 * left >= p)
            }
        }
    }

    /// The nearest integer, and whether the number is that integer.
    pub fn nearest(&self) -> (r: (i64, bool))
        requires
            -9_000_000_000_000_000 * one() < self.steps() < 9_000_000_000_000_000 * one(),
        ensures
            r.0 == rounded(self.steps()),
            -9_000_000_000_000_000 <= r.0 <= 9_000_000_000_000_000,
            r.1 == (self.steps() % (one() as int) == 0),
            r.1 ==> self.steps() == r.0 * one(),
    {
        let (whole, exact, high) = self.split();
        proof {
            vstd::arithmetic::power2::lemma_pow2_pos(1074);
            lemma_rounded(self.size());
        }
        let size: i64 = if high {
            whole as i64 + 1
        } else {
            whole as i64
        };
        proof {
            let n = size as int;
            assert((-n) * one() == -(n * one())) by (nonlinear_arith);
        }
        if self.negative {
            (-size, exact)
        } else {
            (size, exact)
        }
    }
}

/// A power of two.
fn two_to(e: u32) -> (r: u128)
    requires
        e <= 64,
    ensures
        r == pow2(e as nat),
        1 <= r <= 0x1_0000_0000_0000_0000,
{
    let mut r: u128 = 1;
    let mut i: u32 = 0;
    proof {
        vstd::arithmetic::power2::lemma2_to64();
    }
    while i < e
        invariant
            i <= e <= 64,
            r == pow2(i as nat),
            1 <= r <= 0x1_0000_0000_0000_0000,
        decreases e - i,
    {
        proof {
            vstd::arithmetic::power2::lemma2_to64();
            vstd::arithmetic::power2::lemma_pow2_unfold((i + 1) as nat);
            if i + 1 < 64 {
                vstd::arithmetic::power2::lemma_pow2_strictly_increases((i + 1) as nat, 64);
            }
        }
        r = 2 * r;
        i += 1;
    }
    r
}

/// Two products with powers of two compare as they do without the common power.
proof fn lemma_common_scale(a: nat, gap: nat, scale: nat, b: nat)
    ensures
        (a * pow2(scale + gap) < b * pow2(scale)) == (a * pow2(gap) < b),
        (b * pow2(scale) < a * pow2(scale + gap)) == (b < a * pow2(gap)),
{
    vstd::arithmetic::power2::lemma_pow2_adds(scale, gap);
    vstd::arithmetic::power2::lemma_pow2_pos(scale);
    let p = pow2(scale);
    let g = pow2(gap);
    let t = a * g;
    assert(a * (p * g) == t * p) by (nonlinear_arith)
        requires
            t == a * g,
    ;
    assert((t * p < b * p) == (t < b) && (b * p < t * p) == (b < t)) by (nonlinear_arith)
        requires
            p > 0,
    ;
}

/// What a large power of two multiplies is nothing, or larger than any significand.
proof fn lemma_far(a: nat, gap: nat)
    requires
        gap >= 64,
    ensures
        a == 0 ==> a * pow2(gap) == 0,
        a > 0 ==> a * pow2(gap) >= 0x1_0000_0000_0000_0000,
{
    vstd::arithmetic::power2::lemma2_to64();
    if gap > 64 {
        vstd::arithmetic::power2::lemma_pow2_strictly_increases(64, gap);
    }
    let g = pow2(gap);
    assert(a == 0 ==> a * g == 0) by (nonlinear_arith);
    assert(a > 0 ==> a * g >= 0x1_0000_0000_0000_0000) by (nonlinear_arith)
        requires
            g >= 0x1_0000_0000_0000_0000,
    ;
}

/// A quotient is below what the divisor is multiplied by to stay above the number.
proof fn lemma_quotient_below(x: nat, d: nat, limit: nat)
    requires
        d > 0,
        x < limit * d,
    ensures
        x / d < limit,
{
    vstd::arithmetic::div_mod::lemma_fundamental_div_mod(x as int, d as int);
    let q = x / d;
    assert(q < limit) by (nonlinear_arith)
        requires
            d * q <= x,
            x < limit * d,
            d > 0,
    ;
}

/// A number whose scale is that of one or above is whole.
proof fn lemma_whole(a: nat, gap: nat)
    ensures
        (a * pow2(1074 + gap)) / one() == a * pow2(gap),
        (a * pow2(1074 + gap)) % one() == 0,
{
    vstd::arithmetic::power2::lemma_pow2_adds(1074, gap);
    vstd::arithmetic::power2::lemma_pow2_pos(1074);
    let o = one();
    let t = a * pow2(gap);
    assert(a * (o * pow2(gap)) == t * o) by (nonlinear_arith)
        requires
            t == a * pow2(gap),
    ;
    vstd::arithmetic::div_mod::lemma_fundamental_div_mod_converse(
        (t * o) as int,
        o as int,
        t as int,
        0,
    );
}

/// The whole part and the rest of a number whose scale is below that of one.
proof fn lemma_parts(a: nat, scale: nat, gap: nat)
    requires
        scale + gap == 1074,
    ensures
        (a * pow2(scale)) / one() == a / pow2(gap),
        ((a * pow2(scale)) % one() == 0) == (a % pow2(gap) == 0),
        (2 * ((a * pow2(scale)) % one()) >= one()) == (2 * (a % pow2(gap)) >= pow2(gap)),
{
    vstd::arithmetic::power2::lemma_pow2_adds(scale, gap);
    vstd::arithmetic::power2::lemma_pow2_pos(scale);
    vstd::arithmetic::power2::lemma_pow2_pos(gap);
    let p = pow2(scale);
    let g = pow2(gap);
    let q = a / g;
    let left = a % g;
    vstd::arithmetic::div_mod::lemma_fundamental_div_mod(a as int, g as int);
    assert(a * p == q * (p * g) + left * p) by (nonlinear_arith)
        requires
            a == g * q + left,
    ;
    assert(0 <= left * p < p * g) by (nonlinear_arith)
        requires
            0 <= left < g,
            p > 0,
    ;
    vstd::arithmetic::div_mod::lemma_fundamental_div_mod_converse(
        (a * p) as int,
        (p * g) as int,
        q as int,
        (left * p) as int,
    );
    assert((left * p == 0) == (left == 0)) by (nonlinear_arith)
        requires
            p > 0,
            left >= 0,
    ;
    assert((2 * (left * p) >= p * g) == (2 * left >= g)) by (nonlinear_arith)
        requires
            p > 0,
    ;
}

/// A significand below a large power of two has no whole part, and no half.
proof fn lemma_small(a: nat, g: nat)
    requires
        a < 0x20_0000_0000_0000,
        g >= 0x1_0000_0000_0000_0000,
    ensures
        a / g == 0,
        a % g == a,
{
    vstd::arithmetic::div_mod::lemma_fundamental_div_mod_converse(a as int, g as int, 0, a as int);
}

/// The nearest integer by the whole part and the rest, and the same below zero.
proof fn lemma_rounded(size: nat)
    ensures
        rounded(size as int) == size / one() + (if 2 * (size % one()) >= one() {
            1int
        } else {
            0
        }),
        rounded(-(size as int)) == -rounded(size as int),
        (-(size as int)) % (one() as int) == 0 <==> size % one() == 0,
        size % one() == 0 ==> rounded(size as int) * one() == size,
{
    let o = one() as int;
    vstd::arithmetic::power2::lemma_pow2_pos(1074);
    let q = size as int / o;
    let left = size as int % o;
    vstd::arithmetic::div_mod::lemma_fundamental_div_mod(size as int, o);
    let up: int = if 2 * left >= o {
        1
    } else {
        0
    };
    let rest = 2 * left + o - up * (2 * o);
    assert(up * (2 * o) == if up == 1 {
        2 * o
    } else {
        0
    });
    assert(2 * (o * q + left) + o == (q + up) * (2 * o) + rest) by (nonlinear_arith)
        requires
            rest == 2 * left + o - up * (2 * o),
    ;
    vstd::arithmetic::div_mod::lemma_fundamental_div_mod_converse(
        2 * size + o,
        2 * o,
        q + up,
        rest,
    );
    if left == 0 {
        assert(-(o * q) == (-q) * o + 0) by (nonlinear_arith);
        vstd::arithmetic::div_mod::lemma_fundamental_div_mod_converse(-(size as int), o, -q, 0);
        assert(q * o == o * q) by (nonlinear_arith);
    } else {
        assert(-(o * q + left) == (-q - 1) * o + (o - left)) by (nonlinear_arith);
        vstd::arithmetic::div_mod::lemma_fundamental_div_mod_converse(
            -(size as int),
            o,
            -q - 1,
            o - left,
        );
    }
}

/// A double that is no integer is small: large ones have no bits left for a fraction.
pub proof fn lemma_fraction_is_small(bits: u64)
    ensures
        steps_of(bits) % (one() as int) != 0 ==> -0x10_0000_0000_0000 * one() < steps_of(bits)
            < 0x10_0000_0000_0000 * one(),
{
    let a = significand(bits);
    let scale = scale_of(bits);
    let size = a * pow2(scale);
    vstd::arithmetic::power2::lemma_pow2_pos(1074);
    lemma_rounded(size);
    if scale >= 1074 {
        lemma_whole(a, (scale - 1074) as nat);
    } else {
        let p = pow2(scale);
        vstd::arithmetic::power2::lemma_pow2_pos(scale);
        vstd::arithmetic::power2::lemma_pow2_unfold(1074);
        if scale < 1073 {
            vstd::arithmetic::power2::lemma_pow2_strictly_increases(scale, 1073);
        }
        let o = one();
        assert(a < 0x20_0000_0000_0000);
        assert(a * p < 0x10_0000_0000_0000 * o) by (nonlinear_arith)
            requires
                a < 0x20_0000_0000_0000,
                2 * p <= o,
                p > 0,
                o > 0,
        {
            assert(2 * (a * p) <= a * o);
            assert(a * o < 0x20_0000_0000_0000 * o);
        }
    }
}

/// Rounding keeps order, leaves integers as they are, and moves a number by less than one.
pub proof fn lemma_rounding(x: int, y: int)
    ensures
        x <= y ==> rounded(x) <= rounded(y),
        (rounded(x) - 1) * one() < x < (rounded(x) + 1) * one(),
        rounded(x * one()) == x,
        x % (one() as int) != 0 ==> rounded(x) * one() != x,
        (x * one()) % (one() as int) == 0,
        x % (one() as int) == 0 ==> x == (x / (one() as int)) * one(),
{
    let o = one() as int;
    vstd::arithmetic::power2::lemma_pow2_pos(1074);
    lemma_near(x);
    lemma_near(y);
    lemma_near(x * o);
    vstd::arithmetic::div_mod::lemma_fundamental_div_mod(x, o);
    assert(o * (x / o) == (x / o) * o) by (nonlinear_arith);
    assert(x * o == x * o + 0);
    vstd::arithmetic::div_mod::lemma_fundamental_div_mod_converse(x * o, o, x, 0);
    let r = rounded(x);
    let s = rounded(y);
    if r * o == x {
        vstd::arithmetic::div_mod::lemma_fundamental_div_mod_converse(x, o, r, 0);
    }
    if x <= y && r > s {
        assert(r * o >= (s + 1) * o) by (nonlinear_arith)
            requires
                r >= s + 1,
                o > 0,
        ;
        assert((s + 1) * o == s * o + o) by (nonlinear_arith);
    }
    assert((r - 1) * o == r * o - o && (r + 1) * o == r * o + o) by (nonlinear_arith);
    let t = rounded(x * o);
    assert(t == x) by (nonlinear_arith)
        requires
            2 * (t * o) - o <= 2 * (x * o) <= 2 * (t * o) + o,
            o > 0,
    ;
}

/// A number is no further than a half from the integer that it is rounded to.
proof fn lemma_near(x: int)
    ensures
        2 * (rounded(x) * one()) - one() <= 2 * x <= 2 * (rounded(x) * one()) + one(),
        x >= 0 ==> 2 * x < 2 * (rounded(x) * one()) + one(),
        x < 0 ==> 2 * x > 2 * (rounded(x) * one()) - one(),
{
    let o = one() as int;
    vstd::arithmetic::power2::lemma_pow2_pos(1074);
    let size = if x >= 0 {
        x
    } else {
        -x
    };
    let q = (2 * size + o) / (2 * o);
    vstd::arithmetic::div_mod::lemma_fundamental_div_mod(2 * size + o, 2 * o);
    assert((2 * o) * q == 2 * (q * o)) by (nonlinear_arith);
    assert((-q) * o == -(q * o)) by (nonlinear_arith);
}

/// No integer is nearer to a number than the one that it is rounded to.
pub proof fn lemma_nearest(x: int, k: int)
    ensures
        ({
            let r = rounded(x) * one();
            let y = k * one();
            (if r >= x {
                r - x
            } else {
                x - r
            }) <= (if y >= x {
                y - x
            } else {
                x - y
            })
        }),
{
    let o = one() as int;
    let r = rounded(x);
    vstd::arithmetic::power2::lemma_pow2_pos(1074);
    lemma_near(x);
    assert((r + 1) * o == r * o + o && (r - 1) * o == r * o - o) by (nonlinear_arith);
    if k > r {
        assert(k * o >= (r + 1) * o) by (nonlinear_arith)
            requires
                k >= r + 1,
                o > 0,
        ;
    } else if k < r {
        assert(k * o <= (r - 1) * o) by (nonlinear_arith)
            requires
                k <= r - 1,
                o > 0,
        ;
    }
}

/// The value of a double by the fields that it is made of: a sign, an exponent and a
/// fraction. A normal one is the fraction behind a leading bit, scaled by the exponent;
/// one with the least exponent is the fraction alone.
pub proof fn law_doubles_are_read_back(negative: bool, exponent: nat, fraction: nat)
    requires
        exponent < 0x7ff,
        fraction < 0x10_0000_0000_0000,
    ensures
        ({
            let bits = ((if negative {
                0x8000_0000_0000_0000int
            } else {
                0
            }) + exponent * 0x10_0000_0000_0000 + fraction) as u64;
            let size: nat = if exponent == 0 {
                fraction
            } else {
                (0x10_0000_0000_0000 + fraction) * pow2((exponent - 1) as nat)
            };
            is_finite(bits) && steps_of(bits) == (if negative {
                -(size as int)
            } else {
                size as int
            })
        }),
{
    let high: int = if negative {
        0x8000_0000_0000_0000
    } else {
        0
    };
    let low = exponent * 0x10_0000_0000_0000 + fraction;
    let bits = (high + low) as u64;
    assert(bits == high + low);
    assert(bits as nat % 0x8000_0000_0000_0000 == low);
    assert(low / 0x10_0000_0000_0000 == exponent);
    assert(bits as nat % 0x10_0000_0000_0000 == fraction);
    vstd::arithmetic::power2::lemma2_to64();
    assert(fraction * 1 == fraction);
}

} // verus!
