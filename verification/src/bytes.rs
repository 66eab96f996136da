//! Little-endian integers in byte sequences.
use vstd::prelude::*;

verus! {

/// The little-endian number that the `n` bytes from `at` on hold.
pub open spec fn le(s: Seq<u8>, at: int, n: nat) -> nat
    decreases n,
{
    if n == 0 {
        0
    } else {
        s[at] as nat + 256 * le(s, at + 1, (n - 1) as nat)
    }
}

/// Whether the `n` bytes from `at` on are there.
pub open spec fn holds(s: Seq<u8>, at: int, n: int) -> bool {
    0 <= at && at + n <= s.len()
}

pub fn le_u16(s: &[u8], at: usize) -> (r: u16)
    requires
        holds(s@, at as int, 2),
    ensures
        r == le(s@, at as int, 2),
{
    proof {
        reveal_with_fuel(le, 3);
    }
    let n = s.len();
    s[at] as u16 + 256 * (s[at + 1] as u16)
}

pub fn le_u32(s: &[u8], at: usize) -> (r: u32)
    requires
        holds(s@, at as int, 4),
    ensures
        r == le(s@, at as int, 4),
{
    proof {
        reveal_with_fuel(le, 5);
    }
    let n = s.len();
    s[at] as u32 + 256 * (s[at + 1] as u32 + 256 * (s[at + 2] as u32 + 256 * (s[at + 3] as u32)))
}

/// The number that the `n` bytes from `at` on hold.
pub fn le_u64(s: &[u8], at: usize, n: usize) -> (r: u64)
    requires
        n <= 8,
        holds(s@, at as int, n as int),
    ensures
        r == le(s@, at as int, n as nat),
        r < vstd::arithmetic::power::pow(256, n as nat),
    decreases n,
{
    proof {
        vstd::arithmetic::power::lemma_pow0(256);
    }
    if n == 0 {
        0
    } else {
        let len = s.len();
        let high = le_u64(s, at + 1, n - 1);
        proof {
            broadcast use vstd::arithmetic::power::lemma_pow_increases;
            vstd::arithmetic::power::lemma_pow_adds(256, 1, (n - 1) as nat);
            vstd::arithmetic::power::lemma_pow1(256);
            assert(vstd::arithmetic::power::pow(256, (n - 1) as nat)
                <= vstd::arithmetic::power::pow(256, 7));
            assert(vstd::arithmetic::power::pow(256, 7) == 0x100_0000_0000_0000) by {
                reveal(vstd::arithmetic::power::pow);
                reveal_with_fuel(vstd::arithmetic::power::pow, 8);
            }
        }
        s[at] as u64 + 256 * high
    }
}

/// The digit of `n` in base `base` that `k` lower ones stand behind.
pub open spec fn digit(n: nat, base: nat, k: nat) -> nat
    decreases k,
{
    if k == 0 {
        n % base
    } else {
        digit(n / base, base, (k - 1) as nat)
    }
}

pub fn digit_of(n: u64, base: u64, k: usize) -> (r: u64)
    requires
        base > 0,
    ensures
        r == digit(n as nat, base as nat, k as nat),
        r < base,
{
    let mut v: u64 = n;
    let mut i: usize = k;
    while i > 0
        invariant
            base > 0,
            digit(v as nat, base as nat, i as nat) == digit(n as nat, base as nat, k as nat),
        decreases i,
    {
        v = v / base;
        i -= 1;
    }
    v % base
}

/// A digit is less than its base.
pub proof fn lemma_digit(n: nat, base: nat, k: nat)
    requires
        base > 0,
    ensures
        digit(n, base, k) < base,
    decreases k,
{
    if k > 0 {
        lemma_digit(n / base, base, (k - 1) as nat);
    } else {
        vstd::arithmetic::div_mod::lemma_mod_bound(n as int, base as int);
    }
}

/// The bytes from `from` up to but not including `to`.
pub fn bytes_part(s: &[u8], from: usize, to: usize) -> (r: Vec<u8>)
    requires
        from <= to <= s@.len(),
    ensures
        r@ == s@.subrange(from as int, to as int),
{
    let mut out: Vec<u8> = Vec::new();
    let mut i: usize = from;
    while i < to
        invariant
            from <= i <= to <= s@.len(),
            out@ == s@.subrange(from as int, i as int),
        decreases to - i,
    {
        out.push(s[i]);
        i += 1;
        proof {
            assert(out@ =~= s@.subrange(from as int, i as int));
        }
    }
    out
}

/// A copy of the bytes.
pub fn bytes_copy(s: &[u8]) -> (r: Vec<u8>)
    ensures
        r@ == s@,
{
    let r = bytes_part(s, 0, s.len());
    proof {
        assert(r@ =~= s@);
    }
    r
}

/// A number that is written in `k` bytes, the lowest first, is read back.
pub proof fn law_numbers_are_read_back(s: Seq<u8>, at: int, n: nat, k: nat)
    requires
        0 <= at,
        at + k <= s.len(),
        s.subrange(at, at + k) == crate::pkg::le_bytes(n, k),
        n < vstd::arithmetic::power::pow(256, k),
    ensures
        le(s, at, k) == n,
    decreases k,
{
    reveal(vstd::arithmetic::power::pow);
    lemma_le_bytes_len(n, k);
    if k > 0 {
        let whole = s.subrange(at, at + k);
        let high = crate::pkg::le_bytes(n / 256, (k - 1) as nat);
        assert(whole == seq![(n % 256) as u8] + high);
        lemma_le_bytes_len(n / 256, (k - 1) as nat);
        assert(s[at] == whole[0]);
        assert(s.subrange(at + 1, at + k) =~= whole.subrange(1, k as int));
        assert(whole.subrange(1, k as int) =~= high);
        assert(n / 256 < vstd::arithmetic::power::pow(256, (k - 1) as nat)) by (nonlinear_arith)
            requires
                n < 256 * vstd::arithmetic::power::pow(256, (k - 1) as nat),
        ;
        assert(at + 1 + (k - 1) as nat == at + k);
        law_numbers_are_read_back(s, at + 1, n / 256, (k - 1) as nat);
    }
}

/// A number takes as many bytes as it is given.
pub proof fn lemma_le_bytes_len(n: nat, k: nat)
    ensures
        crate::pkg::le_bytes(n, k).len() == k,
    decreases k,
{
    if k > 0 {
        lemma_le_bytes_len(n / 256, (k - 1) as nat);
    }
}

/// The number whose digits in a base are given, the lowest first.
pub open spec fn of_digits(digits: Seq<nat>, base: nat) -> nat
    decreases digits.len(),
{
    if digits.len() == 0 {
        0
    } else {
        digits[0] + base * of_digits(digits.skip(1), base)
    }
}

/// The digits of a number are those that it was made of.
pub proof fn law_digits_are_read_back(digits: Seq<nat>, base: nat, k: int)
    requires
        base > 0,
        0 <= k < digits.len(),
        forall|i: int| 0 <= i < digits.len() ==> #[trigger] digits[i] < base,
    ensures
        digit(of_digits(digits, base), base, k as nat) == digits[k],
    decreases digits.len(),
{
    let rest = digits.skip(1);
    let high = of_digits(rest, base);
    vstd::arithmetic::div_mod::lemma_fundamental_div_mod_converse(
        of_digits(digits, base) as int,
        base as int,
        high as int,
        digits[0] as int,
    );
    if k > 0 {
        assert forall|i: int| 0 <= i < rest.len() implies #[trigger] rest[i] < base by {
            assert(rest[i] == digits[i + 1]);
        }
        law_digits_are_read_back(rest, base, k - 1);
    }
}

/// A number of `n` digits is below the base to the power of `n`.
pub proof fn lemma_of_digits_bound(digits: Seq<nat>, base: nat)
    requires
        base > 0,
        forall|i: int| 0 <= i < digits.len() ==> #[trigger] digits[i] < base,
    ensures
        of_digits(digits, base) < vstd::arithmetic::power::pow(base as int, digits.len()),
    decreases digits.len(),
{
    reveal(vstd::arithmetic::power::pow);
    if digits.len() > 0 {
        let rest = digits.skip(1);
        assert forall|i: int| 0 <= i < rest.len() implies #[trigger] rest[i] < base by {
            assert(rest[i] == digits[i + 1]);
        }
        lemma_of_digits_bound(rest, base);
        let high = of_digits(rest, base) as int;
        let p = vstd::arithmetic::power::pow(base as int, rest.len());
        let b = base as int;
        let d = digits[0] as int;
        assert(d + b * high < b * p) by (nonlinear_arith)
            requires
                d < b,
                high + 1 <= p,
                b > 0,
        ;
    }
}

/// Whether the bytes from `at` on are these numbers, one behind the other, each in `size`
/// bytes with the lowest first.
pub open spec fn stores(d: Seq<u8>, at: int, list: Seq<u32>, size: nat) -> bool {
    &&& 0 <= at
    &&& at + list.len() * size <= d.len()
    &&& forall|j: int|
        0 <= j < list.len() ==> #[trigger] d.subrange(at + j * size, at + j * size + size)
            == crate::pkg::le_bytes(list[j] as nat, size)
}

/// Numbers that are stored one behind the other are read back.
pub proof fn lemma_stored(d: Seq<u8>, at: int, list: Seq<u32>, size: nat, j: int)
    requires
        stores(d, at, list, size),
        size == 2 || size == 4,
        size == 2 ==> forall|i: int| 0 <= i < list.len() ==> #[trigger] list[i] < 0x1_0000,
        0 <= j < list.len(),
    ensures
        le(d, at + j * size, size) == list[j],
        at <= at + j * size,
        at + j * size + size <= d.len(),
{
    reveal_with_fuel(vstd::arithmetic::power::pow, 5);
    assert(0 <= j * size && j * size + size <= list.len() * size) by (nonlinear_arith)
        requires
            0 <= j < list.len(),
            size >= 0,
    ;
    law_numbers_are_read_back(d, at + j * size, list[j] as nat, size);
}

} // verus!
