//! Bit-level vocabulary shared by the candidate masks of the solver.
//!
//! A mask is a machine word in which bit `d` stands for digit `d + 1` and
//! bit 9 is the solved flag.  All reasoning about masks goes through
//! [`has_bit`]: the lemmas of this module turn the bitwise operators into
//! statements about single bits, so that the rest of the library never needs
//! the bit-vector solver.

use vstd::prelude::*;
use vstd::std_specs::bits::{axiom_u64_trailing_zeros, u64_trailing_zeros};

verus! {

/// All nine digits possible.
pub const ALL_CAND: usize = 0x1FF;

/// The solved flag.
pub const SOLVED: usize = 0x200;

/// One more than the largest well-formed mask.
pub const MASK_LIMIT: usize = 0x400;

/// Whether bit `d` of `v` is set.
pub closed spec fn has_bit(v: usize, d: nat) -> bool {
    d < 64 && ((v as u64) >> (d as u64)) & 1 == 1
}

/// One if bit `d` of `v` is set, zero otherwise.
pub open spec fn bit_val(v: usize, d: nat) -> nat {
    if has_bit(v, d) {
        1
    } else {
        0
    }
}

/// The number of digits (bits 0 to 8) that `v` holds.
pub open spec fn digit_count(v: usize) -> nat {
    bit_val(v, 0) + bit_val(v, 1) + bit_val(v, 2) + bit_val(v, 3) + bit_val(v, 4) + bit_val(v, 5)
        + bit_val(v, 6) + bit_val(v, 7) + bit_val(v, 8)
}

/// The number of ones in the binary representation of `v`.
pub open spec fn ones(v: nat) -> nat
    decreases v,
{
    if v == 0 {
        0
    } else {
        (v % 2) + ones(v / 2)
    }
}

/// `usize::count_ones` returns the number of ones in the binary
/// representation of its argument.
pub assume_specification[ usize::count_ones ](v: usize) -> (r: u32)
    ensures
        r == ones(v as nat),
;

/// A bit of `a & b` is set where it is set in both.
pub broadcast proof fn lemma_has_bit_and(a: usize, b: usize, d: nat)
    ensures
        #[trigger] has_bit(a & b, d) == (has_bit(a, d) && has_bit(b, d)),
{
    if d < 64 {
        let e = d as u64;
        assert((((a & b) as u64) >> e) & 1 == 1 <==> (((a as u64) >> e) & 1 == 1 && ((b as u64)
            >> e) & 1 == 1)) by (bit_vector)
            requires
                e < 64,
        ;
    }
}

/// A bit of `a | b` is set where it is set in either.
pub broadcast proof fn lemma_has_bit_or(a: usize, b: usize, d: nat)
    ensures
        #[trigger] has_bit(a | b, d) == (has_bit(a, d) || has_bit(b, d)),
{
    if d < 64 {
        let e = d as u64;
        assert((((a | b) as u64) >> e) & 1 == 1 <==> (((a as u64) >> e) & 1 == 1 || ((b as u64)
            >> e) & 1 == 1)) by (bit_vector)
            requires
                e < 64,
        ;
    }
}

/// A low bit of `!a` is set where it is not set in `a`.
pub broadcast proof fn lemma_has_bit_not(a: usize, d: nat)
    requires
        d < 32,
    ensures
        #[trigger] has_bit(!a, d) == !has_bit(a, d),
{
    let e = d as u64;
    assert((((!a) as u64) >> e) & 1 == 1 <==> !(((a as u64) >> e) & 1 == 1)) by (bit_vector)
        requires
            e < 32,
    ;
}

/// The mask `1 << e` holds bit `e` and no other.
pub broadcast proof fn lemma_has_bit_shl(e: usize, d: nat)
    requires
        e < 32,
    ensures
        #[trigger] has_bit(1usize << e, d) == (d == e),
{
    if d < 64 {
        let k = d as u64;
        assert((((1usize << e) as u64) >> k) & 1 == 1 <==> k == e) by (bit_vector)
            requires
                e < 32,
                k < 64,
        ;
    }
}

/// The value of bit `d`: two to the power of `d`, for the ten bits of a
/// mask.
pub open spec fn bit_weight(d: nat) -> nat {
    if d == 0 {
        1
    } else if d == 1 {
        2
    } else if d == 2 {
        4
    } else if d == 3 {
        8
    } else if d == 4 {
        16
    } else if d == 5 {
        32
    } else if d == 6 {
        64
    } else if d == 7 {
        128
    } else if d == 8 {
        256
    } else {
        512
    }
}

/// Bit `d` of a mask, in terms of division: it is set where the mask,
/// divided by the value of the bit, is odd.
pub proof fn lemma_has_bit_value(v: usize, d: nat)
    requires
        d < 10,
    ensures
        has_bit(v, d) == ((v as nat / bit_weight(d)) % 2 == 1),
{
    let x = v as u64;
    assert(((x >> 0) & 1 == 1) == (x % 2 == 1) && ((x >> 1) & 1 == 1) == ((x / 2) % 2 == 1) && ((x
        >> 2) & 1 == 1) == ((x / 4) % 2 == 1) && ((x >> 3) & 1 == 1) == ((x / 8) % 2 == 1) && ((x
        >> 4) & 1 == 1) == ((x / 16) % 2 == 1) && ((x >> 5) & 1 == 1) == ((x / 32) % 2 == 1) && ((x
        >> 6) & 1 == 1) == ((x / 64) % 2 == 1) && ((x >> 7) & 1 == 1) == ((x / 128) % 2 == 1) && ((x
        >> 8) & 1 == 1) == ((x / 256) % 2 == 1) && ((x >> 9) & 1 == 1) == ((x / 512) % 2 == 1))
        by (bit_vector);
    assert(v as nat / 1 == v as nat);
}

/// The mask of a single digit lies among the candidates and counts as one.
pub proof fn lemma_digit_mask(e: usize)
    requires
        e < 9,
    ensures
        1usize << e <= ALL_CAND,
        0 < 1usize << e,
        digit_count(1usize << e) == 1,
        digit_count((1usize << e) | SOLVED) == 1,
        (1usize << e) | SOLVED < MASK_LIMIT,
        has_bit((1usize << e) | SOLVED, 9),
        forall|d: nat| d < 9 ==> has_bit((1usize << e) | SOLVED, d) == (d == e),
{
    assert(0 < 1usize << e <= 0x1FF && (1usize << e) | 0x200 < 0x400) by (bit_vector)
        requires
            e < 9,
    ;
    let v = (1usize << e) | SOLVED;
    assert forall|d: nat| d < 10 implies has_bit(1usize << e, d) == (d == e) && #[trigger] has_bit(
        v,
        d,
    ) == (d == e || d == 9) by {
        lemma_has_bit_shl(e, d);
        lemma_has_bit_or(1usize << e, SOLVED, d);
        lemma_has_bit_solved(d);
    }
    assert(has_bit(v, 0) == (0 == e));
    assert(has_bit(v, 1) == (1 == e));
    assert(has_bit(v, 2) == (2 == e));
    assert(has_bit(v, 3) == (3 == e));
    assert(has_bit(v, 4) == (4 == e));
    assert(has_bit(v, 5) == (5 == e));
    assert(has_bit(v, 6) == (6 == e));
    assert(has_bit(v, 7) == (7 == e));
    assert(has_bit(v, 8) == (8 == e));
    assert(has_bit(v, 9));
    lemma_has_bit_shl(e, 0);
    lemma_has_bit_shl(e, 1);
    lemma_has_bit_shl(e, 2);
    lemma_has_bit_shl(e, 3);
    lemma_has_bit_shl(e, 4);
    lemma_has_bit_shl(e, 5);
    lemma_has_bit_shl(e, 6);
    lemma_has_bit_shl(e, 7);
    lemma_has_bit_shl(e, 8);
}

/// A mask that counts one digit holds no two different ones.
pub proof fn lemma_one_bit(v: usize, a: nat, b: nat)
    requires
        digit_count(v) == 1,
        a < 9,
        b < 9,
        has_bit(v, a),
        has_bit(v, b),
    ensures
        a == b,
{
    assert(a == 0 || a == 1 || a == 2 || a == 3 || a == 4 || a == 5 || a == 6 || a == 7 || a
        == 8);
    assert(b == 0 || b == 1 || b == 2 || b == 3 || b == 4 || b == 5 || b == 6 || b == 7 || b
        == 8);
}

/// Striking digit `e` leaves every other bit as it was.
proof fn lemma_strike_digit_at(v: usize, e: usize, d: nat)
    requires
        e < 9,
        d < 10,
    ensures
        has_bit(v & !(1usize << e), d) == (has_bit(v, d) && d != e),
{
    let m = 1usize << e;
    lemma_has_bit_and(v, !m, d);
    lemma_has_bit_not(m, d);
    lemma_has_bit_shl(e, d);
}

/// Striking one digit takes one from the count where the mask held it.
pub proof fn lemma_strike_digit(v: usize, e: usize)
    requires
        e < 9,
    ensures
        v & (1usize << e) != 0 <==> has_bit(v, e as nat),
        digit_count(v & !(1usize << e)) + bit_val(v, e as nat) == digit_count(v),
{
    let k = e as u64;
    assert((v & (1usize << e) != 0) == (((v as u64) >> k) & 1 == 1)) by (bit_vector)
        requires
            e < 9,
            k == e as u64,
    ;
    lemma_strike_digit_at(v, e, 0);
    lemma_strike_digit_at(v, e, 1);
    lemma_strike_digit_at(v, e, 2);
    lemma_strike_digit_at(v, e, 3);
    lemma_strike_digit_at(v, e, 4);
    lemma_strike_digit_at(v, e, 5);
    lemma_strike_digit_at(v, e, 6);
    lemma_strike_digit_at(v, e, 7);
    lemma_strike_digit_at(v, e, 8);
}

/// The empty mask has no bit.
pub broadcast proof fn lemma_has_bit_zero(d: nat)
    ensures
        !#[trigger] has_bit(0, d),
{
    if d < 64 {
        let k = d as u64;
        assert((0u64 >> k) & 1 == 0) by (bit_vector);
    }
}

/// The mask of all candidates has exactly the nine digit bits.
pub broadcast proof fn lemma_has_bit_all(d: nat)
    ensures
        #[trigger] has_bit(ALL_CAND, d) == (d < 9),
{
    if d < 64 {
        let k = d as u64;
        assert(((0x1FFu64 >> k) & 1 == 1) <==> k < 9) by (bit_vector)
            requires
                k < 64,
        ;
    }
}

/// The solved flag is bit 9 and nothing else.
pub broadcast proof fn lemma_has_bit_solved(d: nat)
    ensures
        #[trigger] has_bit(SOLVED, d) == (d == 9),
{
    if d < 64 {
        let k = d as u64;
        assert(((0x200u64 >> k) & 1 == 1) <==> k == 9) by (bit_vector)
            requires
                k < 64,
        ;
    }
}

/// A mask below `2^n` has no bit at or above `n`.
pub proof fn lemma_has_bit_limit(v: usize, d: nat)
    requires
        v < MASK_LIMIT,
        d >= 10,
    ensures
        !has_bit(v, d),
{
    if d < 64 {
        let k = d as u64;
        let x = v as u64;
        assert((x >> k) & 1 == 0) by (bit_vector)
            requires
                x < 0x400,
                10 <= k < 64,
        ;
    }
}

/// A mask of digits alone has no bit at or above 9.
pub proof fn lemma_digits_only(v: usize, d: nat)
    requires
        v <= ALL_CAND,
        d >= 9,
    ensures
        !has_bit(v, d),
{
    if d < 64 {
        let k = d as u64;
        let x = v as u64;
        assert((x >> k) & 1 == 0) by (bit_vector)
            requires
                x <= 0x1FF,
                9 <= k < 64,
        ;
    }
}

/// Striking the bits of `m` from `v` leaves none of them, and leaves `v`
/// as it is where it held none.
pub proof fn lemma_strike(v: usize, m: usize)
    ensures
        (v & !m) & m == 0,
        v & m == 0 <==> v & !m == v,
        v & !m <= v,
        v & 0 == 0,
{
    assert((v & !m) & m == 0 && (v & m == 0 <==> v & !m == v) && v & !m <= v && v & 0 == 0)
        by (bit_vector);
}

/// Bitwise "and" never grows a mask; "or" of two masks within the limit
/// stays within it.
pub proof fn lemma_mask_bounds(a: usize, b: usize)
    ensures
        a & b <= a,
        a & b <= b,
        a < MASK_LIMIT && b < MASK_LIMIT ==> (a | b) < MASK_LIMIT,
        a <= ALL_CAND && b <= ALL_CAND ==> (a | b) <= ALL_CAND,
{
    assert(a & b <= a && a & b <= b && ((a < 0x400 && b < 0x400) ==> (a | b) < 0x400) && ((a
        <= 0x1FF && b <= 0x1FF) ==> (a | b) <= 0x1FF)) by (bit_vector);
}

/// Two masks within the limit that agree on bits 0 to 9 are equal.
pub proof fn lemma_mask_ext(a: usize, b: usize)
    requires
        a < MASK_LIMIT,
        b < MASK_LIMIT,
        forall|d: nat| d < 10 ==> has_bit(a, d) == has_bit(b, d),
    ensures
        a == b,
{
    let x = a as u64;
    let y = b as u64;
    assert(has_bit(a, 0) == has_bit(b, 0));
    assert(has_bit(a, 1) == has_bit(b, 1));
    assert(has_bit(a, 2) == has_bit(b, 2));
    assert(has_bit(a, 3) == has_bit(b, 3));
    assert(has_bit(a, 4) == has_bit(b, 4));
    assert(has_bit(a, 5) == has_bit(b, 5));
    assert(has_bit(a, 6) == has_bit(b, 6));
    assert(has_bit(a, 7) == has_bit(b, 7));
    assert(has_bit(a, 8) == has_bit(b, 8));
    assert(has_bit(a, 9) == has_bit(b, 9));
    assert(x == y) by (bit_vector)
        requires
            x < 0x400,
            y < 0x400,
            ((x >> 0) & 1 == 1) == ((y >> 0) & 1 == 1),
            ((x >> 1) & 1 == 1) == ((y >> 1) & 1 == 1),
            ((x >> 2) & 1 == 1) == ((y >> 2) & 1 == 1),
            ((x >> 3) & 1 == 1) == ((y >> 3) & 1 == 1),
            ((x >> 4) & 1 == 1) == ((y >> 4) & 1 == 1),
            ((x >> 5) & 1 == 1) == ((y >> 5) & 1 == 1),
            ((x >> 6) & 1 == 1) == ((y >> 6) & 1 == 1),
            ((x >> 7) & 1 == 1) == ((y >> 7) & 1 == 1),
            ((x >> 8) & 1 == 1) == ((y >> 8) & 1 == 1),
            ((x >> 9) & 1 == 1) == ((y >> 9) & 1 == 1),
    ;
}

/// The last binary digit and the ones before it.
proof fn lemma_ones_step(n: nat)
    ensures
        ones(n) == n % 2 + ones(n / 2),
{
    reveal_with_fuel(ones, 2);
}

/// The last three binary digits and the ones before them.
proof fn lemma_ones_three(n: nat)
    ensures
        ones(n) == n % 2 + (n / 2) % 2 + (n / 4) % 2 + ones(n / 8),
{
    lemma_ones_step(n);
    lemma_ones_step(n / 2);
    lemma_ones_step(n / 4);
    assert(n / 2 / 2 == n / 4);
    assert(n / 4 / 2 == n / 8);
}

/// The ones of a number below 512 are its nine binary digits.
proof fn lemma_ones_nine(n: nat)
    requires
        n < 512,
    ensures
        ones(n) == n % 2 + (n / 2) % 2 + (n / 4) % 2 + (n / 8) % 2 + (n / 16) % 2 + (n / 32) % 2
            + (n / 64) % 2 + (n / 128) % 2 + (n / 256) % 2,
{
    lemma_ones_three(n);
    let m = n / 8;
    lemma_ones_three(m);
    assert(m / 2 == n / 16 && m / 4 == n / 32 && m / 8 == n / 64);
    let k = n / 64;
    lemma_ones_three(k);
    assert(k / 2 == n / 128 && k / 4 == n / 256 && k / 8 == 0);
    assert(ones(0) == 0);
}

/// On a mask of digits alone, the number of ones is the number of digits.
pub proof fn lemma_ones_is_digit_count(v: usize)
    requires
        v <= ALL_CAND,
    ensures
        ones(v as nat) == digit_count(v),
{
    let x = v as u64;
    assert(((x >> 0) & 1 == 1) == (x % 2 == 1) && ((x >> 1) & 1 == 1) == ((x / 2) % 2 == 1) && ((x
        >> 2) & 1 == 1) == ((x / 4) % 2 == 1) && ((x >> 3) & 1 == 1) == ((x / 8) % 2 == 1) && ((x
        >> 4) & 1 == 1) == ((x / 16) % 2 == 1) && ((x >> 5) & 1 == 1) == ((x / 32) % 2 == 1) && ((x
        >> 6) & 1 == 1) == ((x / 64) % 2 == 1) && ((x >> 7) & 1 == 1) == ((x / 128) % 2 == 1) && ((x
        >> 8) & 1 == 1) == ((x / 256) % 2 == 1)) by (bit_vector);
    let n = v as nat;
    lemma_ones_nine(n);
    assert(bit_val(v, 0) == n % 2);
    assert(bit_val(v, 1) == (n / 2) % 2);
    assert(bit_val(v, 2) == (n / 4) % 2);
    assert(bit_val(v, 3) == (n / 8) % 2);
    assert(bit_val(v, 4) == (n / 16) % 2);
    assert(bit_val(v, 5) == (n / 32) % 2);
    assert(bit_val(v, 6) == (n / 64) % 2);
    assert(bit_val(v, 7) == (n / 128) % 2);
    assert(bit_val(v, 8) == (n / 256) % 2);
}

/// The position of the lowest set bit of `v`; 64 where `v` is zero.
pub closed spec fn lowest_bit(v: usize) -> nat {
    u64_trailing_zeros(v as u64) as nat
}

/// The lowest set bit of a non-zero mask is set, and nothing below it is.
pub proof fn lemma_lowest_bit(v: usize)
    ensures
        v == 0 <==> lowest_bit(v) == 64,
        lowest_bit(v) <= 64,
        v != 0 ==> has_bit(v, lowest_bit(v)),
        forall|e: nat| e < lowest_bit(v) ==> !has_bit(v, e),
        0 < v < MASK_LIMIT ==> lowest_bit(v) < 10,
{
    let x = v as u64;
    axiom_u64_trailing_zeros(x);
    let t = u64_trailing_zeros(x);
    assert forall|e: nat| e < t implies !has_bit(v, e) by {
        let j = e as u64;
        assert((x >> j) & 1u64 == 0u64);
    }
    if 0 < v < MASK_LIMIT && t >= 10 {
        lemma_has_bit_limit(v, t as nat);
    }
}

/// A mask within the limit that holds none of the bits 0 to 9 is empty.
pub proof fn lemma_no_bit(v: usize)
    requires
        v < MASK_LIMIT,
        forall|d: nat| d < 10 ==> !has_bit(v, d),
    ensures
        v == 0,
{
    assert forall|d: nat| d < 10 implies has_bit(v, d) == has_bit(0, d) by {
        lemma_has_bit_zero(d);
    }
    lemma_mask_ext(v, 0);
}

/// A mask with bit `d` set and nothing below it has `d` as its lowest bit.
pub proof fn lemma_lowest_bit_is(v: usize, d: nat)
    requires
        has_bit(v, d),
        forall|e: nat| e < d ==> !has_bit(v, e),
    ensures
        lowest_bit(v) == d,
{
    lemma_lowest_bit(v);
    assert(v != 0) by {
        lemma_has_bit_zero(d);
    }
    let t = lowest_bit(v);
    if t < d {
        assert(!has_bit(v, t));
    }
    if d < t {
        assert(!has_bit(v, d));
    }
}

/// The position of the lowest set bit of `v`, computed with
/// `u64::trailing_zeros`.
pub fn lowest_bit_index(v: usize) -> (r: usize)
    ensures
        r == lowest_bit(v),
{
    proof {
        axiom_u64_trailing_zeros(v as u64);
    }
    (v as u64).trailing_zeros() as usize
}

/// Clearing the lowest set bit of `x` with `x & (x - 1)` removes exactly
/// that bit, and the difference is the bit itself.
pub proof fn lemma_clear_lowest(x: usize)
    requires
        x != 0,
    ensures
        lowest_bit(x) < usize::BITS,
        x & ((x - 1) as usize) < x,
        x - (x & ((x - 1) as usize)) == 1usize << (lowest_bit(x) as usize),
        forall|d: nat|
            has_bit(x & ((x - 1) as usize), d) == (has_bit(x, d) && d != lowest_bit(x)),
{
    let w = x as u64;
    axiom_u64_trailing_zeros(w);
    let t = u64_trailing_zeros(w) as u64;
    let y = x & ((x - 1) as usize);
    let ts = t as usize;
    assert(y < x && x - y == 1usize << ts && t < usize::BITS) by (bit_vector)
        requires
            x != 0,
            w == x as u64,
            t < 64,
            ts == t as usize,
            (w >> t) & 1 == 1,
            w << ((64 - t) as u64) == 0,
            y == x & ((x - 1) as usize),
    ;
    assert forall|d: nat| has_bit(y, d) == (has_bit(x, d) && d != t) by {
        if d < 64 {
            let k = d as u64;
            assert((((y as u64) >> k) & 1 == 1) <==> (((x as u64) >> k) & 1 == 1 && k != t))
                by (bit_vector)
                requires
                    x != 0,
                    w == x as u64,
                    t < 64,
                    k < 64,
                    (w >> t) & 1 == 1,
                    w << ((64 - t) as u64) == 0,
                    y == x & ((x - 1) as usize),
            ;
        }
    }
}

/// The single-bit mask of digit position `d`, or zero where `f` rejects it.
pub open spec fn pick(f: spec_fn(nat) -> bool, d: nat) -> usize {
    if f(d) {
        1usize << (d as usize)
    } else {
        0
    }
}

/// The mask within the limit whose bit `d` is set exactly where `f(d)` holds.
pub closed spec fn from_bits(f: spec_fn(nat) -> bool) -> usize {
    pick(f, 0) | pick(f, 1) | pick(f, 2) | pick(f, 3) | pick(f, 4) | pick(f, 5) | pick(f, 6)
        | pick(f, 7) | pick(f, 8) | pick(f, 9)
}

/// A mask made bit by bit holds the bits that it was made of.
pub broadcast proof fn lemma_from_bits(f: spec_fn(nat) -> bool, d: nat)
    ensures
        #[trigger] has_bit(from_bits(f), d) == (d < 10 && f(d)),
        from_bits(f) < MASK_LIMIT,
{
    broadcast use lemma_has_bit_or, lemma_has_bit_shl, lemma_has_bit_zero;

    let p = |k: nat| pick(f, k);
    assert(p(0) < 0x400 && p(1) < 0x400 && p(2) < 0x400 && p(3) < 0x400 && p(4) < 0x400 && p(5)
        < 0x400 && p(6) < 0x400 && p(7) < 0x400 && p(8) < 0x400 && p(9) < 0x400) by {
        assert(1usize << 0usize == 1 && 1usize << 1usize == 2 && 1usize << 2usize == 4 && 1usize
            << 3usize == 8 && 1usize << 4usize == 16 && 1usize << 5usize == 32 && 1usize << 6usize
            == 64 && 1usize << 7usize == 128 && 1usize << 8usize == 256 && 1usize << 9usize == 512)
            by (bit_vector);
    }
    let a1 = p(0) | p(1);
    lemma_mask_bounds(p(0), p(1));
    let a2 = a1 | p(2);
    lemma_mask_bounds(a1, p(2));
    let a3 = a2 | p(3);
    lemma_mask_bounds(a2, p(3));
    let a4 = a3 | p(4);
    lemma_mask_bounds(a3, p(4));
    let a5 = a4 | p(5);
    lemma_mask_bounds(a4, p(5));
    let a6 = a5 | p(6);
    lemma_mask_bounds(a5, p(6));
    let a7 = a6 | p(7);
    lemma_mask_bounds(a6, p(7));
    let a8 = a7 | p(8);
    lemma_mask_bounds(a7, p(8));
    lemma_mask_bounds(a8, p(9));
}

/// A mask made bit by bit lies within the limit.
pub broadcast proof fn lemma_from_bits_limit(f: spec_fn(nat) -> bool)
    ensures
        #[trigger] from_bits(f) < MASK_LIMIT,
{
    lemma_from_bits(f, 0);
}

pub broadcast group group_bits {
    lemma_has_bit_and,
    lemma_has_bit_or,
    lemma_has_bit_not,
    lemma_has_bit_shl,
    lemma_has_bit_zero,
    lemma_has_bit_all,
    lemma_has_bit_solved,
    lemma_from_bits,
    lemma_from_bits_limit,
}

} // verus!
