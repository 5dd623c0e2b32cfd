//! The candidates of one cell: which of the nine digits remain possible,
//! and whether the cell has been settled.

use vstd::prelude::*;
use vstd::std_specs::convert::FromSpecImpl;
use crate::bits::{
    digit_count, group_bits, has_bit, lemma_clear_lowest, lemma_has_bit_limit, lemma_lowest_bit,
    lemma_mask_bounds, lemma_ones_is_digit_count, lowest_bit, lowest_bit_index, ALL_CAND,
    MASK_LIMIT, SOLVED,
};

verus! {

broadcast use group_bits;

/// The mask that a puzzle character stands for: a settled digit for `'1'`
/// to `'9'`, every digit possible for a blank, nothing for any other
/// character.
pub open spec fn char_mask(c: char) -> Option<usize> {
    if '1' <= c && c <= '9' {
        Some(SOLVED | (1usize << ((c as u32 - '1' as u32) as usize)))
    } else if c == '0' || c == '.' || c == '*' || c == 'x' {
        Some(ALL_CAND)
    } else {
        None
    }
}

/// The digit that a mask is settled to: one more than the position of its
/// lowest digit bit where the solved flag is set, nothing otherwise.
pub open spec fn mask_value(v: usize) -> Option<usize> {
    if has_bit(v, 9) {
        Some((lowest_bit(v & ALL_CAND) + 1) as usize)
    } else {
        None
    }
}

/// The candidates of one cell.  Bit `d` of the mask says that digit `d + 1`
/// is still possible; bit 9 is the solved flag.
#[derive(Clone, Copy, Debug, PartialEq, Eq)]
pub struct CandidateSet(usize);

impl View for CandidateSet {
    type V = usize;

    closed spec fn view(&self) -> usize {
        self.0
    }
}

impl CandidateSet {
    #[verifier::type_invariant]
    spec fn within_limit(self) -> bool {
        self.0 < MASK_LIMIT
    }

    /// Every candidate set stays within the ten meaningful bits.
    pub fn bounded(&self)
        ensures
            self@ < MASK_LIMIT,
    {
        proof {
            use_type_invariant(self);
        }
    }

    /// The candidate set that a puzzle character stands for, if it stands
    /// for a cell.
    pub fn parse_position(c: char) -> (r: Option<Self>)
        ensures
            r.is_some() == char_mask(c).is_some(),
            r.is_some() ==> r.unwrap()@ == char_mask(c).unwrap(),
    {
        proof {
            assert(SOLVED | (1usize << 0usize) == 0x201 && SOLVED | (1usize << 1usize) == 0x202
                && SOLVED | (1usize << 2usize) == 0x204 && SOLVED | (1usize << 3usize) == 0x208
                && SOLVED | (1usize << 4usize) == 0x210 && SOLVED | (1usize << 5usize) == 0x220
                && SOLVED | (1usize << 6usize) == 0x240 && SOLVED | (1usize << 7usize) == 0x280
                && SOLVED | (1usize << 8usize) == 0x300) by (bit_vector);
        }
        match c {
            '1' => Some(CandidateSet::new(SOLVED | (1usize << 0usize))),
            '2' => Some(CandidateSet::new(SOLVED | (1usize << 1usize))),
            '3' => Some(CandidateSet::new(SOLVED | (1usize << 2usize))),
            '4' => Some(CandidateSet::new(SOLVED | (1usize << 3usize))),
            '5' => Some(CandidateSet::new(SOLVED | (1usize << 4usize))),
            '6' => Some(CandidateSet::new(SOLVED | (1usize << 5usize))),
            '7' => Some(CandidateSet::new(SOLVED | (1usize << 6usize))),
            '8' => Some(CandidateSet::new(SOLVED | (1usize << 7usize))),
            '9' => Some(CandidateSet::new(SOLVED | (1usize << 8usize))),
            '0' | '.' | '*' | 'x' => Some(CandidateSet::new(ALL_CAND)),
            _ => None,
        }
    }

    /// The candidate set with the mask `v`.
    pub fn new(v: usize) -> (r: Self)
        requires
            v < MASK_LIMIT,
        ensures
            r@ == v,
    {
        CandidateSet(v)
    }

    /// The number of digits still possible.
    pub fn num_candidates(self) -> (r: usize)
        ensures
            r == digit_count(self@),
    {
        proof {
            use_type_invariant(self);
            lemma_mask_bounds(self.0, !SOLVED);
            lemma_low_digits(self.0);
            lemma_ones_is_digit_count(self.0 & !SOLVED);
        }
        (self.0 & !SOLVED).count_ones() as usize
    }

    /// Whether the solved flag is set.
    pub fn is_solved(self) -> (r: bool)
        ensures
            r == has_bit(self@, 9),
    {
        proof {
            use_type_invariant(self);
            lemma_flag(self.0);
        }
        (self.0 & SOLVED) == SOLVED
    }

    /// Sets the solved flag of a set with exactly one candidate.
    pub fn set_solved(&mut self)
        requires
            digit_count(old(self)@) == 1,
        ensures
            final(self)@ == old(self)@ | SOLVED,
    {
        proof {
            use_type_invariant(*self);
            lemma_mask_bounds(self.0, SOLVED);
        }
        self.0 |= SOLVED;
    }

    /// The digit that the cell is settled to, from 1 to 9, if it is
    /// settled.
    pub fn value(self) -> (r: Option<usize>)
        ensures
            r == mask_value(self@),
            r.is_some() && digit_count(self@) > 0 ==> 1 <= r.unwrap() <= 9 && has_bit(
                self@,
                (r.unwrap() - 1) as nat,
            ),
    {
        if self.is_solved() {
            proof {
                use_type_invariant(self);
                lemma_low_digits(self.0);
                lemma_lowest_bit(self.0 & ALL_CAND);
                lemma_mask_bounds(self.0, ALL_CAND);
                if digit_count(self.0) > 0 {
                    if self.0 & ALL_CAND == 0 {
                        assert(digit_count(self.0 & ALL_CAND) == 0);
                    }
                    let t = lowest_bit(self.0 & ALL_CAND);
                    assert(has_bit(self.0 & ALL_CAND, t));
                }
            }
            let v = lowest_bit_index(self.0 & !SOLVED) + 1;
            Some(v)
        } else {
            None
        }
    }

    /// The mask without the solved flag.
    pub fn get_candidates(self) -> (r: usize)
        ensures
            r == self@ & ALL_CAND,
            r <= ALL_CAND,
    {
        proof {
            use_type_invariant(self);
            lemma_low_digits(self.0);
        }
        self.0 & !SOLVED
    }

    /// The mask, solved flag included.
    pub fn get(self) -> (r: usize)
        ensures
            r == self@,
            r < MASK_LIMIT,
    {
        proof {
            use_type_invariant(self);
        }
        self.0
    }
}

impl CandidateSet {
    /// An iterator over the single-digit masks of the candidates, lowest
    /// digit first.  The set itself is left as it was.
    pub fn into_iter(self) -> (it: CandidateSetIterator)
        ensures
            it@ == self@ & ALL_CAND,
    {
        CandidateSetIterator::new(self.get_candidates())
    }
}

impl Default for CandidateSet {
    /// The empty set, not settled.
    fn default() -> (r: Self)
        ensures
            r@ == 0,
    {
        CandidateSet(0)
    }
}

impl From<CandidateSet> for usize {
    /// The mask of the set, solved flag included.
    fn from(value: CandidateSet) -> (r: usize) {
        value.0
    }
}

impl FromSpecImpl<CandidateSet> for usize {
    open spec fn obeys_from_spec() -> bool {
        true
    }

    open spec fn from_spec(v: CandidateSet) -> usize {
        v@
    }
}

/// The single-bit masks of the bits of `m` below `n`, lowest first.
pub open spec fn items_below(m: usize, n: nat) -> Seq<usize>
    decreases n,
{
    if n == 0 {
        Seq::empty()
    } else {
        let rest = items_below(m, (n - 1) as nat);
        if has_bit(m, (n - 1) as nat) {
            rest.push(1usize << ((n - 1) as usize))
        } else {
            rest
        }
    }
}

/// What iterating over the mask `m` yields: one single-bit mask for each
/// set bit, lowest first.
pub open spec fn items(m: usize) -> Seq<usize> {
    items_below(m, 64)
}

/// Walks over the set bits of a mask, lowest first.  The view is the mask
/// of the bits still to come.
#[derive(Clone, Copy, Debug, Default)]
pub struct CandidateSetIterator(usize);

impl View for CandidateSetIterator {
    type V = usize;

    closed spec fn view(&self) -> usize {
        self.0
    }
}

impl CandidateSetIterator {
    /// An iterator over the set bits of `c`.
    pub fn new(c: usize) -> (it: Self)
        ensures
            it@ == c,
    {
        CandidateSetIterator(c)
    }

    /// Hands out the lowest bit still to come, as a single-bit mask, and
    /// removes it; `None` once no bit is left.
    pub fn next(&mut self) -> (r: Option<usize>)
        ensures
            old(self)@ == 0 ==> r.is_none() && final(self)@ == 0,
            old(self)@ != 0 ==> r == Some(1usize << (lowest_bit(old(self)@) as usize)),
            old(self)@ != 0 ==> final(self)@ == old(self)@ - r.unwrap(),
            forall|d: nat|
                has_bit(final(self)@, d) == (has_bit(old(self)@, d) && d != lowest_bit(
                    old(self)@,
                )),
            items(old(self)@) == (match r {
                Some(m) => seq![m] + items(final(self)@),
                None => Seq::empty(),
            }),
    {
        if self.0 > 0 {
            proof {
                lemma_clear_lowest(self.0);
                lemma_items_step(self.0);
            }
            let sav = self.0;
            self.0 &= self.0 - 1;
            Some(sav - self.0)
        } else {
            proof {
                lemma_lowest_bit(self.0);
                lemma_items_none(self.0, 64);
            }
            None
        }
    }
}

/// A mask without bits below `n` yields nothing below `n`.
pub proof fn lemma_items_none(m: usize, n: nat)
    requires
        forall|d: nat| d < n ==> !has_bit(m, d),
    ensures
        items_below(m, n) == Seq::<usize>::empty(),
    decreases n,
{
    if n > 0 {
        lemma_items_none(m, (n - 1) as nat);
    }
}

/// Iteration below `n` hands out the lowest bit first and goes on with
/// the rest.
proof fn lemma_items_below_step(x: usize, n: nat)
    requires
        x != 0,
        lowest_bit(x) < n,
    ensures
        items_below(x, n) == seq![1usize << (lowest_bit(x) as usize)] + items_below(
            x & ((x - 1) as usize),
            n,
        ),
    decreases n,
{
    let t = lowest_bit(x);
    let y = x & ((x - 1) as usize);
    lemma_clear_lowest(x);
    lemma_lowest_bit(x);
    let head = seq![1usize << (t as usize)];
    if n - 1 == t {
        lemma_items_none(x, t);
        lemma_items_none(y, n);
        assert(items_below(x, n) =~= head + items_below(y, n));
    } else {
        lemma_items_below_step(x, (n - 1) as nat);
        let k = (n - 1) as nat;
        assert(has_bit(y, k) == has_bit(x, k));
        assert(items_below(x, n) =~= head + items_below(y, n));
    }
}

/// Iteration hands out the lowest bit first and goes on with the rest.
pub proof fn lemma_items_step(x: usize)
    requires
        x != 0,
    ensures
        items(x) == seq![1usize << (lowest_bit(x) as usize)] + items(x & ((x - 1) as usize)),
{
    lemma_lowest_bit(x);
    lemma_items_below_step(x, 64);
}

/// Above its highest bit a mask yields nothing more.
proof fn lemma_items_high(m: usize, n: nat)
    requires
        m < MASK_LIMIT,
        n >= 10,
    ensures
        items_below(m, n) == items_below(m, 10),
    decreases n,
{
    if n > 10 {
        lemma_items_high(m, (n - 1) as nat);
        lemma_has_bit_limit(m, (n - 1) as nat);
    }
}

/// Iterating over a set of candidates yields as many items as it has
/// digits.
pub proof fn lemma_items_len(m: usize)
    requires
        m <= ALL_CAND,
    ensures
        items(m).len() == digit_count(m),
{
    lemma_items_high(m, 64);
    reveal_with_fuel(items_below, 11);
    assert(!has_bit(m, 9)) by {
        assert(m & ALL_CAND == m) by (bit_vector)
            requires
                m <= 0x1FF,
        ;
    }
}

/// Iterating over a cell with a single candidate yields exactly that
/// candidate's mask.
pub proof fn lemma_items_single(v: usize)
    requires
        v < MASK_LIMIT,
        digit_count(v) == 1,
    ensures
        items(v & ALL_CAND) == seq![v & ALL_CAND],
{
    let m = v & ALL_CAND;
    lemma_low_digits(v);
    lemma_lowest_bit(m);
    assert(m != 0) by {
        if m == 0 {
            assert(digit_count(m) == 0);
        }
    }
    let t = lowest_bit(m);
    lemma_clear_lowest(m);
    lemma_items_step(m);
    let y = m & ((m - 1) as usize);
    assert(y == 0) by {
        assert forall|d: nat| d < 10 implies has_bit(y, d) == has_bit(0, d) by {
            if has_bit(y, d) {
                assert(has_bit(m, d) && has_bit(m, t) && d != t);
                assert(d < 9 && t < 9);
                assert(digit_count(m) >= 2);
            }
        }
        crate::bits::lemma_mask_ext(y, 0);
    }
    lemma_items_none(0, 64);
    assert(items(m) =~= seq![m]);
}

/// Iterating over a cell with every candidate open yields nine items, the
/// masks of the digits in ascending order.
pub proof fn lemma_items_all()
    ensures
        items(ALL_CAND).len() == 9,
        forall|i: int| 0 <= i < 9 ==> items(ALL_CAND)[i] == 1usize << (i as usize),
{
    lemma_items_high(ALL_CAND, 64);
    reveal_with_fuel(items_below, 11);
    let s = items_below(ALL_CAND, 10);
    assert(s.len() == 9);
    assert(s[0] == 1usize << 0usize);
    assert(s[1] == 1usize << 1usize);
    assert(s[2] == 1usize << 2usize);
    assert(s[3] == 1usize << 3usize);
    assert(s[4] == 1usize << 4usize);
    assert(s[5] == 1usize << 5usize);
    assert(s[6] == 1usize << 6usize);
    assert(s[7] == 1usize << 7usize);
    assert(s[8] == 1usize << 8usize);
}

/// Within the limit, clearing the solved flag keeps exactly the digits.
pub proof fn lemma_low_digits(v: usize)
    requires
        v < MASK_LIMIT,
    ensures
        v & !SOLVED == v & ALL_CAND,
        v & ALL_CAND <= ALL_CAND,
        digit_count(v & ALL_CAND) == digit_count(v),
{
    assert(v & !0x200usize == v & 0x1FF && v & 0x1FF <= 0x1FF) by (bit_vector)
        requires
            v < 0x400,
    ;
}

/// The solved flag is set exactly where masking with it gives it back.
pub proof fn lemma_flag(v: usize)
    ensures
        has_bit(v, 9) == ((v & SOLVED) == SOLVED),
{
    assert(has_bit(v & SOLVED, 9) == has_bit(v, 9));
    if (v & SOLVED) != SOLVED {
        assert(v & 0x200usize == 0 || v & 0x200usize == 0x200) by (bit_vector);
    }
}

} // verus!
