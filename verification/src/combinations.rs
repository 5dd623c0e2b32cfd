//! The size-`k` subsets of the nine positions of a group, in lexicographic
//! order.
//!
//! A subset is held as `k` slots, each a position 0 to 8, in ascending
//! order.  Enumeration starts before the first subset and [`advance`]s
//! from one subset to the next.

use vstd::prelude::*;

verus! {

/// Slots that enumeration can hold: two to four of them, slot `i` leaving
/// room for the slots after it.
pub open spec fn sane(s: Seq<int>) -> bool {
    &&& 2 <= s.len() <= 4
    &&& forall|i: int| 0 <= i < s.len() ==> 0 <= #[trigger] s[i] && s[i] + (s.len() - i) <= 9
}

/// Slots that stand for a subset: ascending positions.
pub open spec fn ascending(s: Seq<int>) -> bool {
    &&& sane(s)
    &&& forall|i: int| 0 <= i < s.len() - 1 ==> #[trigger] s[i] < s[i + 1]
}

/// Where enumeration of the subsets of size `k` starts: just before the
/// first subset `0, 1, .., k - 1`.
pub open spec fn start_slots(k: int) -> Seq<int> {
    Seq::new(
        k as nat,
        |j: int|
            if j == k - 1 {
                k - 2
            } else {
                j
            },
    )
}

/// Whether slot `i` can move up and still leave room for the slots after
/// it.
pub open spec fn can_move(s: Seq<int>, i: int) -> bool {
    s[i] + (s.len() - i) < 9
}

/// The last slot below `n` that can move, or -1 if none can.
pub open spec fn pivot(s: Seq<int>, n: int) -> int
    decreases n,
{
    if n <= 0 {
        -1
    } else if can_move(s, n - 1) {
        n - 1
    } else {
        pivot(s, n - 1)
    }
}

/// The slots after `s` with its slot `i` moved up by one and the slots
/// after it packed right behind.
pub open spec fn moved(s: Seq<int>, i: int) -> Seq<int> {
    Seq::new(
        s.len(),
        |j: int|
            if j < i {
                s[j]
            } else {
                s[i] + 1 + (j - i)
            },
    )
}

/// The subset that follows `s` in lexicographic order, if there is one:
/// the last slot that can move does so, and the slots after it follow
/// right behind.
pub open spec fn advance(s: Seq<int>) -> Option<Seq<int>> {
    let i = pivot(s, s.len() as int);
    if i < 0 {
        None
    } else {
        Some(moved(s, i))
    }
}

/// The pivot lies below `n`, can move, and no slot between it and `n` can.
pub proof fn lemma_pivot(s: Seq<int>, n: int)
    requires
        0 <= n <= s.len(),
    ensures
        -1 <= pivot(s, n) < n,
        pivot(s, n) >= 0 ==> can_move(s, pivot(s, n)),
        forall|j: int| pivot(s, n) < j < n ==> !can_move(s, j),
    decreases n,
{
    if n > 0 && !can_move(s, n - 1) {
        lemma_pivot(s, n - 1);
    }
}

/// Advancing keeps slots sane and yields a subset.
pub proof fn lemma_advance_ascending(s: Seq<int>)
    requires
        sane(s),
        advance(s).is_some(),
        ascending(s) || s == start_slots(s.len() as int),
    ensures
        ascending(advance(s).unwrap()),
{
    let k = s.len() as int;
    lemma_pivot(s, k);
    let i = pivot(s, k);
    let t = moved(s, i);
    assert forall|j: int| 0 <= j < k implies 0 <= #[trigger] t[j] && t[j] + (k - j) <= 9 by {
        assert(0 <= s[j] && 0 <= s[i]);
    }
    assert forall|j: int| 0 <= j < k - 1 implies #[trigger] t[j] < t[j + 1] by {
        if j + 1 < i {
            assert(s[j] < s[j + 1]);
        } else if j + 1 == i {
            if ascending(s) {
                assert(s[j] < s[j + 1]);
            }
        }
    }
}

/// The number of ways to pick `r` of `n` things.
pub open spec fn binomial(n: int, r: int) -> nat
    decreases n,
{
    if r <= 0 {
        1
    } else if n <= 0 {
        0
    } else {
        binomial(n - 1, r) + binomial(n - 1, r - 1)
    }
}

/// The number of subsets that differ from `s` first at slot `j` or later
/// and come after it: at each such slot, those that hold a higher
/// position there.
pub open spec fn behind_from(s: Seq<int>, j: int) -> nat
    decreases s.len() - j,
{
    if j < 0 || j >= s.len() {
        0
    } else {
        binomial(8 - s[j], s.len() - j) + behind_from(s, j + 1)
    }
}

/// The number of subsets that come after `s` in lexicographic order.
pub open spec fn behind(s: Seq<int>) -> nat {
    behind_from(s, 0)
}

/// There is no way to pick more things than there are.
proof fn lemma_binomial_none(n: int, r: int)
    requires
        0 <= n < r,
    ensures
        binomial(n, r) == 0,
    decreases n,
{
    if n > 0 {
        lemma_binomial_none(n - 1, r);
        lemma_binomial_none(n - 1, r - 1);
    }
}

/// Where no slot from `j` on can move, nothing comes after on their
/// account.
proof fn lemma_behind_stuck(s: Seq<int>, j: int)
    requires
        sane(s),
        0 <= j <= s.len(),
        forall|m: int| j <= m < s.len() ==> !can_move(s, m),
    ensures
        behind_from(s, j) == 0,
    decreases s.len() - j,
{
    if j < s.len() {
        lemma_behind_stuck(s, j + 1);
        assert(!can_move(s, j));
        assert(0 <= s[j] && s[j] + (s.len() - j) <= 9);
        lemma_binomial_none(8 - s[j], s.len() - j);
    }
}

/// Slots packed right behind one another from slot `i` on leave all but
/// one of the subsets that a free choice from slot `j` on would give.
proof fn lemma_behind_packed(s: Seq<int>, i: int, j: int)
    requires
        sane(s),
        0 <= i <= j <= s.len(),
        i < s.len(),
        can_move(s, i),
    ensures
        behind_from(moved(s, i), j) + 1 == binomial(8 - s[i] - (j - i), s.len() - j),
    decreases s.len() - j,
{
    let t = moved(s, i);
    let k = s.len() as int;
    assert(0 <= s[i]);
    if j < k {
        lemma_behind_packed(s, i, j + 1);
        assert(t[j] == s[i] + 1 + (j - i));
        let m = 8 - t[j];
        assert(m >= 0);
        assert(binomial(m + 1, k - j) == binomial(m, k - j) + binomial(m, k - j - 1));
    }
}

/// Slots that agree below `i` differ in what comes after them by what
/// they differ from slot `i` on.
proof fn lemma_behind_prefix(s: Seq<int>, t: Seq<int>, i: int, j: int)
    requires
        s.len() == t.len(),
        0 <= j <= i <= s.len(),
        forall|m: int| 0 <= m < i ==> s[m] == t[m],
    ensures
        behind_from(s, j) - behind_from(s, i) == behind_from(t, j) - behind_from(t, i),
    decreases i - j,
{
    if j < i {
        lemma_behind_prefix(s, t, i, j + 1);
    }
}

/// Each step of the enumeration leaves one subset fewer to come, and
/// where it ends none is left.
pub proof fn lemma_advance_behind(s: Seq<int>)
    requires
        sane(s),
    ensures
        advance(s).is_none() ==> behind(s) == 0,
        advance(s).is_some() ==> sane(advance(s).unwrap()) && behind(advance(s).unwrap()) + 1
            == behind(s),
{
    let k = s.len() as int;
    lemma_pivot(s, k);
    let i = pivot(s, k);
    if i < 0 {
        lemma_behind_stuck(s, 0);
    } else {
        let t = moved(s, i);
        assert(0 <= s[i]);
        assert forall|j: int| 0 <= j < k implies 0 <= #[trigger] t[j] && t[j] + (k - j) <= 9 by {
            assert(0 <= s[j]);
        }
        lemma_behind_stuck(s, i + 1);
        lemma_behind_packed(s, i, i);
        lemma_behind_prefix(s, t, i, 0);
    }
}

/// The subsets that the enumeration still yields from `s` on, in order.
pub open spec fn rest(s: Seq<int>) -> Seq<Seq<int>>
    decreases behind(s),
    when sane(s)
    via rest_decreases
{
    match advance(s) {
        None => Seq::empty(),
        Some(t) => seq![t] + rest(t),
    }
}

#[via_fn]
proof fn rest_decreases(s: Seq<int>) {
    lemma_advance_behind(s);
}

/// All subsets of size `k`, in the order of the enumeration.
pub open spec fn all_subsets(k: int) -> Seq<Seq<int>> {
    rest(start_slots(k))
}

/// As many subsets are still to come as lie behind the slots.
pub proof fn lemma_rest_len(s: Seq<int>)
    requires
        sane(s),
    ensures
        rest(s).len() == behind(s),
    decreases behind(s),
{
    lemma_advance_behind(s);
    if advance(s).is_some() {
        lemma_rest_len(advance(s).unwrap());
    }
}

/// The `i`-th subset still to come is a subset, and as many fewer lie
/// behind it.
pub proof fn lemma_rest_item(s: Seq<int>, i: int)
    requires
        sane(s),
        ascending(s) || s == start_slots(s.len() as int),
        0 <= i < rest(s).len(),
    ensures
        rest(s)[i].len() == s.len(),
        ascending(rest(s)[i]),
        behind(rest(s)[i]) + 1 + i == behind(s),
    decreases i,
{
    lemma_advance_behind(s);
    lemma_advance_ascending(s);
    let t = advance(s).unwrap();
    if i > 0 {
        lemma_rest_item(t, i - 1);
        assert(rest(s)[i] == rest(t)[i - 1]);
    }
}

/// The enumeration of the subsets of size `k` has as many items as there
/// are ways to pick `k` of nine positions: 36 pairs, 84 triples and 126
/// quadruples.  Each item holds `k` ascending positions, and no two items
/// are the same.
pub proof fn lemma_all_subsets(k: int)
    requires
        2 <= k <= 4,
    ensures
        all_subsets(k).len() == binomial(9, k),
        all_subsets(2).len() == 36,
        all_subsets(3).len() == 84,
        all_subsets(4).len() == 126,
        forall|i: int|
            0 <= i < all_subsets(k).len() ==> (#[trigger] all_subsets(k)[i]).len() == k
                && ascending(all_subsets(k)[i]),
        forall|i: int, j: int|
            0 <= i < j < all_subsets(k).len() ==> all_subsets(k)[i] != all_subsets(k)[j],
{
    lemma_start_behind();
    assert(sane(start_slots(2)) && sane(start_slots(3)) && sane(start_slots(4)));
    lemma_rest_len(start_slots(2));
    lemma_rest_len(start_slots(3));
    lemma_rest_len(start_slots(4));
    let s = start_slots(k);
    assert forall|i: int| 0 <= i < all_subsets(k).len() implies (#[trigger] all_subsets(
        k,
    )[i]).len() == k && ascending(all_subsets(k)[i]) by {
        lemma_rest_item(s, i);
    }
    assert forall|i: int, j: int| 0 <= i < j < all_subsets(k).len() implies all_subsets(k)[i]
        != all_subsets(k)[j] by {
        lemma_rest_item(s, i);
        lemma_rest_item(s, j);
    }
}

/// Whether `a` comes before `b` in lexicographic order: at the first
/// slot at which they differ, `a` holds the lower position.
pub open spec fn lex_less(a: Seq<int>, b: Seq<int>) -> bool {
    &&& a.len() == b.len()
    &&& exists|i: int|
        0 <= i < a.len() && #[trigger] a[i] < b[i] && forall|j: int| 0 <= j < i ==> a[j] == b[j]
}

/// Lexicographic order is transitive.
pub proof fn lemma_lex_trans(a: Seq<int>, b: Seq<int>, c: Seq<int>)
    requires
        lex_less(a, b),
        lex_less(b, c),
    ensures
        lex_less(a, c),
{
    let i = choose|i: int|
        0 <= i < a.len() && #[trigger] a[i] < b[i] && forall|j: int| 0 <= j < i ==> a[j] == b[j];
    let k = choose|k: int|
        0 <= k < b.len() && #[trigger] b[k] < c[k] && forall|j: int| 0 <= j < k ==> b[j] == c[j];
    let m = if i < k {
        i
    } else {
        k
    };
    assert(a[m] < c[m]);
    assert forall|j: int| 0 <= j < m implies a[j] == c[j] by {}
}

/// Each step of the enumeration leads to a later subset.
pub proof fn lemma_advance_lex(s: Seq<int>)
    requires
        sane(s),
        advance(s).is_some(),
    ensures
        lex_less(s, advance(s).unwrap()),
{
    lemma_pivot(s, s.len() as int);
    let i = pivot(s, s.len() as int);
    let t = moved(s, i);
    assert(s[i] < t[i]);
}

/// In ascending slots, a later slot is as much higher as it is later, at
/// least.
proof fn lemma_ascending_gap(c: Seq<int>, d: int, j: int)
    requires
        ascending(c),
        0 <= d <= j < c.len(),
    ensures
        c[d] + (j - d) <= c[j],
    decreases j - d,
{
    if d < j {
        lemma_ascending_gap(c, d, j - 1);
        assert(c[j - 1] < c[j - 1 + 1]);
    }
}

/// Slots that agree below `from` and are nowhere higher from there on are
/// the same or come first.
proof fn lemma_below_lex(t: Seq<int>, c: Seq<int>, from: int)
    requires
        t.len() == c.len(),
        0 <= from <= t.len(),
        forall|j: int| 0 <= j < from ==> t[j] == c[j],
        forall|j: int| from <= j < t.len() ==> t[j] <= c[j],
    ensures
        t == c || lex_less(t, c),
    decreases t.len() - from,
{
    if from == t.len() {
        assert(t =~= c);
    } else if t[from] < c[from] {
        assert(t[from] < c[from]);
    } else {
        lemma_below_lex(t, c, from + 1);
    }
}

/// Each step of the enumeration leads to the next subset: no subset lies
/// between the slots and what they advance to.
pub proof fn lemma_advance_least(s: Seq<int>, c: Seq<int>)
    requires
        sane(s),
        ascending(c),
        lex_less(s, c),
    ensures
        advance(s).is_some(),
        advance(s).unwrap() == c || lex_less(advance(s).unwrap(), c),
{
    let k = s.len() as int;
    let d = choose|d: int|
        0 <= d < s.len() && #[trigger] s[d] < c[d] && forall|j: int| 0 <= j < d ==> s[j] == c[j];
    assert(0 <= c[d] && c[d] + (k - d) <= 9);
    assert(can_move(s, d));
    lemma_pivot(s, k);
    let p = pivot(s, k);
    assert(p >= d) by {
        if p < d {
            assert(!can_move(s, d));
        }
    }
    let t = moved(s, p);
    if p > d {
        assert(t[d] < c[d]);
    } else {
        assert forall|j: int| d <= j < k implies t[j] <= c[j] by {
            lemma_ascending_gap(c, d, j);
        }
        lemma_below_lex(t, c, d);
    }
}

/// The subsets still to come after `s` come in lexicographic order, all
/// of them after `s`.
pub proof fn lemma_rest_lex(s: Seq<int>, i: int, j: int)
    requires
        sane(s),
        0 <= i <= j < rest(s).len(),
    ensures
        lex_less(s, rest(s)[i]),
        i < j ==> lex_less(rest(s)[i], rest(s)[j]),
    decreases j,
{
    lemma_advance_behind(s);
    lemma_advance_lex(s);
    let t = advance(s).unwrap();
    assert(rest(s)[j] == if j == 0 {
        t
    } else {
        rest(t)[j - 1]
    });
    if i == 0 {
        if j > 0 {
            lemma_rest_lex(t, j - 1, j - 1);
        }
    } else {
        lemma_rest_lex(t, i - 1, j - 1);
        lemma_lex_trans(s, t, rest(t)[i - 1]);
    }
}

/// Every subset that comes after `s` in lexicographic order is still to
/// come after `s`.
pub proof fn lemma_rest_complete(s: Seq<int>, c: Seq<int>)
    requires
        sane(s),
        ascending(c),
        lex_less(s, c),
    ensures
        rest(s).contains(c),
    decreases behind(s),
{
    lemma_advance_least(s, c);
    lemma_advance_behind(s);
    let t = advance(s).unwrap();
    if t == c {
        assert(rest(s)[0] == c);
    } else {
        lemma_rest_complete(t, c);
        let i = choose|i: int| 0 <= i < rest(t).len() && rest(t)[i] == c;
        assert(rest(s)[i + 1] == c);
    }
}

/// The enumeration starts before every subset.
pub proof fn lemma_start_first(k: int, c: Seq<int>)
    requires
        2 <= k <= 4,
        c.len() == k,
        ascending(c),
    ensures
        lex_less(start_slots(k), c),
{
    let s = start_slots(k);
    assert forall|j: int| 0 <= j < k implies s[j] <= c[j] by {
        lemma_ascending_gap(c, 0, j);
        assert(0 <= c[0]);
    }
    lemma_below_lex(s, c, 0);
    lemma_ascending_gap(c, 0, k - 1);
    assert(s[k - 1] < c[k - 1]);
}

/// The enumeration of the subsets of size `k` is in lexicographic order
/// and leaves no subset out.
pub proof fn lemma_all_subsets_ordered(k: int)
    requires
        2 <= k <= 4,
    ensures
        forall|i: int, j: int|
            0 <= i < j < all_subsets(k).len() ==> lex_less(
                #[trigger] all_subsets(k)[i],
                #[trigger] all_subsets(k)[j],
            ),
        forall|c: Seq<int>| c.len() == k && ascending(c) ==> #[trigger] all_subsets(k).contains(c),
{
    let s = start_slots(k);
    assert(sane(s));
    assert forall|i: int, j: int| 0 <= i < j < all_subsets(k).len() implies lex_less(
        #[trigger] all_subsets(k)[i],
        #[trigger] all_subsets(k)[j],
    ) by {
        lemma_rest_lex(s, i, j);
    }
    assert forall|c: Seq<int>| c.len() == k && ascending(c) implies #[trigger] all_subsets(
        k,
    ).contains(c) by {
        lemma_start_first(k, c);
        lemma_rest_complete(s, c);
    }
}

/// The entries of Pascal's triangle that the counts rest on.
proof fn lemma_pascal()
    ensures
        binomial(0, 0) == 1,
        binomial(0, 1) == 0,
        binomial(0, 2) == 0,
        binomial(0, 3) == 0,
        binomial(0, 4) == 0,
        binomial(1, 0) == 1,
        binomial(1, 1) == 1,
        binomial(1, 2) == 0,
        binomial(1, 3) == 0,
        binomial(1, 4) == 0,
        binomial(2, 0) == 1,
        binomial(2, 1) == 2,
        binomial(2, 2) == 1,
        binomial(2, 3) == 0,
        binomial(2, 4) == 0,
        binomial(3, 0) == 1,
        binomial(3, 1) == 3,
        binomial(3, 2) == 3,
        binomial(3, 3) == 1,
        binomial(3, 4) == 0,
        binomial(4, 0) == 1,
        binomial(4, 1) == 4,
        binomial(4, 2) == 6,
        binomial(4, 3) == 4,
        binomial(4, 4) == 1,
        binomial(5, 0) == 1,
        binomial(5, 1) == 5,
        binomial(5, 2) == 10,
        binomial(5, 3) == 10,
        binomial(5, 4) == 5,
        binomial(6, 0) == 1,
        binomial(6, 1) == 6,
        binomial(6, 2) == 15,
        binomial(6, 3) == 20,
        binomial(6, 4) == 15,
        binomial(7, 0) == 1,
        binomial(7, 1) == 7,
        binomial(7, 2) == 21,
        binomial(7, 3) == 35,
        binomial(7, 4) == 35,
        binomial(8, 0) == 1,
        binomial(8, 1) == 8,
        binomial(8, 2) == 28,
        binomial(8, 3) == 56,
        binomial(8, 4) == 70,
        binomial(9, 0) == 1,
        binomial(9, 1) == 9,
        binomial(9, 2) == 36,
        binomial(9, 3) == 84,
        binomial(9, 4) == 126,
{
    reveal_with_fuel(binomial, 2);
    assert(binomial(0, 0) == 1 && binomial(0, 1) == 0 && binomial(0, 2) == 0 && binomial(0, 3) == 0 && binomial(0, 4) == 0);
    assert(binomial(1, 0) == 1 && binomial(1, 1) == 1 && binomial(1, 2) == 0 && binomial(1, 3) == 0 && binomial(1, 4) == 0);
    assert(binomial(2, 0) == 1 && binomial(2, 1) == 2 && binomial(2, 2) == 1 && binomial(2, 3) == 0 && binomial(2, 4) == 0);
    assert(binomial(3, 0) == 1 && binomial(3, 1) == 3 && binomial(3, 2) == 3 && binomial(3, 3) == 1 && binomial(3, 4) == 0);
    assert(binomial(4, 0) == 1 && binomial(4, 1) == 4 && binomial(4, 2) == 6 && binomial(4, 3) == 4 && binomial(4, 4) == 1);
    assert(binomial(5, 0) == 1 && binomial(5, 1) == 5 && binomial(5, 2) == 10 && binomial(5, 3) == 10 && binomial(5, 4) == 5);
    assert(binomial(6, 0) == 1 && binomial(6, 1) == 6 && binomial(6, 2) == 15 && binomial(6, 3) == 20 && binomial(6, 4) == 15);
    assert(binomial(7, 0) == 1 && binomial(7, 1) == 7 && binomial(7, 2) == 21 && binomial(7, 3) == 35 && binomial(7, 4) == 35);
    assert(binomial(8, 0) == 1 && binomial(8, 1) == 8 && binomial(8, 2) == 28 && binomial(8, 3) == 56 && binomial(8, 4) == 70);
    assert(binomial(9, 0) == 1 && binomial(9, 1) == 9 && binomial(9, 2) == 36 && binomial(9, 3) == 84 && binomial(9, 4) == 126);
}

/// Before the first subset, all of them are still to come.
proof fn lemma_start_behind()
    ensures
        behind(start_slots(2)) == 36 == binomial(9, 2),
        behind(start_slots(3)) == 84 == binomial(9, 3),
        behind(start_slots(4)) == 126 == binomial(9, 4),
{
    lemma_pascal();
    reveal_with_fuel(behind_from, 5);
    let s2 = start_slots(2);
    assert(s2[0] == 0 && s2[1] == 0);
    let s3 = start_slots(3);
    assert(s3[0] == 0 && s3[1] == 1 && s3[2] == 1);
    let s4 = start_slots(4);
    assert(s4[0] == 0 && s4[1] == 1 && s4[2] == 2 && s4[3] == 2);
}

/// The slots held in the first `k` entries of an array.
pub open spec fn slots_of(idx: [usize; 4], k: usize) -> Seq<int> {
    Seq::new(k as nat, |j: int| idx[j] as int)
}

/// Moves `idx` on to the next subset of size `num_idx`; `None` once the
/// last subset has been passed.
pub fn step_slots(from: [usize; 4], num_idx: usize) -> (r: Option<[usize; 4]>)
    requires
        sane(slots_of(from, num_idx)),
    ensures
        r.is_some() == advance(slots_of(from, num_idx)).is_some(),
        r.is_some() ==> slots_of(r.unwrap(), num_idx) == advance(slots_of(from, num_idx)).unwrap(),
{
    let ghost s = slots_of(from, num_idx);
    let ghost k = num_idx as int;
    let mut idx = from;
    // Start at the last slot.
    let mut current_level: usize = num_idx - 1;
    let ghost rising = false;
    let ghost piv: int = -1;
    while current_level < num_idx
        invariant
            2 <= num_idx <= 4,
            k == num_idx,
            s == slots_of(from, num_idx),
            sane(s),
            !rising ==> current_level < num_idx,
            !rising ==> pivot(s, k) == pivot(s, current_level + 1),
            !rising ==> forall|j: int| 0 <= j <= current_level ==> idx[j] == s[j],
            rising ==> 0 <= piv < current_level <= num_idx,
            rising ==> piv == pivot(s, k) && can_move(s, piv),
            rising ==> forall|j: int| 0 <= j < current_level ==> idx[j] == moved(s, piv)[j],
            rising && current_level < num_idx ==> idx[current_level as int] + 1 == moved(
                s,
                piv,
            )[current_level as int],
        decreases
                (if rising {
                    0int
                } else {
                    1int
                }),
                (if rising {
                    num_idx - current_level
                } else {
                    current_level as int
                }),
    {
        proof {
            assert(0 <= s[current_level as int]);
            if rising {
                assert(0 <= s[piv]);
            }
        }
        // Move this slot up by one.
        idx[current_level] += 1;
        // The slots after this one need this much room.
        let needed_after: usize = num_idx - (current_level + 1);
        if idx[current_level] + needed_after >= 9 {
            // No room: the slot before this one has to move.
            if current_level == 0 {
                proof {
                    reveal_with_fuel(pivot, 2);
                }
                return None;
            }
            current_level -= 1;
        } else {
            // The next slot starts right behind this one; it is moved up
            // by one when its turn comes.
            proof {
                if !rising {
                    piv = current_level as int;
                    rising = true;
                }
            }
            if current_level < num_idx - 1 {
                idx[current_level + 1] = idx[current_level];
            }
            current_level += 1;
        }
    }
    proof {
        assert(slots_of(idx, num_idx) =~= moved(s, piv));
    }
    Some(idx)
}

} // verus!
