use vstd::prelude::*;

use crate::bitset::Bitset;
use crate::card::{has_duplicate, rank_of_index, spec_card_seq_from_bytes, Card, CardError, Suite};
use crate::hand::{hand_of_index, law_hand_index_bijection, lemma_hand_of_index_wf, Hand, HAND_COUNT};
use crate::range::{
    all_cells, apply_def, cell_hands, def_cells, full_word, hand_cell, parse_from, parse_range, trim_hi, trim_lo,
    trimmed, PreFlopRangeTable, RangeError,
};
use vstd::string::StringSliceAdditionalSpecFns;

verus! {

/// All two card hands.
pub open spec fn all_hands() -> Set<Hand> {
    Set::new(|h: Hand| h.wf())
}

/// The hands whose table cell is one of `cells`.
pub open spec fn cells_hands(cells: Set<(int, int)>) -> Set<Hand> {
    Set::new(|h: Hand| h.wf() && cells.contains(hand_cell(h)))
}

/// Two hands with the same position are the same hand.
proof fn lemma_index_eq(a: Hand, b: Hand)
    requires
        a.wf(),
        b.wf(),
    ensures
        (a.index() == b.index()) == (a == b),
        0 <= a.index() < 1326,
{
    law_hand_index_bijection(a, 0);
    law_hand_index_bijection(b, 0);
}

/// The hand of two distinct cards, the higher one first.
pub open spec fn ordered_hand(a: Card, b: Card) -> Hand {
    if a.index() > b.index() {
        Hand(a, b)
    } else {
        Hand(b, a)
    }
}

/// The hand written as two cards, such as `AsKd`.
pub open spec fn hand_of_bytes(d: Seq<u8>) -> Result<Hand, RangeError> {
    match spec_card_seq_from_bytes(d) {
        Err(e) => Err(RangeError::Card(e)),
        Ok(cs) => if has_duplicate(cs) {
            Err(RangeError::Card(CardError::DuplicateCard))
        } else if cs.len() != 2 {
            Err(RangeError::Card(CardError::WrongCardCount))
        } else {
            Ok(ordered_hand(cs[0], cs[1]))
        },
    }
}

/// An entry such as `AQo+` or `AQs+`.
pub open spec fn is_ascending_entry(d: Seq<u8>) -> bool {
    d.len() == 4 && (d[2] == 111u8 || d[2] == 115u8) && d[3] == 43u8
}

/// Adds the hands of one entry: a single hand written as two cards, or the
/// hands of the cells of a table entry; an entry naming a hand already held is refused.
pub open spec fn apply_table_def(hs: Set<Hand>, d: Seq<u8>) -> Result<Set<Hand>, RangeError> {
    if d.len() == 4 && !is_ascending_entry(d) {
        match hand_of_bytes(d) {
            Err(e) => Err(e),
            Ok(h) => if hs.contains(h) {
                Err(RangeError::Duplicate)
            } else {
                Ok(hs.insert(h))
            },
        }
    } else {
        match def_cells(d) {
            Err(e) => Err(e),
            Ok(c) => if exists|h: Hand| cells_hands(c).contains(h) && hs.contains(h) {
                Err(RangeError::Duplicate)
            } else {
                Ok(hs.union(cells_hands(c)))
            },
        }
    }
}

/// Reads the comma separated entries of `b` from `i` on, the current entry
/// starting at `start`.
pub open spec fn parse_table_from(hs: Set<Hand>, b: Seq<u8>, start: int, i: int) -> Result<Set<Hand>, RangeError>
    decreases b.len() - i,
{
    if i >= b.len() {
        apply_table_def(hs, b.subrange(start, b.len() as int))
    } else if b[i] == 44u8 {
        match apply_table_def(hs, b.subrange(start, i)) {
            Ok(next) => parse_table_from(next, b, i + 1, i + 1),
            Err(e) => Err(e),
        }
    } else {
        parse_table_from(hs, b, start, i + 1)
    }
}

/// A whole range of hands: `full`, or comma separated entries, white space around it ignored.
pub open spec fn parse_table(b: Seq<u8>) -> Result<Set<Hand>, RangeError> {
    let t = trimmed(b);
    if t == full_word() {
        Ok(all_hands())
    } else {
        parse_table_from(Set::empty(), t, 0, 0)
    }
}

/// A set of two card hands, one bit per hand position.
#[derive(Clone, Copy, Debug)]
pub struct RangeTable {
    pub(crate) bits: Bitset<166>,
}

impl RangeTable {
    /// The hands the table holds.
    pub closed spec fn hands(self) -> Set<Hand> {
        Set::new(|h: Hand| h.wf() && self.bits.contains(h.index()))
    }

    /// The positions of the hands the table holds.
    closed spec fn indices(self) -> Set<int> {
        Set::new(|i: int| 0 <= i < 1326 && self.bits.contains(i))
    }

    proof fn lemma_hands_finite(self)
        ensures
            self.hands().finite(),
            self.hands().len() == self.indices().len(),
            self.indices().finite(),
    {
        let f = |i: int| hand_of_index(i);
        assert(self.indices().map(f) =~= self.hands()) by {
            assert forall|h: Hand| self.hands().contains(h) implies self.indices().map(f).contains(h) by {
                law_hand_index_bijection(h, 0);
                assert(self.indices().contains(h.index()));
            }
            assert forall|h: Hand| self.indices().map(f).contains(h) implies self.hands().contains(h) by {
                let i = choose|i: int| self.indices().contains(i) && f(i) == h;
                lemma_hand_of_index_wf(i);
            }
        }
        assert(vstd::relations::injective_on(f, self.indices())) by {
            assert forall|i: int, j: int| self.indices().contains(i) && self.indices().contains(j) && f(i) == f(
                j,
            ) implies i == j by {
                lemma_hand_of_index_wf(i);
                lemma_hand_of_index_wf(j);
            }
        }
        vstd::set_lib::lemma_int_range(0, 1326);
        assert(self.indices().subset_of(vstd::set_lib::set_int_range(0, 1326)));
        vstd::set_lib::lemma_len_subset(self.indices(), vstd::set_lib::set_int_range(0, 1326));
        vstd::set_lib::lemma_map_size(self.indices(), self.hands(), f);
    }

    /// The table without hands.
    pub fn empty() -> (t: RangeTable)
        ensures
            t.hands() == Set::<Hand>::empty(),
    {
        let t = RangeTable { bits: Bitset::empty() };
        proof {
            assert(t.hands() =~= Set::<Hand>::empty());
        }
        t
    }

    /// The table of all hands.
    pub fn full() -> (t: RangeTable)
        ensures
            t.hands() == all_hands(),
    {
        let t = RangeTable { bits: Bitset::ones(HAND_COUNT) };
        proof {
            assert forall|h: Hand| t.hands().contains(h) <==> all_hands().contains(h) by {
                if h.wf() {
                    law_hand_index_bijection(h, 0);
                }
            }
            assert(t.hands() =~= all_hands());
        }
        t
    }

    /// Whether the table holds the hand.
    pub fn has_hand(&self, hand: Hand) -> (r: bool)
        requires
            hand.wf(),
        ensures
            r == self.hands().contains(hand),
    {
        let index = hand.to_index();
        self.bits.has(index)
    }

    /// Adds the hand; the table stays the same when it already holds it.
    pub fn add_hand_unchecked(&mut self, hand: Hand)
        requires
            hand.wf(),
        ensures
            final(self).hands() == old(self).hands().insert(hand),
    {
        let index = hand.to_index();
        self.bits.set(index);
        proof {
            assert forall|h: Hand| self.hands().contains(h) <==> old(self).hands().insert(hand).contains(h) by {
                if h.wf() {
                    lemma_index_eq(h, hand);
                }
            }
            assert(self.hands() =~= old(self).hands().insert(hand));
        }
    }

    /// Adds a hand the table does not hold yet.
    pub fn add_hand(&mut self, hand: Hand)
        requires
            hand.wf(),
            !old(self).hands().contains(hand),
        ensures
            final(self).hands() == old(self).hands().insert(hand),
    {
        self.add_hand_unchecked(hand);
    }

    /// Adds the hand, or reports a duplicate and leaves the table as it was.
    pub fn try_add_hand(&mut self, hand: Hand) -> (r: Result<(), RangeError>)
        requires
            hand.wf(),
        ensures
            r is Ok <==> !old(self).hands().contains(hand),
            r is Ok ==> final(self).hands() == old(self).hands().insert(hand),
            r is Err ==> r == Err::<(), RangeError>(RangeError::Duplicate) && *final(self) == *old(self),
    {
        if self.has_hand(hand) {
            Err(RangeError::Duplicate)
        } else {
            self.add_hand_unchecked(hand);
            Ok(())
        }
    }

    /// The number of hands the table holds.
    pub fn count(&self) -> (n: u32)
        ensures
            n == self.hands().len(),
    {
        let mut n: u32 = 0;
        let mut i: usize = 0;
        let ghost mut seen: Set<int> = Set::empty();
        while i < HAND_COUNT
            invariant
                i <= HAND_COUNT,
                seen == self.indices().filter(|k: int| k < i),
                seen.finite(),
                n == seen.len(),
                n <= i,
            decreases HAND_COUNT - i,
        {
            if self.bits.has(i) {
                n = n + 1;
                proof {
                    seen = seen.insert(i as int);
                }
            }
            proof {
                assert(seen =~= self.indices().filter(|k: int| k < i + 1));
            }
            i = i + 1;
        }
        proof {
            assert(seen =~= self.indices());
            self.lemma_hands_finite();
        }
        n
    }

    /// Whether the table holds no hand.
    pub fn is_empty(&self) -> (r: bool)
        ensures
            r == (self.hands() == Set::<Hand>::empty()),
    {
        let mut i: usize = 0;
        while i < HAND_COUNT
            invariant
                i <= HAND_COUNT,
                forall|k: int| 0 <= k < i ==> !self.bits.contains(k),
            decreases HAND_COUNT - i,
        {
            if self.bits.has(i) {
                proof {
                    lemma_hand_of_index_wf(i as int);
                    assert(self.hands().contains(hand_of_index(i as int)));
                }
                return false;
            }
            i = i + 1;
        }
        proof {
            assert forall|h: Hand| !self.hands().contains(h) by {
                if h.wf() {
                    law_hand_index_bijection(h, 0);
                }
            }
            assert(self.hands() =~= Set::<Hand>::empty());
        }
        true
    }

    /// The table of the hands of a pre flop range.
    pub fn from_range_table(table: &PreFlopRangeTable) -> (t: RangeTable)
        ensures
            t.hands() == table.hands(),
    {
        let v = table.to_vec();
        let mut t = RangeTable::empty();
        let mut k: usize = 0;
        while k < v.len()
            invariant
                k <= v@.len(),
                v@.no_duplicates(),
                forall|h: Hand| #[trigger] v@.contains(h) <==> table.hands().contains(h),
                t.hands() == v@.subrange(0, k as int).to_set(),
            decreases v@.len() - k,
        {
            let h = v[k];
            proof {
                assert(v@.contains(h));
                assert(!v@.subrange(0, k as int).to_set().contains(h)) by {
                    if v@.subrange(0, k as int).contains(h) {
                        let j = choose|j: int| 0 <= j < k && v@.subrange(0, k as int)[j] == h;
                        assert(v@[j] == v@[k as int]);
                    }
                }
            }
            t.add_hand(h);
            proof {
                assert(v@.subrange(0, k + 1) =~= v@.subrange(0, k as int).push(h));
                v@.subrange(0, k as int).lemma_push_to_set_commute(h);
            }
            k = k + 1;
        }
        proof {
            assert(v@.subrange(0, v@.len() as int) =~= v@);
            assert forall|h: Hand| t.hands().contains(h) <==> table.hands().contains(h) by {
                assert(v@.to_set().contains(h) == v@.contains(h));
            }
            assert(t.hands() =~= table.hands());
        }
        t
    }

    /// The table of the given hands.
    pub fn from_hands(hands: &[Hand]) -> (t: RangeTable)
        requires
            forall|i: int| 0 <= i < hands@.len() ==> (#[trigger] hands@[i]).wf(),
        ensures
            t.hands() == hands@.to_set(),
    {
        let mut t = RangeTable::empty();
        let mut k: usize = 0;
        while k < hands.len()
            invariant
                k <= hands@.len(),
                forall|i: int| 0 <= i < hands@.len() ==> (#[trigger] hands@[i]).wf(),
                t.hands() == hands@.subrange(0, k as int).to_set(),
            decreases hands@.len() - k,
        {
            let h = hands[k];
            t.add_hand_unchecked(h);
            proof {
                assert(hands@.subrange(0, k + 1) =~= hands@.subrange(0, k as int).push(h));
                hands@.subrange(0, k as int).lemma_push_to_set_commute(h);
            }
            k = k + 1;
        }
        proof {
            assert(hands@.subrange(0, hands@.len() as int) =~= hands@);
        }
        t
    }

    /// Keeps only the hands that `rhs` holds too.
    pub fn bitand_assign(&mut self, rhs: &RangeTable)
        ensures
            final(self).hands() == old(self).hands().intersect(rhs.hands()),
    {
        self.bits = self.bits.bitand(rhs.bits);
        proof {
            assert(self.hands() =~= old(self).hands().intersect(rhs.hands()));
        }
    }

    /// An iterator over the hands of the table, by position.
    pub fn iter(&self) -> (it: RangeTableIter<'_>)
        ensures
            it.source() == *self,
            it.position() == 0,
    {
        RangeTableIter { table: self, index: 0 }
    }

    /// The hands of the table, by position.
    pub fn to_vec(&self) -> (v: Vec<Hand>)
        ensures
            forall|i: int, j: int| 0 <= i < j < v@.len() ==> v@[i].index() < v@[j].index(),
            forall|h: Hand| #[trigger] v@.contains(h) <==> self.hands().contains(h),
    {
        let mut it = self.iter();
        let mut v: Vec<Hand> = Vec::new();
        proof {
            assert forall|h: Hand| self.hands().contains(h) implies h.index() >= 0 by {
                law_hand_index_bijection(h, 0);
            }
        }
        loop
            invariant
                it.source() == *self,
                0 <= it.position() <= 1326,
                forall|i: int, j: int| 0 <= i < j < v@.len() ==> v@[i].index() < v@[j].index(),
                forall|i: int| 0 <= i < v@.len() ==> v@[i].index() < it.position() && (#[trigger] v@[i]).wf(),
                forall|h: Hand| #[trigger] v@.contains(h) <==> (self.hands().contains(h) && h.index()
                    < it.position()),
            decreases 1326 - it.position(),
        {
            let ghost before = v@;
            let ghost p = it.position();
            match it.next() {
                Some(h) => {
                    v.push(h);
                    proof {
                        law_hand_index_bijection(h, 0);
                        assert forall|x: Hand| #[trigger] v@.contains(x) <==> (self.hands().contains(x)
                            && x.index() < it.position()) by {
                            if v@.contains(x) {
                                let i = choose|i: int| 0 <= i < v@.len() && v@[i] == x;
                                if i < before.len() {
                                    assert(before.contains(x));
                                }
                            }
                            if self.hands().contains(x) && x.index() < it.position() {
                                if x.index() < p {
                                    assert(before.contains(x));
                                    let i = choose|i: int| 0 <= i < before.len() && before[i] == x;
                                    assert(v@[i] == x);
                                } else {
                                    law_hand_index_bijection(x, 0);
                                    lemma_index_eq(x, h);
                                    assert(v@[before.len() as int] == x);
                                }
                            }
                        }
                    }
                },
                None => {
                    proof {
                        assert forall|x: Hand| #[trigger] v@.contains(x) <==> self.hands().contains(x) by {
                            if self.hands().contains(x) {
                                law_hand_index_bijection(x, 0);
                                if x.index() >= p {
                                    assert(!self.hands().contains(hand_of_index(x.index())));
                                }
                            }
                        }
                    }
                    return v;
                },
            }
        }
    }
}

impl RangeTable {
    /// Adds the hands of cell (`a`, `b`) unless the table holds one of them.
    fn add_cell_hands(&mut self, a: usize, b: usize) -> (r: Result<(), RangeError>)
        requires
            a < 13,
            b < 13,
        ensures
            r is Ok <==> !exists|h: Hand| cells_hands(set![(a as int, b as int)]).contains(h) && old(self).hands().contains(h),
            r is Ok ==> final(self).hands() == old(self).hands().union(cells_hands(set![(a as int, b as int)])),
            r is Err ==> r == Err::<(), RangeError>(RangeError::Duplicate),
    {
        let ghost cell = set![(a as int, b as int)];
        let w = cell_hands(a, b);
        let mut k: usize = 0;
        while k < w.len()
            invariant
                k <= w@.len(),
                cell == set![(a as int, b as int)],
                forall|h: Hand| w@.contains(h) <==> (h.wf() && hand_cell(h) == (a as int, b as int)),
                forall|i: int, j: int| 0 <= i < j < w@.len() ==> w@[i] != w@[j],
                self.hands() == old(self).hands().union(w@.subrange(0, k as int).to_set()),
                forall|j: int| 0 <= j < k ==> !old(self).hands().contains(#[trigger] w@[j]),
            decreases w@.len() - k,
        {
            let h = w[k];
            proof {
                assert(w@.contains(h));
            }
            let ghost before = self.hands();
            let r = self.try_add_hand(h);
            if r.is_err() {
                proof {
                    assert(!w@.subrange(0, k as int).to_set().contains(h)) by {
                        if w@.subrange(0, k as int).contains(h) {
                            let j = choose|j: int| 0 <= j < k && w@.subrange(0, k as int)[j] == h;
                            assert(w@[j] == w@[k as int]);
                        }
                    }
                    assert(old(self).hands().contains(h));
                    assert(cell.contains(hand_cell(h)));
                    assert(cells_hands(cell).contains(h));
                }
                return Err(RangeError::Duplicate);
            }
            proof {
                assert(w@.subrange(0, k + 1) =~= w@.subrange(0, k as int).push(h));
                w@.subrange(0, k as int).lemma_push_to_set_commute(h);
                assert(self.hands() =~= old(self).hands().union(w@.subrange(0, k + 1).to_set()));
            }
            k = k + 1;
        }
        proof {
            assert(w@.subrange(0, w@.len() as int) =~= w@);
            assert(w@.to_set() =~= cells_hands(cell)) by {
                assert forall|h: Hand| w@.to_set().contains(h) <==> cells_hands(cell).contains(h) by {}
            }
            assert forall|h: Hand| !(cells_hands(cell).contains(h) && old(self).hands().contains(h)) by {
                if cells_hands(cell).contains(h) {
                    assert(w@.contains(h));
                    let j = choose|j: int| 0 <= j < w@.len() && w@[j] == h;
                }
            }
        }
        Ok(())
    }

    /// Adds the hands of all cells of `cells` unless the table holds one of them.
    fn add_cells(&mut self, cells: &PreFlopRangeTable) -> (r: Result<(), RangeError>)
        ensures
            r is Ok <==> !exists|h: Hand| cells_hands(cells.cells()).contains(h) && old(self).hands().contains(h),
            r is Ok ==> final(self).hands() == old(self).hands().union(cells_hands(cells.cells())),
            r is Err ==> r == Err::<(), RangeError>(RangeError::Duplicate),
    {
        let ghost all = cells.cells();
        proof {
            cells.lemma_cells_bounded();
        }
        let mut a: usize = 0;
        while a < 13
            invariant
                a <= 13,
                all == cells.cells(),
                forall|c: (int, int)| #[trigger] all.contains(c) ==> 0 <= c.0 < 13 && 0 <= c.1 < 13,
                self.hands() == old(self).hands().union(cells_hands(all.filter(|c: (int, int)| c.0 < a))),
                forall|h: Hand| cells_hands(all.filter(|c: (int, int)| c.0 < a)).contains(h) ==> !old(self).hands().contains(h),
            decreases 13 - a,
        {
            let mut b: usize = 0;
            while b < 13
                invariant
                    a < 13,
                    b <= 13,
                    all == cells.cells(),
                    forall|c: (int, int)| #[trigger] all.contains(c) ==> 0 <= c.0 < 13 && 0 <= c.1 < 13,
                    self.hands() == old(self).hands().union(
                        cells_hands(all.filter(|c: (int, int)| c.0 < a || (c.0 == a && c.1 < b))),
                    ),
                    forall|h: Hand| cells_hands(all.filter(|c: (int, int)| c.0 < a || (c.0 == a && c.1 < b))).contains(h)
                        ==> !old(self).hands().contains(h),
                decreases 13 - b,
            {
                let ghost seen = all.filter(|c: (int, int)| c.0 < a || (c.0 == a && c.1 < b));
                let ghost next = all.filter(|c: (int, int)| c.0 < a || (c.0 == a && c.1 < b + 1));
                if cells.has_cell(a, b) {
                    let ghost before = self.hands();
                    let r = self.add_cell_hands(a, b);
                    if r.is_err() {
                        proof {
                            let h = choose|h: Hand| cells_hands(set![(a as int, b as int)]).contains(h) && before.contains(h);
                            assert(set![(a as int, b as int)].contains(hand_cell(h)));
                            assert(hand_cell(h) == (a as int, b as int));
                            assert(!seen.contains(hand_cell(h)));
                            assert(!cells_hands(seen).contains(h));
                            assert(old(self).hands().contains(h));
                            assert(all.contains(hand_cell(h)));
                            assert(cells_hands(all).contains(h));
                        }
                        return Err(RangeError::Duplicate);
                    }
                    proof {
                        assert forall|h: Hand| cells_hands(next).contains(h) <==> cells_hands(seen).union(
                            cells_hands(set![(a as int, b as int)]),
                        ).contains(h) by {
                            let c = hand_cell(h);
                            assert(next.contains(c) == (all.contains(c) && (c.0 < a || (c.0 == a && c.1 < b + 1))));
                            assert(seen.contains(c) == (all.contains(c) && (c.0 < a || (c.0 == a && c.1 < b))));
                            assert(set![(a as int, b as int)].contains(c) == (c == (a as int, b as int)));
                        }
                        assert(cells_hands(next) =~= cells_hands(seen).union(cells_hands(set![(a as int, b as int)])));
                        assert forall|h: Hand| cells_hands(next).contains(h) implies !old(self).hands().contains(h) by {
                            if !cells_hands(seen).contains(h) {
                                assert(cells_hands(set![(a as int, b as int)]).contains(h));
                                assert(!before.contains(h));
                            }
                        }
                        assert(self.hands() =~= old(self).hands().union(cells_hands(next)));
                    }
                } else {
                    proof {
                        assert forall|h: Hand| cells_hands(next).contains(h) <==> cells_hands(seen).contains(h) by {
                            let c = hand_cell(h);
                            assert(next.contains(c) == (all.contains(c) && (c.0 < a || (c.0 == a && c.1 < b + 1))));
                            assert(seen.contains(c) == (all.contains(c) && (c.0 < a || (c.0 == a && c.1 < b))));
                        }
                        assert(cells_hands(next) =~= cells_hands(seen));
                    }
                }
                b = b + 1;
            }
            proof {
                assert(all.filter(|c: (int, int)| c.0 < a || (c.0 == a && c.1 < 13)) =~= all.filter(|c: (int, int)| c.0 < a + 1)) by {
                    assert forall|c: (int, int)| all.contains(c) implies c.1 < 13 by {}
                }
            }
            a = a + 1;
        }
        proof {
            assert(all.filter(|c: (int, int)| c.0 < 13) =~= all);
        }
        Ok(())
    }

    /// Adds the hands of the entry `b[start..end]`.
    fn apply_table_entry(&mut self, b: &[u8], start: usize, end: usize) -> (r: Result<(), RangeError>)
        requires
            start <= end <= b@.len(),
        ensures
            match apply_table_def(old(self).hands(), b@.subrange(start as int, end as int)) {
                Ok(hs) => r is Ok && final(self).hands() == hs,
                Err(e) => r == Err::<(), RangeError>(e),
            },
    {
        let ghost d = b@.subrange(start as int, end as int);
        if end - start == 4 && !((b[start + 2] == 111u8 || b[start + 2] == 115u8) && b[start + 3] == 43u8) {
            let bytes = vstd::slice::slice_subrange(b, start, end);
            let hand = match Hand::from_bytes(bytes) {
                Ok(h) => h,
                Err(e) => return Err(RangeError::Card(e)),
            };
            proof {
                let cs = spec_card_seq_from_bytes(d)->Ok_0;
                crate::card::Card::lemma_index_injective(cs[0], cs[1]);
                assert(hand_of_bytes(d) == Ok::<Hand, RangeError>(hand));
            }
            return self.try_add_hand(hand);
        }
        let mut cells = PreFlopRangeTable::empty();
        match cells.apply_entry(b, start, end) {
            Ok(()) => {},
            Err(e) => return Err(e),
        }
        proof {
            assert(Set::<(int, int)>::empty().union(def_cells(d)->Ok_0) =~= def_cells(d)->Ok_0);
        }
        self.add_cells(&cells)
    }

    /// Reads a range of hands: `full`, or comma separated entries such as
    /// `QQ+,AKs,AJo+,7h6h`.
    #[verifier::loop_isolation(false)]
    pub fn parse(range_str: &str) -> (r: Result<RangeTable, RangeError>)
        ensures
            match parse_table(range_str.spec_bytes()) {
                Ok(hs) => r matches Ok(t) && t.hands() == hs,
                Err(e) => r == Err::<RangeTable, RangeError>(e),
            },
    {
        let b = range_str.as_bytes();
        let ghost bs = b@;
        let (lo, hi) = crate::range::trim_bounds(b);
        let ghost t = bs.subrange(lo as int, hi as int);
        proof {
            assert(t == trimmed(bs));
        }
        if hi - lo == 4 && b[lo] == 102u8 && b[lo + 1] == 117u8 && b[lo + 2] == 108u8 && b[lo + 3] == 108u8 {
            proof {
                assert(t =~= full_word());
            }
            return Ok(RangeTable::full());
        }
        proof {
            if t == full_word() {
                assert(t[0] == 102u8);
                assert(false);
            }
        }
        let mut table = RangeTable::empty();
        let mut start: usize = lo;
        let mut i: usize = lo;
        while i < hi
            invariant
                lo <= start <= i <= hi <= b@.len(),
                parse_table_from(Set::empty(), t, 0, 0) == parse_table_from(table.hands(), t, start - lo, i - lo),
            decreases hi - i,
        {
            if b[i] == 44u8 {
                let r = table.apply_table_entry(b, start, i);
                proof {
                    assert(t.subrange(start - lo, i - lo) =~= bs.subrange(start as int, i as int));
                    assert(t[i - lo] == 44u8);
                }
                match r {
                    Ok(()) => {},
                    Err(e) => return Err(e),
                }
                start = i + 1;
            }
            i = i + 1;
        }
        let r = table.apply_table_entry(b, start, hi);
        proof {
            assert(t.subrange(start - lo, t.len() as int) =~= bs.subrange(start as int, hi as int));
        }
        match r {
            Ok(()) => Ok(table),
            Err(e) => Err(e),
        }
    }
}

/// Walks the hands of a range table in order of position.
pub struct RangeTableIter<'a> {
    table: &'a RangeTable,
    index: usize,
}

impl<'a> RangeTableIter<'a> {
    /// The table walked.
    pub closed spec fn source(self) -> RangeTable {
        *self.table
    }

    /// The position of the next hand to look at.
    pub closed spec fn position(self) -> int {
        self.index as int
    }

    /// The next hand of the table at or after the current position.
    pub fn next(&mut self) -> (r: Option<Hand>)
        ensures
            final(self).source() == old(self).source(),
            match r {
                Some(h) => {
                    &&& h.wf()
                    &&& old(self).source().hands().contains(h)
                    &&& old(self).position() <= h.index()
                    &&& final(self).position() == h.index() + 1
                    &&& forall|i: int|
                        old(self).position() <= i < h.index() ==> !old(self).source().hands().contains(
                            #[trigger] hand_of_index(i),
                        )
                },
                None => {
                    &&& final(self).position() == if old(self).position() < 1326 {
                        1326
                    } else {
                        old(self).position()
                    }
                    &&& forall|i: int|
                        old(self).position() <= i < 1326 ==> !old(self).source().hands().contains(
                            #[trigger] hand_of_index(i),
                        )
                },
            },
    {
        let start = self.index;
        let table = self.table;
        let mut i: usize = start;
        while i < HAND_COUNT
            invariant
                *self == *old(self),
                table == old(self).table,
                start == old(self).index,
                start <= i,
                start < HAND_COUNT ==> i <= HAND_COUNT,
                start >= HAND_COUNT ==> i == start,
                forall|k: int| start <= k < i ==> !table.hands().contains(#[trigger] hand_of_index(k)),
            decreases HAND_COUNT - i,
        {
            if table.bits.has(i) {
                let hand = Hand::from_index(i);
                self.index = i + 1;
                return Some(hand);
            }
            proof {
                lemma_hand_of_index_wf(i as int);
                assert(!table.hands().contains(hand_of_index(i as int)));
            }
            i = i + 1;
        }
        self.index = i;
        proof {
            assert(old(self).source() == *table);
            assert(start < HAND_COUNT ==> i == HAND_COUNT);
            assert forall|k: int| old(self).position() <= k < 1326 implies !old(self).source().hands().contains(
                #[trigger] hand_of_index(k),
            ) by {
                assert(k < i);
            }
        }
        None
    }
}


/// An entry written as a single hand of two cards, such as `AhTh`.
pub open spec fn is_single_hand_entry(d: Seq<u8>) -> bool {
    d.len() == 4 && !is_ascending_entry(d)
}

/// No comma separated entry of `b` from `start` on, the current one ending at
/// or after `i`, is written as a single hand.
pub open spec fn no_single_hands(b: Seq<u8>, start: int, i: int) -> bool
    decreases b.len() - i,
{
    if i >= b.len() {
        !is_single_hand_entry(b.subrange(start, b.len() as int))
    } else if b[i] == 44u8 {
        !is_single_hand_entry(b.subrange(start, i)) && no_single_hands(b, i + 1, i + 1)
    } else {
        no_single_hands(b, start, i + 1)
    }
}

/// The cells lie in the 13 by 13 table.
pub open spec fn in_table_cells(cells: Set<(int, int)>) -> bool {
    forall|c: (int, int)| #[trigger] cells.contains(c) ==> 0 <= c.0 < 13 && 0 <= c.1 < 13
}

/// A hand in cell `c` of the table.
spec fn cell_witness(c: (int, int)) -> Hand {
    if c.0 > c.1 {
        Hand(
            Card { rank: rank_of_index(c.0), suite: Suite::Clubs },
            Card { rank: rank_of_index(c.1), suite: Suite::Clubs },
        )
    } else {
        Hand(
            Card { rank: rank_of_index(c.1), suite: Suite::Clubs },
            Card { rank: rank_of_index(c.0), suite: Suite::Diamonds },
        )
    }
}

proof fn lemma_cell_witness(c: (int, int))
    requires
        0 <= c.0 < 13,
        0 <= c.1 < 13,
    ensures
        cell_witness(c).wf(),
        hand_cell(cell_witness(c)) == c,
{
    assert(rank_of_index(c.0).index() == c.0);
    assert(rank_of_index(c.1).index() == c.1);
}

/// The hand sets of two cell sets of the table overlap exactly when the cell
/// sets do.
proof fn lemma_overlap(a: Set<(int, int)>, b: Set<(int, int)>)
    requires
        in_table_cells(a),
    ensures
        (exists|h: Hand| cells_hands(a).contains(h) && cells_hands(b).contains(h)) <==> (exists|c: (int, int)|
            a.contains(c) && b.contains(c)),
        cells_hands(a.union(b)) == cells_hands(a).union(cells_hands(b)),
{
    if exists|c: (int, int)| a.contains(c) && b.contains(c) {
        let c = choose|c: (int, int)| a.contains(c) && b.contains(c);
        lemma_cell_witness(c);
        assert(cells_hands(a).contains(cell_witness(c)) && cells_hands(b).contains(cell_witness(c)));
    }
    if exists|h: Hand| cells_hands(a).contains(h) && cells_hands(b).contains(h) {
        let h = choose|h: Hand| cells_hands(a).contains(h) && cells_hands(b).contains(h);
        assert(a.contains(hand_cell(h)) && b.contains(hand_cell(h)));
    }
    assert(cells_hands(a.union(b)) =~= cells_hands(a).union(cells_hands(b)));
}

/// The cells an entry names lie in the table.
proof fn lemma_def_cells_in_table(d: Seq<u8>)
    ensures
        def_cells(d) matches Ok(c) ==> in_table_cells(c),
{
}

/// Reading the entries from `i` on gives the hands of the cells the range
/// reader gives, when no entry is a single hand.
proof fn lemma_parse_from_agree(cells: Set<(int, int)>, b: Seq<u8>, start: int, i: int)
    requires
        in_table_cells(cells),
        no_single_hands(b, start, i),
        0 <= start <= i,
        start <= b.len(),
    ensures
        parse_table_from(cells_hands(cells), b, start, i) == match parse_from(cells, b, start, i) {
            Ok(c) => Ok::<Set<Hand>, RangeError>(cells_hands(c)),
            Err(e) => Err(e),
        },
        parse_from(cells, b, start, i) matches Ok(c) ==> in_table_cells(c),
    decreases b.len() - i,
{
    if i >= b.len() {
        let d = b.subrange(start, b.len() as int);
        lemma_apply_agree(cells, d);
    } else if b[i] == 44u8 {
        let d = b.subrange(start, i);
        lemma_apply_agree(cells, d);
        if let Ok(next) = apply_def(cells, d) {
            lemma_parse_from_agree(next, b, i + 1, i + 1);
        }
    } else {
        lemma_parse_from_agree(cells, b, start, i + 1);
    }
}

proof fn lemma_apply_agree(cells: Set<(int, int)>, d: Seq<u8>)
    requires
        in_table_cells(cells),
        !is_single_hand_entry(d),
    ensures
        apply_table_def(cells_hands(cells), d) == match apply_def(cells, d) {
            Ok(c) => Ok::<Set<Hand>, RangeError>(cells_hands(c)),
            Err(e) => Err(e),
        },
        apply_def(cells, d) matches Ok(c) ==> in_table_cells(c),
{
    lemma_def_cells_in_table(d);
    if let Ok(new) = def_cells(d) {
        lemma_overlap(cells, new);
        assert((exists|h: Hand| cells_hands(new).contains(h) && cells_hands(cells).contains(h)) <==> (exists|h: Hand|
            cells_hands(cells).contains(h) && cells_hands(new).contains(h)));
        assert((exists|c: (int, int)| new.contains(c) && cells.contains(c)) <==> (exists|c: (int, int)|
            cells.contains(c) && new.contains(c)));
        assert(cells_hands(new).union(cells_hands(cells)) =~= cells_hands(cells).union(cells_hands(new)));
        assert(cells_hands(cells).union(cells_hands(new)) == cells_hands(cells.union(new)));
    }
}

/// The two range readers agree: where no entry is written as a single hand
/// (which only the hand reader takes), the hand reader accepts exactly what
/// the table reader accepts, with the hands of the cells it reads, and refuses
/// with the same error.
pub proof fn law_range_readers_agree(b: Seq<u8>)
    requires
        trimmed(b) != full_word() ==> no_single_hands(trimmed(b), 0, 0),
    ensures
        parse_table(b) == match parse_range(b) {
            Ok(c) => Ok::<Set<Hand>, RangeError>(cells_hands(c)),
            Err(e) => Err(e),
        },
{
    if trimmed(b) == full_word() {
        assert(all_hands() =~= cells_hands(all_cells())) by {
            assert forall|h: Hand| #[trigger] all_hands().contains(h) implies cells_hands(all_cells()).contains(h) by {
                assert(0 <= h.0.rank.index() < 13 && 0 <= h.1.rank.index() < 13);
            }
        }
    } else {
        assert(cells_hands(Set::<(int, int)>::empty()) =~= Set::<Hand>::empty());
        lemma_parse_from_agree(Set::empty(), trimmed(b), 0, 0);
    }
}

} // verus!
