use vstd::prelude::*;

use crate::card::{card_of_index, rank_of_index, Card, CardError, Cards, Rank, Suite};
use crate::hand::{Hand, HAND_COUNT};
use vstd::string::{StringExecFns, StringSliceAdditionalSpecFns};

verus! {

/// Why a range could not be read or changed.
#[derive(Clone, Copy, Debug, PartialEq, Eq, Structural)]
pub enum RangeError {
    /// An entry does not have one of the accepted shapes.
    Format,
    /// A rank or card character is not valid.
    Card(CardError),
    /// In an unpaired entry the low rank is not below the high rank.
    LowNotBelowHigh,
    /// An entry adds something the range already holds.
    Duplicate,
}

/// A cell of the pre flop table: pairs, suited and offsuit hands of two ranks.
#[derive(Clone, Copy, Debug, PartialEq, Eq, Structural)]
pub struct RangeEntry {
    pub(crate) high: Rank,
    pub(crate) low: Rank,
    pub(crate) suited: bool,
}

impl RangeEntry {
    pub closed spec fn high_rank(self) -> Rank {
        self.high
    }

    pub closed spec fn low_rank(self) -> Rank {
        self.low
    }

    pub closed spec fn is_suited(self) -> bool {
        self.suited
    }

    /// The entry is a pair (never suited) or has a strictly higher first rank.
    pub closed spec fn wf(self) -> bool {
        self.high.index() > self.low.index() || (self.high == self.low && !self.suited)
    }

    /// Row and column of the entry in the table: suited hands sit in the row of
    /// their high rank, others in the row of their low rank.
    pub closed spec fn cell(self) -> (int, int) {
        if self.suited {
            (self.high.index(), self.low.index())
        } else {
            (self.low.index(), self.high.index())
        }
    }

    /// The cell of an entry lies inside the 13 by 13 table.
    pub proof fn lemma_cell_bounded(self)
        ensures
            0 <= self.cell().0 < 13,
            0 <= self.cell().1 < 13,
    {
    }

    /// The entry of the given ranks, or `None` when the low rank is above the
    /// high one or a pair is called suited.
    pub fn new(high: Rank, low: Rank, suited: bool) -> (r: Option<RangeEntry>)
        ensures
            (high.index() < low.index() || (high == low && suited)) ==> r is None,
            !(high.index() < low.index() || (high == low && suited)) ==> (r matches Some(e) && e.wf()
                && e.high_rank() == high && e.low_rank() == low && e.is_suited() == suited),
    {
        let h = high.to_usize();
        let l = low.to_usize();
        proof {
            Rank::lemma_index_injective(high, low);
        }
        if h < l || (h == l && suited) {
            return None;
        }
        Some(RangeEntry { high, low, suited })
    }

    /// The pair of `rank`.
    pub fn paired(rank: Rank) -> (e: RangeEntry)
        ensures
            e.wf(),
            e.high_rank() == rank,
            e.low_rank() == rank,
            !e.is_suited(),
    {
        RangeEntry { high: rank, low: rank, suited: false }
    }

    /// The entry a hand belongs to.
    pub fn from_hand(hand: Hand) -> (e: RangeEntry)
        requires
            hand.wf(),
        ensures
            e.wf(),
            e.high_rank() == hand.0.rank,
            e.low_rank() == hand.1.rank,
            e.is_suited() == (hand.0.suite == hand.1.suite),
    {
        proof {
            Rank::lemma_index_injective(hand.0.rank, hand.1.rank);
            Card::lemma_index_injective(hand.0, hand.1);
        }
        RangeEntry { high: hand.0.rank, low: hand.1.rank, suited: hand.0.suite == hand.1.suite }
    }

    /// The entry in row `row` and column `column` of the table.
    pub fn from_row_column(row: Rank, column: Rank) -> (e: RangeEntry)
        ensures
            e.wf(),
            e.cell() == (row.index(), column.index()),
    {
        let r = row.to_usize();
        let c = column.to_usize();
        proof {
            Rank::lemma_index_injective(row, column);
        }
        if c < r {
            RangeEntry { high: row, low: column, suited: true }
        } else {
            RangeEntry { high: column, low: row, suited: false }
        }
    }

    /// The higher rank.
    pub fn high(self) -> (r: Rank)
        ensures
            r == self.high_rank(),
    {
        self.high
    }

    /// The lower rank.
    pub fn low(self) -> (r: Rank)
        ensures
            r == self.low_rank(),
    {
        self.low
    }

    /// The entry as text: the two ranks, then `s` when suited or `o` when
    /// offsuit; a pair has no third character.
    pub fn to_regular_string(self) -> (s: String)
        ensures
            s@ == seq![self.high_rank().ascii() as char, self.low_rank().ascii() as char] + if self.high_rank()
                == self.low_rank() {
                Seq::<char>::empty()
            } else if self.is_suited() {
                seq!['s']
            } else {
                seq!['o']
            },
    {
        let mut s = String::from_str(crate::card::rank_text(self.high));
        s.append(crate::card::rank_text(self.low));
        proof {
            Rank::lemma_index_injective(self.high, self.low);
        }
        if self.high.to_usize() == self.low.to_usize() {
            proof {
                assert(s@ =~= seq![self.high_rank().ascii() as char, self.low_rank().ascii() as char] + Seq::<char>::empty());
            }
        } else if self.suited {
            proof {
                reveal_strlit("s");
            }
            s.append("s");
            proof {
                assert(s@ =~= seq![self.high_rank().ascii() as char, self.low_rank().ascii() as char] + seq!['s']);
            }
        } else {
            proof {
                reveal_strlit("o");
            }
            s.append("o");
            proof {
                assert(s@ =~= seq![self.high_rank().ascii() as char, self.low_rank().ascii() as char] + seq!['o']);
            }
        }
        s
    }

    /// Row and column of the entry in the table.
    pub fn first_second(self) -> (r: (Rank, Rank))
        ensures
            (r.0.index(), r.1.index()) == self.cell(),
    {
        if self.suited {
            (self.high, self.low)
        } else {
            (self.low, self.high)
        }
    }

    pub fn suited(self) -> (r: bool)
        ensures
            r == self.is_suited(),
    {
        self.suited
    }

    pub fn pair(self) -> (r: bool)
        ensures
            r == (self.high_rank() == self.low_rank()),
    {
        self.high.to_usize() == self.low.to_usize()
    }

    /// Number of two-card hands the entry stands for.
    pub fn combo_count(self) -> (n: u8)
        ensures
            n == if self.high_rank() == self.low_rank() {
                6int
            } else if self.is_suited() {
                4int
            } else {
                12int
            },
    {
        proof {
            Rank::lemma_index_injective(self.high, self.low);
        }
        if self.pair() {
            6
        } else if self.suited {
            4
        } else {
            12
        }
    }

    /// Reads an entry such as `AA`, `AA-`, `AKo` or `AKs`.
    pub fn from_bytes(b: &[u8]) -> (r: Result<RangeEntry, RangeError>)
        ensures
            r matches Ok(e) ==> (e.wf() && e.high_rank().ascii() == b@[0] && e.low_rank().ascii()
                == b@[1] && e.is_suited() == (b@.len() == 3 && b@[2] == 115u8)),
            r is Ok <==> ((b@.len() == 2 && b@[0] == b@[1]) || (b@.len() == 3 && b@[0] == b@[1]
                && b@[2] == 45u8) || (b@.len() == 3 && b@[0] != b@[1] && (b@[2] == 111u8 || b@[2]
                == 115u8))) && crate::card::spec_rank_from_ascii(b@[0]) is Some
                && crate::card::spec_rank_from_ascii(b@[1]) is Some && crate::card::spec_rank_from_ascii(
                b@[0],
            )->Some_0.index() >= crate::card::spec_rank_from_ascii(b@[1])->Some_0.index(),
    {
        let n = b.len();
        let suited = if n == 2 && b[0] == b[1] {
            false
        } else if n == 3 && b[0] == b[1] && b[2] == 45u8 {
            false
        } else if n == 3 && b[0] != b[1] && b[2] == 111u8 {
            false
        } else if n == 3 && b[0] != b[1] && b[2] == 115u8 {
            true
        } else {
            return Err(RangeError::Format);
        };
        let high = match Rank::from_ascii(b[0]) {
            Ok(r) => r,
            Err(e) => return Err(RangeError::Card(e)),
        };
        let low = match Rank::from_ascii(b[1]) {
            Ok(r) => r,
            Err(e) => return Err(RangeError::Card(e)),
        };
        proof {
            if high == low {
                assert(high.ascii() == low.ascii());
            }
        }
        match RangeEntry::new(high, low, suited) {
            Some(e) => Ok(e),
            None => Err(RangeError::Format),
        }
    }
}

proof fn lemma_u16_bit_or(x: u16, k: u16, j: u16)
    by (bit_vector)
    requires
        k < 16,
        j < 16,
    ensures
        (((x | (1u16 << k)) >> j) & 1u16 == 1u16) == ((((x >> j) & 1u16) == 1u16) || j == k),
{
}

proof fn lemma_u16_bit_test(x: u16, k: u16)
    by (bit_vector)
    requires
        k < 16,
    ensures
        ((x & (1u16 << k)) != 0u16) == (((x >> k) & 1u16) == 1u16),
{
}

proof fn lemma_u16_zero(j: u16)
    by (bit_vector)
    requires
        j < 16,
    ensures
        ((0u16 >> j) & 1u16) != 1u16,
{
}

/// Bit `k` of a 16-bit word.
pub open spec fn half_bit(x: u16, k: int) -> bool {
    ((x >> (k as u16)) & 1u16) == 1u16
}

/// All cells of the pre flop table.
pub open spec fn all_cells() -> Set<(int, int)> {
    Set::new(|c: (int, int)| 0 <= c.0 < 13 && 0 <= c.1 < 13)
}

/// A pre flop range: which of the 169 cells of the rank table it holds.
#[derive(Clone, Copy, Debug)]
pub struct PreFlopRangeTable {
    pub(crate) table: [u16; 13],
}

impl PreFlopRangeTable {
    pub const COUNT: usize = 169;

    /// The cells the range holds.
    pub closed spec fn cells(self) -> Set<(int, int)> {
        Set::new(|c: (int, int)| 0 <= c.0 < 13 && 0 <= c.1 < 13 && half_bit(self.table@[c.0], c.1))
    }

    /// Every cell lies inside the 13 by 13 table.
    pub proof fn lemma_cells_bounded(self)
        ensures
            forall|c: (int, int)| #[trigger] self.cells().contains(c) ==> 0 <= c.0 < 13 && 0 <= c.1 < 13,
    {
    }

    /// Whether the range holds the entry.
    pub open spec fn holds(self, e: RangeEntry) -> bool {
        self.cells().contains(e.cell())
    }

    /// The empty range.
    pub fn empty() -> (r: PreFlopRangeTable)
        ensures
            r.cells() == Set::<(int, int)>::empty(),
    {
        let r = PreFlopRangeTable { table: [0u16; 13] };
        proof {
            assert forall|c: (int, int)| !r.cells().contains(c) by {
                if 0 <= c.0 < 13 && 0 <= c.1 < 13 {
                    lemma_u16_zero(c.1 as u16);
                }
            }
            assert(r.cells() =~= Set::<(int, int)>::empty());
        }
        r
    }

    pub(crate) fn has_cell(&self, a: usize, b: usize) -> (r: bool)
        requires
            a < 13,
            b < 13,
        ensures
            r == self.cells().contains((a as int, b as int)),
    {
        let x = self.table[a];
        proof {
            lemma_u16_bit_test(x, b as u16);
        }
        (x & (1u16 << (b as u16))) != 0
    }

    fn add_cell(&mut self, a: usize, b: usize)
        requires
            a < 13,
            b < 13,
        ensures
            final(self).cells() == old(self).cells().insert((a as int, b as int)),
    {
        let x = self.table[a];
        self.table[a] = x | (1u16 << (b as u16));
        proof {
            assert forall|c: (int, int)| self.cells().contains(c) <==> old(self).cells().insert((a as int, b as int)).contains(c) by {
                if 0 <= c.0 < 13 && 0 <= c.1 < 13 {
                    if c.0 == a {
                        lemma_u16_bit_or(x, b as u16, c.1 as u16);
                    } else {
                        assert(self.table@[c.0] == old(self).table@[c.0]);
                    }
                }
            }
            assert(self.cells() =~= old(self).cells().insert((a as int, b as int)));
        }
    }

    /// The range of all hands.
    pub fn full() -> (r: PreFlopRangeTable)
        ensures
            r.cells() == all_cells(),
    {
        let mut r = PreFlopRangeTable::empty();
        let mut a: usize = 0;
        while a < 13
            invariant
                a <= 13,
                r.cells() == Set::new(|c: (int, int)| 0 <= c.0 < a && 0 <= c.1 < 13),
            decreases 13 - a,
        {
            let mut b: usize = 0;
            while b < 13
                invariant
                    a < 13,
                    b <= 13,
                    r.cells() == Set::new(|c: (int, int)| (0 <= c.0 < a && 0 <= c.1 < 13) || (c.0 == a && 0 <= c.1 < b)),
                decreases 13 - b,
            {
                r.add_cell(a, b);
                proof {
                    assert(r.cells() =~= Set::new(|c: (int, int)| (0 <= c.0 < a && 0 <= c.1 < 13) || (c.0 == a && 0 <= c.1 < b + 1)));
                }
                b = b + 1;
            }
            proof {
                assert(r.cells() =~= Set::new(|c: (int, int)| 0 <= c.0 < a + 1 && 0 <= c.1 < 13));
            }
            a = a + 1;
        }
        proof {
            assert(r.cells() =~= all_cells());
        }
        r
    }

    /// Whether the range holds the entry.
    pub fn contains_entry(&self, entry: RangeEntry) -> (r: bool)
        ensures
            r == self.holds(entry),
    {
        let (a, b) = entry.first_second();
        self.has_cell(a.to_usize(), b.to_usize())
    }

    /// Whether the range holds the hand.
    pub fn contains(&self, hand: Hand) -> (r: bool)
        requires
            hand.wf(),
        ensures
            r == self.cells().contains(if hand.0.suite == hand.1.suite {
                (hand.0.rank.index(), hand.1.rank.index())
            } else {
                (hand.1.rank.index(), hand.0.rank.index())
            }),
    {
        self.contains_entry(RangeEntry::from_hand(hand))
    }

    /// Whether the range holds nothing.
    pub fn is_empty(&self) -> (r: bool)
        ensures
            r == (self.cells() == Set::<(int, int)>::empty()),
    {
        self.row_is_empty_tail(0)
    }

    /// Whether row `a` and the rows after it hold no cell.
    fn row_is_empty_tail(&self, a: usize) -> (r: bool)
        requires
            a <= 13,
            forall|c: (int, int)| 0 <= c.0 < a && #[trigger] self.cells().contains(c) ==> false,
        ensures
            r == (self.cells() == Set::<(int, int)>::empty()),
    {
        let mut k: usize = a;
        while k < 13
            invariant
                a <= k <= 13,
                forall|c: (int, int)| 0 <= c.0 < k && #[trigger] self.cells().contains(c) ==> false,
            decreases 13 - k,
        {
            let mut b: usize = 0;
            while b < 13
                invariant
                    k < 13,
                    b <= 13,
                    forall|c: (int, int)| 0 <= c.0 < k && #[trigger] self.cells().contains(c) ==> false,
                    forall|j: int| 0 <= j < b ==> !self.cells().contains((k as int, j)),
                decreases 13 - b,
            {
                if self.has_cell(k, b) {
                    proof {
                        assert(self.cells().contains((k as int, b as int)));
                    }
                    return false;
                }
                b = b + 1;
            }
            proof {
                assert forall|c: (int, int)| 0 <= c.0 < k + 1 && #[trigger] self.cells().contains(c) implies false by {
                    if c.0 == k {
                        assert(!self.cells().contains((k as int, c.1)));
                    }
                }
            }
            k = k + 1;
        }
        proof {
            assert(self.cells() =~= Set::<(int, int)>::empty());
        }
        true
    }

    /// Number of cells the range holds.
    pub fn count(&self) -> (n: u8)
        ensures
            n == self.cells().len(),
    {
        let mut n: u8 = 0;
        let mut a: usize = 0;
        let ghost mut seen: Set<(int, int)> = Set::empty();
        while a < 13
            invariant
                a <= 13,
                seen == self.cells().filter(|c: (int, int)| c.0 < a),
                seen.finite(),
                n == seen.len(),
                n <= 13 * a,
            decreases 13 - a,
        {
            let mut b: usize = 0;
            while b < 13
                invariant
                    a < 13,
                    b <= 13,
                    seen == self.cells().filter(|c: (int, int)| c.0 < a || (c.0 == a && c.1 < b)),
                    seen.finite(),
                    n == seen.len(),
                    n <= 13 * a + b,
                decreases 13 - b,
            {
                let ghost before = seen;
                if self.has_cell(a, b) {
                    n = n + 1;
                    proof {
                        seen = seen.insert((a as int, b as int));
                    }
                }
                proof {
                    assert(seen =~= self.cells().filter(|c: (int, int)| c.0 < a || (c.0 == a && c.1 < b + 1)));
                }
                b = b + 1;
            }
            proof {
                assert(seen =~= self.cells().filter(|c: (int, int)| c.0 < a + 1));
            }
            a = a + 1;
        }
        proof {
            assert(seen =~= self.cells());
        }
        n
    }
}


/// ASCII white space.
pub open spec fn is_space(b: u8) -> bool {
    b == 32u8 || (9u8 <= b && b <= 13u8)
}

/// The three bytes encode a white space character in UTF-8: U+1680,
/// U+2000 to U+200A, U+2028, U+2029, U+202F, U+205F or U+3000.
pub open spec fn is_space3(x: u8, y: u8, z: u8) -> bool {
    ||| (x == 0xE1u8 && y == 0x9Au8 && z == 0x80u8)
    ||| (x == 0xE2u8 && y == 0x80u8 && ((0x80u8 <= z && z <= 0x8Au8) || z == 0xA8u8 || z == 0xA9u8 || z == 0xAFu8))
    ||| (x == 0xE2u8 && y == 0x81u8 && z == 0x9Fu8)
    ||| (x == 0xE3u8 && y == 0x80u8 && z == 0x80u8)
}

/// The two bytes encode a white space character in UTF-8: U+0085 or U+00A0.
pub open spec fn is_space2(x: u8, y: u8) -> bool {
    x == 0xC2u8 && (y == 0x85u8 || y == 0xA0u8)
}

/// The length of the white space character that starts at `i` in `b`, or 0
/// when none does.
pub open spec fn space_at(b: Seq<u8>, i: int) -> int {
    if i < 0 || i >= b.len() {
        0
    } else if is_space(b[i]) {
        1
    } else if i + 1 < b.len() && is_space2(b[i], b[i + 1]) {
        2
    } else if i + 2 < b.len() && is_space3(b[i], b[i + 1], b[i + 2]) {
        3
    } else {
        0
    }
}

/// The length of the white space character that ends at `j` in `b`, not
/// reaching before `lo`, or 0 when none does.
pub open spec fn space_before(b: Seq<u8>, lo: int, j: int) -> int {
    if j - 1 < lo || j > b.len() {
        0
    } else if is_space(b[j - 1]) {
        1
    } else if j - 2 >= lo && is_space2(b[j - 2], b[j - 1]) {
        2
    } else if j - 3 >= lo && is_space3(b[j - 3], b[j - 2], b[j - 1]) {
        3
    } else {
        0
    }
}

/// Index of the first character from `i` on that is not white space.
pub open spec fn trim_lo(b: Seq<u8>, i: int) -> int
    decreases b.len() - i,
{
    if space_at(b, i) > 0 {
        trim_lo(b, i + space_at(b, i))
    } else {
        i
    }
}

/// Index past the last character before `j` (and after `lo`) that is not
/// white space.
pub open spec fn trim_hi(b: Seq<u8>, lo: int, j: int) -> int
    decreases j - lo,
{
    if space_before(b, lo, j) > 0 {
        trim_hi(b, lo, j - space_before(b, lo, j))
    } else {
        j
    }
}

/// The bytes without leading and trailing white space.
pub open spec fn trimmed(b: Seq<u8>) -> Seq<u8> {
    let lo = trim_lo(b, 0);
    b.subrange(lo, trim_hi(b, lo, b.len() as int))
}

/// The bytes of `full`.
pub open spec fn full_word() -> Seq<u8> {
    seq![102u8, 117u8, 108u8, 108u8]
}

/// The rank of a rank character, as a row or column index.
pub open spec fn rank_at(b: u8) -> Result<int, RangeError> {
    match crate::card::spec_rank_from_ascii(b) {
        Some(r) => Ok(r.index()),
        None => Err(RangeError::Card(CardError::InvalidRank)),
    }
}

/// The pair cells from rank `lo` up to aces.
pub open spec fn pair_cells(lo: int) -> Set<(int, int)> {
    Set::new(|c: (int, int)| lo <= c.0 < 13 && c.1 == c.0)
}

/// The cells of `high` with a low rank from `lo` up to (not including) `hi`:
/// suited ones in the row of the high rank, offsuit ones in its column.
pub open spec fn high_cells(high: int, lo: int, hi: int, suited: bool) -> Set<(int, int)> {
    Set::new(
        |c: (int, int)|
            if suited {
                c.0 == high && lo <= c.1 < hi
            } else {
                c.1 == high && lo <= c.0 < hi
            },
    )
}

/// The cells one entry of a range names: `QQ`, `QQ+` (queens and up), `AKo`,
/// `AKs`, `AQo+` and `AQs+` (ace-queen up to ace-king).
pub open spec fn def_cells(d: Seq<u8>) -> Result<Set<(int, int)>, RangeError> {
    let n = d.len();
    if n == 2 && d[0] == d[1] {
        match rank_at(d[0]) {
            Ok(r) => Ok(pair_cells(r).filter(|c: (int, int)| c.0 == r)),
            Err(e) => Err(e),
        }
    } else if n == 3 && d[0] == d[1] && d[2] == 43u8 {
        match rank_at(d[0]) {
            Ok(r) => Ok(pair_cells(r)),
            Err(e) => Err(e),
        }
    } else if (n == 3 && (d[2] == 111u8 || d[2] == 115u8)) || (n == 4 && (d[2] == 111u8 || d[2] == 115u8)
        && d[3] == 43u8) {
        match rank_at(d[0]) {
            Err(e) => Err(e),
            Ok(high) => match rank_at(d[1]) {
                Err(e) => Err(e),
                Ok(low) => if low >= high {
                    Err(RangeError::LowNotBelowHigh)
                } else if n == 3 {
                    Ok(high_cells(high, low, low + 1, d[2] == 115u8))
                } else {
                    Ok(high_cells(high, low, high, d[2] == 115u8))
                },
            },
        }
    } else {
        Err(RangeError::Format)
    }
}

/// Adds the cells of one entry; an entry that names a cell already held is refused.
pub open spec fn apply_def(cells: Set<(int, int)>, d: Seq<u8>) -> Result<Set<(int, int)>, RangeError> {
    match def_cells(d) {
        Err(e) => Err(e),
        Ok(new) => if exists|c: (int, int)| new.contains(c) && cells.contains(c) {
            Err(RangeError::Duplicate)
        } else {
            Ok(cells.union(new))
        },
    }
}

/// Reads the comma separated entries of `b` from `i` on, the current entry
/// starting at `start`.
pub open spec fn parse_from(cells: Set<(int, int)>, b: Seq<u8>, start: int, i: int) -> Result<Set<(int, int)>, RangeError>
    decreases b.len() - i,
{
    if i >= b.len() {
        apply_def(cells, b.subrange(start, b.len() as int))
    } else if b[i] == 44u8 {
        match apply_def(cells, b.subrange(start, i)) {
            Ok(next) => parse_from(next, b, i + 1, i + 1),
            Err(e) => Err(e),
        }
    } else {
        parse_from(cells, b, start, i + 1)
    }
}

/// A whole range: `full`, or comma separated entries, white space around it ignored.
pub open spec fn parse_range(b: Seq<u8>) -> Result<Set<(int, int)>, RangeError> {
    let t = trimmed(b);
    if t == full_word() {
        Ok(all_cells())
    } else {
        parse_from(Set::empty(), t, 0, 0)
    }
}

/// Bounds of `b` without leading and trailing white space.
/// The length of the white space character that starts at `i` in `b`.
fn space_len_at(b: &[u8], i: usize) -> (n: usize)
    requires
        i <= b@.len(),
    ensures
        n == space_at(b@, i as int),
        i + n <= b@.len(),
{
    let len = b.len();
    if i >= len {
        return 0;
    }
    let x = b[i];
    if x == 32u8 || (9u8 <= x && x <= 13u8) {
        return 1;
    }
    if i + 1 < len {
        let y = b[i + 1];
        if x == 0xC2u8 && (y == 0x85u8 || y == 0xA0u8) {
            return 2;
        }
        if i + 2 < len {
            let z = b[i + 2];
            if (x == 0xE1u8 && y == 0x9Au8 && z == 0x80u8) || (x == 0xE2u8 && y == 0x80u8 && ((0x80u8 <= z && z
                <= 0x8Au8) || z == 0xA8u8 || z == 0xA9u8 || z == 0xAFu8)) || (x == 0xE2u8 && y == 0x81u8 && z
                == 0x9Fu8) || (x == 0xE3u8 && y == 0x80u8 && z == 0x80u8) {
                return 3;
            }
        }
    }
    0
}

/// The length of the white space character that ends at `j` in `b`, not
/// reaching before `lo`.
fn space_len_before(b: &[u8], lo: usize, j: usize) -> (n: usize)
    requires
        lo <= j <= b@.len(),
    ensures
        n == space_before(b@, lo as int, j as int),
        n <= j - lo,
{
    if j - lo < 1 {
        return 0;
    }
    let x = b[j - 1];
    if x == 32u8 || (9u8 <= x && x <= 13u8) {
        return 1;
    }
    if j - lo >= 2 {
        let w = b[j - 2];
        if w == 0xC2u8 && (x == 0x85u8 || x == 0xA0u8) {
            return 2;
        }
        if j - lo >= 3 {
            let v = b[j - 3];
            if (v == 0xE1u8 && w == 0x9Au8 && x == 0x80u8) || (v == 0xE2u8 && w == 0x80u8 && ((0x80u8 <= x && x
                <= 0x8Au8) || x == 0xA8u8 || x == 0xA9u8 || x == 0xAFu8)) || (v == 0xE2u8 && w == 0x81u8 && x
                == 0x9Fu8) || (v == 0xE3u8 && w == 0x80u8 && x == 0x80u8) {
                return 3;
            }
        }
    }
    0
}

/// Bounds of `b` without leading and trailing white space (every white
/// space character of Unicode, in UTF-8).
pub(crate) fn trim_bounds(b: &[u8]) -> (r: (usize, usize))
    ensures
        r.0 <= r.1 <= b@.len(),
        r.0 == trim_lo(b@, 0),
        r.1 == trim_hi(b@, r.0 as int, b@.len() as int),
        b@.subrange(r.0 as int, r.1 as int) == trimmed(b@),
{
    let ghost bs = b@;
    let len = b.len();
    let mut lo: usize = 0;
    loop
        invariant
            bs == b@,
            len == b@.len(),
            lo <= b@.len(),
            trim_lo(bs, 0) == trim_lo(bs, lo as int),
        ensures
            lo <= b@.len(),
            lo == trim_lo(bs, 0),
        decreases b@.len() - lo,
    {
        let n = space_len_at(b, lo);
        if n == 0 {
            break;
        }
        assert(lo + n <= len);
        lo = lo + n;
    }
    let mut hi: usize = b.len();
    loop
        invariant
            bs == b@,
            lo <= hi <= b@.len(),
            lo == trim_lo(bs, 0),
            trim_hi(bs, lo as int, b@.len() as int) == trim_hi(bs, lo as int, hi as int),
        ensures
            lo <= hi <= b@.len(),
            hi == trim_hi(bs, lo as int, b@.len() as int),
        decreases hi,
    {
        let n = space_len_before(b, lo, hi);
        if n == 0 {
            break;
        }
        hi = hi - n;
    }
    (lo, hi)
}

impl PreFlopRangeTable {
    /// Adds cell (`a`, `b`) unless it is already held.
    fn try_add_cell(&mut self, a: usize, b: usize) -> (r: Result<(), RangeError>)
        requires
            a < 13,
            b < 13,
        ensures
            r is Ok <==> !old(self).cells().contains((a as int, b as int)),
            r is Ok ==> final(self).cells() == old(self).cells().insert((a as int, b as int)),
            r is Err ==> r == Err::<(), RangeError>(RangeError::Duplicate) && *final(self) == *old(self),
    {
        if self.has_cell(a, b) {
            Err(RangeError::Duplicate)
        } else {
            self.add_cell(a, b);
            Ok(())
        }
    }

    /// Adds the cells of the entry `b[start..end]`.
    #[verifier::loop_isolation(false)]
    #[verifier::spinoff_prover]
    pub(crate) fn apply_entry(&mut self, b: &[u8], start: usize, end: usize) -> (r: Result<(), RangeError>)
        requires
            start <= end <= b@.len(),
        ensures
            match apply_def(old(self).cells(), b@.subrange(start as int, end as int)) {
                Ok(c) => r is Ok && final(self).cells() == c,
                Err(e) => r == Err::<(), RangeError>(e),
            },
    {
        let ghost d = b@.subrange(start as int, end as int);
        let ghost old_cells = self.cells();
        let n = end - start;
        if n == 2 && b[start] == b[start + 1] {
            let r = match Rank::from_ascii(b[start]) {
                Ok(r) => r.to_usize(),
                Err(e) => return Err(RangeError::Card(e)),
            };
            proof {
                assert(pair_cells(r as int).filter(|c: (int, int)| c.0 == r) =~= set![(r as int, r as int)]);
            }
            return self.try_add_cell(r, r);
        }
        if n == 3 && b[start] == b[start + 1] && b[start + 2] == 43u8 {
            let from = match Rank::from_ascii(b[start]) {
                Ok(r) => r.to_usize(),
                Err(e) => return Err(RangeError::Card(e)),
            };
            let mut k: usize = from;
            while k < 13
                invariant
                    from <= k <= 13,
                    self.cells() == old_cells.union(Set::new(|c: (int, int)| from <= c.0 < k && c.1 == c.0)),
                    forall|j: int| from <= j < k ==> !old_cells.contains((j, j)),
                decreases 13 - k,
            {
                let r = self.try_add_cell(k, k);
                if r.is_err() {
                    proof {
                        assert(self.cells().contains((k as int, k as int)));
                        assert(old_cells.contains((k as int, k as int)));
                        assert(pair_cells(from as int).contains((k as int, k as int)));
                    }
                    return Err(RangeError::Duplicate);
                }
                proof {
                    assert(self.cells() =~= old_cells.union(Set::new(|c: (int, int)| from <= c.0 < k + 1 && c.1 == c.0)));
                }
                k = k + 1;
            }
            proof {
                assert(Set::new(|c: (int, int)| from <= c.0 < 13 && c.1 == c.0) =~= pair_cells(from as int));
                assert(!exists|c: (int, int)| pair_cells(from as int).contains(c) && old_cells.contains(c));
            }
            return Ok(());
        }
        let shape = (n == 3 && (b[start + 2] == 111u8 || b[start + 2] == 115u8)) || (n == 4 && (b[start + 2]
            == 111u8 || b[start + 2] == 115u8) && b[start + 3] == 43u8);
        if !shape {
            return Err(RangeError::Format);
        }
        let high = match Rank::from_ascii(b[start]) {
            Ok(r) => r.to_usize(),
            Err(e) => return Err(RangeError::Card(e)),
        };
        let low = match Rank::from_ascii(b[start + 1]) {
            Ok(r) => r.to_usize(),
            Err(e) => return Err(RangeError::Card(e)),
        };
        if low >= high {
            return Err(RangeError::LowNotBelowHigh);
        }
        let suited = b[start + 2] == 115u8;
        let top = if n == 3 { low + 1 } else { high };
        proof {
            assert(def_cells(d) == Ok::<Set<(int, int)>, RangeError>(high_cells(high as int, low as int, top as int, suited)));
        }
        let mut k: usize = low;
        while k < top
            invariant
                low <= k <= top <= high < 13,
                self.cells() == old_cells.union(high_cells(high as int, low as int, k as int, suited)),
                forall|c: (int, int)| high_cells(high as int, low as int, k as int, suited).contains(c) ==> !old_cells.contains(c),
            decreases top - k,
        {
            let (x, y) = if suited { (high, k) } else { (k, high) };
            let r = self.try_add_cell(x, y);
            if r.is_err() {
                proof {
                    assert(self.cells().contains((x as int, y as int)));
                    assert(!high_cells(high as int, low as int, k as int, suited).contains((x as int, y as int)));
                    assert(old_cells.contains((x as int, y as int)));
                    assert(high_cells(high as int, low as int, top as int, suited).contains((x as int, y as int)));
                }
                return Err(RangeError::Duplicate);
            }
            proof {
                assert(self.cells() =~= old_cells.union(high_cells(high as int, low as int, k + 1, suited)));
            }
            k = k + 1;
        }
        proof {
            assert(!exists|c: (int, int)| high_cells(high as int, low as int, top as int, suited).contains(c) && old_cells.contains(c));
        }
        Ok(())
    }

    /// Reads a range: `full`, or comma separated entries such as `QQ+,AKs,AJo+`.
    #[verifier::loop_isolation(false)]
    pub fn parse(range_str: &str) -> (r: Result<PreFlopRangeTable, RangeError>)
        ensures
            match parse_range(range_str.spec_bytes()) {
                Ok(c) => r matches Ok(t) && t.cells() == c,
                Err(e) => r == Err::<PreFlopRangeTable, RangeError>(e),
            },
    {
        let b = range_str.as_bytes();
        let ghost bs = b@;
        let (lo, hi) = trim_bounds(b);
        let ghost t = bs.subrange(lo as int, hi as int);
        proof {
            assert(t == trimmed(bs));
        }
        if hi - lo == 4 && b[lo] == 102u8 && b[lo + 1] == 117u8 && b[lo + 2] == 108u8 && b[lo + 3] == 108u8 {
            proof {
                assert(t =~= full_word());
            }
            return Ok(PreFlopRangeTable::full());
        }
        proof {
            if t == full_word() {
                assert(t[0] == 102u8);
                assert(false);
            }
        }
        let mut table = PreFlopRangeTable::empty();
        let mut start: usize = lo;
        let mut i: usize = lo;
        while i < hi
            invariant
                lo <= start <= i <= hi <= b@.len(),
                parse_from(Set::empty(), t, 0, 0) == parse_from(table.cells(), t, start - lo, i - lo),
            decreases hi - i,
        {
            if b[i] == 44u8 {
                let ghost before = table.cells();
                let r = table.apply_entry(b, start, i);
                proof {
                    assert(t.subrange(start - lo, i - lo) =~= bs.subrange(start as int, i as int));
                    assert(t[i - lo] == 44u8);
                }
                match r {
                    Ok(()) => {},
                    Err(e) => return Err(e),
                }
                start = i + 1;
            }
            i = i + 1;
        }
        let r = table.apply_entry(b, start, hi);
        proof {
            assert(t.subrange(start - lo, t.len() as int) =~= bs.subrange(start as int, hi as int));
        }
        match r {
            Ok(()) => Ok(table),
            Err(e) => Err(e),
        }
    }
}


/// The table cell of a hand: suited hands in the row of their high rank,
/// others (pairs too) in the row of their low rank.
pub open spec fn hand_cell(h: Hand) -> (int, int) {
    if h.0.suite == h.1.suite {
        (h.0.rank.index(), h.1.rank.index())
    } else {
        (h.1.rank.index(), h.0.rank.index())
    }
}

/// Number of hands in cell (`a`, `b`): 6 pairs, 4 suited, 12 offsuit.
pub open spec fn cell_combos(a: int, b: int) -> int {
    if a == b {
        6
    } else if a > b {
        4
    } else {
        12
    }
}

/// The number of hands in the cells of row `a` from column `b` on.
pub open spec fn row_combos(cells: Set<(int, int)>, a: int, b: int) -> int
    decreases 13 - b,
{
    if b >= 13 {
        0
    } else {
        (if cells.contains((a, b)) {
            cell_combos(a, b)
        } else {
            0
        }) + row_combos(cells, a, b + 1)
    }
}

/// The number of hands in the cells of the first `n` rows: the sum of the
/// combinations of each cell, 6 for a pair, 4 suited and 12 offsuit.
pub open spec fn rows_combos(cells: Set<(int, int)>, n: int) -> int
    decreases n,
{
    if n <= 0 {
        0
    } else {
        rows_combos(cells, n - 1) + row_combos(cells, n - 1, 0)
    }
}

/// A row holds no hand exactly when it holds no cell.
proof fn lemma_row_combos_zero(cells: Set<(int, int)>, a: int, b: int)
    requires
        0 <= b <= 13,
    ensures
        row_combos(cells, a, b) >= 0,
        row_combos(cells, a, b) == 0 <==> forall|c: int| b <= c < 13 ==> !cells.contains((a, c)),
    decreases 13 - b,
{
    if b < 13 {
        lemma_row_combos_zero(cells, a, b + 1);
        if row_combos(cells, a, b) == 0 {
            assert forall|c: int| b <= c < 13 implies !cells.contains((a, c)) by {}
        }
    }
}

/// The first `n` rows hold no hand exactly when they hold no cell.
proof fn lemma_rows_combos_zero(cells: Set<(int, int)>, n: int)
    requires
        0 <= n <= 13,
    ensures
        rows_combos(cells, n) >= 0,
        rows_combos(cells, n) == 0 <==> forall|a: int, c: int| 0 <= a < n && 0 <= c < 13 ==> !cells.contains((a, c)),
    decreases n,
{
    if n > 0 {
        lemma_rows_combos_zero(cells, n - 1);
        lemma_row_combos_zero(cells, n - 1, 0);
    }
}


/// The hands of table cell `c`.
pub open spec fn cell_hand_set(c: (int, int)) -> Set<Hand> {
    Set::new(|h: Hand| h.wf() && hand_cell(h) == c)
}

/// The suites of the hands of cell `c`, higher card first: two different
/// suites, the higher first, for a pair; one suite for a suited cell; two
/// different suites for an offsuit cell.
spec fn cell_suite_pairs(c: (int, int)) -> Seq<(int, int)> {
    if c.0 == c.1 {
        Seq::new(
            6,
            |i: int|
                {
                    let s0 = if i < 1 {
                        1int
                    } else if i < 3 {
                        2int
                    } else {
                        3int
                    };
                    let off = if s0 == 1 {
                        0int
                    } else if s0 == 2 {
                        1int
                    } else {
                        3int
                    };
                    (s0, i - off)
                },
        )
    } else if c.0 > c.1 {
        Seq::new(4, |i: int| (i, i))
    } else {
        Seq::new(12, |i: int| (i / 3, if i % 3 >= i / 3 { i % 3 + 1 } else { i % 3 }))
    }
}

/// The hand of cell `c` with suites `sp`.
spec fn cell_hand_at(c: (int, int), sp: (int, int)) -> Hand {
    let hi = if c.0 >= c.1 {
        c.0
    } else {
        c.1
    };
    let lo = if c.0 >= c.1 {
        c.1
    } else {
        c.0
    };
    Hand(card_of_index(4 * hi + sp.0), card_of_index(4 * lo + sp.1))
}

spec fn cell_hand_seq(c: (int, int)) -> Seq<Hand> {
    cell_suite_pairs(c).map_values(|sp: (int, int)| cell_hand_at(c, sp))
}

proof fn lemma_card_parts(i: int)
    requires
        0 <= i < 52,
    ensures
        card_of_index(i).rank.index() == i / 4,
        card_of_index(i).suite.index() == i % 4,
        card_of_index(i).index() == i,
{
    Card::lemma_of_index(i);
    card_of_index(i).rank.lemma_index_roundtrip();
    assert(0 <= card_of_index(i).suite.index() < 4);
}

proof fn lemma_suite_index_injective(a: Suite, b: Suite)
    ensures
        (a.index() == b.index()) == (a == b),
        0 <= a.index() < 4,
{
}

/// The suite pairs of a cell are distinct and are exactly the pairs the
/// cell's hands can have.
proof fn lemma_cell_suite_pairs(c: (int, int), s0: int, s1: int)
    requires
        0 <= s0 < 4,
        0 <= s1 < 4,
    ensures
        cell_suite_pairs(c).no_duplicates(),
        forall|i: int| 0 <= i < cell_suite_pairs(c).len() ==> {
            let sp = #[trigger] cell_suite_pairs(c)[i];
            &&& 0 <= sp.0 < 4
            &&& 0 <= sp.1 < 4
            &&& c.0 == c.1 ==> sp.0 > sp.1
            &&& c.0 > c.1 ==> sp.0 == sp.1
            &&& c.0 < c.1 ==> sp.0 != sp.1
        },
        (c.0 == c.1 && s0 > s1) || (c.0 > c.1 && s0 == s1) || (c.0 < c.1 && s0 != s1) ==> cell_suite_pairs(
            c,
        ).contains((s0, s1)),
{
    let p = cell_suite_pairs(c);
    if c.0 == c.1 {
        if s0 > s1 {
            let off = if s0 == 1 {
                0int
            } else if s0 == 2 {
                1int
            } else {
                3int
            };
            assert(p[off + s1] == (s0, s1));
        }
    } else if c.0 > c.1 {
        if s0 == s1 {
            assert(p[s0] == (s0, s1));
        }
    } else {
        if s0 != s1 {
            let i = 3 * s0 + if s1 > s0 {
                s1 - 1
            } else {
                s1
            };
            assert(p[i] == (s0, s1));
        }
    }
}

proof fn lemma_cell_hand_member(c: (int, int), i: int)
    requires
        0 <= c.0 < 13,
        0 <= c.1 < 13,
        0 <= i < cell_suite_pairs(c).len(),
    ensures
        cell_hand_set(c).contains(cell_hand_at(c, cell_suite_pairs(c)[i])),
{
    lemma_cell_suite_pairs(c, 0, 0);
    let sp = cell_suite_pairs(c)[i];
    let h = cell_hand_at(c, sp);
    let hi = if c.0 >= c.1 { c.0 } else { c.1 };
    let lo = if c.0 >= c.1 { c.1 } else { c.0 };
    lemma_card_parts(4 * hi + sp.0);
    lemma_card_parts(4 * lo + sp.1);
    lemma_suite_index_injective(h.0.suite, h.1.suite);
}

proof fn lemma_cell_hand_distinct(c: (int, int), i: int, j: int)
    requires
        0 <= c.0 < 13,
        0 <= c.1 < 13,
        0 <= i < j < cell_suite_pairs(c).len(),
    ensures
        cell_hand_at(c, cell_suite_pairs(c)[i]) != cell_hand_at(c, cell_suite_pairs(c)[j]),
{
    lemma_cell_suite_pairs(c, 0, 0);
    let p = cell_suite_pairs(c);
    let hi = if c.0 >= c.1 { c.0 } else { c.1 };
    let lo = if c.0 >= c.1 { c.1 } else { c.0 };
    lemma_card_parts(4 * hi + p[i].0);
    lemma_card_parts(4 * lo + p[i].1);
    lemma_card_parts(4 * hi + p[j].0);
    lemma_card_parts(4 * lo + p[j].1);
    assert(p[i] != p[j]);
}

proof fn lemma_cell_hand_complete(c: (int, int), h: Hand)
    requires
        0 <= c.0 < 13,
        0 <= c.1 < 13,
        cell_hand_set(c).contains(h),
    ensures
        exists|i: int| 0 <= i < cell_suite_pairs(c).len() && cell_hand_at(c, cell_suite_pairs(c)[i]) == h,
{
    let p = cell_suite_pairs(c);
    let s0 = h.0.suite.index();
    let s1 = h.1.suite.index();
    lemma_suite_index_injective(h.0.suite, h.1.suite);
    h.0.rank.lemma_index_roundtrip();
    h.1.rank.lemma_index_roundtrip();
    lemma_cell_suite_pairs(c, s0, s1);
    let i = choose|i: int| 0 <= i < p.len() && p[i] == (s0, s1);
    let hi = if c.0 >= c.1 { c.0 } else { c.1 };
    let lo = if c.0 >= c.1 { c.1 } else { c.0 };
    h.0.lemma_index();
    h.1.lemma_index();
    assert(h.0.index() == 4 * hi + s0);
    assert(h.1.index() == 4 * lo + s1);
    assert(cell_hand_at(c, p[i]) == h);
}

/// A table cell holds 6 hands when it is a pair, 4 when suited (above the
/// diagonal, in the row of the high rank) and 12 when offsuit: the counts
/// `cell_combos` gives.
pub proof fn law_cell_hand_count(c: (int, int))
    requires
        0 <= c.0 < 13,
        0 <= c.1 < 13,
    ensures
        cell_hand_set(c).finite(),
        cell_hand_set(c).len() == if c.0 == c.1 {
            6int
        } else if c.0 > c.1 {
            4int
        } else {
            12int
        },
        cell_hand_set(c).len() == cell_combos(c.0, c.1),
{
    let p = cell_suite_pairs(c);
    let v = cell_hand_seq(c);
    assert forall|i: int| 0 <= i < v.len() implies cell_hand_set(c).contains(#[trigger] v[i]) by {
        lemma_cell_hand_member(c, i);
    }
    assert forall|i: int, j: int| 0 <= i < j < v.len() implies v[i] != v[j] by {
        lemma_cell_hand_distinct(c, i, j);
    }
    assert(v.no_duplicates());
    assert forall|h: Hand| cell_hand_set(c).contains(h) implies v.contains(h) by {
        lemma_cell_hand_complete(c, h);
        let i = choose|i: int| 0 <= i < p.len() && cell_hand_at(c, p[i]) == h;
        assert(v[i] == h);
    }
    assert(v.to_set() =~= cell_hand_set(c));
    v.unique_seq_to_set();
}

/// The suites of a hand, lower first.
pub open spec fn suite_slot(h: Hand) -> (int, int) {
    if h.0.suite.index() < h.1.suite.index() {
        (h.0.suite.index(), h.1.suite.index())
    } else {
        (h.1.suite.index(), h.0.suite.index())
    }
}

/// Slot (`x`, `y`) comes before slot (`sa`, `sb`) in the enumeration.
pub open spec fn slot_before(x: int, y: int, sa: int, sb: int) -> bool {
    x < sa || (x == sa && y < sb)
}

/// Number of slots (`x`, `y`) with `x < y < 4` before (`sa`, `sb`).
pub open spec fn slots_before(sa: int, sb: int) -> int {
    let full: int = if sa == 0 {
        0
    } else if sa == 1 {
        3
    } else if sa == 2 {
        5
    } else {
        6
    };
    full + (sb - sa - 1)
}

proof fn lemma_cell_facts(h: Hand)
    requires
        h.wf(),
    ensures
        h.0.suite == h.1.suite ==> h.0.rank.index() > h.1.rank.index(),
        h.0.suite != h.1.suite ==> h.0.rank.index() >= h.1.rank.index() && suite_slot(h).0 < suite_slot(h).1,
        0 <= h.0.suite.index() < 4,
        0 <= h.1.suite.index() < 4,
        (h.0.suite == h.1.suite) == (hand_cell(h).0 > hand_cell(h).1),
{
}

/// The hands of cell (`a`, `b`), in the order the table lists them.
pub(crate) fn cell_hands(a: usize, b: usize) -> (v: Vec<Hand>)
    requires
        a < 13,
        b < 13,
    ensures
        forall|h: Hand| v@.contains(h) <==> (h.wf() && hand_cell(h) == (a as int, b as int)),
        forall|i: int, j: int| 0 <= i < j < v@.len() ==> v@[i] != v@[j],
        v@.len() == cell_combos(a as int, b as int),
{
    let mut v: Vec<Hand> = Vec::new();
    let ra = Rank::from_usize(a);
    let rb = Rank::from_usize(b);
    if a > b {
        let mut k: usize = 0;
        while k < 4
            invariant
                k <= 4,
                a > b,
                ra.index() == a,
                rb.index() == b,
                forall|h: Hand| #[trigger] v@.contains(h) <==> (h.wf() && hand_cell(h) == (a as int, b as int) && h.0.suite.index() < k),
                forall|i: int, j: int| 0 <= i < j < v@.len() ==> v@[i] != v@[j],
                v@.len() == k,
            decreases 4 - k,
        {
            let su = Suite::from_usize(k);
            let h = Hand(Card::of(ra, su), Card::of(rb, su));
            let ghost old_v = v@;
            proof {
                assert(!v@.contains(h));
            }
            v.push(h);
            proof {
                assert forall|x: Hand| #[trigger] v@.contains(x) <==> (x.wf() && hand_cell(x) == (a as int, b as int)
                    && x.0.suite.index() < k + 1) by {
                    if x.wf() {
                        lemma_cell_facts(x);
                    }
                    if x.wf() && hand_cell(x) == (a as int, b as int) && x.0.suite.index() == k {
                        assert(x.0.suite == x.1.suite);
                        assert(x.0 == h.0);
                        assert(x.1 == h.1);
                        assert(v@[v@.len() - 1] == h);
                    }
                    if v@.contains(x) && !old_v.contains(x) {
                        let i = choose|i: int| 0 <= i < v@.len() && v@[i] == x;
                        if i < old_v.len() {
                            assert(old_v[i] == x);
                        }
                    }
                    if old_v.contains(x) {
                        let i = choose|i: int| 0 <= i < old_v.len() && old_v[i] == x;
                        assert(v@[i] == x);
                    }
                }
            }
            k = k + 1;
        }
        proof {
            assert forall|h: Hand| (h.wf() && hand_cell(h) == (a as int, b as int)) implies h.0.suite.index() < 4 by {
                lemma_cell_facts(h);
            }
        }
    } else {
        let mut sa: usize = 0;
        proof {
            assert forall|h: Hand| #[trigger] v@.contains(h) <==> (h.wf() && hand_cell(h) == (a as int, b as int)
                && suite_slot(h).0 < 0) by {
                if h.wf() {
                    lemma_cell_facts(h);
                }
            }
        }
        while sa < 4
            invariant
                sa <= 4,
                a <= b,
                ra.index() == a,
                rb.index() == b,
                forall|h: Hand| #[trigger] v@.contains(h) <==> (h.wf() && hand_cell(h) == (a as int, b as int)
                    && suite_slot(h).0 < sa),
                forall|i: int, j: int| 0 <= i < j < v@.len() ==> v@[i] != v@[j],
                v@.len() == (if a == b { 1int } else { 2int }) * slots_before(sa as int, sa as int + 1),
            decreases 4 - sa,
        {
            let mut sb: usize = sa + 1;
            proof {
                assert forall|h: Hand| #[trigger] v@.contains(h) <==> (h.wf() && hand_cell(h) == (a as int, b as int)
                    && slot_before(suite_slot(h).0, suite_slot(h).1, sa as int, sb as int)) by {
                    if h.wf() {
                        lemma_cell_facts(h);
                    }
                }
            }
            while sb < 4
                invariant
                    sa < 4,
                    sa + 1 <= sb <= 4,
                    a <= b,
                    ra.index() == a,
                    rb.index() == b,
                    forall|h: Hand| #[trigger] v@.contains(h) <==> (h.wf() && hand_cell(h) == (a as int, b as int)
                        && slot_before(suite_slot(h).0, suite_slot(h).1, sa as int, sb as int)),
                    forall|i: int, j: int| 0 <= i < j < v@.len() ==> v@[i] != v@[j],
                    v@.len() == (if a == b { 1int } else { 2int }) * slots_before(sa as int, sb as int),
                decreases 4 - sb,
            {
                let sua = Suite::from_usize(sa);
                let sub = Suite::from_usize(sb);
                let c1 = Card::of(ra, sua);
                let c2 = Card::of(rb, sub);
                proof {
                    Card::lemma_index_injective(c1, c2);
                }
                let h1 = match Hand::of_two_cards(c1, c2) {
                    Some(h) => h,
                    None => {
                        assert(false);
                        Hand::min()
                    },
                };
                let ghost v0 = v@;
                proof {
                    assert(hand_cell(h1) == (a as int, b as int));
                    assert(suite_slot(h1) == (sa as int, sb as int));
                    assert(!v0.contains(h1));
                }
                v.push(h1);
                let ghost v1 = v@;
                proof {
                    assert forall|x: Hand| v1.contains(x) <==> (v0.contains(x) || x == h1) by {
                        if v1.contains(x) && x != h1 {
                            let i = choose|i: int| 0 <= i < v1.len() && v1[i] == x;
                            assert(i < v0.len());
                            assert(v0[i] == x);
                        }
                        if v0.contains(x) {
                            let i = choose|i: int| 0 <= i < v0.len() && v0[i] == x;
                            assert(v1[i] == x);
                        }
                        if x == h1 {
                            assert(v1[v1.len() - 1] == h1);
                        }
                    }
                }
                if a != b {
                    let d1 = Card::of(ra, sub);
                    let d2 = Card::of(rb, sua);
                    proof {
                        Card::lemma_index_injective(d1, d2);
                    }
                    let h2 = match Hand::of_two_cards(d1, d2) {
                        Some(h) => h,
                        None => {
                            assert(false);
                            Hand::min()
                        },
                    };
                    proof {
                        assert(hand_cell(h2) == (a as int, b as int));
                        assert(suite_slot(h2) == (sa as int, sb as int));
                        assert(h2 != h1);
                        assert(!v1.contains(h2));
                    }
                    v.push(h2);
                    proof {
                        let v2 = v@;
                        assert forall|x: Hand| v2.contains(x) <==> (v1.contains(x) || x == h2) by {
                            if v2.contains(x) && x != h2 {
                                let i = choose|i: int| 0 <= i < v2.len() && v2[i] == x;
                                assert(i < v1.len());
                                assert(v1[i] == x);
                            }
                            if v1.contains(x) {
                                let i = choose|i: int| 0 <= i < v1.len() && v1[i] == x;
                                assert(v2[i] == x);
                            }
                            if x == h2 {
                                assert(v2[v2.len() - 1] == h2);
                            }
                        }
                        assert forall|x: Hand| #[trigger] v@.contains(x) <==> (x.wf() && hand_cell(x) == (a as int, b as int)
                            && slot_before(suite_slot(x).0, suite_slot(x).1, sa as int, sb + 1)) by {
                            if x.wf() {
                                lemma_cell_facts(x);
                            }
                            if x.wf() && hand_cell(x) == (a as int, b as int) && suite_slot(x) == (sa as int, sb as int) {
                                if x.1.suite.index() == sa {
                                    assert(x == h1);
                                } else {
                                    assert(x == h2);
                                }
                            }
                        }
                    }
                } else {
                    proof {
                        assert forall|x: Hand| #[trigger] v@.contains(x) <==> (x.wf() && hand_cell(x) == (a as int, b as int)
                            && slot_before(suite_slot(x).0, suite_slot(x).1, sa as int, sb + 1)) by {
                            if x.wf() {
                                lemma_cell_facts(x);
                            }
                            if x.wf() && hand_cell(x) == (a as int, b as int) && suite_slot(x) == (sa as int, sb as int) {
                                assert(x == h1);
                            }
                        }
                    }
                }
                sb = sb + 1;
            }
            proof {
                assert forall|x: Hand| #[trigger] v@.contains(x) <==> (x.wf() && hand_cell(x) == (a as int, b as int)
                    && suite_slot(x).0 < sa + 1) by {
                    if x.wf() {
                        lemma_cell_facts(x);
                    }
                }
            }
            sa = sa + 1;
        }
    }
    v
}


impl PreFlopRangeTable {
    /// The two card hands the range holds.
    pub open spec fn hands(self) -> Set<Hand> {
        Set::new(|h: Hand| h.wf() && self.cells().contains(hand_cell(h)))
    }

    /// The hands of the range, row by row from deuces up, each row from its
    /// highest column down.
    #[verifier::loop_isolation(false)]
    pub fn to_vec(&self) -> (v: Vec<Hand>)
        ensures
            forall|h: Hand| #[trigger] v@.contains(h) <==> self.hands().contains(h),
            v@.no_duplicates(),
            v@.len() == self.hands().len(),
            v@.len() == rows_combos(self.cells(), 13),
    {
        let mut v: Vec<Hand> = Vec::new();
        let mut r: usize = 0;
        while r < 13
            invariant
                r <= 13,
                forall|h: Hand| #[trigger] v@.contains(h) <==> (h.wf() && self.cells().contains(hand_cell(h))
                    && hand_cell(h).0 < r),
                v@.no_duplicates(),
                v@.len() == rows_combos(self.cells(), r as int),
            decreases 13 - r,
        {
            let mut ci: usize = 13;
            while ci > 0
                invariant
                    r < 13,
                    ci <= 13,
                    forall|h: Hand| #[trigger] v@.contains(h) <==> (h.wf() && self.cells().contains(hand_cell(h))
                        && (hand_cell(h).0 < r || (hand_cell(h).0 == r && hand_cell(h).1 >= ci))),
                    v@.no_duplicates(),
                    v@.len() == rows_combos(self.cells(), r as int) + row_combos(self.cells(), r as int, ci as int),
                decreases ci,
            {
                let c = ci - 1;
                if self.has_cell(r, c) {
                    let w = cell_hands(r, c);
                    let ghost v0 = v@;
                    let mut k: usize = 0;
                    while k < w.len()
                        invariant
                            k <= w@.len(),
                            v@ == v0 + w@.subrange(0, k as int),
                        decreases w@.len() - k,
                    {
                        v.push(w[k]);
                        proof {
                            assert(v@ =~= v0 + w@.subrange(0, k + 1));
                        }
                        k = k + 1;
                    }
                    proof {
                        assert(w@.subrange(0, w@.len() as int) =~= w@);
                        assert(v@ == v0 + w@);
                        assert forall|h: Hand| #[trigger] v@.contains(h) <==> (v0.contains(h) || w@.contains(h)) by {
                            if v@.contains(h) {
                                let i = choose|i: int| 0 <= i < v@.len() && v@[i] == h;
                                if i < v0.len() {
                                    assert(v0[i] == h);
                                } else {
                                    assert(w@[i - v0.len()] == h);
                                }
                            }
                            if v0.contains(h) {
                                let i = choose|i: int| 0 <= i < v0.len() && v0[i] == h;
                                assert(v@[i] == h);
                            }
                            if w@.contains(h) {
                                let i = choose|i: int| 0 <= i < w@.len() && w@[i] == h;
                                assert(v@[v0.len() + i] == h);
                            }
                        }
                        assert(v0.disjoint(w@)) by {
                            assert forall|i: int, j: int| 0 <= i < v0.len() && 0 <= j < w@.len() implies v0[i] != w@[j] by {
                                assert(v0.contains(v0[i]));
                                assert(w@.contains(w@[j]));
                            }
                        }
                        vstd::seq_lib::lemma_no_dup_in_concat(v0, w@);
                        assert forall|h: Hand| #[trigger] v@.contains(h) <==> (h.wf() && self.cells().contains(hand_cell(h))
                            && (hand_cell(h).0 < r || (hand_cell(h).0 == r && hand_cell(h).1 >= c))) by {
                            if h.wf() && hand_cell(h) == (r as int, c as int) {
                                assert(w@.contains(h));
                            }
                        }
                    }
                } else {
                    proof {
                        assert forall|h: Hand| #[trigger] v@.contains(h) <==> (h.wf() && self.cells().contains(hand_cell(h))
                            && (hand_cell(h).0 < r || (hand_cell(h).0 == r && hand_cell(h).1 >= c))) by {}
                    }
                }
                ci = c;
            }
            proof {
                assert forall|h: Hand| #[trigger] v@.contains(h) <==> (h.wf() && self.cells().contains(hand_cell(h))
                    && hand_cell(h).0 < r + 1) by {
                    if h.wf() {
                        lemma_cell_facts(h);
                    }
                }
            }
            r = r + 1;
        }
        proof {
            assert forall|h: Hand| #[trigger] v@.contains(h) <==> self.hands().contains(h) by {
                if h.wf() {
                    lemma_cell_facts(h);
                }
            }
            v@.unique_seq_to_set();
            assert(v@.to_set() =~= self.hands());
        }
        v
    }

    /// The number of hands the range holds.
    pub fn count_hands(&self) -> (n: u32)
        ensures
            n == self.hands().len(),
            n == rows_combos(self.cells(), 13),
            n == 0 <==> self.cells() == Set::<(int, int)>::empty(),
    {
        let v = self.to_vec();
        proof {
            lemma_rows_combos_zero(self.cells(), 13);
            if v@.len() == 0 {
                assert(self.cells() =~= Set::<(int, int)>::empty());
            }
            v@.unique_seq_to_set();
            assert(v@.to_set() =~= self.hands());
            lemma_hands_bound(v@);
        }
        v.len() as u32
    }

    /// The cards that occur in the hands of the range.
    pub fn card_set(&self) -> (cards: Cards)
        ensures
            forall|c: Card| cards.contains(c) <==> exists|h: Hand| #[trigger] self.hands().contains(h) && (h.0 == c
                || h.1 == c),
    {
        let v = self.to_vec();
        let mut cards = Cards::empty();
        let mut i: usize = 0;
        while i < v.len()
            invariant
                i <= v@.len(),
                forall|c: Card| cards.contains(c) <==> exists|j: int| 0 <= j < i && (v@[j].0 == c || v@[j].1 == c),
            decreases v@.len() - i,
        {
            let h = v[i];
            cards.try_add(h.0);
            cards.try_add(h.1);
            proof {
                assert forall|c: Card| cards.contains(c) <==> exists|j: int| 0 <= j < i + 1 && (v@[j].0 == c || v@[j].1 == c) by {
                    if c == h.0 || c == h.1 {
                        assert(v@[i as int] == h);
                    }
                }
            }
            i = i + 1;
        }
        proof {
            assert forall|c: Card| cards.contains(c) <==> exists|h: Hand| #[trigger] self.hands().contains(h) && (h.0 == c
                || h.1 == c) by {
                if cards.contains(c) {
                    let j = choose|j: int| 0 <= j < v@.len() && (v@[j].0 == c || v@[j].1 == c);
                    assert(v@.contains(v@[j]));
                    assert(self.hands().contains(v@[j]));
                }
                if exists|h: Hand| #[trigger] self.hands().contains(h) && (h.0 == c || h.1 == c) {
                    let h = choose|h: Hand| #[trigger] self.hands().contains(h) && (h.0 == c || h.1 == c);
                    assert(v@.contains(h));
                    let j = choose|j: int| 0 <= j < v@.len() && v@[j] == h;
                    assert(v@[j].0 == c || v@[j].1 == c);
                }
            }
        }
        cards
    }
}

/// A list of distinct hands has at most as many entries as there are hands.
proof fn lemma_hands_bound(v: Seq<Hand>)
    requires
        v.no_duplicates(),
        forall|h: Hand| v.contains(h) ==> h.wf(),
    ensures
        v.len() <= 1326,
{
    let idx = v.map_values(|h: Hand| h.index());
    assert forall|i: int, j: int| 0 <= i < idx.len() && 0 <= j < idx.len() && i != j implies idx[i] != idx[j] by {
        assert(v.contains(v[i]));
        assert(v.contains(v[j]));
        crate::hand::law_hand_index_bijection(v[i], 0);
        crate::hand::law_hand_index_bijection(v[j], 0);
    }
    idx.unique_seq_to_set();
    assert forall|k: int| idx.to_set().contains(k) implies vstd::set_lib::set_int_range(0, 1326).contains(k) by {
        let i = choose|i: int| 0 <= i < idx.len() && idx[i] == k;
        assert(v.contains(v[i]));
        crate::hand::law_hand_index_bijection(v[i], 0);
    }
    vstd::set_lib::lemma_int_range(0, 1326);
    vstd::set_lib::lemma_len_subset(idx.to_set(), vstd::set_lib::set_int_range(0, 1326));
}

} // verus!
