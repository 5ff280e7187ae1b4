use vstd::prelude::*;
use vstd::string::StringSliceAdditionalSpecFns;

use crate::card::{spec_rank_from_ascii, spec_suite_from_ascii, Card, CardError, Rank, Suite};

verus! {

/// Why a value of a hand history file could not be read.
#[derive(Clone, Copy, Debug, PartialEq, Eq, Structural)]
pub enum PriceError {
    /// The price does not start with the euro sign.
    MissingUnit,
    /// A part of the price is not a number.
    InvalidNumber,
    /// The cents have neither one nor two digits, or there are two separators.
    InvalidFormat,
    /// The price in cents does not fit.
    TooLarge,
}

/// A price in cents.
#[derive(Clone, Copy, Debug, PartialEq, Eq, Structural, Default)]
pub struct Price(pub u32);

/// Whether `b` is an ASCII digit.
pub open spec fn is_digit(b: u8) -> bool {
    48 <= b <= 57
}

/// The value of the decimal digits `b`; `None` when `b` is empty or holds
/// something else.
pub open spec fn digits_value(b: Seq<u8>) -> Option<int>
    decreases b.len(),
{
    if b.len() == 0 {
        None
    } else if !is_digit(b.last()) {
        None
    } else if b.len() == 1 {
        Some(b.last() - 48)
    } else {
        match digits_value(b.drop_last()) {
            Some(v) => Some(v * 10 + (b.last() - 48)),
            None => None,
        }
    }
}

/// An unsigned number as Rust's `parse` reads it: an optional `+`, then
/// digits, of a value at most `max`.
pub open spec fn unsigned_value(b: Seq<u8>, max: int) -> Option<int> {
    let d = if b.len() > 0 && b[0] == 43 {
        b.subrange(1, b.len() as int)
    } else {
        b
    };
    match digits_value(d) {
        Some(v) => if 0 <= v <= max {
            Some(v)
        } else {
            None
        },
        None => None,
    }
}

/// The first position at or after `from` where `b` holds `x`, or its length.
pub open spec fn find_byte(b: Seq<u8>, x: u8, from: int) -> int
    decreases b.len() - from,
{
    if from >= b.len() {
        b.len() as int
    } else if b[from] == x {
        from
    } else {
        find_byte(b, x, from + 1)
    }
}

/// The euro sign in UTF-8.
pub open spec fn euro_sign() -> Seq<u8> {
    seq![0xE2u8, 0x82u8, 0xACu8]
}

/// The cents of a price whose euros end at `i` in `w`, before the
/// separator `sep`: none when the price ends there, else one digit (tens of
/// cents) or two.
pub open spec fn cents_part(w: Seq<u8>, i: int, sep: u8) -> Result<int, PriceError> {
    if i == w.len() {
        Ok(0)
    } else {
        let rest = w.subrange(i + 1, w.len() as int);
        let j = find_byte(rest, sep, 0);
        match unsigned_value(rest.subrange(0, j), u32::MAX as int) {
            None => Err(PriceError::InvalidNumber),
            Some(c) => if j == 1 {
                if j < rest.len() {
                    Err(PriceError::InvalidFormat)
                } else {
                    Ok(c * 10)
                }
            } else if j == 2 {
                if j < rest.len() {
                    Err(PriceError::InvalidFormat)
                } else {
                    Ok(c)
                }
            } else {
                Err(PriceError::InvalidFormat)
            },
        }
    }
}

/// A price such as `€12,34` or `€0.5`: the euro sign, whole euros, and
/// optionally a comma (or, when there is none, a point) and one or two digits
/// of cents.
pub open spec fn price_of_bytes(b: Seq<u8>) -> Result<Price, PriceError> {
    if b.len() < 3 || b.subrange(0, 3) != euro_sign() {
        Err(PriceError::MissingUnit)
    } else {
        let w = b.subrange(3, b.len() as int);
        let sep: u8 = if w.contains(44u8) {
            44u8
        } else {
            46u8
        };
        let i = find_byte(w, sep, 0);
        match unsigned_value(w.subrange(0, i), u32::MAX as int) {
            None => Err(PriceError::InvalidNumber),
            Some(euros) => {
                let cents = cents_part(w, i, sep);
                match cents {
                    Err(e) => Err(e),
                    Ok(c) => if euros * 100 + c > u32::MAX {
                        Err(PriceError::TooLarge)
                    } else {
                        Ok(Price((euros * 100 + c) as u32))
                    },
                }
            },
        }
    }
}

/// The value of digits is not negative.
proof fn lemma_digits_nonneg(b: Seq<u8>)
    requires
        digits_value(b) is Some,
    ensures
        digits_value(b)->Some_0 >= 0,
    decreases b.len(),
{
    if b.len() > 1 {
        lemma_digits_nonneg(b.drop_last());
    }
}

/// Digits keep their value as a prefix of a longer run of digits.
proof fn lemma_digits_grow(b: Seq<u8>, i: int)
    requires
        1 <= i <= b.len(),
        digits_value(b) is Some,
    ensures
        digits_value(b.subrange(0, i)) is Some,
        digits_value(b)->Some_0 >= digits_value(b.subrange(0, i))->Some_0,
    decreases b.len(),
{
    if i < b.len() {
        lemma_digits_grow(b.drop_last(), i);
        lemma_digits_nonneg(b.drop_last());
        assert(b.drop_last().subrange(0, i) =~= b.subrange(0, i));
    } else {
        assert(b.subrange(0, i) =~= b);
    }
}

/// Where `find_byte` stops short of the end, it found the byte.
proof fn lemma_find_some(w: Seq<u8>, x: u8, from: int)
    requires
        0 <= from,
        find_byte(w, x, from) < w.len(),
    ensures
        w[find_byte(w, x, from)] == x,
        from <= find_byte(w, x, from),
    decreases w.len() - from,
{
    if from < w.len() && w[from] != x {
        lemma_find_some(w, x, from + 1);
    }
}

/// A later non-digit makes a run of digits no number.
proof fn lemma_digits_stop(b: Seq<u8>, i: int)
    requires
        0 <= i < b.len(),
        !is_digit(b[i]),
    ensures
        digits_value(b) is None,
    decreases b.len(),
{
    if i < b.len() - 1 {
        assert(b.drop_last()[i] == b[i]);
        lemma_digits_stop(b.drop_last(), i);
    }
}

/// Reads an unsigned number of at most `max` from `b[start..end]`, as
/// Rust's `parse` does.
fn parse_unsigned(b: &[u8], start: usize, end: usize, max: u32) -> (r: Option<u32>)
    requires
        start <= end <= b@.len(),
    ensures
        match unsigned_value(b@.subrange(start as int, end as int), max as int) {
            Some(v) => r == Some(v as u32),
            None => r is None,
        },
{
    let ghost s = b@.subrange(start as int, end as int);
    let mut from = start;
    if from < end && b[from] == 43 {
        from = from + 1;
    }
    let ghost d = b@.subrange(from as int, end as int);
    proof {
        if s.len() > 0 && s[0] == 43 {
            assert(s.subrange(1, s.len() as int) =~= d);
        } else {
            assert(s =~= d);
        }
    }
    if from == end {
        return None;
    }
    let mut acc: u64 = 0;
    let mut i = from;
    while i < end
        invariant
            from < end <= b@.len(),
            from <= i <= end,
            d == b@.subrange(from as int, end as int),
            s == b@.subrange(start as int, end as int),
            unsigned_value(s, max as int) == match digits_value(d) {
                Some(v) => if 0 <= v <= max {
                    Some(v)
                } else {
                    None
                },
                None => None,
            },
            i > from ==> digits_value(b@.subrange(from as int, i as int)) == Some(acc as int),
            i == from ==> acc == 0,
            acc <= max,
        decreases end - i,
    {
        let c = b[i];
        if c < 48 || c > 57 {
            proof {
                assert(d[i - from] == c);
                lemma_digits_stop(d, i - from);
            }
            return None;
        }
        let next = acc * 10 + (c - 48) as u64;
        proof {
            let p = b@.subrange(from as int, i + 1);
            assert(p.drop_last() =~= b@.subrange(from as int, i as int));
            assert(p.last() == c);
            assert(digits_value(p) == Some(next as int));
        }
        if next > max as u64 {
            proof {
                let p = b@.subrange(from as int, i + 1);
                if digits_value(d) is Some {
                    lemma_digits_grow(d, i + 1 - from);
                    assert(d.subrange(0, i + 1 - from) =~= p);
                }
            }
            return None;
        }
        acc = next;
        i = i + 1;
    }
    Some(acc as u32)
}

/// The first position at or after `from` below `end` where `b` holds `x`, or `end`.
fn find_in(b: &[u8], x: u8, from: usize, end: usize) -> (r: usize)
    requires
        from <= end <= b@.len(),
    ensures
        r == from + find_byte(b@.subrange(from as int, end as int), x, 0),
        from <= r <= end,
{
    let ghost w = b@.subrange(from as int, end as int);
    let mut i = from;
    while i < end
        invariant
            from <= i <= end <= b@.len(),
            w == b@.subrange(from as int, end as int),
            find_byte(w, x, 0) == find_byte(w, x, i - from),
        decreases end - i,
    {
        if b[i] == x {
            return i;
        }
        i = i + 1;
    }
    i
}

impl Price {
    /// Reads a price such as `€12,34`.
    pub fn from_str(price: &str) -> (r: Result<Price, PriceError>)
        ensures
            r == price_of_bytes(price.spec_bytes()),
    {
        let b = price.as_bytes();
        let n = b.len();
        if n < 3 || b[0] != 0xE2 || b[1] != 0x82 || b[2] != 0xAC {
            proof {
                if n >= 3 {
                    assert(b@.subrange(0, 3)[0] == b@[0]);
                    assert(b@.subrange(0, 3)[1] == b@[1]);
                    assert(b@.subrange(0, 3)[2] == b@[2]);
                }
            }
            return Err(PriceError::MissingUnit);
        }
        proof {
            assert(b@.subrange(0, 3) =~= euro_sign());
        }
        let ghost w = b@.subrange(3, n as int);
        let comma = find_in(b, 44, 3, n);
        let sep: u8 = if comma < n {
            44
        } else {
            46
        };
        proof {
            if comma < n {
                lemma_find_some(w, 44u8, 0);
                assert(w[comma - 3] == 44u8);
            } else {
                assert forall|k: int| 0 <= k < w.len() implies w[k] != 44u8 by {
                    lemma_find_none(w, 44u8, 0, k);
                }
            }
        }
        let i = find_in(b, sep, 3, n);
        proof {
            assert(b@.subrange(3, i as int) =~= w.subrange(0, i - 3));
        }
        let euros = match parse_unsigned(b, 3, i, u32::MAX) {
            Some(v) => v,
            None => {
                return Err(PriceError::InvalidNumber);
            },
        };
        let cents: u64 = if i == n {
            assert(cents_part(w, i - 3, sep) == Ok::<int, PriceError>(0));
            0
        } else {
            let ghost rest = w.subrange(i - 3 + 1, w.len() as int);
            proof {
                assert(b@.subrange(i + 1, n as int) =~= rest);
            }
            let j = find_in(b, sep, i + 1, n);
            proof {
                assert(b@.subrange(i + 1, j as int) =~= rest.subrange(0, j - (i + 1)));
            }
            let c = match parse_unsigned(b, i + 1, j, u32::MAX) {
                Some(v) => v,
                None => {
                    return Err(PriceError::InvalidNumber);
                },
            };
            let len = j - (i + 1);
            assert(unsigned_value(b@.subrange(i + 1, j as int), u32::MAX as int) is Some);
            assert(unsigned_value(b@.subrange(i + 1, j as int), u32::MAX as int)->Some_0 <= u32::MAX);
            assert(b@.subrange(i + 1, j as int) =~= rest.subrange(0, len as int));
            assert(find_byte(rest, sep, 0) == len);
            assert(unsigned_value(rest.subrange(0, len as int), u32::MAX as int) == Some(c as int));
            assert(rest.len() == n - (i + 1));
            if len == 1 {
                if j < n {
                    return Err(PriceError::InvalidFormat);
                }
                assert(cents_part(w, i - 3, sep) == Ok::<int, PriceError>(c as int * 10));
                c as u64 * 10
            } else if len == 2 {
                if j < n {
                    return Err(PriceError::InvalidFormat);
                }
                assert(cents_part(w, i - 3, sep) == Ok::<int, PriceError>(c as int));
                c as u64
            } else {
                return Err(PriceError::InvalidFormat);
            }
        };
        assert(cents_part(w, i - 3, sep) == Ok::<int, PriceError>(cents as int));
        if euros as u64 * 100 + cents > u32::MAX as u64 {
            return Err(PriceError::TooLarge);
        }
        Ok(Price((euros as u64 * 100 + cents) as u32))
    }
}

proof fn lemma_find_none(w: Seq<u8>, x: u8, from: int, k: int)
    requires
        0 <= from <= k < w.len(),
        find_byte(w, x, from) == w.len(),
    ensures
        w[k] != x,
    decreases k - from,
{
    if from < k {
        lemma_find_none(w, x, from + 1, k);
    }
}

/// What a player does in a stored hand.
#[derive(Clone, Copy, Debug, PartialEq, Eq, Structural)]
pub enum ActionKind {
    Fold,
    PostSmallBlind,
    PostBigBlind,
    Call,
    Check,
    Bet,
    AllIn,
    Raise,
}

/// Why an action number is not read.
#[derive(Clone, Copy, Debug, PartialEq, Eq, Structural)]
pub enum ActionKindError {
    /// Antes are not played.
    AnteNotSupported,
    /// The number stands for no action.
    Unknown(u8),
}

/// The action a stored action number stands for.
pub open spec fn action_kind_of(value: u8) -> Result<ActionKind, ActionKindError> {
    if value == 0 {
        Ok(ActionKind::Fold)
    } else if value == 1 {
        Ok(ActionKind::PostSmallBlind)
    } else if value == 2 {
        Ok(ActionKind::PostBigBlind)
    } else if value == 3 {
        Ok(ActionKind::Call)
    } else if value == 4 {
        Ok(ActionKind::Check)
    } else if value == 5 {
        Ok(ActionKind::Bet)
    } else if value == 7 {
        Ok(ActionKind::AllIn)
    } else if value == 15 {
        Err(ActionKindError::AnteNotSupported)
    } else if value == 23 {
        Ok(ActionKind::Raise)
    } else {
        Err(ActionKindError::Unknown(value))
    }
}

impl ActionKind {
    /// Reads a stored action number.
    pub fn try_from_u8(value: u8) -> (r: Result<ActionKind, ActionKindError>)
        ensures
            r == action_kind_of(value),
    {
        if value == 0 {
            Ok(ActionKind::Fold)
        } else if value == 1 {
            Ok(ActionKind::PostSmallBlind)
        } else if value == 2 {
            Ok(ActionKind::PostBigBlind)
        } else if value == 3 {
            Ok(ActionKind::Call)
        } else if value == 4 {
            Ok(ActionKind::Check)
        } else if value == 5 {
            Ok(ActionKind::Bet)
        } else if value == 7 {
            Ok(ActionKind::AllIn)
        } else if value == 15 {
            Err(ActionKindError::AnteNotSupported)
        } else if value == 23 {
            Ok(ActionKind::Raise)
        } else {
            Err(ActionKindError::Unknown(value))
        }
    }
}

/// An ASCII letter in lower case.
pub open spec fn ascii_lower(b: u8) -> u8 {
    if 65 <= b <= 90 {
        (b + 32) as u8
    } else {
        b
    }
}

/// A card written suit first, then the rank, where a ten is written `10`,
/// such as `S10` or `hA`.
pub open spec fn card_of_bytes(b: Seq<u8>) -> Result<Card, CardError> {
    if b.len() < 2 {
        Err(CardError::InvalidLength)
    } else {
        match spec_suite_from_ascii(ascii_lower(b[0])) {
            None => Err(CardError::InvalidSuite),
            Some(suite) => if b.len() == 3 && b[1] == 49 && b[2] == 48 {
                Ok(Card { rank: Rank::Ten, suite })
            } else if b.len() == 2 {
                match spec_rank_from_ascii(b[1]) {
                    Some(rank) => Ok(Card { rank, suite }),
                    None => Err(CardError::InvalidRank),
                }
            } else {
                Err(CardError::InvalidRank)
            },
        }
    }
}

/// Reads a card written suit first, such as `S10` or `hA`.
pub fn parse_card(card: &str) -> (r: Result<Card, CardError>)
    ensures
        r == card_of_bytes(card.spec_bytes()),
{
    let b = card.as_bytes();
    if b.len() < 2 {
        return Err(CardError::InvalidLength);
    }
    let first = b[0];
    let lower = if first >= 65 && first <= 90 {
        first + 32
    } else {
        first
    };
    let suite = Suite::from_ascii(lower)?;
    if b.len() == 3 && b[1] == 49 && b[2] == 48 {
        return Ok(Card::of(Rank::Ten, suite));
    }
    if b.len() != 2 {
        return Err(CardError::InvalidRank);
    }
    let rank = Rank::from_ascii(b[1])?;
    Ok(Card::of(rank, suite))
}

} // verus!
