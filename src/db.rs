//! The records of the item list: ids, their text form, and what is stored
//! for each item.

use crate::sortid::SortId;
use vstd::prelude::*;
use vstd::string::StringSliceAdditionalSpecFns;

verus! {

/// An ASCII decimal digit.
pub open spec fn is_digit(b: u8) -> bool {
    0x30 <= b <= 0x39
}

/// The number that the decimal digits `d` spell.
pub open spec fn decimal_value(d: Seq<u8>) -> int
    decreases d.len(),
{
    if d.len() == 0 {
        0
    } else {
        decimal_value(d.drop_last()) * 10 + (d.last() - 0x30)
    }
}

/// Every byte of `d` is a decimal digit.
pub open spec fn all_digits(d: Seq<u8>) -> bool {
    forall|i: int| 0 <= i < d.len() ==> is_digit(#[trigger] d[i])
}

/// `d` without a leading `+`.
pub open spec fn unsigned_part(d: Seq<u8>) -> Seq<u8> {
    if d.len() > 0 && d[0] == 0x2b {
        d.drop_first()
    } else {
        d
    }
}

/// The number that `d` reads as, as `u64::from_str` reads it: one or more
/// decimal digits after an optional `+`, of a value that fits in 64 bits.
pub open spec fn u64_of(d: Seq<u8>) -> Option<u64> {
    let digits = unsigned_part(d);
    if digits.len() > 0 && all_digits(digits) && decimal_value(digits) <= u64::MAX {
        Some(decimal_value(digits) as u64)
    } else {
        None
    }
}

/// Why a text is not an item id.
#[derive(Debug, Clone, Copy, PartialEq, Eq, Structural)]
pub enum ParseItemIdError {
    /// The text does not start with `i-`.
    MissingPrefix,
    /// What follows `i-` is not a number that fits in 64 bits.
    InvalidNumber,
}

/// The item id that the text with bytes `text` stands for: `i-` followed by
/// its number.
pub open spec fn item_id_of(text: Seq<u8>) -> Result<u64, ParseItemIdError> {
    if text.len() < 2 || text[0] != 0x69 || text[1] != 0x2d {
        Err(ParseItemIdError::MissingPrefix)
    } else {
        match u64_of(text.subrange(2, text.len() as int)) {
            Some(n) => Ok(n),
            None => Err(ParseItemIdError::InvalidNumber),
        }
    }
}

proof fn lemma_decimal_grows(d: Seq<u8>, i: int)
    requires
        0 <= i <= d.len(),
        forall|j: int| 0 <= j < d.len() ==> is_digit(#[trigger] d[j]),
    ensures
        decimal_value(d.take(i)) <= decimal_value(d),
        0 <= decimal_value(d.take(i)),
    decreases d.len() - i,
{
    if i < d.len() {
        lemma_decimal_grows(d, i + 1);
        assert(d.take(i + 1).drop_last() =~= d.take(i));
    } else {
        assert(d.take(i) =~= d);
    }
    lemma_decimal_nonneg(d.take(i));
}

proof fn lemma_decimal_nonneg(d: Seq<u8>)
    requires
        forall|j: int| 0 <= j < d.len() ==> is_digit(#[trigger] d[j]),
    ensures
        0 <= decimal_value(d),
    decreases d.len(),
{
    if d.len() > 0 {
        lemma_decimal_nonneg(d.drop_last());
    }
}

impl ParseItemIdError {
    /// A description of the error.
    pub fn message(&self) -> (r: &'static str)
        ensures
            *self == ParseItemIdError::MissingPrefix ==> r@ == "does not start with 'i-'"@,
            *self == ParseItemIdError::InvalidNumber ==> r@ == "invalid number"@,
    {
        match self {
            ParseItemIdError::MissingPrefix => "does not start with 'i-'",
            ParseItemIdError::InvalidNumber => "invalid number",
        }
    }
}

/// The id of an item.
#[derive(Debug, Clone, Copy, PartialEq, Eq, Structural)]
pub struct ItemId(pub u64);

impl From<u64> for ItemId {
    fn from(value: u64) -> (r: ItemId)
        ensures
            r.0 == value,
    {
        ItemId(value)
    }
}

impl vstd::std_specs::convert::FromSpecImpl<u64> for ItemId {
    open spec fn obeys_from_spec() -> bool {
        true
    }

    open spec fn from_spec(v: u64) -> ItemId {
        ItemId(v)
    }
}

/// Reads the number in `d[start..]`, as `u64::from_str` reads it.
fn parse_u64(d: &[u8], start: usize) -> (r: Option<u64>)
    requires
        start <= d@.len(),
    ensures
        r == u64_of(d@.subrange(start as int, d@.len() as int)),
{
    let n = d.len();
    let ghost text = d@.subrange(start as int, n as int);
    let mut i = start;
    if i < n && d[i] == 0x2b {
        i += 1;
    }
    let ghost digits = d@.subrange(i as int, n as int);
    assert(digits =~= unsigned_part(text));
    if i == n {
        return None;
    }
    let first = i;
    let mut value: u64 = 0;
    while i < n
        invariant
            first <= i <= n,
            first < n,
            n == d@.len(),
            start <= first,
            text == d@.subrange(start as int, n as int),
            digits == d@.subrange(first as int, n as int),
            digits == unsigned_part(text),
            forall|j: int| first <= j < i ==> is_digit(#[trigger] d@[j]),
            value == decimal_value(d@.subrange(first as int, i as int)),
        decreases n - i,
    {
        let b = d[i];
        if b < 0x30 || b > 0x39 {
            assert(!is_digit(digits[i - first]));
            assert(!all_digits(digits));
            assert(text =~= d@.subrange(start as int, d@.len() as int));
            assert(u64_of(text) is None);
            return None;
        }
        let digit = (b - 0x30) as u64;
        assert(d@.subrange(first as int, i + 1).drop_last() =~= d@.subrange(first as int, i as int));
        if value > (u64::MAX - digit) / 10 {
            proof {
                assert(forall|j: int| 0 <= j < i + 1 - first ==> #[trigger] d@.subrange(first as int, i + 1)[j] == d@[first + j]);
                let prefix = d@.subrange(first as int, i + 1);
                assert(decimal_value(prefix) > u64::MAX) by (nonlinear_arith)
                    requires
                        decimal_value(prefix) == value * 10 + digit,
                        value > (u64::MAX - digit) / 10,
                        digit <= 9,
                ;
                if all_digits(digits) {
                    lemma_decimal_grows(digits, i + 1 - first);
                    assert(digits.take(i + 1 - first) =~= prefix);
                }
                assert(text =~= d@.subrange(start as int, d@.len() as int));
                assert(u64_of(text) is None);
            }
            return None;
        }
        value = value * 10 + digit;
        i += 1;
    }
    proof {
        assert(d@.subrange(first as int, i as int) =~= digits);
    }
    Some(value)
}

impl ItemId {
    /// The id after this one.
    pub fn increment(&self) -> (r: Self)
        requires
            self.0 < u64::MAX,
        ensures
            r.0 == self.0 + 1,
    {
        ItemId(self.0 + 1)
    }

    /// Reads an id from its text form, `i-` followed by its number.
    pub fn parse(s: &str) -> (r: Result<ItemId, ParseItemIdError>)
        ensures
            match item_id_of(s.spec_bytes()) {
                Ok(n) => r == Ok::<ItemId, ParseItemIdError>(ItemId(n)),
                Err(e) => r == Err::<ItemId, ParseItemIdError>(e),
            },
    {
        let b = s.as_bytes();
        if b.len() < 2 || b[0] != 0x69 || b[1] != 0x2d {
            return Err(ParseItemIdError::MissingPrefix);
        }
        match parse_u64(b, 2) {
            Some(n) => Ok(ItemId(n)),
            None => Err(ParseItemIdError::InvalidNumber),
        }
    }
}

impl std::str::FromStr for ItemId {
    type Err = ParseItemIdError;

    fn from_str(s: &str) -> Result<ItemId, ParseItemIdError> {
        ItemId::parse(s)
    }
}

/// An item with its id.
#[derive(Debug)]
pub struct Item {
    pub id: ItemId,
    pub data: ItemData,
}

/// What is stored for an item: its place in the list and its data.
#[derive(Debug)]
pub struct ItemValue {
    pub sort_id: SortId,
    pub data: ItemData,
}

/// The data of an item.
#[derive(Debug, Clone)]
pub struct ItemData {
    pub title: String,
    pub body: String,
}

} // verus!
