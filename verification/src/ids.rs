//! Strongly-typed identifiers.

use crate::text;
use crate::text::decimal_string;
use vstd::prelude::*;

verus! {

/// Dense, monotonic, per-collection row identifier. Never reused, even after
/// a delete.
#[derive(Clone, Copy, PartialEq, Eq, PartialOrd, Ord, Hash, Debug, Structural)]
pub struct RowId(pub u64);

impl RowId {
    /// The row's position in a bitmap. Bitmaps index `u32` only, so a row id
    /// beyond `u32::MAX` has no position.
    pub fn to_bitmap_index(self) -> (r: u32)
        requires
            self.0 <= u32::MAX,
        ensures
            r == self.0,
    {
        self.0 as u32
    }

    /// The row at a bitmap position.
    pub fn from_bitmap_index(v: u32) -> (r: Self)
        ensures
            r.0 == v,
    {
        RowId(v as u64)
    }
}

/// Dense, monotonic, per-collection document identifier. Never reused.
#[derive(Clone, Copy, PartialEq, Eq, PartialOrd, Ord, Hash, Debug, Structural)]
pub struct DocId(pub u64);

/// Identifies a transaction, the unit of undo, by the 128 bits of a UUID.
#[derive(Clone, Copy, PartialEq, Eq, PartialOrd, Ord, Hash, Debug, Structural)]
pub struct TxnId(pub u128);

/// Whether the text of a UUID has a hyphen here.
pub open spec fn is_uuid_hyphen(i: int) -> bool {
    i == 8 || i == 13 || i == 18 || i == 23
}

/// How many digits come before this place in the text of a UUID.
pub open spec fn uuid_digits_before(i: int) -> int {
    i - (if i > 23 { 4int } else if i > 18 { 3 } else if i > 13 { 2 } else if i > 8 { 1 } else { 0 })
}

/// The hyphenated text of the UUID with these bits: their thirty-two
/// hexadecimal digits in lower case, the highest first, in groups of eight,
/// four, four, four and twelve.
pub open spec fn uuid_text(bits: u128) -> Seq<char> {
    Seq::new(36, |i: int| if is_uuid_hyphen(i) {
        '-'
    } else {
        text::digit_char(((bits >> ((4 * (31 - uuid_digits_before(i))) as u128)) & 0xf) as int, false)
    })
}

/// `uuid::Uuid::from_u128` followed by its `Display`: the hyphenated form, in
/// lower case.
#[verifier::external_body]
fn format_uuid(bits: u128) -> (r: String)
    ensures
        r@ == uuid_text(bits),
{
    uuid::Uuid::from_u128(bits).to_string()
}

impl TxnId {
    /// Mints a fresh, random transaction id with `uuid::Uuid::new_v4`. The
    /// bits are random but for the version and variant fields.
    #[verifier::external_body]
    pub fn new() -> (r: Self)
        ensures
            (r.0 >> 76) & 0xf == 4,
            (r.0 >> 62) & 0x3 == 2,
    {
        TxnId(uuid::Uuid::new_v4().as_u128())
    }

    /// The id's text.
    pub fn to_text(self) -> (r: String)
        ensures
            r@ == uuid_text(self.0),
    {
        format_uuid(self.0)
    }
}

impl RowId {
    /// The id in decimal digits.
    pub fn to_text(self) -> (r: String)
        ensures
            r@ == text::decimal(self.0 as nat),
    {
        decimal_string(self.0)
    }
}

impl DocId {
    /// The id in decimal digits.
    pub fn to_text(self) -> (r: String)
        ensures
            r@ == text::decimal(self.0 as nat),
    {
        decimal_string(self.0)
    }
}

/// A connection-scoped session id (for example `"cli-7f21"`).
#[derive(Clone, PartialEq, Eq, PartialOrd, Ord, Hash, Debug)]
pub struct SessionId(pub String);

/// Stable identifier of a principal (for example `"p_7f21a0"`), distinct from
/// its display name, which may change.
#[derive(Clone, PartialEq, Eq, PartialOrd, Ord, Hash, Debug)]
pub struct PrincipalId(pub String);

/// Every row id that a bitmap can hold survives the way into it and back.
pub proof fn bitmap_index_round_trips(id: u64)
    requires
        id <= u32::MAX,
    ensures
        (id as u32) as u64 == id,
{
}

} // verus!
