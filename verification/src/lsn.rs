//! Log sequence numbers.

use crate::text;
use crate::text::{parse_number, push_numeral};
use vstd::prelude::*;
use vstd::string::*;

verus! {

/// A position in the write-ahead log: a `(segment, byte offset)` pair packed
/// into one word, the segment in the upper half. Comparisons mean "earlier in
/// the log"; adding one does not give the next record.
#[derive(Clone, Copy, PartialEq, Eq, PartialOrd, Ord, Hash, Debug, Structural)]
pub struct Lsn(pub u64);

/// The packed form of a segment and an offset.
pub open spec fn packed(segment_id: u32, byte_offset: u32) -> u64 {
    (segment_id * 0x1_0000_0000 + byte_offset) as u64
}

proof fn lemma_pack(segment_id: u32, byte_offset: u32)
    ensures
        ((segment_id as u64) << 32) | (byte_offset as u64) == packed(segment_id, byte_offset),
{
    assert(((segment_id as u64) << 32) | (byte_offset as u64) == segment_id * 0x1_0000_0000 + byte_offset) by (bit_vector);
}

proof fn lemma_unpack(v: u64)
    ensures
        (v >> 32) == v / 0x1_0000_0000,
        (v >> 32) <= u32::MAX,
        (v & 0xFFFF_FFFF) == v % 0x1_0000_0000,
{
    assert((v >> 32) == v / 0x1_0000_0000) by (bit_vector);
    assert((v & 0xFFFF_FFFF) == v % 0x1_0000_0000) by (bit_vector);
}

impl Lsn {
    /// The smallest position: segment 0, offset 0.
    pub fn zero() -> (r: Self)
        ensures
            r.0 == 0,
    {
        Lsn(0)
    }

    /// Packs a segment id and byte offset.
    pub fn new(segment_id: u32, byte_offset: u32) -> (r: Self)
        ensures
            r.0 == packed(segment_id, byte_offset),
    {
        proof { lemma_pack(segment_id, byte_offset); }
        Lsn(((segment_id as u64) << 32) | (byte_offset as u64))
    }

    /// The segment number.
    pub fn segment_id(&self) -> (r: u32)
        ensures
            r == self.0 / 0x1_0000_0000,
    {
        proof { lemma_unpack(self.0); }
        (self.0 >> 32) as u32
    }

    /// The byte offset within the segment.
    pub fn byte_offset(&self) -> (r: u32)
        ensures
            r == self.0 % 0x1_0000_0000,
    {
        proof { lemma_unpack(self.0); }
        (self.0 & 0xFFFF_FFFF) as u32
    }

    /// The packed word.
    pub fn as_u64(&self) -> (r: u64)
        ensures
            r == self.0,
    {
        self.0
    }

    /// The position with this packed word.
    pub fn from_u64(v: u64) -> (r: Self)
        ensures
            r.0 == v,
    {
        Lsn(v)
    }

    /// The text `segment/offset`, the segment in lower-case and the offset in
    /// upper-case hexadecimal.
    pub fn to_text(&self) -> (r: String)
        ensures
            r@ == lsn_text(self.0),
    {
        let mut out = String::new();
        push_numeral(&mut out, self.segment_id() as u64, 16, false);
        proof { reveal_strlit("/"); }
        out.append("/");
        push_numeral(&mut out, self.byte_offset() as u64, 16, true);
        assert(out@ =~= lsn_text(self.0));
        out
    }

    /// Reads the text form back.
    pub fn parse(s: &str) -> (r: Result<Self, LsnParseError>)
        ensures
            r matches Ok(l) ==> parsed_lsn(s@) == Ok::<u64, LsnParseErrorView>(l.0),
            r matches Err(e) ==> parsed_lsn(s@) == Err::<u64, LsnParseErrorView>(e@),
    {
        let len = s.unicode_len();
        let mut i: usize = 0;
        while i < len
            invariant
                len == s@.len(),
                i <= len,
                forall|j: int| 0 <= j < i ==> s@[j] != '/',
            decreases len - i,
        {
            if s.get_char(i) == '/' {
                let seg = s.substring_char(0, i);
                let off = s.substring_char(i + 1, len);
                proof {
                    lemma_first_slash(s@, i as int);
                    assert(seg@ =~= s@.take(i as int));
                    assert(off@ =~= s@.skip(i + 1));
                }
                let segment_id = match parse_number(seg, 16, u32::MAX as u64) {
                    None => { return Err(LsnParseError::BadSegment(seg.to_owned())); },
                    Some(v) => v as u32,
                };
                let byte_offset = match parse_number(off, 16, u32::MAX as u64) {
                    None => { return Err(LsnParseError::BadOffset(off.to_owned())); },
                    Some(v) => v as u32,
                };
                return Ok(Lsn::new(segment_id, byte_offset));
            }
            i += 1;
        }
        proof { lemma_no_slash(s@); }
        Err(LsnParseError::BadFormat(s.to_owned()))
    }

    /// Whether this position is strictly later than `other`.
    pub fn is_after(&self, other: Lsn) -> (r: bool)
        ensures
            r == (self.0 > other.0),
    {
        self.0 > other.0
    }
}

impl std::str::FromStr for Lsn {
    type Err = LsnParseError;

    /// Reads the text form back, as [`Lsn::parse`] does.
    fn from_str(s: &str) -> (r: Result<Self, LsnParseError>)
        ensures
            r matches Ok(l) ==> parsed_lsn(s@) == Ok::<u64, LsnParseErrorView>(l.0),
            r matches Err(e) ==> parsed_lsn(s@) == Err::<u64, LsnParseErrorView>(e@),
    {
        Lsn::parse(s)
    }
}

impl Default for Lsn {
    fn default() -> (r: Self)
        ensures
            r.0 == 0,
    {
        Lsn(0)
    }
}

/// Why a text is no log sequence number.
#[derive(Clone, PartialEq, Eq, Debug)]
pub enum LsnParseError {
    /// There is no slash.
    BadFormat(String),
    /// The part before the slash is no hexadecimal `u32`.
    BadSegment(String),
    /// The part after the slash is no hexadecimal `u32`.
    BadOffset(String),
}

/// The contents of an [`LsnParseError`].
pub enum LsnParseErrorView {
    BadFormat(Seq<char>),
    BadSegment(Seq<char>),
    BadOffset(Seq<char>),
}

impl View for LsnParseError {
    type V = LsnParseErrorView;

    open spec fn view(&self) -> LsnParseErrorView {
        match self {
            LsnParseError::BadFormat(s) => LsnParseErrorView::BadFormat(s@),
            LsnParseError::BadSegment(s) => LsnParseErrorView::BadSegment(s@),
            LsnParseError::BadOffset(s) => LsnParseErrorView::BadOffset(s@),
        }
    }
}

/// The text form of a packed position.
pub open spec fn lsn_text(v: u64) -> Seq<char> {
    text::numeral((v / 0x1_0000_0000) as nat, 16, false).push('/') + text::numeral((v % 0x1_0000_0000) as nat, 16, true)
}

/// The place of the first slash in `s`, from `from` on; the length if there is none.
pub open spec fn first_slash(s: Seq<char>, from: nat) -> nat
    decreases s.len() - from,
{
    if from >= s.len() || s[from as int] == '/' {
        from
    } else {
        first_slash(s, from + 1)
    }
}

/// What the text `s` denotes.
pub open spec fn parsed_lsn(s: Seq<char>) -> Result<u64, LsnParseErrorView> {
    let at = first_slash(s, 0) as int;
    if at >= s.len() {
        Err(LsnParseErrorView::BadFormat(s))
    } else {
        let seg = s.take(at);
        let off = s.skip(at + 1);
        match (text::parsed_number(seg, 16, u32::MAX as nat), text::parsed_number(off, 16, u32::MAX as nat)) {
            (None, _) => Err(LsnParseErrorView::BadSegment(seg)),
            (Some(_), None) => Err(LsnParseErrorView::BadOffset(off)),
            (Some(a), Some(b)) => Ok(packed(a as u32, b as u32)),
        }
    }
}

proof fn lemma_first_slash_from(s: Seq<char>, from: nat, at: int)
    requires
        from <= at < s.len(),
        s[at] == '/',
        forall|j: int| from <= j < at ==> s[j] != '/',
    ensures
        first_slash(s, from) == at,
    decreases at - from,
{
    if from < at {
        lemma_first_slash_from(s, from + 1, at);
    }
}

proof fn lemma_first_slash(s: Seq<char>, at: int)
    requires
        0 <= at < s.len(),
        s[at] == '/',
        forall|j: int| 0 <= j < at ==> s[j] != '/',
    ensures
        first_slash(s, 0) == at,
{
    lemma_first_slash_from(s, 0, at);
}

proof fn lemma_no_slash_from(s: Seq<char>, from: nat)
    requires
        from <= s.len(),
        forall|j: int| 0 <= j < s.len() ==> s[j] != '/',
    ensures
        first_slash(s, from) == s.len(),
    decreases s.len() - from,
{
    if from < s.len() {
        lemma_no_slash_from(s, from + 1);
    }
}

proof fn lemma_no_slash(s: Seq<char>)
    requires
        forall|j: int| 0 <= j < s.len() ==> s[j] != '/',
    ensures
        first_slash(s, 0) == s.len(),
{
    lemma_no_slash_from(s, 0);
}

proof fn lemma_numeral_has_no_slash(n: nat, base: nat, upper: bool)
    requires
        2 <= base <= 16,
    ensures
        forall|i: int| 0 <= i < text::numeral(n, base, upper).len() ==> text::numeral(n, base, upper)[i] != '/',
    decreases n,
{
    if n >= base {
        assert(n / base < n) by (nonlinear_arith) requires n >= base, base >= 2;
        lemma_numeral_has_no_slash(n / base, base, upper);
        let p = text::numeral(n / base, base, upper);
        let d = text::digit_char((n % base) as int, upper);
        assert forall|i: int| 0 <= i < p.push(d).len() implies p.push(d)[i] != '/' by {
            if i < p.len() {
                assert(p.push(d)[i] == p[i]);
            }
        }
    }
}

/// Reading the text of a position gives the position back.
pub proof fn lsn_text_round_trips(v: u64)
    ensures
        parsed_lsn(lsn_text(v)) == Ok::<u64, LsnParseErrorView>(v),
{
    let hi = (v / 0x1_0000_0000) as nat;
    let lo = (v % 0x1_0000_0000) as nat;
    let a = text::numeral(hi, 16, false);
    let b = text::numeral(lo, 16, true);
    let s = lsn_text(v);
    lemma_numeral_has_no_slash(hi, 16, false);
    assert(s[a.len() as int] == '/');
    assert forall|j: int| 0 <= j < a.len() implies s[j] != '/' by {
        assert(s[j] == a[j]);
    }
    lemma_first_slash(s, a.len() as int);
    assert(s.take(a.len() as int) =~= a);
    assert(s.skip(a.len() as int + 1) =~= b);
    text::parsing_inverts_numerals(hi, 16, false, u32::MAX as nat);
    text::parsing_inverts_numerals(lo, 16, true, u32::MAX as nat);
}

/// Positions order by segment first and by offset within a segment.
pub proof fn lsn_order_is_segment_major(s1: u32, o1: u32, s2: u32, o2: u32)
    ensures
        packed(s1, o1) < packed(s2, o2) <==> s1 < s2 || (s1 == s2 && o1 < o2),
{
}

/// Unpacking what was packed gives the parts back.
pub proof fn lsn_parts_round_trip(segment_id: u32, byte_offset: u32)
    ensures
        packed(segment_id, byte_offset) / 0x1_0000_0000 == segment_id,
        packed(segment_id, byte_offset) % 0x1_0000_0000 == byte_offset,
{
}

} // verus!
