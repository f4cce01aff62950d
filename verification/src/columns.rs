//! Typed columns: what each row holds for one declared field, with the
//! inverted indexes that filters read.

use crate::bitmap;
use crate::bitmap::{bitmap_clone, bitmap_insert, bitmap_new, bitmap_remove, bitmap_subtract};
use crate::fields::{PayloadValue, ValueView};
use crate::filter::Scalar;
use crate::postings;
use crate::postings::{Postings, RangeEnd};
use crate::text;
use roaring::RoaringBitmap;
use std::collections::HashMap;
use vstd::hash_map::StringHashMap;
use vstd::prelude::*;

verus! {

/// The type of a payload field.
#[derive(Clone, Copy, PartialEq, Eq, Debug, Structural)]
pub enum FieldType {
    Keyword,
    KeywordList,
    I64,
    F64,
    DateTime,
    Bool,
    /// Only presence is indexed.
    Text,
}

/// What a column remembers of a value. Of a text only that it is there.
pub enum Cell {
    Keyword(Seq<char>),
    KeywordList(Seq<Seq<char>>),
    I64(i64),
    F64(u64),
    DateTime(i64),
    Bool(bool),
    Text,
}

/// The cell that a value becomes.
pub open spec fn cell_of(v: ValueView) -> Cell {
    match v {
        ValueView::Keyword(s) => Cell::Keyword(s),
        ValueView::KeywordList(l) => Cell::KeywordList(l),
        ValueView::I64(x) => Cell::I64(x),
        ValueView::F64(x) => Cell::F64(x),
        ValueView::DateTime(x) => Cell::DateTime(x),
        ValueView::Bool(x) => Cell::Bool(x),
        ValueView::Text(_) => Cell::Text,
    }
}

/// The type that a value has.
pub open spec fn value_type(v: ValueView) -> FieldType {
    match v {
        ValueView::Keyword(_) => FieldType::Keyword,
        ValueView::KeywordList(_) => FieldType::KeywordList,
        ValueView::I64(_) => FieldType::I64,
        ValueView::F64(_) => FieldType::F64,
        ValueView::DateTime(_) => FieldType::DateTime,
        ValueView::Bool(_) => FieldType::Bool,
        ValueView::Text(_) => FieldType::Text,
    }
}

/// The name of a field type in messages.
pub open spec fn field_type_name(ty: FieldType) -> Seq<char> {
    match ty {
        FieldType::Keyword => "keyword"@,
        FieldType::KeywordList => "keyword[]"@,
        FieldType::I64 => "i64"@,
        FieldType::F64 => "f64"@,
        FieldType::DateTime => "datetime"@,
        FieldType::Bool => "bool"@,
        FieldType::Text => "text"@,
    }
}

/// The name of a scalar's type in messages.
pub open spec fn scalar_name(s: Scalar) -> Seq<char> {
    match s {
        Scalar::I64(_) => "i64"@,
        Scalar::F64(_) => "f64"@,
        Scalar::Str(_) => "str"@,
        Scalar::Bool(_) => "bool"@,
        Scalar::DateTime(_) => "datetime"@,
    }
}

impl FieldType {
    /// Whether a value has this type.
    pub fn matches(&self, value: &PayloadValue) -> (r: bool)
        ensures
            r == (value_type(value@) == *self),
    {
        match (self, value) {
            (FieldType::Keyword, PayloadValue::Keyword(_)) => true,
            (FieldType::KeywordList, PayloadValue::KeywordList(_)) => true,
            (FieldType::I64, PayloadValue::I64(_)) => true,
            (FieldType::F64, PayloadValue::F64(_)) => true,
            (FieldType::DateTime, PayloadValue::DateTime(_)) => true,
            (FieldType::Bool, PayloadValue::Bool(_)) => true,
            (FieldType::Text, PayloadValue::Text(_)) => true,
            _ => false,
        }
    }

    /// The type's name in messages.
    pub fn name(&self) -> (r: &'static str)
        ensures
            r@ == field_type_name(*self),
    {
        match self {
            FieldType::Keyword => "keyword",
            FieldType::KeywordList => "keyword[]",
            FieldType::I64 => "i64",
            FieldType::F64 => "f64",
            FieldType::DateTime => "datetime",
            FieldType::Bool => "bool",
            FieldType::Text => "text",
        }
    }
}

/// The name of a scalar's type in messages.
pub fn scalar_type_name(s: &Scalar) -> (r: &'static str)
    ensures
        r@ == scalar_name(*s),
{
    match s {
        Scalar::I64(_) => "i64",
        Scalar::F64(_) => "f64",
        Scalar::Str(_) => "str",
        Scalar::Bool(_) => "bool",
        Scalar::DateTime(_) => "datetime",
    }
}

/// The name of a value's type in messages.
pub fn value_type_name(v: &PayloadValue) -> (r: &'static str)
    ensures
        r@ == field_type_name(value_type(v@)),
{
    match v {
        PayloadValue::Keyword(_) => "keyword",
        PayloadValue::KeywordList(_) => "keyword[]",
        PayloadValue::I64(_) => "i64",
        PayloadValue::F64(_) => "f64",
        PayloadValue::DateTime(_) => "datetime",
        PayloadValue::Bool(_) => "bool",
        PayloadValue::Text(_) => "text",
    }
}

/// The unsigned key by which a float with these bits is ordered.
pub open spec fn f64_key(bits: u64) -> u64 {
    if bits >> 63 == 1 { !bits } else { bits | (1u64 << 63) }
}

/// Maps a float's bits to an unsigned key that orders as the floats do.
pub fn f64_sort_key(bits: u64) -> (r: u64)
    ensures
        r == f64_key(bits),
{
    if (bits >> 63) == 1 {
        !bits
    } else {
        bits | (1u64 << 63)
    }
}

/// Whether the float with bits `a` sorts before the one with bits `b`, by sign
/// and then by magnitude (the magnitude is the bit pattern without its sign).
pub open spec fn float_before(a: u64, b: u64) -> bool {
    if a >= 0x8000_0000_0000_0000 {
        b < 0x8000_0000_0000_0000 || b < a
    } else {
        b < 0x8000_0000_0000_0000 && a < b
    }
}

/// The keys of two floats compare as the floats do, and distinct floats have
/// distinct keys.
pub proof fn f64_key_preserves_order(a: u64, b: u64)
    ensures
        f64_key(a) < f64_key(b) <==> float_before(a, b),
        f64_key(a) == f64_key(b) <==> a == b,
{
    assert((a >> 63 == 1) == (a >= 0x8000_0000_0000_0000)) by (bit_vector);
    assert((b >> 63 == 1) == (b >= 0x8000_0000_0000_0000)) by (bit_vector);
    assert((!a < !b) == (b < a)) by (bit_vector);
    assert((!a == !b) == (a == b)) by (bit_vector);
    assert(a >= 0x8000_0000_0000_0000 ==> !a < 0x8000_0000_0000_0000) by (bit_vector);
    assert(b >= 0x8000_0000_0000_0000 ==> !b < 0x8000_0000_0000_0000) by (bit_vector);
    assert(a | (1u64 << 63) >= 0x8000_0000_0000_0000) by (bit_vector);
    assert(b | (1u64 << 63) >= 0x8000_0000_0000_0000) by (bit_vector);
    assert(a < 0x8000_0000_0000_0000 ==> a | (1u64 << 63) == a + 0x8000_0000_0000_0000) by (bit_vector);
    assert(b < 0x8000_0000_0000_0000 ==> b | (1u64 << 63) == b + 0x8000_0000_0000_0000) by (bit_vector);
}

/// Interned strings: every distinct string has one code.
pub struct Dictionary {
    code_to_value: Vec<String>,
    value_to_code: StringHashMap<u64>,
}

impl Dictionary {
    /// The strings by code.
    pub closed spec fn strings(self) -> Seq<Seq<char>> {
        text::texts(self.code_to_value@)
    }

    /// Whether the two directions agree.
    pub closed spec fn wf(self) -> bool {
        &&& forall|i: int| 0 <= i < self.strings().len() ==> self.value_to_code@.contains_key(#[trigger] self.strings()[i])
            && self.value_to_code@[self.strings()[i]] == i
        &&& forall|k: Seq<char>| #[trigger] self.value_to_code@.contains_key(k) ==> self.value_to_code@[k] < self.strings().len()
            && self.strings()[self.value_to_code@[k] as int] == k
    }

    /// An empty dictionary.
    pub fn new() -> (r: Self)
        ensures
            r.wf(),
            r.strings() == Seq::<Seq<char>>::empty(),
    {
        let r = Dictionary { code_to_value: Vec::new(), value_to_code: StringHashMap::new() };
        assert(r.strings() =~= Seq::<Seq<char>>::empty());
        r
    }

    /// The code of `s`, giving it the next one if it has none.
    pub fn intern(&mut self, s: &str) -> (code: u64)
        requires
            old(self).wf(),
        ensures
            final(self).wf(),
            code < final(self).strings().len(),
            final(self).strings()[code as int] == s@,
            old(self).strings().is_prefix_of(final(self).strings()),
            old(self).strings().contains(s@) ==> final(self).strings() == old(self).strings(),
            !old(self).strings().contains(s@) ==> final(self).strings() == old(self).strings().push(s@),
    {
        match self.value_to_code.get(s) {
            Some(code) => {
                let c = *code;
                assert(old(self).strings()[c as int] == s@);
                c
            },
            None => {
                proof {
                    if old(self).strings().contains(s@) {
                        let i = choose|i: int| 0 <= i < old(self).strings().len() && old(self).strings()[i] == s@;
                        assert(old(self).value_to_code@.contains_key(old(self).strings()[i]));
                    }
                }
                let code = self.code_to_value.len() as u64;
                self.code_to_value.push(s.to_owned());
                self.value_to_code.insert(s.to_owned(), code);
                proof {
                    assert(self.strings() =~= old(self).strings().push(s@));
                    assert forall|i: int| 0 <= i < self.strings().len() implies self.value_to_code@.contains_key(#[trigger] self.strings()[i])
                        && self.value_to_code@[self.strings()[i]] == i by {
                        if i < old(self).strings().len() {
                            assert(self.strings()[i] == old(self).strings()[i]);
                        }
                    }
                }
                code
            },
        }
    }

    /// The code of `s`, if it has one.
    pub fn lookup(&self, s: &str) -> (r: Option<u64>)
        requires
            self.wf(),
        ensures
            r matches Some(code) ==> code < self.strings().len() && self.strings()[code as int] == s@,
            r is None ==> !self.strings().contains(s@),
    {
        match self.value_to_code.get(s) {
            Some(code) => Some(*code),
            None => {
                proof {
                    if self.strings().contains(s@) {
                        let i = choose|i: int| 0 <= i < self.strings().len() && self.strings()[i] == s@;
                        assert(self.value_to_code@.contains_key(self.strings()[i]));
                    }
                }
                None
            },
        }
    }

    /// A string has one code only.
    pub proof fn codes_distinct(self, i: int, j: int)
        requires
            self.wf(),
            0 <= i < self.strings().len(),
            0 <= j < self.strings().len(),
            self.strings()[i] == self.strings()[j],
        ensures
            i == j,
    {
        assert(self.value_to_code@[self.strings()[i]] == i);
        assert(self.value_to_code@[self.strings()[j]] == j);
    }
}

/// A column of exact-match strings.
pub struct KeywordColumn {
    dict: Dictionary,
    values: HashMap<u32, u64>,
    index: Postings<u64>,
    presence: RoaringBitmap,
}

impl KeywordColumn {
    /// Whether the parts agree with each other.
    pub closed spec fn wf(self) -> bool {
        &&& self.dict.wf()
        &&& self.values@.dom() == bitmap::rows_of(self.presence)
        &&& forall|row: u32| #[trigger] self.values@.contains_key(row) ==> self.values@[row] < self.dict.strings().len()
        &&& forall|code: u64, row: u32| #[trigger] self.index.at(code).contains(row) <==> self.values@.contains_key(row)
            && self.values@[row] == code
    }

    /// What each row holds.
    pub closed spec fn cells(self) -> Map<u32, Cell> {
        Map::new(|row: u32| self.values@.contains_key(row), |row: u32| Cell::Keyword(self.dict.strings()[self.values@[row] as int]))
    }

    fn new() -> (r: Self)
        ensures
            r.wf(),
            r.cells() == Map::<u32, Cell>::empty(),
    {
        let r = KeywordColumn { dict: Dictionary::new(), values: HashMap::new(), index: Postings::new(), presence: bitmap_new() };
        assert(r.values@.dom() =~= Set::empty());
        assert(r.cells() =~= Map::<u32, Cell>::empty());
        r
    }

    fn clear(&mut self, row: u32)
        requires
            old(self).wf(),
        ensures
            final(self).wf(),
            final(self).cells() == old(self).cells().remove(row),
            !final(self).values@.contains_key(row),
    {
        match self.values.remove(&row) {
            Some(code) => { self.index.remove_row(code, row); },
            None => {},
        }
        bitmap_remove(&mut self.presence, row);
        assert(self.values@ =~= old(self).values@.remove(row));
        assert(self.values@.dom() =~= bitmap::rows_of(self.presence));
        assert(self.cells() =~= old(self).cells().remove(row));
    }

    fn set(&mut self, row: u32, s: &str)
        requires
            old(self).wf(),
        ensures
            final(self).wf(),
            final(self).cells() == old(self).cells().insert(row, Cell::Keyword(s@)),
    {
        self.clear(row);
        let ghost cleared = *self;
        let code = self.dict.intern(s);
        self.values.insert(row, code);
        self.index.add_row(code, row);
        bitmap_insert(&mut self.presence, row);
        assert(self.values@ =~= cleared.values@.insert(row, code));
        assert(self.values@.dom() =~= bitmap::rows_of(self.presence));
        assert forall|q: u32| #[trigger] self.values@.contains_key(q) implies self.values@[q] < self.dict.strings().len() by {
            if q != row {
                assert(cleared.values@.contains_key(q));
            }
        }
        assert(self.cells() =~= old(self).cells().insert(row, Cell::Keyword(s@))) by {
                assert forall|q: u32| self.cells().contains_key(q) == old(self).cells().insert(row, Cell::Keyword(s@)).contains_key(q) by {
                    assert(cleared.cells().contains_key(q) == cleared.values@.contains_key(q));
                }
            assert forall|q: u32| self.cells().contains_key(q) implies self.cells()[q] == old(self).cells().insert(row, Cell::Keyword(s@))[q] by {
                if q != row {
                    assert(cleared.values@.contains_key(q));
                    assert(cleared.cells()[q] == old(self).cells()[q]);
                }
            }
        }
    }

    fn rows_with(&self, s: &str) -> (r: RoaringBitmap)
        requires
            self.wf(),
        ensures
            forall|row: u32| #[trigger] bitmap::rows_of(r).contains(row) <==> self.cells().contains_key(row)
                && self.cells()[row] == Cell::Keyword(s@),
    {
        match self.dict.lookup(s) {
            Some(code) => {
                let r = self.index.rows_at(code);
                proof {
                    assert forall|row: u32| #[trigger] bitmap::rows_of(r).contains(row) <==> self.cells().contains_key(row)
                        && self.cells()[row] == Cell::Keyword(s@) by {
                        assert(self.index.at(code).contains(row) <==> self.values@.contains_key(row) && self.values@[row] == code);
                        if self.cells().contains_key(row) && self.cells()[row] == Cell::Keyword(s@) {
                            assert(self.values@.contains_key(row));
                            self.dict.codes_distinct(code as int, self.values@[row] as int);
                        }
                    }
                }
                r
            },
            None => {
                proof {
                    assert forall|row: u32| self.cells().contains_key(row) implies self.cells()[row] != Cell::Keyword(s@) by {
                        assert(self.values@.contains_key(row));
                        assert(self.dict.strings().contains(self.dict.strings()[self.values@[row] as int]));
                    }
                }
                bitmap_new()
            },
        }
    }
}

/// A column of lists of exact-match strings.
pub struct KeywordListColumn {
    dict: Dictionary,
    values: HashMap<u32, Vec<u64>>,
    index: Postings<u64>,
    presence: RoaringBitmap,
}

/// The strings that a list of codes stands for.
pub open spec fn decoded(strings: Seq<Seq<char>>, codes: Seq<u64>) -> Seq<Seq<char>> {
    Seq::new(codes.len(), |i: int| strings[codes[i] as int])
}

impl KeywordListColumn {
    /// Whether the parts agree with each other.
    pub closed spec fn wf(self) -> bool {
        &&& self.dict.wf()
        &&& self.values@.dom() == bitmap::rows_of(self.presence)
        &&& forall|row: u32, i: int| self.values@.contains_key(row) && 0 <= i < self.values@[row]@.len()
            ==> (#[trigger] self.values@[row]@[i]) < self.dict.strings().len()
        &&& forall|code: u64, row: u32| #[trigger] self.index.at(code).contains(row) <==> self.values@.contains_key(row)
            && self.values@[row]@.contains(code)
    }

    /// What each row holds.
    pub closed spec fn cells(self) -> Map<u32, Cell> {
        Map::new(
            |row: u32| self.values@.contains_key(row),
            |row: u32| Cell::KeywordList(decoded(self.dict.strings(), self.values@[row]@)),
        )
    }

    fn new() -> (r: Self)
        ensures
            r.wf(),
            r.cells() == Map::<u32, Cell>::empty(),
    {
        let r = KeywordListColumn { dict: Dictionary::new(), values: HashMap::new(), index: Postings::new(), presence: bitmap_new() };
        assert(r.values@.dom() =~= Set::empty());
        assert(r.cells() =~= Map::<u32, Cell>::empty());
        r
    }

    fn clear(&mut self, row: u32)
        requires
            old(self).wf(),
        ensures
            final(self).wf(),
            final(self).cells() == old(self).cells().remove(row),
            !final(self).values@.contains_key(row),
    {
        match self.values.remove(&row) {
            Some(codes) => {
                let ghost before = self.index;
                let ghost kept = self.values@;
                let mut i: usize = 0;
                while i < codes.len()
                    invariant
                        i <= codes@.len(),
                        self.dict == old(self).dict,
                        self.values@ == kept,
                        self.presence == old(self).presence,
                        before == old(self).index,
                        forall|code: u64, q: u32| #[trigger] self.index.at(code).contains(q) <==> before.at(code).contains(q)
                            && !(q == row && codes@.take(i as int).contains(code)),
                    decreases codes@.len() - i,
                {
                    self.index.remove_row(codes[i], row);
                    i += 1;
                    proof {
                        let t = codes@.take(i as int);
                        assert(t =~= codes@.take(i - 1).push(codes@[i - 1]));
                        assert forall|c: u64| t.contains(c) <==> codes@.take(i - 1).contains(c) || c == codes@[i - 1] by {
                            if codes@.take(i - 1).contains(c) {
                                let was = codes@.take(i - 1);
                                let k = choose|k: int| 0 <= k < was.len() && was[k] == c;
                                assert(t[k] == c);
                            }
                            if c == codes@[i - 1] {
                                assert(t[i - 1] == c);
                            }
                        }
                    }
                }
                assert(codes@.take(i as int) =~= codes@);
            },
            None => {},
        }
        bitmap_remove(&mut self.presence, row);
        assert(self.values@ =~= old(self).values@.remove(row));
        assert(self.values@.dom() =~= bitmap::rows_of(self.presence));
        assert(self.cells() =~= old(self).cells().remove(row));
    }

    fn set(&mut self, row: u32, list: &Vec<String>)
        requires
            old(self).wf(),
        ensures
            final(self).wf(),
            final(self).cells() == old(self).cells().insert(row, Cell::KeywordList(text::texts(list@))),
    {
        self.clear(row);
        let ghost cleared = *self;
        let mut codes: Vec<u64> = Vec::new();
        let mut i: usize = 0;
        while i < list.len()
            invariant
                i <= list@.len(),
                codes@.len() == i,
                cleared.wf(),
                !cleared.values@.contains_key(row),
                self.dict.wf(),
                cleared.dict.strings().is_prefix_of(self.dict.strings()),
                self.values == cleared.values,
                self.presence == cleared.presence,
                forall|j: int| 0 <= j < i ==> (#[trigger] codes@[j]) < self.dict.strings().len()
                    && self.dict.strings()[codes@[j] as int] == list@[j]@,
                forall|code: u64, q: u32| #[trigger] self.index.at(code).contains(q) <==> cleared.index.at(code).contains(q)
                    || (q == row && codes@.contains(code)),
            decreases list@.len() - i,
        {
            let ghost before = *self;
            let ghost was = codes@;
            let code = self.dict.intern(list[i].as_str());
            self.index.add_row(code, row);
            codes.push(code);
            i += 1;
            proof {
                assert forall|c: u64| codes@.contains(c) <==> was.contains(c) || c == code by {
                    if was.contains(c) {
                        let k = choose|k: int| 0 <= k < was.len() && was[k] == c;
                        assert(codes@[k] == c);
                    }
                    if c == code {
                        assert(codes@[i - 1] == c);
                    }
                }
                assert forall|j: int| 0 <= j < i implies (#[trigger] codes@[j]) < self.dict.strings().len()
                    && self.dict.strings()[codes@[j] as int] == list@[j]@ by {
                    if j < i - 1 {
                        assert(was[j] == codes@[j]);
                        assert(before.dict.strings()[codes@[j] as int] == self.dict.strings()[codes@[j] as int]);
                    }
                }
            }
        }
        self.values.insert(row, codes);
        bitmap_insert(&mut self.presence, row);
        proof {
            assert(self.values@ =~= cleared.values@.insert(row, codes));
            assert(self.values@.dom() =~= bitmap::rows_of(self.presence));
            assert(decoded(self.dict.strings(), codes@) =~= text::texts(list@));
            assert forall|q: u32| q != row && cleared.values@.contains_key(q) implies
                decoded(self.dict.strings(), cleared.values@[q]@) == decoded(cleared.dict.strings(), cleared.values@[q]@) by {
                assert(decoded(self.dict.strings(), cleared.values@[q]@) =~= decoded(cleared.dict.strings(), cleared.values@[q]@));
            }
            assert(self.cells() =~= old(self).cells().insert(row, Cell::KeywordList(text::texts(list@)))) by {
                assert forall|q: u32| self.cells().contains_key(q) == old(self).cells().insert(row, Cell::KeywordList(text::texts(list@))).contains_key(q) by {
                    assert(cleared.cells().contains_key(q) == cleared.values@.contains_key(q));
                }
                assert forall|q: u32| self.cells().contains_key(q) implies
                    self.cells()[q] == old(self).cells().insert(row, Cell::KeywordList(text::texts(list@)))[q] by {
                    if q != row {
                        assert(cleared.values@.contains_key(q));
                        assert(cleared.cells()[q] == old(self).cells()[q]);
                    }
                }
            }
        }
    }

    fn rows_with(&self, s: &str) -> (r: RoaringBitmap)
        requires
            self.wf(),
        ensures
            forall|row: u32| #[trigger] bitmap::rows_of(r).contains(row) <==> self.cells().contains_key(row)
                && self.cells()[row]->KeywordList_0.contains(s@),
    {
        match self.dict.lookup(s) {
            Some(code) => {
                let r = self.index.rows_at(code);
                proof {
                    assert forall|row: u32| #[trigger] bitmap::rows_of(r).contains(row) <==> self.cells().contains_key(row)
                        && self.cells()[row]->KeywordList_0.contains(s@) by {
                        assert(self.index.at(code).contains(row) <==> self.values@.contains_key(row) && self.values@[row]@.contains(code));
                        let codes = self.values@[row]@;
                        let list = decoded(self.dict.strings(), codes);
                        if self.values@.contains_key(row) && codes.contains(code) {
                            let k = choose|k: int| 0 <= k < codes.len() && codes[k] == code;
                            assert(list[k] == s@);
                        }
                        if self.values@.contains_key(row) && list.contains(s@) {
                            let k = choose|k: int| 0 <= k < list.len() && list[k] == s@;
                            assert(codes[k] < self.dict.strings().len());
                            self.dict.codes_distinct(code as int, codes[k] as int);
                            assert(codes.contains(code));
                        }
                    }
                }
                r
            },
            None => {
                proof {
                    assert forall|row: u32| self.cells().contains_key(row) implies !self.cells()[row]->KeywordList_0.contains(s@) by {
                        let codes = self.values@[row]@;
                        let list = decoded(self.dict.strings(), codes);
                        if list.contains(s@) {
                            let k = choose|k: int| 0 <= k < list.len() && list[k] == s@;
                            assert(codes[k] < self.dict.strings().len());
                            assert(self.dict.strings().contains(s@));
                        }
                    }
                }
                bitmap_new()
            },
        }
    }
}

/// A column of signed 64-bit numbers, ordered for range queries.
pub struct I64Column {
    values: HashMap<u32, i64>,
    sorted: Postings<i64>,
    presence: RoaringBitmap,
}

impl I64Column {
    /// Whether the parts agree with each other.
    pub closed spec fn wf(self) -> bool {
        &&& self.values@.dom() == bitmap::rows_of(self.presence)
        &&& forall|key: i64, row: u32| #[trigger] self.sorted.at(key).contains(row) <==> self.values@.contains_key(row)
            && self.values@[row] == key
    }

    /// What each row holds.
    pub closed spec fn held(self) -> Map<u32, i64> {
        self.values@
    }

    fn new() -> (r: Self)
        ensures
            r.wf(),
            r.held() == Map::<u32, i64>::empty(),
    {
        let r = I64Column { values: HashMap::new(), sorted: Postings::new(), presence: bitmap_new() };
        assert(r.values@.dom() =~= Set::empty());
        r
    }

    fn clear(&mut self, row: u32)
        requires
            old(self).wf(),
        ensures
            final(self).wf(),
            final(self).held() == old(self).held().remove(row),
    {
        match self.values.remove(&row) {
            Some(v) => { self.sorted.remove_row(v, row); },
            None => {},
        }
        bitmap_remove(&mut self.presence, row);
        assert(self.values@ =~= old(self).values@.remove(row));
        assert(self.values@.dom() =~= bitmap::rows_of(self.presence));
    }

    fn set(&mut self, row: u32, v: i64)
        requires
            old(self).wf(),
        ensures
            final(self).wf(),
            final(self).held() == old(self).held().insert(row, v),
    {
        self.clear(row);
        self.values.insert(row, v);
        self.sorted.add_row(v, row);
        bitmap_insert(&mut self.presence, row);
        assert(self.values@ =~= old(self).values@.insert(row, v));
        assert(self.values@.dom() =~= bitmap::rows_of(self.presence));
    }

    fn rows_with(&self, v: i64) -> (r: RoaringBitmap)
        requires
            self.wf(),
        ensures
            forall|row: u32| #[trigger] bitmap::rows_of(r).contains(row) <==> self.held().contains_key(row)
                && self.held()[row] == v,
    {
        let r = self.sorted.rows_at(v);
        proof {
            assert forall|row: u32| #[trigger] bitmap::rows_of(r).contains(row) <==> self.held().contains_key(row)
                && self.held()[row] == v by {
                assert(self.sorted.at(v).contains(row) <==> self.values@.contains_key(row) && self.values@[row] == v);
            }
        }
        r
    }

    fn rows_within(&self, lo: RangeEnd<i64>, hi: RangeEnd<i64>) -> (r: RoaringBitmap)
        requires
            self.wf(),
        ensures
            forall|row: u32| #[trigger] bitmap::rows_of(r).contains(row) <==> self.held().contains_key(row)
                && postings::in_range_i64(self.held()[row], lo, hi),
    {
        let r = self.sorted.rows_in_range(lo, hi);
        proof {
            assert forall|row: u32| #[trigger] bitmap::rows_of(r).contains(row) <==> self.held().contains_key(row)
                && postings::in_range_i64(self.held()[row], lo, hi) by {
                if self.held().contains_key(row) {
                    let k = self.values@[row];
                    assert(self.sorted.at(k).contains(row));
                }
            }
        }
        r
    }
}

/// A column of floats, held as bit patterns and ordered by their sort keys.
pub struct F64Column {
    values: HashMap<u32, u64>,
    sorted: Postings<u64>,
    presence: RoaringBitmap,
}

impl F64Column {
    /// Whether the parts agree with each other.
    pub closed spec fn wf(self) -> bool {
        &&& self.values@.dom() == bitmap::rows_of(self.presence)
        &&& forall|key: u64, row: u32| #[trigger] self.sorted.at(key).contains(row) <==> self.values@.contains_key(row)
            && f64_key(self.values@[row]) == key
    }

    /// What each row holds.
    pub closed spec fn held(self) -> Map<u32, u64> {
        self.values@
    }

    fn new() -> (r: Self)
        ensures
            r.wf(),
            r.held() == Map::<u32, u64>::empty(),
    {
        let r = F64Column { values: HashMap::new(), sorted: Postings::new(), presence: bitmap_new() };
        assert(r.values@.dom() =~= Set::empty());
        r
    }

    fn clear(&mut self, row: u32)
        requires
            old(self).wf(),
        ensures
            final(self).wf(),
            final(self).held() == old(self).held().remove(row),
    {
        match self.values.remove(&row) {
            Some(v) => { self.sorted.remove_row(f64_sort_key(v), row); },
            None => {},
        }
        bitmap_remove(&mut self.presence, row);
        assert(self.values@ =~= old(self).values@.remove(row));
        assert(self.values@.dom() =~= bitmap::rows_of(self.presence));
    }

    fn set(&mut self, row: u32, v: u64)
        requires
            old(self).wf(),
        ensures
            final(self).wf(),
            final(self).held() == old(self).held().insert(row, v),
    {
        self.clear(row);
        self.values.insert(row, v);
        self.sorted.add_row(f64_sort_key(v), row);
        bitmap_insert(&mut self.presence, row);
        assert(self.values@ =~= old(self).values@.insert(row, v));
        assert(self.values@.dom() =~= bitmap::rows_of(self.presence));
    }

    fn rows_with(&self, v: u64) -> (r: RoaringBitmap)
        requires
            self.wf(),
        ensures
            forall|row: u32| #[trigger] bitmap::rows_of(r).contains(row) <==> self.held().contains_key(row)
                && self.held()[row] == v,
    {
        let r = self.sorted.rows_at(f64_sort_key(v));
        proof {
            assert forall|row: u32| #[trigger] bitmap::rows_of(r).contains(row) <==> self.held().contains_key(row)
                && self.held()[row] == v by {
                assert(self.sorted.at(f64_key(v)).contains(row) <==> self.values@.contains_key(row) && f64_key(self.values@[row]) == f64_key(v));
                f64_key_preserves_order(self.values@[row], v);
            }
        }
        r
    }

    fn rows_within(&self, lo: RangeEnd<u64>, hi: RangeEnd<u64>) -> (r: RoaringBitmap)
        requires
            self.wf(),
        ensures
            forall|row: u32| #[trigger] bitmap::rows_of(r).contains(row) <==> self.held().contains_key(row)
                && postings::in_range_u64(f64_key(self.held()[row]), lo, hi),
    {
        let r = self.sorted.rows_in_range(lo, hi);
        proof {
            assert forall|row: u32| #[trigger] bitmap::rows_of(r).contains(row) <==> self.held().contains_key(row)
                && postings::in_range_u64(f64_key(self.held()[row]), lo, hi) by {
                if self.held().contains_key(row) {
                    let k = f64_key(self.values@[row]);
                    assert(self.sorted.at(k).contains(row));
                }
            }
        }
        r
    }
}

/// A column of truth values.
pub struct BoolColumn {
    set: RoaringBitmap,
    presence: RoaringBitmap,
}

impl BoolColumn {
    /// Whether the parts agree with each other.
    pub closed spec fn wf(self) -> bool {
        bitmap::rows_of(self.set).subset_of(bitmap::rows_of(self.presence))
    }

    /// What each row holds.
    pub closed spec fn held(self) -> Map<u32, bool> {
        Map::new(
            |row: u32| bitmap::rows_of(self.presence).contains(row),
            |row: u32| bitmap::rows_of(self.set).contains(row),
        )
    }

    fn new() -> (r: Self)
        ensures
            r.wf(),
            r.held() == Map::<u32, bool>::empty(),
    {
        let r = BoolColumn { set: bitmap_new(), presence: bitmap_new() };
        assert(r.held() =~= Map::<u32, bool>::empty());
        r
    }

    fn clear(&mut self, row: u32)
        requires
            old(self).wf(),
        ensures
            final(self).wf(),
            final(self).held() == old(self).held().remove(row),
    {
        bitmap_remove(&mut self.set, row);
        bitmap_remove(&mut self.presence, row);
        assert(self.held() =~= old(self).held().remove(row));
    }

    fn set(&mut self, row: u32, v: bool)
        requires
            old(self).wf(),
        ensures
            final(self).wf(),
            final(self).held() == old(self).held().insert(row, v),
    {
        self.clear(row);
        let ghost cleared = *self;
        if v {
            bitmap_insert(&mut self.set, row);
        }
        bitmap_insert(&mut self.presence, row);
        assert(self.held() =~= cleared.held().insert(row, v)) by {
            assert(!cleared.held().contains_key(row));
            assert(!bitmap::rows_of(cleared.presence).contains(row));
        }
        assert(self.held() =~= old(self).held().insert(row, v));
    }

    fn rows_with(&self, v: bool) -> (r: RoaringBitmap)
        requires
            self.wf(),
        ensures
            forall|row: u32| #[trigger] bitmap::rows_of(r).contains(row) <==> self.held().contains_key(row)
                && self.held()[row] == v,
    {
        if v {
            bitmap_clone(&self.set)
        } else {
            let mut r = bitmap_clone(&self.presence);
            bitmap_subtract(&mut r, &self.set);
            r
        }
    }
}

/// What a column holds: its type and the cell of each row that has one.
pub struct ColumnView {
    pub ty: FieldType,
    pub cells: Map<u32, Cell>,
}

/// One declared field's values over all rows.
pub enum Column {
    Keyword(KeywordColumn),
    KeywordList(KeywordListColumn),
    I64(I64Column),
    F64(F64Column),
    DateTime(I64Column),
    Bool(BoolColumn),
    Text(RoaringBitmap),
}

impl View for Column {
    type V = ColumnView;

    open spec fn view(&self) -> ColumnView {
        match self {
            Column::Keyword(c) => ColumnView { ty: FieldType::Keyword, cells: c.cells() },
            Column::KeywordList(c) => ColumnView { ty: FieldType::KeywordList, cells: c.cells() },
            Column::I64(c) => ColumnView { ty: FieldType::I64, cells: c.held().map_values(|v: i64| Cell::I64(v)) },
            Column::F64(c) => ColumnView { ty: FieldType::F64, cells: c.held().map_values(|v: u64| Cell::F64(v)) },
            Column::DateTime(c) => ColumnView { ty: FieldType::DateTime, cells: c.held().map_values(|v: i64| Cell::DateTime(v)) },
            Column::Bool(c) => ColumnView { ty: FieldType::Bool, cells: c.held().map_values(|v: bool| Cell::Bool(v)) },
            Column::Text(p) => ColumnView {
                ty: FieldType::Text,
                cells: Map::new(|row: u32| bitmap::rows_of(*p).contains(row), |row: u32| Cell::Text),
            },
        }
    }
}

/// Whether a column of type `ty` can be compared for equality with `s`.
pub open spec fn comparable(ty: FieldType, s: Scalar) -> bool {
    match s {
        Scalar::Str(_) => ty == FieldType::Keyword || ty == FieldType::KeywordList,
        Scalar::I64(_) => ty == FieldType::I64,
        Scalar::DateTime(_) => ty == FieldType::DateTime,
        Scalar::F64(_) => ty == FieldType::F64,
        Scalar::Bool(_) => ty == FieldType::Bool,
    }
}

/// Whether a cell equals a scalar; a list does when it has the scalar as a member.
pub open spec fn cell_equals(c: Cell, s: Scalar) -> bool {
    match (c, s) {
        (Cell::Keyword(a), Scalar::Str(b)) => a == b@,
        (Cell::KeywordList(l), Scalar::Str(b)) => l.contains(b@),
        (Cell::I64(a), Scalar::I64(b)) => a == b,
        (Cell::DateTime(a), Scalar::DateTime(b)) => a == b,
        (Cell::F64(a), Scalar::F64(b)) => a == b,
        (Cell::Bool(a), Scalar::Bool(b)) => a == b,
        _ => false,
    }
}

/// The integer in a bound, if it is one.
pub open spec fn i64_bound(s: Option<Scalar>) -> Option<i64> {
    match s {
        Some(Scalar::I64(v)) => Some(v),
        _ => None,
    }
}

/// The timestamp in a bound, if it is one.
pub open spec fn datetime_bound(s: Option<Scalar>) -> Option<i64> {
    match s {
        Some(Scalar::DateTime(v)) => Some(v),
        _ => None,
    }
}

/// The sort key of the float in a bound, if it is one.
pub open spec fn f64_bound(s: Option<Scalar>) -> Option<u64> {
    match s {
        Some(Scalar::F64(v)) => Some(f64_key(v)),
        _ => None,
    }
}

/// Whether a column of type `ty` has an order to range over.
pub open spec fn rangeable(ty: FieldType) -> bool {
    ty == FieldType::I64 || ty == FieldType::F64 || ty == FieldType::DateTime
}

/// Whether `v` meets every bound that is given.
pub open spec fn meets_all(v: int, gte: Option<int>, lte: Option<int>, gt: Option<int>, lt: Option<int>) -> bool {
    &&& gte matches Some(b) ==> v >= b
    &&& lte matches Some(b) ==> v <= b
    &&& gt matches Some(b) ==> v > b
    &&& lt matches Some(b) ==> v < b
}

/// The integer in a bound.
pub open spec fn whole_i64(b: Option<i64>) -> Option<int> {
    match b {
        Some(v) => Some(v as int),
        None => None,
    }
}

/// The sort key in a bound.
pub open spec fn whole_u64(b: Option<u64>) -> Option<int> {
    match b {
        Some(v) => Some(v as int),
        None => None,
    }
}

/// Whether a cell lies within the bounds: it meets every one that is given.
/// Bounds of another type than the cell's are ignored.
pub open spec fn cell_in_range(c: Cell, gte: Option<Scalar>, lte: Option<Scalar>, gt: Option<Scalar>, lt: Option<Scalar>) -> bool {
    match c {
        Cell::I64(v) => meets_all(
            v as int,
            whole_i64(i64_bound(gte)),
            whole_i64(i64_bound(lte)),
            whole_i64(i64_bound(gt)),
            whole_i64(i64_bound(lt)),
        ),
        Cell::DateTime(v) => meets_all(
            v as int,
            whole_i64(datetime_bound(gte)),
            whole_i64(datetime_bound(lte)),
            whole_i64(datetime_bound(gt)),
            whole_i64(datetime_bound(lt)),
        ),
        Cell::F64(v) => meets_all(
            f64_key(v) as int,
            whole_u64(f64_bound(gte)),
            whole_u64(f64_bound(lte)),
            whole_u64(f64_bound(gt)),
            whole_u64(f64_bound(lt)),
        ),
        _ => false,
    }
}

/// The ends between which every one of the bounds is met.
fn ends_i64(gte: Option<i64>, lte: Option<i64>, gt: Option<i64>, lt: Option<i64>) -> (r: (RangeEnd<i64>, RangeEnd<i64>))
    ensures
        forall|v: i64| #[trigger] postings::in_range_i64(v, r.0, r.1)
            == meets_all(v as int, whole_i64(gte), whole_i64(lte), whole_i64(gt), whole_i64(lt)),
{
    let lo = match (gte, gt) {
        (Some(a), Some(b)) => if b >= a { RangeEnd::Excluded(b) } else { RangeEnd::Included(a) },
        (Some(a), None) => RangeEnd::Included(a),
        (None, Some(b)) => RangeEnd::Excluded(b),
        (None, None) => RangeEnd::Unbounded,
    };
    let hi = match (lte, lt) {
        (Some(a), Some(b)) => if b <= a { RangeEnd::Excluded(b) } else { RangeEnd::Included(a) },
        (Some(a), None) => RangeEnd::Included(a),
        (None, Some(b)) => RangeEnd::Excluded(b),
        (None, None) => RangeEnd::Unbounded,
    };
    (lo, hi)
}

/// The ends between which every one of the bounds is met.
fn ends_u64(gte: Option<u64>, lte: Option<u64>, gt: Option<u64>, lt: Option<u64>) -> (r: (RangeEnd<u64>, RangeEnd<u64>))
    ensures
        forall|v: u64| #[trigger] postings::in_range_u64(v, r.0, r.1)
            == meets_all(v as int, whole_u64(gte), whole_u64(lte), whole_u64(gt), whole_u64(lt)),
{
    let lo = match (gte, gt) {
        (Some(a), Some(b)) => if b >= a { RangeEnd::Excluded(b) } else { RangeEnd::Included(a) },
        (Some(a), None) => RangeEnd::Included(a),
        (None, Some(b)) => RangeEnd::Excluded(b),
        (None, None) => RangeEnd::Unbounded,
    };
    let hi = match (lte, lt) {
        (Some(a), Some(b)) => if b <= a { RangeEnd::Excluded(b) } else { RangeEnd::Included(a) },
        (Some(a), None) => RangeEnd::Included(a),
        (None, Some(b)) => RangeEnd::Excluded(b),
        (None, None) => RangeEnd::Unbounded,
    };
    (lo, hi)
}

fn extract_i64(s: &Option<Scalar>) -> (r: Option<i64>)
    ensures
        r == i64_bound(*s),
{
    match s {
        Some(Scalar::I64(v)) => Some(*v),
        _ => None,
    }
}

fn extract_datetime(s: &Option<Scalar>) -> (r: Option<i64>)
    ensures
        r == datetime_bound(*s),
{
    match s {
        Some(Scalar::DateTime(v)) => Some(*v),
        _ => None,
    }
}

fn extract_f64(s: &Option<Scalar>) -> (r: Option<u64>)
    ensures
        r == f64_bound(*s),
{
    match s {
        Some(Scalar::F64(v)) => Some(f64_sort_key(*v)),
        _ => None,
    }
}

impl Column {
    /// Whether the column's parts agree with each other.
    pub open spec fn wf(self) -> bool {
        match self {
            Column::Keyword(c) => c.wf(),
            Column::KeywordList(c) => c.wf(),
            Column::I64(c) => c.wf(),
            Column::F64(c) => c.wf(),
            Column::DateTime(c) => c.wf(),
            Column::Bool(c) => c.wf(),
            Column::Text(_) => true,
        }
    }

    /// An empty column of the given type.
    pub fn new(ty: FieldType) -> (r: Self)
        ensures
            r.wf(),
            r@ == (ColumnView { ty, cells: Map::empty() }),
    {
        let r = match ty {
            FieldType::Keyword => Column::Keyword(KeywordColumn::new()),
            FieldType::KeywordList => Column::KeywordList(KeywordListColumn::new()),
            FieldType::I64 => Column::I64(I64Column::new()),
            FieldType::F64 => Column::F64(F64Column::new()),
            FieldType::DateTime => Column::DateTime(I64Column::new()),
            FieldType::Bool => Column::Bool(BoolColumn::new()),
            FieldType::Text => Column::Text(bitmap_new()),
        };
        assert(r@.cells =~= Map::<u32, Cell>::empty());
        r
    }

    /// The column's type.
    pub fn field_type(&self) -> (r: FieldType)
        ensures
            r == self@.ty,
    {
        match self {
            Column::Keyword(_) => FieldType::Keyword,
            Column::KeywordList(_) => FieldType::KeywordList,
            Column::I64(_) => FieldType::I64,
            Column::F64(_) => FieldType::F64,
            Column::DateTime(_) => FieldType::DateTime,
            Column::Bool(_) => FieldType::Bool,
            Column::Text(_) => FieldType::Text,
        }
    }

    /// The rows that have a value.
    pub fn presence(&self) -> (r: RoaringBitmap)
        requires
            self.wf(),
        ensures
            bitmap::rows_of(r) == self@.cells.dom(),
    {
        let r = match self {
            Column::Keyword(c) => bitmap_clone(&c.presence),
            Column::KeywordList(c) => bitmap_clone(&c.presence),
            Column::I64(c) => bitmap_clone(&c.presence),
            Column::F64(c) => bitmap_clone(&c.presence),
            Column::DateTime(c) => bitmap_clone(&c.presence),
            Column::Bool(c) => bitmap_clone(&c.presence),
            Column::Text(p) => bitmap_clone(p),
        };
        assert(bitmap::rows_of(r) =~= self@.cells.dom());
        r
    }

    /// Forgets what `row` holds, if anything.
    pub fn clear(&mut self, row: u32)
        requires
            old(self).wf(),
        ensures
            final(self).wf(),
            final(self)@ == (ColumnView { ty: old(self)@.ty, cells: old(self)@.cells.remove(row) }),
    {
        match self {
            Column::Keyword(c) => c.clear(row),
            Column::KeywordList(c) => c.clear(row),
            Column::I64(c) => c.clear(row),
            Column::F64(c) => c.clear(row),
            Column::DateTime(c) => c.clear(row),
            Column::Bool(c) => c.clear(row),
            Column::Text(p) => { bitmap_remove(p, row); },
        }
        assert(self@.cells =~= old(self)@.cells.remove(row));
    }

    /// Sets what `row` holds, forgetting what it held before. A value of
    /// another type is refused, and the row then holds nothing.
    pub fn set(&mut self, row: u32, value: &PayloadValue) -> (r: bool)
        requires
            old(self).wf(),
        ensures
            final(self).wf(),
            r == (value_type(value@) == old(self)@.ty),
            r ==> final(self)@ == (ColumnView { ty: old(self)@.ty, cells: old(self)@.cells.insert(row, cell_of(value@)) }),
            !r ==> final(self)@ == (ColumnView { ty: old(self)@.ty, cells: old(self)@.cells.remove(row) }),
    {
        self.clear(row);
        let ghost cleared = self@;
        let r = match (self, value) {
            (Column::Keyword(c), PayloadValue::Keyword(s)) => { c.set(row, s.as_str()); true },
            (Column::KeywordList(c), PayloadValue::KeywordList(l)) => { c.set(row, l); true },
            (Column::I64(c), PayloadValue::I64(v)) => { c.set(row, *v); true },
            (Column::F64(c), PayloadValue::F64(v)) => { c.set(row, *v); true },
            (Column::DateTime(c), PayloadValue::DateTime(v)) => { c.set(row, *v); true },
            (Column::Bool(c), PayloadValue::Bool(v)) => { c.set(row, *v); true },
            (Column::Text(p), PayloadValue::Text(_)) => { bitmap_insert(p, row); true },
            _ => false,
        };
        assert(r ==> final(self)@.cells =~= cleared.cells.insert(row, cell_of(value@)));
        assert(cleared.cells.insert(row, cell_of(value@)) =~= old(self)@.cells.insert(row, cell_of(value@)));
        r
    }

    /// The rows whose value equals `s`; `None` where the types cannot be compared.
    pub fn rows_equal_to(&self, s: &Scalar) -> (r: Option<RoaringBitmap>)
        requires
            self.wf(),
        ensures
            r is Some == comparable(self@.ty, *s),
            r matches Some(b) ==> forall|row: u32| #[trigger] bitmap::rows_of(b).contains(row) <==> self@.cells.contains_key(row)
                && cell_equals(self@.cells[row], *s),
    {
        match (self, s) {
            (Column::Keyword(c), Scalar::Str(t)) => Some(c.rows_with(t.as_str())),
            (Column::KeywordList(c), Scalar::Str(t)) => Some(c.rows_with(t.as_str())),
            (Column::I64(c), Scalar::I64(v)) => Some(c.rows_with(*v)),
            (Column::DateTime(c), Scalar::DateTime(v)) => Some(c.rows_with(*v)),
            (Column::F64(c), Scalar::F64(v)) => Some(c.rows_with(*v)),
            (Column::Bool(c), Scalar::Bool(v)) => Some(c.rows_with(*v)),
            _ => None,
        }
    }

    /// The rows whose value lies within the bounds; `None` where the column
    /// has no order.
    pub fn rows_within(&self, gte: &Option<Scalar>, lte: &Option<Scalar>, gt: &Option<Scalar>, lt: &Option<Scalar>) -> (r: Option<RoaringBitmap>)
        requires
            self.wf(),
        ensures
            r is Some == rangeable(self@.ty),
            r matches Some(b) ==> forall|row: u32| #[trigger] bitmap::rows_of(b).contains(row) <==> self@.cells.contains_key(row)
                && cell_in_range(self@.cells[row], *gte, *lte, *gt, *lt),
    {
        match self {
            Column::I64(c) => {
                let (lo, hi) = ends_i64(extract_i64(gte), extract_i64(lte), extract_i64(gt), extract_i64(lt));
                Some(c.rows_within(lo, hi))
            },
            Column::DateTime(c) => {
                let (lo, hi) = ends_i64(extract_datetime(gte), extract_datetime(lte), extract_datetime(gt), extract_datetime(lt));
                Some(c.rows_within(lo, hi))
            },
            Column::F64(c) => {
                let (lo, hi) = ends_u64(extract_f64(gte), extract_f64(lte), extract_f64(gt), extract_f64(lt));
                Some(c.rows_within(lo, hi))
            },
            _ => None,
        }
    }
}

} // verus!
