//! Payload values and the typed fields of a row.

use crate::text;
use crate::text::{copy_texts, same_text};
use vstd::prelude::*;

verus! {

/// A single payload field's value.
#[derive(PartialEq, Debug)]
pub enum PayloadValue {
    /// An exact-match string, filterable but not searched.
    Keyword(String),
    /// A list of exact-match strings.
    KeywordList(Vec<String>),
    /// A signed 64-bit integer.
    I64(i64),
    /// A 64-bit floating point number, as its IEEE-754 bit pattern.
    F64(u64),
    /// Epoch milliseconds.
    DateTime(i64),
    /// A boolean.
    Bool(bool),
    /// Searchable text; not filterable beyond its presence.
    Text(String),
}

/// The contents of a [`PayloadValue`].
pub enum ValueView {
    Keyword(Seq<char>),
    KeywordList(Seq<Seq<char>>),
    I64(i64),
    F64(u64),
    DateTime(i64),
    Bool(bool),
    Text(Seq<char>),
}

impl View for PayloadValue {
    type V = ValueView;

    open spec fn view(&self) -> ValueView {
        match self {
            PayloadValue::Keyword(s) => ValueView::Keyword(s@),
            PayloadValue::KeywordList(l) => ValueView::KeywordList(text::texts(l@)),
            PayloadValue::I64(v) => ValueView::I64(*v),
            PayloadValue::F64(v) => ValueView::F64(*v),
            PayloadValue::DateTime(v) => ValueView::DateTime(*v),
            PayloadValue::Bool(v) => ValueView::Bool(*v),
            PayloadValue::Text(s) => ValueView::Text(s@),
        }
    }
}

impl Clone for PayloadValue {
    fn clone(&self) -> (r: Self)
        ensures
            r@ == self@,
    {
        match self {
            PayloadValue::Keyword(s) => PayloadValue::Keyword(s.clone()),
            PayloadValue::KeywordList(l) => PayloadValue::KeywordList(copy_texts(l)),
            PayloadValue::I64(v) => PayloadValue::I64(*v),
            PayloadValue::F64(v) => PayloadValue::F64(*v),
            PayloadValue::DateTime(v) => PayloadValue::DateTime(*v),
            PayloadValue::Bool(v) => PayloadValue::Bool(*v),
            PayloadValue::Text(s) => PayloadValue::Text(s.clone()),
        }
    }
}

/// Un-indexed free-form JSON text, retrievable but never filterable.
pub type ExtraPayload = String;

/// What a row's fields hold: field name to value.
pub type FieldsView = Map<Seq<char>, ValueView>;

/// The typed fields of one row or document, keyed by field name. A field
/// absent from the map is "not present", distinct from any value.
#[derive(PartialEq, Debug)]
pub struct PayloadRow {
    entries: Vec<(String, PayloadValue)>,
}

/// The map that a list of entries denotes; an earlier entry hides a later one.
pub closed spec fn entries_map(s: Seq<(String, PayloadValue)>) -> FieldsView
    decreases s.len(),
{
    if s.len() == 0 {
        Map::empty()
    } else {
        entries_map(s.skip(1)).insert(s[0].0@, s[0].1@)
    }
}

proof fn lemma_entries_absent(s: Seq<(String, PayloadValue)>, k: Seq<char>)
    requires
        forall|i: int| 0 <= i < s.len() ==> s[i].0@ != k,
    ensures
        !entries_map(s).contains_key(k),
    decreases s.len(),
{
    if s.len() > 0 {
        lemma_entries_absent(s.skip(1), k);
        assert(s[0].0@ != k);
    }
}

proof fn lemma_entries_first(s: Seq<(String, PayloadValue)>, at: int)
    requires
        0 <= at < s.len(),
        forall|i: int| 0 <= i < at ==> s[i].0@ != s[at].0@,
    ensures
        entries_map(s).contains_key(s[at].0@),
        entries_map(s)[s[at].0@] == s[at].1@,
    decreases s.len(),
{
    if at > 0 {
        assert(s.skip(1)[at - 1] == s[at]);
        assert forall|i: int| 0 <= i < at - 1 implies (#[trigger] s.skip(1)[i]).0@ != s.skip(1)[at - 1].0@ by {
            assert(s.skip(1)[i] == s[i + 1]);
        }
        lemma_entries_first(s.skip(1), at - 1);
        assert(s[0].0@ != s[at].0@);
    }
}

proof fn lemma_entries_push(s: Seq<(String, PayloadValue)>, e: (String, PayloadValue))
    requires
        forall|i: int| 0 <= i < s.len() ==> s[i].0@ != e.0@,
    ensures
        entries_map(s.push(e)) == entries_map(s).insert(e.0@, e.1@),
    decreases s.len(),
{
    if s.len() == 0 {
        assert(s.push(e).skip(1) =~= s);
        assert(entries_map(s.push(e)) =~= entries_map(s).insert(e.0@, e.1@));
    } else {
        assert(s.push(e).skip(1) =~= s.skip(1).push(e));
        assert forall|i: int| 0 <= i < s.skip(1).len() implies (#[trigger] s.skip(1)[i]).0@ != e.0@ by {
            assert(s.skip(1)[i] == s[i + 1]);
        }
        lemma_entries_push(s.skip(1), e);
        assert(s[0].0@ != e.0@);
        assert(entries_map(s.push(e)) =~= entries_map(s).insert(e.0@, e.1@));
    }
}

proof fn lemma_entries_update(s: Seq<(String, PayloadValue)>, at: int, e: (String, PayloadValue))
    requires
        0 <= at < s.len(),
        s[at].0@ == e.0@,
        forall|i: int| 0 <= i < at ==> s[i].0@ != e.0@,
    ensures
        entries_map(s.update(at, e)) == entries_map(s).insert(e.0@, e.1@),
    decreases s.len(),
{
    if at == 0 {
        assert(s.update(0, e).skip(1) =~= s.skip(1));
        assert(entries_map(s.update(at, e)) =~= entries_map(s).insert(e.0@, e.1@));
    } else {
        assert(s.update(at, e).skip(1) =~= s.skip(1).update(at - 1, e));
        assert forall|i: int| 0 <= i < at - 1 implies (#[trigger] s.skip(1)[i]).0@ != e.0@ by {
            assert(s.skip(1)[i] == s[i + 1]);
        }
        assert(s.skip(1)[at - 1] == s[at]);
        lemma_entries_update(s.skip(1), at - 1, e);
        assert(s[0].0@ != e.0@);
        assert(entries_map(s.update(at, e)) =~= entries_map(s).insert(e.0@, e.1@));
    }
}

proof fn lemma_entries_same(a: Seq<(String, PayloadValue)>, b: Seq<(String, PayloadValue)>)
    requires
        a.len() == b.len(),
        forall|i: int| 0 <= i < a.len() ==> (#[trigger] a[i]).0@ == b[i].0@ && a[i].1@ == b[i].1@,
    ensures
        entries_map(a) == entries_map(b),
    decreases a.len(),
{
    if a.len() > 0 {
        assert forall|i: int| 0 <= i < a.skip(1).len() implies (#[trigger] a.skip(1)[i]).0@ == b.skip(1)[i].0@
            && a.skip(1)[i].1@ == b.skip(1)[i].1@ by {
            assert(a.skip(1)[i] == a[i + 1]);
            assert(b.skip(1)[i] == b[i + 1]);
        }
        lemma_entries_same(a.skip(1), b.skip(1));
        assert(a[0].0@ == b[0].0@);
    }
}

proof fn lemma_entries_dom(s: Seq<(String, PayloadValue)>, k: Seq<char>)
    requires
        entries_map(s).contains_key(k),
    ensures
        exists|i: int| 0 <= i < s.len() && (#[trigger] s[i]).0@ == k,
    decreases s.len(),
{
    if s.len() > 0 {
        if s[0].0@ != k {
            lemma_entries_dom(s.skip(1), k);
            let i = choose|i: int| 0 <= i < s.skip(1).len() && (#[trigger] s.skip(1)[i]).0@ == k;
            assert(s[i + 1].0@ == k);
        } else {
            assert(s[0].0@ == k);
        }
    }
}

proof fn lemma_entries_member(s: Seq<(String, PayloadValue)>, i: int)
    requires
        0 <= i < s.len(),
    ensures
        entries_map(s).contains_key(s[i].0@),
    decreases s.len(),
{
    if i > 0 {
        assert(s.skip(1)[i - 1] == s[i]);
        lemma_entries_member(s.skip(1), i - 1);
    }
}

impl View for PayloadRow {
    type V = FieldsView;

    closed spec fn view(&self) -> FieldsView {
        entries_map(self.entries@)
    }
}

impl PayloadRow {
    /// A row without fields.
    pub fn new() -> (r: Self)
        ensures
            r@ == Map::<Seq<char>, ValueView>::empty(),
    {
        PayloadRow { entries: Vec::new() }
    }

    fn position(&self, name: &str) -> (r: Option<usize>)
        ensures
            r matches Some(i) ==> i < self.entries@.len() && self.entries@[i as int].0@ == name@
                && (forall|j: int| 0 <= j < i ==> self.entries@[j].0@ != name@)
                && self@.contains_key(name@) && self@[name@] == self.entries@[i as int].1@,
            r is None ==> !self@.contains_key(name@)
                && (forall|j: int| 0 <= j < self.entries@.len() ==> self.entries@[j].0@ != name@),
    {
        let mut i: usize = 0;
        while i < self.entries.len()
            invariant
                i <= self.entries@.len(),
                forall|j: int| 0 <= j < i ==> self.entries@[j].0@ != name@,
            decreases self.entries.len() - i,
        {
            if same_text(self.entries[i].0.as_str(), name) {
                proof { lemma_entries_first(self.entries@, i as int); }
                return Some(i);
            }
            i += 1;
        }
        proof { lemma_entries_absent(self.entries@, name@); }
        None
    }

    /// The value of a field, if the row has it.
    pub fn get(&self, name: &str) -> (r: Option<&PayloadValue>)
        ensures
            r matches Some(v) ==> self@.contains_key(name@) && self@[name@] == v@,
            r is None ==> !self@.contains_key(name@),
    {
        match self.position(name) {
            Some(i) => Some(&self.entries[i].1),
            None => None,
        }
    }

    /// Whether the row has the field.
    pub fn contains_key(&self, name: &str) -> (r: bool)
        ensures
            r == self@.contains_key(name@),
    {
        match self.position(name) {
            Some(_) => true,
            None => false,
        }
    }

    /// Sets a field, replacing any earlier value.
    pub fn insert(&mut self, name: String, value: PayloadValue)
        ensures
            final(self)@ == old(self)@.insert(name@, value@),
    {
        match self.position(name.as_str()) {
            Some(i) => {
                proof { lemma_entries_update(self.entries@, i as int, (name, value)); }
                self.entries.set(i, (name, value));
            },
            None => {
                proof { lemma_entries_push(self.entries@, (name, value)); }
                self.entries.push((name, value));
            },
        }
    }

    /// The number of stored entries; `key_at` and `value_at` read them.
    pub fn len(&self) -> (r: usize)
        ensures
            r == self.entry_count(),
    {
        self.entries.len()
    }

    /// The number of entries.
    pub closed spec fn entry_count(&self) -> nat {
        self.entries@.len()
    }

    /// The field name of entry `i`.
    pub closed spec fn entry_key(&self, i: int) -> Seq<char> {
        self.entries@[i].0@
    }

    /// The field name of entry `i`.
    pub fn key_at(&self, i: usize) -> (r: &String)
        requires
            i < self.entry_count(),
        ensures
            r@ == self.entry_key(i as int),
            self@.contains_key(r@),
    {
        proof { lemma_entries_member(self.entries@, i as int); }
        &self.entries[i].0
    }

    /// The value of the field that entry `i` names.
    pub fn value_at(&self, i: usize) -> (r: &PayloadValue)
        requires
            i < self.entry_count(),
        ensures
            self@.contains_key(self.entry_key(i as int)),
            r@ == self@[self.entry_key(i as int)],
    {
        proof { lemma_entries_member(self.entries@, i as int); }
        match self.get(self.entries[i].0.as_str()) {
            Some(v) => v,
            None => {
                assert(false);
                &self.entries[i].1
            },
        }
    }

    /// The entries name every field that the row has.
    pub proof fn entries_cover(&self)
        ensures
            forall|k: Seq<char>| #[trigger] self@.contains_key(k) ==> exists|i: int|
                0 <= i < self.entry_count() && #[trigger] self.entry_key(i) == k,
    {
        assert forall|k: Seq<char>| #[trigger] self@.contains_key(k) implies exists|i: int|
            0 <= i < self.entry_count() && #[trigger] self.entry_key(i) == k by {
            lemma_entries_dom(self.entries@, k);
            let i = choose|i: int| 0 <= i < self.entries@.len() && (#[trigger] self.entries@[i]).0@ == k;
            assert(self.entry_key(i) == k);
        }
    }
}

impl Clone for PayloadRow {
    fn clone(&self) -> (r: Self)
        ensures
            r@ == self@,
    {
        let mut entries: Vec<(String, PayloadValue)> = Vec::new();
        let mut i: usize = 0;
        while i < self.entries.len()
            invariant
                i <= self.entries@.len(),
                entries@.len() == i,
                forall|j: int| 0 <= j < i ==> (#[trigger] entries@[j]).0@ == self.entries@[j].0@
                    && entries@[j].1@ == self.entries@[j].1@,
            decreases self.entries.len() - i,
        {
            entries.push((self.entries[i].0.clone(), self.entries[i].1.clone()));
            i += 1;
        }
        proof { lemma_entries_same(entries@, self.entries@); }
        PayloadRow { entries }
    }
}

/// What optional fields hold.
pub open spec fn opt_fields(f: Option<PayloadRow>) -> Option<FieldsView> {
    match f {
        Some(r) => Some(r@),
        None => None,
    }
}

/// A copy of optional fields.
pub fn copy_opt_fields(f: &Option<PayloadRow>) -> (r: Option<PayloadRow>)
    ensures
        opt_fields(r) == opt_fields(*f),
{
    match f {
        Some(r) => Some(r.clone()),
        None => None,
    }
}

} // verus!
