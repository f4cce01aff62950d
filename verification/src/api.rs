//! The registry of collections, and the storage engine's surface.

use crate::bitmap;
use crate::collection;
use crate::collection::{Collection, CollectionView, PutInput, PutView};
use crate::columns::FieldType;
use crate::document;
use crate::document::PutDocumentInput;
use crate::error::{StorageError, StorageErrorView, StorageResult};
use crate::fields::PayloadRow;
use crate::filter::Filter;
use crate::ids::{DocId, RowId};
use crate::model::{DistanceMetric, RequestCtx};
use crate::payload;
use crate::payload::{FilterErrorView, FilterMask, PayloadSchema, SchemaView};
use crate::recovery;
use crate::select;
use crate::state::{DocEntry, Row, StateView};
use crate::text;
use crate::text::{is_before, same_text};
use crate::txn_index::TxnEntry;
use crate::wal;
use vstd::prelude::*;

verus! {

/// One change to a collection's payload schema.
pub enum SchemaChange {
    /// Adds a field; rows written before have no value for it.
    AddField { name: String, field_type: FieldType },
    /// Drops a field.
    DropField { name: String },
}

/// A collection's vector shape, fixed when it is created.
#[derive(Clone, Copy, Debug)]
pub struct CollectionInfo {
    pub dim: usize,
    pub metric: DistanceMetric,
}

/// What a schema change makes of a store: the new store, and the refusal if
/// the change is refused.
pub open spec fn altered(s: payload::StoreView, change: SchemaChange) -> (payload::StoreView, Option<FilterErrorView>) {
    match change {
        SchemaChange::AddField { name, field_type } => if payload::declares(s.schema, name@) {
            (s, Some(FilterErrorView::FieldAlreadyExists(name@)))
        } else {
            (
                payload::StoreView {
                    schema: s.schema.push((name@, field_type)),
                    columns: s.columns.insert(name@, crate::columns::ColumnView { ty: field_type, cells: Map::empty() }),
                    ..s
                },
                None,
            )
        },
        SchemaChange::DropField { name } => if payload::declares(s.schema, name@) {
            (
                payload::StoreView {
                    schema: payload::schema_without(s.schema, name@),
                    columns: s.columns.remove(name@),
                    ..s
                },
                None,
            )
        } else {
            (s, Some(FilterErrorView::UnknownField(name@)))
        },
    }
}

/// What a schema change makes of a collection.
pub open spec fn altered_collection(c: CollectionView, change: SchemaChange) -> CollectionView {
    CollectionView { state: StateView { payload: altered(c.state.payload, change).0, ..c.state }, ..c }
}

/// Why a schema change is refused, if it is.
pub open spec fn alter_refusal(c: CollectionView, change: SchemaChange) -> Option<StorageErrorView> {
    match altered(c.state.payload, change).1 {
        Some(e) => Some(StorageErrorView::Filter(e)),
        None => None,
    }
}

impl Collection {
    /// Changes the payload schema.
    pub fn alter_schema(&mut self, _ctx: &RequestCtx, change: SchemaChange) -> (r: StorageResult<()>)
        requires
            old(self).wf(),
        ensures
            final(self).wf(),
            final(self)@ == altered_collection(old(self)@, change),
            recovery::result_is(r, alter_refusal(old(self)@, change)),
    {
        let outcome = match change {
            SchemaChange::AddField { name, field_type } => self.inner.payload.add_field(name, field_type),
            SchemaChange::DropField { name } => self.inner.payload.drop_field(name.as_str()),
        };
        match outcome {
            Ok(_) => Ok(()),
            Err(e) => Err(StorageError::Filter(e)),
        }
    }
}

/// A collection's identity, enough to open it again.
pub struct RegistryEntry {
    pub name: String,
    pub dim: usize,
    pub metric: DistanceMetric,
    pub schema: Vec<(String, FieldType)>,
}

/// The contents of a [`RegistryEntry`].
pub struct RegistryView {
    pub name: Seq<char>,
    pub dim: usize,
    pub metric: DistanceMetric,
    pub schema: SchemaView,
}

impl View for RegistryEntry {
    type V = RegistryView;

    open spec fn view(&self) -> RegistryView {
        RegistryView { name: self.name@, dim: self.dim, metric: self.metric, schema: payload::schema_of(self.schema@) }
    }
}

/// The contents of a list of registry entries.
pub open spec fn registry_views(s: Seq<RegistryEntry>) -> Seq<RegistryView> {
    Seq::new(s.len(), |i: int| s[i]@)
}

/// The contents of a list of collections.
pub open spec fn collection_views(s: Seq<Collection>) -> Seq<CollectionView> {
    Seq::new(s.len(), |i: int| s[i]@)
}

impl RegistryEntry {
    /// The schema that the collection is opened with.
    pub fn schema(&self) -> (r: PayloadSchema)
        ensures
            r@ == self@.schema,
    {
        let mut builder = PayloadSchema::builder();
        let ghost all = payload::schema_of(self.schema@);
        let mut i: usize = 0;
        assert(all.take(0) =~= Seq::<(Seq<char>, FieldType)>::empty());
        while i < self.schema.len()
            invariant
                i <= self.schema@.len(),
                all == payload::schema_of(self.schema@),
                builder@ == all.take(i as int),
            decreases self.schema@.len() - i,
        {
            builder = builder.field(self.schema[i].0.as_str(), self.schema[i].1);
            assert(all.take(i + 1) =~= all.take(i as int).push(all[i as int]));
            i += 1;
        }
        assert(all.take(i as int) =~= all);
        builder.build()
    }
}

impl Clone for RegistryEntry {
    fn clone(&self) -> (r: Self)
        ensures
            r@ == self@,
    {
        let schema = self.schema();
        RegistryEntry { name: self.name.clone(), dim: self.dim, metric: self.metric, schema: schema.iter() }
    }
}

/// A registry of named collections, in memory or durable. A durable one also
/// remembers collections that are not open.
pub struct Storage {
    pub collections: Vec<Collection>,
    pub registry: Vec<RegistryEntry>,
    pub durable: bool,
}

/// What a [`Storage`] holds.
pub struct StorageView {
    pub collections: Seq<CollectionView>,
    pub registry: Seq<RegistryView>,
    pub durable: bool,
}

impl View for Storage {
    type V = StorageView;

    open spec fn view(&self) -> StorageView {
        StorageView {
            collections: collection_views(self.collections@),
            registry: registry_views(self.registry@),
            durable: self.durable,
        }
    }
}

/// Whether a collection of this name is open.
pub open spec fn is_open(s: StorageView, name: Seq<char>) -> bool {
    exists|i: int| 0 <= i < s.collections.len() && (#[trigger] s.collections[i]).name == name
}

/// Whether the registry has an entry of this name.
pub open spec fn is_registered(s: StorageView, name: Seq<char>) -> bool {
    exists|i: int| 0 <= i < s.registry.len() && (#[trigger] s.registry[i]).name == name
}

/// The first registry entry of this name from `from` on, the number of
/// entries if there is none.
pub open spec fn entry_at(es: Seq<RegistryView>, name: Seq<char>, from: nat) -> nat
    decreases es.len() - from,
{
    if from >= es.len() || es[from as int].name == name { from } else { entry_at(es, name, from + 1) }
}

/// The registry with an entry, in place of one of the same name.
pub open spec fn with_entry(es: Seq<RegistryView>, e: RegistryView) -> Seq<RegistryView> {
    let i = entry_at(es, e.name, 0);
    if i < es.len() { es.update(i as int, e) } else { es.push(e) }
}

/// The registry of the first `n` entries of a list.
pub open spec fn registry_of(entries: Seq<RegistryView>, n: nat) -> Seq<RegistryView>
    decreases n,
{
    if n == 0 { Seq::empty() } else { with_entry(registry_of(entries, (n - 1) as nat), entries[n - 1]) }
}

/// Where the open collection of this name is.
pub open spec fn position(s: StorageView, name: Seq<char>) -> int {
    choose|i: int| 0 <= i < s.collections.len() && (#[trigger] s.collections[i]).name == name
}

/// The open collection of this name.
pub open spec fn named(s: StorageView, name: Seq<char>) -> CollectionView {
    s.collections[position(s, name)]
}

/// Whether no two collections, and no two entries, have the same name.
pub open spec fn names_distinct(s: StorageView) -> bool {
    &&& forall|i: int, j: int| 0 <= i < j < s.collections.len() ==> (#[trigger] s.collections[i]).name != (#[trigger] s.collections[j]).name
    &&& forall|i: int, j: int| 0 <= i < j < s.registry.len() ==> (#[trigger] s.registry[i]).name != (#[trigger] s.registry[j]).name
}

/// The refusal of an unknown name.
pub open spec fn not_found(name: Seq<char>) -> StorageErrorView {
    StorageErrorView::CollectionNotFound(name)
}

/// The storage with another content of the open collection `name`.
pub open spec fn with_collection(s: StorageView, name: Seq<char>, c: CollectionView) -> StorageView {
    StorageView { collections: s.collections.update(position(s, name), c), ..s }
}

/// The registry entry of this name with another schema.
pub open spec fn reregistered(es: Seq<RegistryView>, name: Seq<char>, schema: SchemaView) -> RegistryView {
    RegistryView { schema, ..es[entry_at(es, name, 0) as int] }
}

/// What a schema change makes of a storage: the open collection changes, and
/// so does its registry entry, if it has one and the change is not refused.
pub open spec fn with_schema_altered(s: StorageView, name: Seq<char>, change: SchemaChange) -> StorageView {
    let after = altered_collection(named(s, name), change);
    let t = with_collection(s, name, after);
    if alter_refusal(named(s, name), change) is None && is_registered(s, name) {
        StorageView { registry: with_entry(s.registry, reregistered(s.registry, name, after.state.payload.schema)), ..t }
    } else {
        t
    }
}

/// Where the search for a collection ends.
pub enum Lookup {
    /// It is open, at this place.
    Open(usize),
    /// It is not open, but registered and to be opened as the entry says.
    Registered(RegistryEntry),
    /// There is none.
    Missing,
}

impl Storage {
    /// Whether names are distinct and every open collection is sound.
    pub open spec fn wf(self) -> bool {
        &&& names_distinct(self@)
        &&& forall|i: int| 0 <= i < self.collections@.len() ==> (#[trigger] self.collections@[i]).wf()
    }

    /// An empty storage in memory.
    pub fn new() -> (r: Self)
        ensures
            r.wf(),
            r@ == (StorageView { collections: Seq::empty(), registry: Seq::empty(), durable: false }),
    {
        let r = Storage { collections: Vec::new(), registry: Vec::new(), durable: false };
        assert(r@.collections =~= Seq::<CollectionView>::empty());
        assert(r@.registry =~= Seq::<RegistryView>::empty());
        r
    }

    fn find(&self, name: &str) -> (r: Option<usize>)
        requires
            names_distinct(self@),
        ensures
            r matches Some(i) ==> i < self.collections@.len() && is_open(self@, name@) && position(self@, name@) == i
                && self.collections@[i as int]@ == named(self@, name@) && self.collections@[i as int].name@ == name@,
            r is None ==> !is_open(self@, name@),
    {
        let ghost cs = self@.collections;
        let mut i: usize = 0;
        while i < self.collections.len()
            invariant
                i <= self.collections@.len(),
                cs == collection_views(self.collections@),
                cs == self@.collections,
                names_distinct(self@),
                forall|j: int| 0 <= j < i ==> (#[trigger] cs[j]).name != name@,
            decreases self.collections@.len() - i,
        {
            assert(cs[i as int] == self.collections@[i as int]@);
            if same_text(self.collections[i].name.as_str(), name) {
                proof {
                    assert(cs[i as int].name == name@);
                    let p = position(self@, name@);
                    assert(0 <= p < cs.len() && cs[p].name == name@);
                    assert(p == i);
                }
                return Some(i);
            }
            i += 1;
        }
        None
    }

    fn find_entry(&self, name: &str) -> (r: Option<usize>)
        ensures
            r matches Some(i) ==> i < self.registry@.len() && self.registry@[i as int].name@ == name@ && is_registered(self@, name@)
                && entry_at(self@.registry, name@, 0) == i,
            r is None ==> !is_registered(self@, name@) && entry_at(self@.registry, name@, 0) == self@.registry.len(),
    {
        let ghost es = self@.registry;
        let mut i: usize = 0;
        while i < self.registry.len()
            invariant
                i <= self.registry@.len(),
                es == registry_views(self.registry@),
                es == self@.registry,
                entry_at(es, name@, 0) == entry_at(es, name@, i as nat),
                forall|j: int| 0 <= j < i ==> (#[trigger] es[j]).name != name@,
            decreases self.registry@.len() - i,
        {
            assert(es[i as int] == self.registry@[i as int]@);
            if same_text(self.registry[i].name.as_str(), name) {
                assert(es[i as int].name == name@);
                return Some(i);
            }
            i += 1;
        }
        None
    }

    /// Where a collection is to be had from: an open one first, then, in a
    /// durable storage, one that the registry remembers.
    pub fn lookup(&self, name: &str) -> (r: Lookup)
        requires
            self.wf(),
        ensures
            match r {
                Lookup::Open(i) => is_open(self@, name@) && i == position(self@, name@) && i < self.collections@.len(),
                Lookup::Registered(e) => !is_open(self@, name@) && self@.durable && e@.name == name@ && self@.registry.contains(e@),
                Lookup::Missing => !is_open(self@, name@) && !(self@.durable && is_registered(self@, name@)),
            },
    {
        match self.find(name) {
            Some(i) => { return Lookup::Open(i); },
            None => {},
        }
        if self.durable {
            match self.find_entry(name) {
                Some(i) => {
                    let e = self.registry[i].clone();
                    assert(self@.registry[i as int] == e@);
                    return Lookup::Registered(e);
                },
                None => {},
            }
        }
        Lookup::Missing
    }

    /// The open collection of a name.
    pub fn collection(&self, name: &str) -> (r: StorageResult<&Collection>)
        requires
            self.wf(),
        ensures
            match r {
                Ok(c) => is_open(self@, name@) && c@ == named(self@, name@) && c.wf(),
                Err(e) => !is_open(self@, name@) && e@ == not_found(name@),
            },
    {
        match self.find(name) {
            Some(i) => Ok(&self.collections[i]),
            None => Err(StorageError::CollectionNotFound(name.to_owned())),
        }
    }

    /// Refuses a name that is taken, by an open collection or in the registry.
    pub fn check_create(&self, name: &str) -> (r: StorageResult<()>)
        requires
            self.wf(),
        ensures
            recovery::result_is(r, if is_open(self@, name@) || is_registered(self@, name@) {
                Some(StorageErrorView::CollectionAlreadyExists(name@))
            } else {
                None
            }),
    {
        let taken = match self.find(name) {
            Some(_) => true,
            None => match self.find_entry(name) {
                Some(_) => true,
                None => false,
            },
        };
        if taken {
            return Err(StorageError::CollectionAlreadyExists(name.to_owned()));
        }
        Ok(())
    }

    /// Adds an open collection.
    pub fn install(&mut self, c: Collection)
        requires
            old(self).wf(),
            c.wf(),
            !is_open(old(self)@, c@.name),
        ensures
            final(self).wf(),
            final(self)@ == (StorageView { collections: old(self)@.collections.push(c@), ..old(self)@ }),
    {
        let ghost was = self.collections@;
        let ghost view = c@;
        let ghost added = c;
        self.collections.push(c);
        proof {
            assert(collection_views(self.collections@) =~= collection_views(was).push(view));
            let s = self@;
            assert forall|i: int, j: int| 0 <= i < j < s.collections.len() implies (#[trigger] s.collections[i]).name != (#[trigger] s.collections[j]).name by {
                assert(s.collections[i] == old(self)@.collections[i]);
                if j < was.len() {
                    assert(s.collections[j] == old(self)@.collections[j]);
                }
            }
            assert forall|i: int| 0 <= i < self.collections@.len() implies (#[trigger] self.collections@[i]).wf() by {
                if i < was.len() {
                    assert(was[i].wf());
                }
            }
        }
    }

    /// Remembers a collection, in place of an entry of the same name.
    pub fn register(&mut self, entry: RegistryEntry)
        requires
            old(self).wf(),
        ensures
            final(self).wf(),
            final(self)@ == (StorageView { registry: with_entry(old(self)@.registry, entry@), ..old(self)@ }),
    {
        let ghost was = self@.registry;
        let ghost view = entry@;
        match self.find_entry(entry.name.as_str()) {
            Some(i) => {
                assert(was[i as int].name == view.name);
                self.registry.set(i, entry);
                assert(self@.registry =~= was.update(i as int, view));
            },
            None => {
                self.registry.push(entry);
                assert(self@.registry =~= was.push(view));
            },
        }
        proof {
            let now = self@.registry;
            assert forall|i: int, j: int| 0 <= i < j < now.len() implies (#[trigger] now[i]).name != (#[trigger] now[j]).name by {
                if i < was.len() && j < was.len() {
                    assert(was[i].name != was[j].name);
                }
                if j == was.len() {
                    assert(was[i].name != view.name);
                }
            }
            assert forall|i: int| 0 <= i < self.collections@.len() implies (#[trigger] self.collections@[i]).wf() by {
                assert(old(self).collections@[i].wf());
            }
        }
    }

    /// A durable storage that remembers these collections, the last of those
    /// with the same name.
    pub fn open(entries: &Vec<RegistryEntry>) -> (r: Self)
        ensures
            r.wf(),
            r@ == (StorageView {
                collections: Seq::empty(),
                registry: registry_of(registry_views(entries@), entries@.len()),
                durable: true,
            }),
    {
        let ghost views = registry_views(entries@);
        let mut r = Storage { collections: Vec::new(), registry: Vec::new(), durable: true };
        assert(r@.collections =~= Seq::<CollectionView>::empty());
        assert(r@.registry =~= Seq::<RegistryView>::empty());
        let mut n: usize = 0;
        while n < entries.len()
            invariant
                n <= entries@.len(),
                views == registry_views(entries@),
                r.wf(),
                r@ == (StorageView { collections: Seq::empty(), registry: registry_of(views, n as nat), durable: true }),
            decreases entries@.len() - n,
        {
            assert(views[n as int] == entries@[n as int]@);
            r.register(entries[n].clone());
            n += 1;
        }
        r
    }

    /// Creates a collection in memory. The schema is enforced: a write with
    /// an undeclared field is refused.
    pub fn create_collection(&mut self, _ctx: &RequestCtx, name: &str, dim: usize, metric: DistanceMetric, schema: PayloadSchema) -> (r: StorageResult<()>)
        requires
            old(self).wf(),
            !old(self)@.durable,
        ensures
            final(self).wf(),
            match r {
                Err(e) => (is_open(old(self)@, name@) || is_registered(old(self)@, name@))
                    && e@ == StorageErrorView::CollectionAlreadyExists(name@) && final(self)@ == old(self)@,
                Ok(_) => !is_open(old(self)@, name@) && !is_registered(old(self)@, name@) && final(self)@ == (StorageView {
                    collections: old(self)@.collections.push(collection::fresh_collection(name@, dim, metric, schema@, true)),
                    ..old(self)@
                }),
            },
    {
        match self.check_create(name) {
            Ok(_) => {},
            Err(e) => { return Err(e); },
        }
        self.install(Collection::with_schema(name, dim, metric, schema, true));
        Ok(())
    }
}

/// Whether a list of names is strictly ascending.
pub open spec fn names_ascending(s: Seq<Seq<char>>) -> bool {
    forall|i: int, j: int| 0 <= i < j < s.len() ==> text::text_before(#[trigger] s[i], #[trigger] s[j])
}

fn insert_name(names: &mut Vec<String>, name: &String)
    requires
        names_ascending(text::texts(old(names)@)),
    ensures
        names_ascending(text::texts(final(names)@)),
        forall|k: Seq<char>| #[trigger] text::texts(final(names)@).contains(k) <==> text::texts(old(names)@).contains(k) || k == name@,
{
    let ghost s = text::texts(names@);
    let mut at: usize = names.len();
    while at > 0 && is_before(name.as_str(), names[at - 1].as_str())
        invariant
            at <= names@.len(),
            s == text::texts(names@),
            names_ascending(s),
            forall|k: int| at <= k < s.len() ==> text::text_before(name@, #[trigger] s[k]),
        decreases at,
    {
        assert(s[at - 1] == names@[at - 1]@);
        at -= 1;
    }
    if at > 0 && same_text(names[at - 1].as_str(), name.as_str()) {
        assert(s[at - 1] == name@);
        return;
    }
    names.insert(at, name.clone());
    proof {
        let t = text::texts(names@);
        assert(t =~= s.insert(at as int, name@));
        if at > 0 {
            text::text_order_total(s[at - 1], name@);
            assert(text::text_before(s[at - 1], name@));
        }
        assert forall|i: int, j: int| 0 <= i < j < t.len() implies text::text_before(#[trigger] t[i], #[trigger] t[j]) by {
            let a = if i < at { i } else { i - 1 };
            let b = if j < at { j } else { j - 1 };
            if i == at {
                assert(text::text_before(name@, s[b]));
            } else if j == at {
                if a < at - 1 {
                    assert(text::text_before(s[a], s[at - 1]));
                    text::text_order_transitive(s[a], s[at - 1], name@);
                }
            } else {
                assert(text::text_before(s[a], s[b]));
            }
        }
        assert forall|k: Seq<char>| #[trigger] t.contains(k) <==> s.contains(k) || k == name@ by {
            if t.contains(k) {
                let i = choose|i: int| 0 <= i < t.len() && t[i] == k;
                if i != at {
                    let a = if i < at { i } else { i - 1 };
                    assert(s[a] == k);
                }
            }
            if s.contains(k) {
                let a = choose|a: int| 0 <= a < s.len() && s[a] == k;
                let i = if a < at { a } else { a + 1 };
                assert(t[i] == k);
            }
            if k == name@ {
                assert(t[at as int] == k);
            }
        }
    }
}

impl Storage {
    /// The names of all collections, open or only registered, ascending.
    pub fn list_collections(&self) -> (r: Vec<String>)
        ensures
            names_ascending(text::texts(r@)),
            forall|k: Seq<char>| #[trigger] text::texts(r@).contains(k) <==> is_open(self@, k) || is_registered(self@, k),
    {
        let ghost cs = self@.collections;
        let ghost es = self@.registry;
        let mut names: Vec<String> = Vec::new();
        let mut i: usize = 0;
        while i < self.collections.len()
            invariant
                i <= self.collections@.len(),
                cs == collection_views(self.collections@),
                names_ascending(text::texts(names@)),
                forall|k: Seq<char>| #[trigger] text::texts(names@).contains(k) <==> exists|j: int| 0 <= j < i && (#[trigger] cs[j]).name == k,
            decreases self.collections@.len() - i,
        {
            let ghost was = text::texts(names@);
            assert(cs[i as int] == self.collections@[i as int]@);
            insert_name(&mut names, &self.collections[i].name);
            proof {
                let now = text::texts(names@);
                assert forall|k: Seq<char>| #[trigger] now.contains(k) <==> exists|j: int| 0 <= j < i + 1 && (#[trigger] cs[j]).name == k by {
                    assert(now.contains(k) <==> was.contains(k) || k == cs[i as int].name);
                    if was.contains(k) {
                        let j = choose|j: int| 0 <= j < i && (#[trigger] cs[j]).name == k;
                        assert(cs[j].name == k);
                    }
                    if exists|j: int| 0 <= j < i + 1 && (#[trigger] cs[j]).name == k {
                        let j = choose|j: int| 0 <= j < i + 1 && (#[trigger] cs[j]).name == k;
                        if j < i {
                            assert(cs[j].name == k);
                        }
                    }
                }
            }
            i += 1;
        }
        let mut n: usize = 0;
        while n < self.registry.len()
            invariant
                n <= self.registry@.len(),
                cs == collection_views(self.collections@),
                es == registry_views(self.registry@),
                names_ascending(text::texts(names@)),
                forall|k: Seq<char>| #[trigger] text::texts(names@).contains(k) <==> (exists|j: int| 0 <= j < cs.len() && (#[trigger] cs[j]).name == k)
                    || (exists|j: int| 0 <= j < n && (#[trigger] es[j]).name == k),
            decreases self.registry@.len() - n,
        {
            let ghost was = text::texts(names@);
            assert(es[n as int] == self.registry@[n as int]@);
            insert_name(&mut names, &self.registry[n].name);
            proof {
                let now = text::texts(names@);
                assert forall|k: Seq<char>| #[trigger] now.contains(k) <==> (exists|j: int| 0 <= j < cs.len() && (#[trigger] cs[j]).name == k)
                    || (exists|j: int| 0 <= j < n + 1 && (#[trigger] es[j]).name == k) by {
                    assert(now.contains(k) <==> was.contains(k) || k == es[n as int].name);
                    if exists|j: int| 0 <= j < n && (#[trigger] es[j]).name == k {
                        let j = choose|j: int| 0 <= j < n && (#[trigger] es[j]).name == k;
                        assert(es[j].name == k);
                    }
                    if exists|j: int| 0 <= j < n + 1 && (#[trigger] es[j]).name == k {
                        let j = choose|j: int| 0 <= j < n + 1 && (#[trigger] es[j]).name == k;
                        if j < n {
                            assert(es[j].name == k);
                        }
                    }
                }
            }
            n += 1;
        }
        names
    }
}

/// Whether a call on an unknown collection was refused, with nothing changed.
pub open spec fn refused_as_unknown<T>(before: StorageView, after: StorageView, coll: Seq<char>, r: StorageResult<T>) -> bool {
    after == before && (r matches Err(e) && e@ == not_found(coll))
}

proof fn lemma_one_changed(was: Seq<Collection>, now: Seq<Collection>, i: int)
    requires
        0 <= i < was.len(),
        now == was.update(i, now[i]),
    ensures
        collection_views(now) == collection_views(was).update(i, now[i]@),
{
    assert(collection_views(now) =~= collection_views(was).update(i, now[i]@));
}

proof fn lemma_still_wf(before: Storage, after: Storage, i: int)
    requires
        before.wf(),
        0 <= i < before.collections@.len(),
        after.collections@ == before.collections@.update(i, after.collections@[i]),
        after.collections@[i].wf(),
        after.collections@[i].name@ == before.collections@[i].name@,
        after.registry == before.registry,
    ensures
        after.wf(),
{
    lemma_one_changed(before.collections@, after.collections@, i);
    assert forall|a: int, b: int| 0 <= a < b < after@.collections.len() implies (#[trigger] after@.collections[a]).name != (#[trigger] after@.collections[b]).name by {
        assert(before@.collections[a].name != before@.collections[b].name);
    }
    assert forall|a: int, b: int| 0 <= a < b < after@.registry.len() implies (#[trigger] after@.registry[a]).name != (#[trigger] after@.registry[b]).name by {
        assert(before@.registry[a].name != before@.registry[b].name);
    }
    assert forall|a: int| 0 <= a < after.collections@.len() implies (#[trigger] after.collections@[a]).wf() by {
        if a != i {
            assert(before.collections@[a].wf());
        }
    }
}

impl Storage {
    /// Upserts one row of a collection.
    pub fn put(&mut self, ctx: &RequestCtx, coll: &str, key: &str, vector: Vec<u32>, fields: PayloadRow, extra: Option<String>) -> (r: StorageResult<RowId>)
        requires
            old(self).wf(),
            is_open(old(self)@, coll@) ==> (named(old(self)@, coll@).wal is None && (named(old(self)@, coll@).state.keys.contains_key(key@) || named(old(self)@, coll@).state.next_row < collection::row_capacity())),
        ensures
            final(self).wf(),
            !is_open(old(self)@, coll@) ==> refused_as_unknown(old(self)@, final(self)@, coll@, r),
            is_open(old(self)@, coll@) ==> exists|after: CollectionView| final(self)@ == #[trigger] with_collection(old(self)@, coll@, after)
                && collection::put_outcome(named(old(self)@, coll@), after, *ctx, (PutView { key: key@, vector: vector@, fields: fields@, extra: text::opt_text(extra) }), r),
    {
        match self.find(coll) {
            None => Err(StorageError::CollectionNotFound(coll.to_owned())),
            Some(i) => {
                let ghost was = self.collections@;
                assert(was[i as int].wf());
                let r = self.collections[i].put(ctx, key, vector, fields, extra);
                proof {
                    let after = self.collections@[i as int]@;
                    lemma_one_changed(was, self.collections@, i as int);
                    lemma_still_wf(*old(self), *self, i as int);
                    assert(self@ == with_collection(old(self)@, coll@, after));
                }
                r
            },
        }
    }

    /// Upserts a batch of rows of a collection.
    pub fn put_batch(&mut self, ctx: &RequestCtx, coll: &str, items: Vec<PutInput>) -> (r: StorageResult<Vec<RowId>>)
        requires
            old(self).wf(),
            is_open(old(self)@, coll@) ==> (named(old(self)@, coll@).wal is None && items@.len() <= u32::MAX && named(old(self)@, coll@).state.next_row + collection::fresh_before(named(old(self)@, coll@).state, collection::put_views(items@), items@.len()) <= collection::row_capacity()),
        ensures
            final(self).wf(),
            !is_open(old(self)@, coll@) ==> refused_as_unknown(old(self)@, final(self)@, coll@, r),
            is_open(old(self)@, coll@) ==> exists|after: CollectionView| final(self)@ == #[trigger] with_collection(old(self)@, coll@, after)
                && collection::put_batch_outcome(named(old(self)@, coll@), after, *ctx, collection::put_views(items@), r),
    {
        match self.find(coll) {
            None => Err(StorageError::CollectionNotFound(coll.to_owned())),
            Some(i) => {
                let ghost was = self.collections@;
                assert(was[i as int].wf());
                let r = self.collections[i].put_batch(ctx, items);
                proof {
                    let after = self.collections@[i as int]@;
                    lemma_one_changed(was, self.collections@, i as int);
                    lemma_still_wf(*old(self), *self, i as int);
                    assert(self@ == with_collection(old(self)@, coll@, after));
                }
                r
            },
        }
    }

    /// Inserts a document into a collection.
    pub fn put_document(&mut self, ctx: &RequestCtx, coll: &str, input: PutDocumentInput) -> (r: StorageResult<DocId>)
        requires
            old(self).wf(),
            is_open(old(self)@, coll@) ==> (named(old(self)@, coll@).wal is None && input.chunks@.len() <= u32::MAX && named(old(self)@, coll@).state.next_row + input.chunks@.len() <= collection::row_capacity() && named(old(self)@, coll@).state.next_doc < u64::MAX),
        ensures
            final(self).wf(),
            !is_open(old(self)@, coll@) ==> refused_as_unknown(old(self)@, final(self)@, coll@, r),
            is_open(old(self)@, coll@) ==> exists|after: CollectionView| final(self)@ == #[trigger] with_collection(old(self)@, coll@, after)
                && document::document_outcome(named(old(self)@, coll@), document::put_document_plan(named(old(self)@, coll@), input), after, *ctx, r),
            r is Ok ==> document::chunks_encode(document::chunk_views(input.chunks@)),
    {
        match self.find(coll) {
            None => Err(StorageError::CollectionNotFound(coll.to_owned())),
            Some(i) => {
                let ghost was = self.collections@;
                assert(was[i as int].wf());
                let r = self.collections[i].put_document(ctx, input);
                proof {
                    let after = self.collections@[i as int]@;
                    lemma_one_changed(was, self.collections@, i as int);
                    lemma_still_wf(*old(self), *self, i as int);
                    assert(self@ == with_collection(old(self)@, coll@, after));
                }
                r
            },
        }
    }

    /// Deletes a row of a collection.
    pub fn delete(&mut self, ctx: &RequestCtx, coll: &str, key: &str) -> (r: StorageResult<()>)
        requires
            old(self).wf(),
            is_open(old(self)@, coll@) ==> (named(old(self)@, coll@).wal is None),
        ensures
            final(self).wf(),
            !is_open(old(self)@, coll@) ==> refused_as_unknown(old(self)@, final(self)@, coll@, r),
            is_open(old(self)@, coll@) ==> exists|after: CollectionView| final(self)@ == #[trigger] with_collection(old(self)@, coll@, after)
                && collection::delete_outcome(named(old(self)@, coll@), after, *ctx, key@, r),
    {
        match self.find(coll) {
            None => Err(StorageError::CollectionNotFound(coll.to_owned())),
            Some(i) => {
                let ghost was = self.collections@;
                assert(was[i as int].wf());
                let r = self.collections[i].delete(ctx, key);
                proof {
                    let after = self.collections@[i as int]@;
                    lemma_one_changed(was, self.collections@, i as int);
                    lemma_still_wf(*old(self), *self, i as int);
                    assert(self@ == with_collection(old(self)@, coll@, after));
                }
                r
            },
        }
    }

    /// Changes a collection's payload schema. A registered collection is
    /// registered with the new schema from then on.
    pub fn alter_schema(&mut self, ctx: &RequestCtx, coll: &str, change: SchemaChange) -> (r: StorageResult<()>)
        requires
            old(self).wf(),
        ensures
            final(self).wf(),
            !is_open(old(self)@, coll@) ==> refused_as_unknown(old(self)@, final(self)@, coll@, r),
            is_open(old(self)@, coll@) ==> final(self)@ == with_schema_altered(old(self)@, coll@, change)
                && recovery::result_is(r, alter_refusal(named(old(self)@, coll@), change)),
    {
        match self.find(coll) {
            None => Err(StorageError::CollectionNotFound(coll.to_owned())),
            Some(i) => {
                let ghost was = self.collections@;
                assert(was[i as int].wf());
                let r = self.collections[i].alter_schema(ctx, change);
                let ghost after = self.collections@[i as int]@;
                proof {
                    lemma_one_changed(was, self.collections@, i as int);
                    lemma_still_wf(*old(self), *self, i as int);
                    assert(self@ == with_collection(old(self)@, coll@, after));
                }
                if r.is_ok() {
                    match self.find_entry(coll) {
                        Some(j) => {
                            let e = RegistryEntry {
                                name: self.registry[j].name.clone(),
                                dim: self.registry[j].dim,
                                metric: self.registry[j].metric,
                                schema: self.collections[i].schema_fields(),
                            };
                            assert(e@ == reregistered(old(self)@.registry, coll@, after.state.payload.schema));
                            self.register(e);
                        },
                        None => {},
                    }
                }
                r
            },
        }
    }

    /// A document's registry entry.
    pub fn get_document(&self, coll: &str, doc_key: &str) -> (r: StorageResult<Option<DocEntry>>)
        requires
            self.wf(),
        ensures
            !is_open(self@, coll@) ==> refused_as_unknown(self@, self@, coll@, r),
            is_open(self@, coll@) ==> (r matches Ok(d) && document::is_entry_of(named(self@, coll@).state, doc_key@, d)),
    {
        match self.collection(coll) {
            Ok(c) => Ok(c.get_document(doc_key)),
            Err(e) => Err(e),
        }
    }

    /// The row of a key.
    pub fn get_by_key(&self, coll: &str, key: &str) -> (r: StorageResult<Option<Row>>)
        requires
            self.wf(),
        ensures
            !is_open(self@, coll@) ==> refused_as_unknown(self@, self@, coll@, r),
            is_open(self@, coll@) ==> (r matches Ok(row) && collection::is_row_of_key(named(self@, coll@).state, key@, row)),
    {
        match self.collection(coll) {
            Ok(c) => Ok(c.get_by_key(key)),
            Err(e) => Err(e),
        }
    }

    /// Live rows in ascending order, strictly after `after`, at most `limit`.
    pub fn scan(&self, coll: &str, after: Option<RowId>, limit: usize) -> (r: StorageResult<Vec<Row>>)
        requires
            self.wf(),
            is_open(self@, coll@) ==> (after matches Some(a) ==> a.0 <= u32::MAX),
        ensures
            !is_open(self@, coll@) ==> refused_as_unknown(self@, self@, coll@, r),
            is_open(self@, coll@) ==> (r matches Ok(rows) && collection::is_page(named(self@, coll@).state, wal::opt_row(after), limit as nat, rows@)),
    {
        match self.collection(coll) {
            Ok(c) => Ok(c.scan(after, limit)),
            Err(e) => Err(e),
        }
    }

    /// The vectors of rows, live or not, in the order asked for.
    pub fn fetch_vectors(&self, coll: &str, ids: &Vec<RowId>) -> (r: StorageResult<Vec<Option<Vec<u32>>>>)
        requires
            self.wf(),
        ensures
            !is_open(self@, coll@) ==> refused_as_unknown(self@, self@, coll@, r),
            is_open(self@, coll@) ==> (r matches Ok(vs) && vs@.len() == ids@.len()
                && forall|i: int| 0 <= i < ids@.len() ==> collection::is_vector_of(named(self@, coll@).state, ids@[i].0, #[trigger] vs@[i])),
    {
        match self.collection(coll) {
            Ok(c) => Ok(c.fetch_vectors(ids)),
            Err(e) => Err(e),
        }
    }

    /// Live rows by id, in the order asked for.
    pub fn rows_by_id(&self, coll: &str, ids: &Vec<RowId>) -> (r: StorageResult<Vec<Option<Row>>>)
        requires
            self.wf(),
            is_open(self@, coll@) ==> (forall|i: int| 0 <= i < ids@.len() ==> (#[trigger] ids@[i]).0 <= u32::MAX),
        ensures
            !is_open(self@, coll@) ==> refused_as_unknown(self@, self@, coll@, r),
            is_open(self@, coll@) ==> (r matches Ok(rows) && rows@.len() == ids@.len()
                && forall|i: int| 0 <= i < ids@.len() ==> collection::is_live_row(named(self@, coll@).state, ids@[i].0, #[trigger] rows@[i])),
    {
        match self.collection(coll) {
            Ok(c) => Ok(c.rows_by_id(ids)),
            Err(e) => Err(e),
        }
    }

    /// How many rows of a collection are live.
    pub fn active_count(&self, coll: &str) -> (r: StorageResult<u64>)
        requires
            self.wf(),
        ensures
            !is_open(self@, coll@) ==> refused_as_unknown(self@, self@, coll@, r),
            is_open(self@, coll@) ==> (r matches Ok(n) && bitmap::is_count(n, named(self@, coll@).state.live)),
    {
        match self.collection(coll) {
            Ok(c) => Ok(c.active_count()),
            Err(e) => Err(e),
        }
    }

    /// Compiles a filter against a collection's live rows.
    pub fn compile_filter(&self, coll: &str, filter: &Filter) -> (r: StorageResult<FilterMask>)
        requires
            self.wf(),
        ensures
            !is_open(self@, coll@) ==> refused_as_unknown(self@, self@, coll@, r),
            is_open(self@, coll@) ==> select::filter_outcome(named(self@, coll@).state, *filter, r),
    {
        match self.collection(coll) {
            Ok(c) => c.compile_filter(filter),
            Err(e) => Err(e),
        }
    }

    /// The fields of a row, live or not.
    pub fn payload_of(&self, coll: &str, row_id: RowId) -> (r: StorageResult<Option<PayloadRow>>)
        requires
            self.wf(),
        ensures
            !is_open(self@, coll@) ==> refused_as_unknown(self@, self@, coll@, r),
            is_open(self@, coll@) ==> (r matches Ok(f) && collection::are_fields_of(named(self@, coll@).state, row_id.0, f)),
    {
        match self.collection(coll) {
            Ok(c) => Ok(c.payload_of(row_id)),
            Err(e) => Err(e),
        }
    }

    /// The fields of rows, in the order asked for.
    pub fn payload_batch(&self, coll: &str, ids: &Vec<RowId>) -> (r: StorageResult<Vec<Option<PayloadRow>>>)
        requires
            self.wf(),
        ensures
            !is_open(self@, coll@) ==> refused_as_unknown(self@, self@, coll@, r),
            is_open(self@, coll@) ==> (r matches Ok(fs) && fs@.len() == ids@.len()
                && forall|i: int| 0 <= i < ids@.len() ==> collection::are_fields_of(named(self@, coll@).state, ids@[i].0, #[trigger] fs@[i])),
    {
        match self.collection(coll) {
            Ok(c) => Ok(c.payload_batch(ids)),
            Err(e) => Err(e),
        }
    }

    /// The most recent transactions of a collection, newest first.
    pub fn history(&self, coll: &str, limit: usize) -> (r: StorageResult<Vec<TxnEntry>>)
        requires
            self.wf(),
        ensures
            !is_open(self@, coll@) ==> refused_as_unknown(self@, self@, coll@, r),
            is_open(self@, coll@) ==> (r matches Ok(es) && crate::undo::is_history(named(self@, coll@).state.txns, limit as nat, es@)),
    {
        match self.collection(coll) {
            Ok(c) => Ok(c.history(limit)),
            Err(e) => Err(e),
        }
    }

    /// A collection's vector shape.
    pub fn collection_info(&self, coll: &str) -> (r: StorageResult<CollectionInfo>)
        requires
            self.wf(),
        ensures
            !is_open(self@, coll@) ==> refused_as_unknown(self@, self@, coll@, r),
            is_open(self@, coll@) ==> (r matches Ok(info) && info.dim == named(self@, coll@).dim && info.metric == named(self@, coll@).metric),
    {
        match self.collection(coll) {
            Ok(c) => Ok(CollectionInfo { dim: c.dim, metric: c.metric }),
            Err(e) => Err(e),
        }
    }

    /// The registry entries as they are saved: by name, ascending.
    pub fn registry_entries(&self) -> (r: Vec<RegistryEntry>)
        requires
            self.wf(),
        ensures
            names_ascending(entry_names(r@)),
            r@.len() == self@.registry.len(),
            registry_views(r@).to_multiset() == self@.registry.to_multiset(),
    {
        let ghost all = self@.registry;
        let mut out: Vec<RegistryEntry> = Vec::new();
        let mut n: usize = 0;
        assert(registry_views(out@) =~= all.take(0));
        while n < self.registry.len()
            invariant
                n <= self.registry@.len(),
                all == registry_views(self.registry@),
                self.wf(),
                all == self@.registry,
                out@.len() == n,
                names_ascending(entry_names(out@)),
                registry_views(out@).to_multiset() == all.take(n as int).to_multiset(),
            decreases self.registry@.len() - n,
        {
            let e = self.registry[n].clone();
            let ghost view = e@;
            assert(view == all[n as int]);
            let ghost was = out@;
            let ghost names = entry_names(out@);
            let mut at: usize = out.len();
            while at > 0 && is_before(e.name.as_str(), out[at - 1].name.as_str())
                invariant
                    at <= out@.len(),
                    out@ == was,
                    names == entry_names(out@),
                    names_ascending(names),
                    forall|k: int| at <= k < names.len() ==> text::text_before(e.name@, #[trigger] names[k]),
                decreases at,
            {
                assert(names[at - 1] == out@[at - 1].name@);
                at -= 1;
            }
            out.insert(at, e);
            proof {
                broadcast use vstd::seq_lib::group_to_multiset_ensures;
                let now = registry_views(out@);
                assert(now =~= registry_views(was).insert(at as int, view));
                vstd::seq_lib::to_multiset_insert(registry_views(was), at as int, view);
                assert(all.take(n + 1) =~= all.take(n as int).push(view));
                vstd::seq_lib::to_multiset_build(all.take(n as int), view);
                assert forall|k: int| 0 <= k < was.len() implies (#[trigger] was[k]).name@ != view.name by {
                    let m = registry_views(was).to_multiset();
                    assert(registry_views(was).contains(was[k]@)) by {
                        assert(registry_views(was)[k] == was[k]@);
                    }
                    assert(m.count(was[k]@) > 0);
                    assert(all.take(n as int).contains(was[k]@));
                    let x = choose|x: int| 0 <= x < n && all.take(n as int)[x] == was[k]@;
                    assert(all[x].name != all[n as int].name);
                }
                lemma_names_insert(was, out@, at as int, view.name);
            }
            n += 1;
        }
        assert(all.take(n as int) =~= all);
        out
    }
}

/// The names of registry entries.
pub open spec fn entry_names(s: Seq<RegistryEntry>) -> Seq<Seq<char>> {
    Seq::new(s.len(), |i: int| s[i].name@)
}

proof fn lemma_names_insert(was: Seq<RegistryEntry>, now: Seq<RegistryEntry>, at: int, name: Seq<char>)
    requires
        0 <= at <= was.len(),
        now == was.insert(at, now[at]),
        now[at].name@ == name,
        names_ascending(entry_names(was)),
        forall|k: int| at <= k < was.len() ==> text::text_before(name, #[trigger] entry_names(was)[k]),
        at > 0 ==> !text::text_before(name, entry_names(was)[at - 1]),
        forall|k: int| 0 <= k < was.len() ==> (#[trigger] was[k]).name@ != name,
    ensures
        names_ascending(entry_names(now)),
{
    let s = entry_names(was);
    let t = entry_names(now);
    assert(t =~= s.insert(at, name));
    if at > 0 {
        assert(was[at - 1].name@ != name);
        text::text_order_total(s[at - 1], name);
        assert(text::text_before(s[at - 1], name));
    }
    assert forall|i: int, j: int| 0 <= i < j < t.len() implies text::text_before(#[trigger] t[i], #[trigger] t[j]) by {
        let a = if i < at { i } else { i - 1 };
        let b = if j < at { j } else { j - 1 };
        if i == at {
            assert(text::text_before(name, s[b]));
        } else if j == at {
            if a < at - 1 {
                assert(text::text_before(s[a], s[at - 1]));
                text::text_order_transitive(s[a], s[at - 1], name);
            }
        } else {
            assert(text::text_before(s[a], s[b]));
        }
    }
}

/// Whether every open collection that is registered is registered as it is.
pub open spec fn registry_agrees(s: StorageView) -> bool {
    forall|i: int, j: int| 0 <= i < s.collections.len() && 0 <= j < s.registry.len() && (#[trigger] s.collections[i]).name == (#[trigger] s.registry[j]).name
        ==> s.registry[j].dim == s.collections[i].dim && s.registry[j].metric == s.collections[i].metric
            && s.registry[j].schema == s.collections[i].state.payload.schema
}

proof fn lemma_entry_at(es: Seq<RegistryView>, name: Seq<char>, from: nat)
    requires
        from <= es.len(),
    ensures
        from <= entry_at(es, name, from) <= es.len(),
        entry_at(es, name, from) < es.len() ==> es[entry_at(es, name, from) as int].name == name,
        forall|j: int| from <= j < entry_at(es, name, from) ==> (#[trigger] es[j]).name != name,
    decreases es.len() - from,
{
    if from < es.len() && es[from as int].name != name {
        lemma_entry_at(es, name, from + 1);
    }
}

/// A change of the schema reaches the registry: what is registered is what the
/// collection has, so that it is opened again with the schema that it has now.
pub proof fn altering_keeps_the_registry_true(s: StorageView, name: Seq<char>, change: SchemaChange)
    requires
        names_distinct(s),
        registry_agrees(s),
        is_open(s, name),
    ensures
        registry_agrees(with_schema_altered(s, name, change)),
        is_registered(s, name) ==> is_registered(with_schema_altered(s, name, change), name),
{
    let t = with_schema_altered(s, name, change);
    let p = position(s, name);
    let after = altered_collection(named(s, name), change);
    lemma_entry_at(s.registry, name, 0);
    let e = entry_at(s.registry, name, 0) as int;
    if is_registered(s, name) {
        let j = choose|j: int| 0 <= j < s.registry.len() && (#[trigger] s.registry[j]).name == name;
        assert(e < s.registry.len());
        assert(t.registry[e].name == name);
    }
    assert forall|i: int, j: int| 0 <= i < t.collections.len() && 0 <= j < t.registry.len() && (#[trigger] t.collections[i]).name == (#[trigger] t.registry[j]).name
        implies t.registry[j].dim == t.collections[i].dim && t.registry[j].metric == t.collections[i].metric
            && t.registry[j].schema == t.collections[i].state.payload.schema by {
        assert(s.collections[i].name == t.collections[i].name);
        assert(s.registry[j].name == t.registry[j].name);
        if i == p {
            assert(is_registered(s, name));
            assert(j == e) by {
                if j < e {
                    assert(s.registry[j].name != name);
                } else if e < j {
                    assert(s.registry[e].name != s.registry[j].name);
                }
            }
        } else if j == e && e < s.registry.len() {
            if p < i {
                assert(s.collections[p].name != s.collections[i].name);
            } else {
                assert(s.collections[i].name != s.collections[p].name);
            }
        }
    }
}

/// The state of an open collection is sound.
pub proof fn open_is_sound(s: Storage, name: Seq<char>)
    requires
        s.wf(),
        is_open(s@, name),
    ensures
        collection::sound(named(s@, name).state),
{
    let i = position(s@, name);
    assert(s@.collections[i] == s.collections@[i]@);
    assert(s.collections@[i].wf());
}

} // verus!
