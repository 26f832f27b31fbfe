//! The archetype-keyed columnar store.
//!
//! A `Storage` owns one `Archetype` per schema in use, plus the counter from
//! which entity identifiers are allocated. An `Archetype` is one schema's
//! table: an ordered entity-id list and, per component kind of the schema,
//! one column of values behind an independent non-blocking access lock.

use vstd::prelude::*;

use crate::bundle::{bundle_kind_names, bundle_kind_of, Bundle, BundleKind};
use crate::value::{value_clone, values_clone, values_view, ComponentValue, ComponentValueV};
use crate::{ComponentKind, EcsError, EntityId};

verus! {

/// One column of an archetype: every value of one component kind, one row
/// per entity, behind its own non-blocking access lock.
#[derive(Debug)]
pub struct Column {
    kind: ComponentKind,
    values: Vec<ComponentValue>,
    readers: usize,
    writer: bool,
}

/// Mathematical model of a `Column`.
pub ghost struct ColumnV {
    pub kind: Seq<char>,
    pub values: Seq<ComponentValueV>,
    pub readers: nat,
    pub writer: bool,
}

impl View for Column {
    type V = ColumnV;

    closed spec fn view(&self) -> ColumnV {
        ColumnV {
            kind: self.kind@,
            values: values_view(self.values@),
            readers: self.readers as nat,
            writer: self.writer,
        }
    }
}

/// Mathematical model of an `Archetype`.
pub ghost struct ArchetypeV {
    pub bundle_kind: Seq<char>,
    pub entity_ids: Seq<EntityId>,
    pub columns: Seq<ColumnV>,
}

impl ArchetypeV {
    /// Whether the archetype's schema includes the given kind.
    pub open spec fn has_kind(self, kind: Seq<char>) -> bool {
        exists|i: int| 0 <= i < self.columns.len() && (#[trigger] self.columns[i]).kind == kind
    }

    /// The index of the column holding the given kind.
    pub open spec fn col_idx(self, kind: Seq<char>) -> int {
        choose|i: int| 0 <= i < self.columns.len() && (#[trigger] self.columns[i]).kind == kind
    }

    /// The column holding the given kind.
    pub open spec fn col_of(self, kind: Seq<char>) -> ColumnV {
        self.columns[self.col_idx(kind)]
    }

    /// No two columns share a kind.
    pub open spec fn kinds_unique(self) -> bool {
        forall|i: int, j: int|
            0 <= i < j < self.columns.len() ==> (#[trigger] self.columns[i]).kind != (
            #[trigger] self.columns[j]).kind
    }

    /// Every column has exactly one row per entity.
    pub open spec fn aligned(self) -> bool {
        forall|i: int|
            0 <= i < self.columns.len() ==> (#[trigger] self.columns[i]).values.len()
                == self.entity_ids.len()
    }

    /// Well-formedness: no two columns share a kind, and every column has
    /// exactly one row per entity.
    pub open spec fn wf(self) -> bool {
        self.kinds_unique() && self.aligned()
    }

    /// Whether no column lock is held in any mode.
    pub open spec fn quiescent(self) -> bool {
        forall|i: int|
            0 <= i < self.columns.len() ==> (#[trigger] self.columns[i]).readers == 0 && !self.columns[i].writer
    }
}

/// When no two columns share a kind, the column of a kind is the only one
/// with it.
pub proof fn lemma_col_idx_unique(a: ArchetypeV, kind: Seq<char>, i: int)
    requires
        a.kinds_unique(),
        0 <= i < a.columns.len(),
        a.columns[i].kind == kind,
    ensures
        a.col_idx(kind) == i,
        a.has_kind(kind),
{
    assert(a.has_kind(kind));
    let j = a.col_idx(kind);
    if i < j {
        assert(a.columns[i].kind != a.columns[j].kind);
    } else if j < i {
        assert(a.columns[j].kind != a.columns[i].kind);
    }
}

/// One schema's table.
#[derive(Debug)]
pub struct Archetype {
    bundle_kind: BundleKind,
    entity_ids: Vec<EntityId>,
    columns: Vec<Column>,
}

/// The models of a column list.
pub open spec fn col_views(cs: Seq<Column>) -> Seq<ColumnV> {
    cs.map_values(|c: Column| c@)
}

impl View for Archetype {
    type V = ArchetypeV;

    closed spec fn view(&self) -> ArchetypeV {
        ArchetypeV {
            bundle_kind: self.bundle_kind@,
            entity_ids: self.entity_ids@,
            columns: col_views(self.columns@),
        }
    }
}

impl Archetype {
    /// A fresh archetype of the given schema, with no rows and no columns
    /// yet; columns appear on the first push of each kind.
    pub fn new(bundle_kind: BundleKind) -> (a: Archetype)
        ensures
            a@.bundle_kind == bundle_kind@,
            a@.entity_ids == Seq::<EntityId>::empty(),
            a@.columns == Seq::<ColumnV>::empty(),
            a@.wf(),
            a@.quiescent(),
    {
        let a = Archetype { bundle_kind, entity_ids: Vec::new(), columns: Vec::new() };
        proof {
            assert(a@.entity_ids =~= Seq::<EntityId>::empty());
            assert(a@.columns =~= Seq::<ColumnV>::empty());
        }
        a
    }

    /// How many entities the archetype holds.
    pub fn get_entity_count(&self) -> (n: usize)
        ensures
            n == self@.entity_ids.len(),
    {
        self.entity_ids.len()
    }

    /// The canonical name of the archetype's schema.
    pub fn get_bundle_kind(&self) -> (r: &BundleKind)
        ensures
            r@ == self@.bundle_kind,
    {
        &self.bundle_kind
    }

    /// The index of the column holding the given kind, if any.
    fn find_column(&self, kind: &ComponentKind) -> (r: Option<usize>)
        ensures
            match r {
                Some(i) => 0 <= i < self@.columns.len() && self@.columns[i as int].kind == kind@,
                None => !self@.has_kind(kind@),
            },
    {
        let mut i: usize = 0;
        while i < self.columns.len()
            invariant
                i <= self.columns.len(),
                forall|j: int| 0 <= j < i ==> (#[trigger] self@.columns[j]).kind != kind@,
            decreases self.columns.len() - i,
        {
            proof {
                assert(self@.columns[i as int] == self.columns@[i as int]@);
            }
            if self.columns[i].kind.0 == kind.0 {
                return Some(i);
            }
            i += 1;
        }
        None
    }

    /// Whether the archetype's schema includes the given kind. Used by
    /// query matching; independent of locking.
    pub fn has_component(&self, kind: &ComponentKind) -> (r: bool)
        ensures
            r == self@.has_kind(kind@),
    {
        self.find_column(kind).is_some()
    }

    /// Append one entity id to the entity-id list.
    pub fn push_entity_id(&mut self, entity_id: EntityId)
        ensures
            final(self)@ == (ArchetypeV {
                entity_ids: old(self)@.entity_ids.push(entity_id),
                ..old(self)@
            }),
    {
        self.entity_ids.push(entity_id);
        proof {
            assert(final(self)@.columns =~= old(self)@.columns);
        }
    }

    /// The entity id at the given row.
    pub fn get_entity_id_at_index_unchecked(&self, index: usize) -> (id: EntityId)
        requires
            index < self@.entity_ids.len(),
        ensures
            id == self@.entity_ids[index as int],
    {
        self.entity_ids[index]
    }

    /// Append one value to the column of its kind, creating the column on
    /// the first push of that kind.
    pub fn push_component(&mut self, kind: &ComponentKind, value: ComponentValue)
        requires
            old(self)@.kinds_unique(),
        ensures
            final(self)@.kinds_unique(),
            old(self)@.has_kind(kind@) ==> final(self)@ == (ArchetypeV {
                columns: old(self)@.columns.update(
                    old(self)@.col_idx(kind@),
                    (ColumnV {
                        values: old(self)@.col_of(kind@).values.push(value@),
                        ..old(self)@.col_of(kind@)
                    }),
                ),
                ..old(self)@
            }),
            !old(self)@.has_kind(kind@) ==> final(self)@ == (ArchetypeV {
                columns: old(self)@.columns.push(
                    (ColumnV { kind: kind@, values: seq![value@], readers: 0, writer: false }),
                ),
                ..old(self)@
            }),
    {
        let ghost pre = self@;
        let found = self.find_column(kind);
        match found {
            Some(i) => {
                column_push(&mut self.columns[i], value);
                proof {
                    lemma_col_idx_unique(pre, kind@, i as int);
                    assert(self@.columns =~= pre.columns.update(i as int, self.columns@[i as int]@));
                    assert forall|p: int, q: int|
                        0 <= p < q < self@.columns.len() implies (#[trigger] self@.columns[p]).kind
                        != (#[trigger] self@.columns[q]).kind by {
                        assert(self@.columns[p].kind == pre.columns[p].kind);
                        assert(self@.columns[q].kind == pre.columns[q].kind);
                    }
                }
            },
            None => {
                let column = Column {
                    kind: kind.duplicate(),
                    values: vec![value],
                    readers: 0,
                    writer: false,
                };
                proof {
                    assert(column@.values =~= seq![value@]);
                }
                self.columns.push(column);
                proof {
                    assert(self@.columns =~= pre.columns.push(
                        (ColumnV { kind: kind@, values: seq![value@], readers: 0, writer: false }),
                    ));
                    assert forall|p: int, q: int|
                        0 <= p < q < self@.columns.len() implies (#[trigger] self@.columns[p]).kind
                        != (#[trigger] self@.columns[q]).kind by {
                        if q == self@.columns.len() - 1 {
                            assert(self@.columns[p] == pre.columns[p]);
                            assert(!pre.has_kind(kind@));
                        }
                    }
                }
            },
        }
    }
}

impl Archetype {
    /// The value of one component of one entity, read directly, without any
    /// lock taken or checked.
    pub fn get_component_at_index_unchecked(&self, kind: &ComponentKind, index: usize) -> (r:
        &ComponentValue)
        requires
            self@.kinds_unique(),
            self@.has_kind(kind@),
            index < self@.col_of(kind@).values.len(),
        ensures
            r@ == self@.col_of(kind@).values[index as int],
    {
        let i = match self.find_column(kind) {
            Some(i) => i,
            None => {
                proof {
                    assert(false);
                }
                0
            },
        };
        proof {
            lemma_col_idx_unique(self@, kind@, i as int);
            assert(self@.columns[i as int].values[index as int] == self.columns@[i as int]@.values[
                index as int]);
        }
        &self.columns[i].values[index]
    }

    /// Overwrite the value of one component of one entity in place, without
    /// any lock taken or checked.
    pub fn set_component_at_index_unchecked(
        &mut self,
        kind: &ComponentKind,
        index: usize,
        value: ComponentValue,
    )
        requires
            old(self)@.kinds_unique(),
            old(self)@.has_kind(kind@),
            index < old(self)@.col_of(kind@).values.len(),
        ensures
            final(self)@ == (ArchetypeV {
                columns: old(self)@.columns.update(
                    old(self)@.col_idx(kind@),
                    (ColumnV {
                        values: old(self)@.col_of(kind@).values.update(index as int, value@),
                        ..old(self)@.col_of(kind@)
                    }),
                ),
                ..old(self)@
            }),
    {
        let ghost pre = self@;
        let i = match self.find_column(kind) {
            Some(i) => i,
            None => {
                proof {
                    assert(false);
                }
                0
            },
        };
        proof {
            lemma_col_idx_unique(pre, kind@, i as int);
        }
        column_set(&mut self.columns[i], index, value);
        proof {
            assert(self@.columns =~= pre.columns.update(i as int, self.columns@[i as int]@));
        }
    }

    /// Acquire shared read access to the column of the given kind and hand
    /// back a snapshot of its values. Non-blocking: fails at once with
    /// `LockConflict` when write access is outstanding (or the reader count
    /// cannot grow), leaving the archetype unchanged.
    pub fn get_component_vec_lock(&mut self, kind: &ComponentKind) -> (r: Result<
        Vec<ComponentValue>,
        EcsError,
    >)
        requires
            old(self)@.kinds_unique(),
            old(self)@.has_kind(kind@),
        ensures
            r is Ok <==> !old(self)@.col_of(kind@).writer && old(self)@.col_of(kind@).readers
                < usize::MAX,
            r matches Ok(vals) ==> values_view(vals@) == old(self)@.col_of(kind@).values
                && final(self)@ == (ArchetypeV {
                columns: old(self)@.columns.update(
                    old(self)@.col_idx(kind@),
                    (ColumnV {
                        readers: old(self)@.col_of(kind@).readers + 1,
                        ..old(self)@.col_of(kind@)
                    }),
                ),
                ..old(self)@
            }),
            r is Err ==> r == Err::<Vec<ComponentValue>, EcsError>(EcsError::LockConflict) && *final(self) == *old(self),
    {
        let ghost pre = self@;
        let i = match self.find_column(kind) {
            Some(i) => i,
            None => {
                proof {
                    assert(false);
                }
                0
            },
        };
        proof {
            lemma_col_idx_unique(pre, kind@, i as int);
        }
        if self.columns[i].writer || self.columns[i].readers == usize::MAX {
            return Err(EcsError::LockConflict);
        }
        let vals = values_clone(&self.columns[i].values);
        column_add_reader(&mut self.columns[i]);
        proof {
            assert(self@.columns =~= pre.columns.update(i as int, self.columns@[i as int]@));
        }
        Ok(vals)
    }

    /// Acquire exclusive write access to the column of the given kind and
    /// hand back a snapshot of its values. Non-blocking: fails at once with
    /// `LockConflict` when any access is outstanding, leaving the archetype
    /// unchanged. The written values come back through
    /// `release_component_vec_lock_mut`.
    pub fn get_component_vec_lock_mut(&mut self, kind: &ComponentKind) -> (r: Result<
        Vec<ComponentValue>,
        EcsError,
    >)
        requires
            old(self)@.kinds_unique(),
            old(self)@.has_kind(kind@),
        ensures
            r is Ok <==> !old(self)@.col_of(kind@).writer && old(self)@.col_of(kind@).readers == 0,
            r matches Ok(vals) ==> values_view(vals@) == old(self)@.col_of(kind@).values
                && final(self)@ == (ArchetypeV {
                columns: old(self)@.columns.update(
                    old(self)@.col_idx(kind@),
                    (ColumnV { writer: true, ..old(self)@.col_of(kind@) }),
                ),
                ..old(self)@
            }),
            r is Err ==> r == Err::<Vec<ComponentValue>, EcsError>(EcsError::LockConflict) && *final(self) == *old(self),
    {
        let ghost pre = self@;
        let i = match self.find_column(kind) {
            Some(i) => i,
            None => {
                proof {
                    assert(false);
                }
                0
            },
        };
        proof {
            lemma_col_idx_unique(pre, kind@, i as int);
        }
        if self.columns[i].writer || self.columns[i].readers > 0 {
            return Err(EcsError::LockConflict);
        }
        let vals = values_clone(&self.columns[i].values);
        column_set_writer(&mut self.columns[i], true);
        proof {
            assert(self@.columns =~= pre.columns.update(i as int, self.columns@[i as int]@));
        }
        Ok(vals)
    }

    /// Release one outstanding read access to the column of the given kind.
    pub fn release_component_vec_lock(&mut self, kind: &ComponentKind)
        requires
            old(self)@.kinds_unique(),
            old(self)@.has_kind(kind@),
            old(self)@.col_of(kind@).readers > 0,
        ensures
            final(self)@ == (ArchetypeV {
                columns: old(self)@.columns.update(
                    old(self)@.col_idx(kind@),
                    (ColumnV {
                        readers: (old(self)@.col_of(kind@).readers - 1) as nat,
                        ..old(self)@.col_of(kind@)
                    }),
                ),
                ..old(self)@
            }),
    {
        let ghost pre = self@;
        let i = match self.find_column(kind) {
            Some(i) => i,
            None => {
                proof {
                    assert(false);
                }
                0
            },
        };
        proof {
            lemma_col_idx_unique(pre, kind@, i as int);
        }
        column_drop_reader(&mut self.columns[i]);
        proof {
            assert(self@.columns =~= pre.columns.update(i as int, self.columns@[i as int]@));
        }
    }

    /// Release the outstanding write access to the column of the given kind,
    /// storing the written values in its place.
    pub fn release_component_vec_lock_mut(&mut self, kind: &ComponentKind, values: Vec<ComponentValue>)
        requires
            old(self)@.kinds_unique(),
            old(self)@.has_kind(kind@),
            old(self)@.col_of(kind@).writer,
            values@.len() == old(self)@.col_of(kind@).values.len(),
        ensures
            final(self)@ == (ArchetypeV {
                columns: old(self)@.columns.update(
                    old(self)@.col_idx(kind@),
                    (ColumnV {
                        values: values_view(values@),
                        writer: false,
                        ..old(self)@.col_of(kind@)
                    }),
                ),
                ..old(self)@
            }),
    {
        let ghost pre = self@;
        let i = match self.find_column(kind) {
            Some(i) => i,
            None => {
                proof {
                    assert(false);
                }
                0
            },
        };
        proof {
            lemma_col_idx_unique(pre, kind@, i as int);
        }
        column_store(&mut self.columns[i], values);
        proof {
            assert(self@.columns =~= pre.columns.update(i as int, self.columns@[i as int]@));
        }
    }
}

/// Overwrite one value of a column.
fn column_set(c: &mut Column, index: usize, value: ComponentValue)
    requires
        index < old(c)@.values.len(),
    ensures
        final(c)@ == (ColumnV { values: old(c)@.values.update(index as int, value@), ..old(c)@ }),
{
    c.values[index] = value;
    proof {
        assert(values_view(c.values@) =~= old(c)@.values.update(index as int, value@));
    }
}

/// Count one more outstanding reader on a column.
fn column_add_reader(c: &mut Column)
    requires
        old(c)@.readers < usize::MAX,
    ensures
        final(c)@ == (ColumnV { readers: old(c)@.readers + 1, ..old(c)@ }),
{
    c.readers = c.readers + 1;
}

/// Count one outstanding reader on a column as gone.
fn column_drop_reader(c: &mut Column)
    requires
        old(c)@.readers > 0,
    ensures
        final(c)@ == (ColumnV { readers: (old(c)@.readers - 1) as nat, ..old(c)@ }),
{
    c.readers = c.readers - 1;
}

/// Mark a column's write access as taken or released.
fn column_set_writer(c: &mut Column, writer: bool)
    ensures
        final(c)@ == (ColumnV { writer, ..old(c)@ }),
{
    c.writer = writer;
}

/// Store written values into a column and release its write access.
fn column_store(c: &mut Column, values: Vec<ComponentValue>)
    ensures
        final(c)@ == (ColumnV { values: values_view(values@), writer: false, ..old(c)@ }),
{
    c.values = values;
    c.writer = false;
}

/// Append one value to a column.
fn column_push(c: &mut Column, value: ComponentValue)
    ensures
        final(c)@ == (ColumnV { values: old(c)@.values.push(value@), ..old(c)@ }),
{
    c.values.push(value);
    proof {
        assert(values_view(c.values@) =~= old(c)@.values.push(value@));
    }
}

/// Whether no two parts of a bundle share a kind.
pub open spec fn bundle_kinds_distinct(b: Seq<(Seq<char>, ComponentValueV)>) -> bool {
    forall|i: int, j: int| 0 <= i < j < b.len() ==> (#[trigger] b[i]).0 != (#[trigger] b[j]).0
}

/// Whether a bundle carries a value of the given kind.
pub open spec fn bundle_has_kind(b: Seq<(Seq<char>, ComponentValueV)>, kind: Seq<char>) -> bool {
    exists|i: int| 0 <= i < b.len() && (#[trigger] b[i]).0 == kind
}

/// The value a bundle carries under the given kind.
pub open spec fn bundle_value_of(b: Seq<(Seq<char>, ComponentValueV)>, kind: Seq<char>) -> ComponentValueV {
    b[choose|i: int| 0 <= i < b.len() && (#[trigger] b[i]).0 == kind].1
}

/// In a bundle of distinct kinds, the value under a kind is the one part
/// with it.
pub proof fn lemma_bundle_value_unique(b: Seq<(Seq<char>, ComponentValueV)>, kind: Seq<char>, i: int)
    requires
        bundle_kinds_distinct(b),
        0 <= i < b.len(),
        b[i].0 == kind,
    ensures
        bundle_has_kind(b, kind),
        bundle_value_of(b, kind) == b[i].1,
{
    assert(bundle_has_kind(b, kind));
    let j = choose|j: int| 0 <= j < b.len() && (#[trigger] b[j]).0 == kind;
    if i < j {
        assert(b[i].0 != b[j].0);
    } else if j < i {
        assert(b[j].0 != b[i].0);
    }
}

/// Whether an archetype's columns and a bundle's parts cover exactly the
/// same kinds.
pub open spec fn kinds_match(a: ArchetypeV, b: Seq<(Seq<char>, ComponentValueV)>) -> bool {
    &&& forall|i: int|
        0 <= i < a.columns.len() ==> bundle_has_kind(b, (#[trigger] a.columns[i]).kind)
    &&& forall|i: int| 0 <= i < b.len() ==> a.has_kind((#[trigger] b[i]).0)
}

/// The archetype after one full row was appended: the entity id at the end
/// of the id list, and each bundle value at the end of its kind's column.
pub open spec fn row_pushed(a: ArchetypeV, id: EntityId, b: Seq<(Seq<char>, ComponentValueV)>) -> ArchetypeV {
    ArchetypeV {
        bundle_kind: a.bundle_kind,
        entity_ids: a.entity_ids.push(id),
        columns: Seq::new(
            a.columns.len(),
            |i: int|
                ColumnV {
                    kind: a.columns[i].kind,
                    values: a.columns[i].values.push(bundle_value_of(b, a.columns[i].kind)),
                    readers: a.columns[i].readers,
                    writer: a.columns[i].writer,
                },
        ),
    }
}

/// A fresh archetype holding exactly one row: the bundle's values, with one
/// unlocked column per part, in bundle order.
pub open spec fn fresh_archetype(bk: Seq<char>, id: EntityId, b: Seq<(Seq<char>, ComponentValueV)>) -> ArchetypeV {
    ArchetypeV {
        bundle_kind: bk,
        entity_ids: seq![id],
        columns: Seq::new(
            b.len(),
            |i: int| ColumnV { kind: b[i].0, values: seq![b[i].1], readers: 0, writer: false },
        ),
    }
}

impl Archetype {
    /// Append one full row into an archetype whose columns cover exactly
    /// the bundle's kinds.
    fn push_row_matching(&mut self, entity_id: EntityId, bundle: &Bundle)
        requires
            old(self)@.kinds_unique(),
            bundle_kinds_distinct(bundle@),
            kinds_match(old(self)@, bundle@),
        ensures
            final(self)@ == row_pushed(old(self)@, entity_id, bundle@),
    {
        let ghost pre = self@;
        let ghost b = bundle@;
        self.push_entity_id(entity_id);
        let mut i: usize = 0;
        while i < bundle.parts.len()
            invariant
                i <= bundle.parts.len(),
                b == bundle@,
                b.len() == bundle.parts@.len(),
                bundle_kinds_distinct(b),
                kinds_match(pre, b),
                pre.kinds_unique(),
                self@.bundle_kind == pre.bundle_kind,
                self@.entity_ids == pre.entity_ids.push(entity_id),
                self@.columns.len() == pre.columns.len(),
                forall|k: int|
                    0 <= k < pre.columns.len() ==> {
                        let c = #[trigger] self@.columns[k];
                        &&& c.kind == pre.columns[k].kind
                        &&& c.readers == pre.columns[k].readers
                        &&& c.writer == pre.columns[k].writer
                        &&& (bundle_has_kind(b.subrange(0, i as int), pre.columns[k].kind) ==> c.values
                            == pre.columns[k].values.push(
                            bundle_value_of(b, pre.columns[k].kind),
                        ))
                        &&& (!bundle_has_kind(b.subrange(0, i as int), pre.columns[k].kind)
                            ==> c.values == pre.columns[k].values)
                    },
            decreases bundle.parts.len() - i,
        {
            let ghost cur = self@;
            let kind = &bundle.parts[i].0;
            let value = value_clone(&bundle.parts[i].1);
            proof {
                assert(b[i as int] == (bundle.parts@[i as int].0@, bundle.parts@[i as int].1@));
                assert(kind@ == b[i as int].0);
                assert(value@ == b[i as int].1);
                assert(cur.kinds_unique());
                assert(cur.has_kind(kind@)) by {
                    assert(pre.has_kind(b[i as int].0));
                    let w = pre.col_idx(b[i as int].0);
                    assert(cur.columns[w].kind == kind@);
                }
            }
            self.push_component(kind, value);
            proof {
                let ci = cur.col_idx(kind@);
                assert(cur.columns[ci].kind == kind@);
                lemma_bundle_value_unique(b, kind@, i as int);
                assert(!bundle_has_kind(b.subrange(0, i as int), kind@)) by {
                    if bundle_has_kind(b.subrange(0, i as int), kind@) {
                        let j = choose|j: int|
                            0 <= j < i && (#[trigger] b.subrange(0, i as int)[j]).0 == kind@;
                        assert(b[j] == b.subrange(0, i as int)[j]);
                        assert(b[j].0 != b[i as int].0);
                    }
                }
                assert(b.subrange(0, i as int + 1) =~= b.subrange(0, i as int).push(b[i as int]));
                assert forall|k: int| 0 <= k < pre.columns.len() implies {
                    let c = #[trigger] self@.columns[k];
                    &&& c.kind == pre.columns[k].kind
                    &&& c.readers == pre.columns[k].readers
                    &&& c.writer == pre.columns[k].writer
                    &&& (bundle_has_kind(b.subrange(0, i as int + 1), pre.columns[k].kind)
                        ==> c.values == pre.columns[k].values.push(
                        bundle_value_of(b, pre.columns[k].kind),
                    ))
                    &&& (!bundle_has_kind(b.subrange(0, i as int + 1), pre.columns[k].kind)
                        ==> c.values == pre.columns[k].values)
                } by {
                    let ck = pre.columns[k].kind;
                    if k == ci {
                        assert(bundle_has_kind(b.subrange(0, i as int + 1), ck)) by {
                            assert(b.subrange(0, i as int + 1)[i as int].0 == ck);
                        }
                    } else {
                        assert(self@.columns[k] == cur.columns[k]);
                        assert(ck != kind@) by {
                            if ck == kind@ {
                                if k < ci {
                                    assert(cur.columns[k].kind != cur.columns[ci].kind);
                                } else {
                                    assert(cur.columns[ci].kind != cur.columns[k].kind);
                                }
                            }
                        }
                        assert(bundle_has_kind(b.subrange(0, i as int + 1), ck)
                            == bundle_has_kind(b.subrange(0, i as int), ck)) by {
                            if bundle_has_kind(b.subrange(0, i as int + 1), ck) {
                                let j = choose|j: int|
                                    0 <= j < i + 1 && (#[trigger] b.subrange(
                                        0,
                                        i as int + 1,
                                    )[j]).0 == ck;
                                if j < i {
                                    assert(b.subrange(0, i as int)[j].0 == ck);
                                }
                            }
                            if bundle_has_kind(b.subrange(0, i as int), ck) {
                                let j = choose|j: int|
                                    0 <= j < i && (#[trigger] b.subrange(0, i as int)[j]).0 == ck;
                                assert(b.subrange(0, i as int + 1)[j].0 == ck);
                            }
                        }
                    }
                }
            }
            i += 1;
        }
        proof {
            assert(b.subrange(0, b.len() as int) =~= b);
            let target = row_pushed(pre, entity_id, b);
            assert(self@.columns =~= target.columns) by {
                assert forall|k: int| 0 <= k < pre.columns.len() implies self@.columns[k]
                    == target.columns[k] by {
                    assert(bundle_has_kind(b, pre.columns[k].kind));
                }
            }
        }
    }

    /// Append the first row into a fresh archetype, creating one column per
    /// bundle part, in bundle order.
    fn push_first_row(&mut self, entity_id: EntityId, bundle: &Bundle)
        requires
            old(self)@.columns.len() == 0,
            old(self)@.entity_ids.len() == 0,
            bundle_kinds_distinct(bundle@),
        ensures
            final(self)@ == fresh_archetype(old(self)@.bundle_kind, entity_id, bundle@),
    {
        let ghost pre = self@;
        let ghost b = bundle@;
        self.push_entity_id(entity_id);
        proof {
            assert(pre.entity_ids.push(entity_id) =~= seq![entity_id]);
        }
        let mut i: usize = 0;
        while i < bundle.parts.len()
            invariant
                i <= bundle.parts.len(),
                b == bundle@,
                b.len() == bundle.parts@.len(),
                bundle_kinds_distinct(b),
                self@.bundle_kind == pre.bundle_kind,
                self@.entity_ids == seq![entity_id],
                self@.columns.len() == i,
                forall|k: int|
                    0 <= k < i ==> #[trigger] self@.columns[k] == (ColumnV {
                        kind: b[k].0,
                        values: seq![b[k].1],
                        readers: 0,
                        writer: false,
                    }),
            decreases bundle.parts.len() - i,
        {
            let ghost cur = self@;
            let kind = &bundle.parts[i].0;
            let value = value_clone(&bundle.parts[i].1);
            proof {
                assert(b[i as int] == (bundle.parts@[i as int].0@, bundle.parts@[i as int].1@));
                assert(!cur.has_kind(kind@)) by {
                    if cur.has_kind(kind@) {
                        let w = cur.col_idx(kind@);
                        assert(cur.columns[w].kind == b[w].0);
                        assert(b[w].0 != b[i as int].0);
                    }
                }
            }
            self.push_component(kind, value);
            i += 1;
        }
        proof {
            let target = fresh_archetype(pre.bundle_kind, entity_id, b);
            assert(self@.columns =~= target.columns);
        }
    }
}

/// Mathematical model of a `Storage`.
pub ghost struct StorageV {
    pub archetypes: Seq<ArchetypeV>,
    pub next_entity_id: EntityId,
}

impl StorageV {
    /// Whether some archetype carries the given schema name.
    pub open spec fn has_bundle_kind(self, bk: Seq<char>) -> bool {
        exists|i: int|
            0 <= i < self.archetypes.len() && (#[trigger] self.archetypes[i]).bundle_kind == bk
    }

    /// The index of the archetype carrying the given schema name.
    pub open spec fn arch_idx(self, bk: Seq<char>) -> int {
        choose|i: int|
            0 <= i < self.archetypes.len() && (#[trigger] self.archetypes[i]).bundle_kind == bk
    }

    /// The archetype carrying the given schema name.
    pub open spec fn arch_of(self, bk: Seq<char>) -> ArchetypeV {
        self.archetypes[self.arch_idx(bk)]
    }

    /// No two archetypes share a schema name.
    pub open spec fn bundle_kinds_unique(self) -> bool {
        forall|i: int, j: int|
            0 <= i < j < self.archetypes.len() ==> (#[trigger] self.archetypes[i]).bundle_kind != (
            #[trigger] self.archetypes[j]).bundle_kind
    }

    /// Every entity id in use lies below the allocation counter, so the
    /// counter's value is never an id already in use.
    pub open spec fn ids_below_next(self) -> bool {
        forall|k: int, i: int|
            0 <= k < self.archetypes.len() && 0 <= i < self.archetypes[k].entity_ids.len()
                ==> #[trigger] self.archetypes[k].entity_ids[i] < self.next_entity_id
    }

    /// Well-formedness of the whole store.
    pub open spec fn wf(self) -> bool {
        &&& self.bundle_kinds_unique()
        &&& forall|k: int| 0 <= k < self.archetypes.len() ==> (#[trigger] self.archetypes[k]).wf()
        &&& self.ids_below_next()
    }

    /// Whether no column lock of any archetype is held.
    pub open spec fn quiescent(self) -> bool {
        forall|k: int|
            0 <= k < self.archetypes.len() ==> (#[trigger] self.archetypes[k]).quiescent()
    }
}

/// When no two archetypes share a schema name, the archetype of a name is
/// the only one with it.
pub proof fn lemma_arch_idx_unique(s: StorageV, bk: Seq<char>, i: int)
    requires
        s.bundle_kinds_unique(),
        0 <= i < s.archetypes.len(),
        s.archetypes[i].bundle_kind == bk,
    ensures
        s.arch_idx(bk) == i,
        s.has_bundle_kind(bk),
{
    assert(s.has_bundle_kind(bk));
    let j = s.arch_idx(bk);
    if i < j {
        assert(s.archetypes[i].bundle_kind != s.archetypes[j].bundle_kind);
    } else if j < i {
        assert(s.archetypes[j].bundle_kind != s.archetypes[i].bundle_kind);
    }
}

/// The archetype directory: owns every archetype, keyed by schema name,
/// plus entity-id allocation.
#[derive(Debug)]
pub struct Storage {
    archetypes: Vec<Archetype>,
    next_entity_id: EntityId,
}

/// The models of an archetype list.
pub open spec fn arch_views(archetypes: Seq<Archetype>) -> Seq<ArchetypeV> {
    archetypes.map_values(|a: Archetype| a@)
}

impl View for Storage {
    type V = StorageV;

    closed spec fn view(&self) -> StorageV {
        StorageV {
            archetypes: arch_views(self.archetypes@),
            next_entity_id: self.next_entity_id,
        }
    }
}

/// Which failure, if any, a spawn of the given bundle must report against
/// the given store: a bundle with a repeated kind is refused outright, and
/// one whose schema name leads to an archetype covering different kinds
/// signals an engine-level inconsistency.
pub open spec fn spawn_error(s: StorageV, b: Seq<(Seq<char>, ComponentValueV)>) -> Option<EcsError> {
    let bk = bundle_kind_of(bundle_kind_names(b));
    if !bundle_kinds_distinct(b) {
        Some(EcsError::ConfigurationError)
    } else if s.has_bundle_kind(bk) && !kinds_match(s.arch_of(bk), b) {
        Some(EcsError::InternalInvariantViolation)
    } else {
        None
    }
}

/// The store after a successful spawn of a bundle at the given id: one row
/// appended to the matching archetype — created fresh when the schema was
/// not yet in use — and the allocation counter advanced past the id.
pub open spec fn spawned(s: StorageV, id: EntityId, b: Seq<(Seq<char>, ComponentValueV)>) -> StorageV {
    let bk = bundle_kind_of(bundle_kind_names(b));
    let next = if id >= s.next_entity_id {
        (id + 1) as EntityId
    } else {
        s.next_entity_id
    };
    if s.has_bundle_kind(bk) {
        StorageV {
            archetypes: s.archetypes.update(s.arch_idx(bk), row_pushed(s.arch_of(bk), id, b)),
            next_entity_id: next,
        }
    } else {
        StorageV {
            archetypes: s.archetypes.push(fresh_archetype(bk, id, b)),
            next_entity_id: next,
        }
    }
}

/// Whether a bundle's parts carry pairwise distinct kinds.
fn bundle_kinds_distinct_exec(bundle: &Bundle) -> (r: bool)
    ensures
        r == bundle_kinds_distinct(bundle@),
{
    let n = bundle.parts.len();
    let mut i: usize = 0;
    while i < n
        invariant
            i <= n,
            n == bundle.parts@.len(),
            forall|p: int, q: int| 0 <= p < q < n && p < i ==> (#[trigger] bundle@[p]).0 != (
            #[trigger] bundle@[q]).0,
        decreases n - i,
    {
        let mut j: usize = i + 1;
        while j < n
            invariant
                i < j <= n,
                n == bundle.parts@.len(),
                forall|q: int| i < q < j ==> (#[trigger] bundle@[q]).0 != bundle@[i as int].0,
            decreases n - j,
        {
            proof {
                assert(bundle@[i as int] == (bundle.parts@[i as int].0@, bundle.parts@[i as int].1@));
                assert(bundle@[j as int] == (bundle.parts@[j as int].0@, bundle.parts@[j as int].1@));
            }
            if bundle.parts[i].0.0 == bundle.parts[j].0.0 {
                return false;
            }
            j += 1;
        }
        i += 1;
    }
    true
}

/// Whether a bundle carries a value of the given kind.
fn bundle_contains_kind(bundle: &Bundle, kind: &ComponentKind) -> (r: bool)
    ensures
        r == bundle_has_kind(bundle@, kind@),
{
    let mut i: usize = 0;
    while i < bundle.parts.len()
        invariant
            i <= bundle.parts@.len(),
            forall|j: int| 0 <= j < i ==> (#[trigger] bundle@[j]).0 != kind@,
        decreases bundle.parts@.len() - i,
    {
        proof {
            assert(bundle@[i as int] == (bundle.parts@[i as int].0@, bundle.parts@[i as int].1@));
        }
        if bundle.parts[i].0.0 == kind.0 {
            return true;
        }
        i += 1;
    }
    false
}

/// Whether an archetype's columns and a bundle's parts cover exactly the
/// same kinds.
fn kinds_match_exec(arch: &Archetype, bundle: &Bundle) -> (r: bool)
    ensures
        r == kinds_match(arch@, bundle@),
{
    let mut i: usize = 0;
    while i < bundle.parts.len()
        invariant
            i <= bundle.parts@.len(),
            forall|j: int| 0 <= j < i ==> arch@.has_kind((#[trigger] bundle@[j]).0),
        decreases bundle.parts@.len() - i,
    {
        proof {
            assert(bundle@[i as int] == (bundle.parts@[i as int].0@, bundle.parts@[i as int].1@));
        }
        if !arch.has_component(&bundle.parts[i].0) {
            return false;
        }
        i += 1;
    }
    let count = arch.column_count();
    let mut k: usize = 0;
    while k < count
        invariant
            k <= count,
            count == arch@.columns.len(),
            forall|j: int| 0 <= j < bundle@.len() ==> arch@.has_kind((#[trigger] bundle@[j]).0),
            forall|j: int|
                0 <= j < k ==> bundle_has_kind(bundle@, (#[trigger] arch@.columns[j]).kind),
        decreases count - k,
    {
        let kind = arch.column_kind_at(k);
        if !bundle_contains_kind(bundle, &kind) {
            return false;
        }
        k += 1;
    }
    true
}

impl Archetype {
    /// How many columns the archetype holds.
    pub fn column_count(&self) -> (n: usize)
        ensures
            n == self@.columns.len(),
    {
        self.columns.len()
    }

    /// The kind of the column at the given position.
    pub fn column_kind_at(&self, i: usize) -> (r: ComponentKind)
        requires
            i < self@.columns.len(),
        ensures
            r@ == self@.columns[i as int].kind,
    {
        proof {
            assert(self@.columns[i as int] == self.columns@[i as int]@);
        }
        self.columns[i].kind.duplicate()
    }
}

impl Archetype {
    /// The reader count and writer flag of the column of the given kind.
    pub fn column_lock_state(&self, kind: &ComponentKind) -> (r: (usize, bool))
        requires
            self@.kinds_unique(),
            self@.has_kind(kind@),
        ensures
            r.0 == self@.col_of(kind@).readers,
            r.1 == self@.col_of(kind@).writer,
    {
        let i = match self.find_column(kind) {
            Some(i) => i,
            None => {
                proof {
                    assert(false);
                }
                0
            },
        };
        proof {
            lemma_col_idx_unique(self@, kind@, i as int);
            assert(self@.columns[i as int] == self.columns@[i as int]@);
        }
        (self.columns[i].readers, self.columns[i].writer)
    }
}

impl Storage {
    /// Exclusive access to the archetype at the given position; whatever the
    /// caller does through it is the only change to the store.
    pub fn archetype_at_mut(&mut self, i: usize) -> (r: &mut Archetype)
        requires
            i < old(self)@.archetypes.len(),
        ensures
            (*r)@ == old(self)@.archetypes[i as int],
            final(self)@ == (StorageV {
                archetypes: old(self)@.archetypes.update(i as int, final(r)@),
                next_entity_id: old(self)@.next_entity_id,
            }),
    {
        let r = &mut self.archetypes[i];
        proof {
            assert(arch_views(old(self).archetypes@.update(i as int, *final(r))) =~= arch_views(
                old(self).archetypes@,
            ).update(i as int, final(r)@));
        }
        r
    }

    /// A fresh, empty store; the first auto-assigned entity id is zero.
    pub fn new() -> (s: Storage)
        ensures
            s@.archetypes == Seq::<ArchetypeV>::empty(),
            s@.next_entity_id == 0,
            s@.wf(),
            s@.quiescent(),
    {
        let s = Storage { archetypes: Vec::new(), next_entity_id: 0 };
        proof {
            assert(s@.archetypes =~= Seq::<ArchetypeV>::empty());
        }
        s
    }

    /// How many archetypes are in use.
    pub fn archetype_count(&self) -> (n: usize)
        ensures
            n == self@.archetypes.len(),
    {
        self.archetypes.len()
    }

    /// The archetype at the given position.
    pub fn get_archetype_at(&self, i: usize) -> (r: &Archetype)
        requires
            i < self@.archetypes.len(),
        ensures
            r@ == self@.archetypes[i as int],
    {
        proof {
            assert(self@.archetypes[i as int] == self.archetypes@[i as int]@);
        }
        &self.archetypes[i]
    }

    /// The position of the archetype carrying the given schema name, if any.
    pub fn find_archetype(&self, bk: &BundleKind) -> (r: Option<usize>)
        ensures
            match r {
                Some(i) => 0 <= i < self@.archetypes.len() && self@.archetypes[i as int].bundle_kind
                    == bk@,
                None => !self@.has_bundle_kind(bk@),
            },
    {
        let mut i: usize = 0;
        while i < self.archetypes.len()
            invariant
                i <= self.archetypes.len(),
                forall|j: int| 0 <= j < i ==> (#[trigger] self@.archetypes[j]).bundle_kind != bk@,
            decreases self.archetypes.len() - i,
        {
            proof {
                assert(self@.archetypes[i as int] == self.archetypes@[i as int]@);
            }
            if self.archetypes[i].get_bundle_kind().0 == bk.0 {
                return Some(i);
            }
            i += 1;
        }
        None
    }

    /// Spawn a bundle at an explicitly supplied entity id: find or create
    /// the archetype named by the bundle's own kinds, append the row, and
    /// advance the allocation counter past the id. Fails, leaving the store
    /// unchanged, when the bundle repeats a kind or the named archetype
    /// covers different kinds.
    pub fn spawn_with_entity_id(&mut self, entity_id: EntityId, bundle: Bundle) -> (r: Result<
        (),
        EcsError,
    >)
        requires
            old(self)@.wf(),
            old(self)@.quiescent(),
            entity_id < EntityId::MAX,
        ensures
            final(self)@.wf(),
            final(self)@.quiescent(),
            match spawn_error(old(self)@, bundle@) {
                Some(e) => r == Err::<(), EcsError>(e) && *final(self) == *old(self),
                None => r == Ok::<(), EcsError>(()) && final(self)@ == spawned(
                    old(self)@,
                    entity_id,
                    bundle@,
                ),
            },
    {
        let ghost pre = self@;
        let ghost b = bundle@;
        if !bundle_kinds_distinct_exec(&bundle) {
            return Err(EcsError::ConfigurationError);
        }
        let bk = bundle.get_bundle_kind();
        let found = self.find_archetype(&bk);
        match found {
            Some(ai) => {
                proof {
                    lemma_arch_idx_unique(pre, bk@, ai as int);
                }
                if !kinds_match_exec(&self.archetypes[ai], &bundle) {
                    return Err(EcsError::InternalInvariantViolation);
                }
                let a = &mut self.archetypes[ai];
                a.push_row_matching(entity_id, &bundle);
                proof {
                    assert(self@.archetypes =~= pre.archetypes.update(
                        ai as int,
                        row_pushed(pre.arch_of(bk@), entity_id, b),
                    ));
                }
            },
            None => {
                let mut arch = Archetype::new(bk);
                arch.push_first_row(entity_id, &bundle);
                self.archetypes.push(arch);
                proof {
                    assert(self@.archetypes =~= pre.archetypes.push(
                        fresh_archetype(bundle_kind_of(bundle_kind_names(b)), entity_id, b),
                    ));
                }
            },
        }
        if entity_id >= self.next_entity_id {
            self.next_entity_id = entity_id + 1;
        }
        proof {
            lemma_spawned_wf(pre, entity_id, b);
        }
        Ok(())
    }

    /// Spawn a bundle at the next auto-assigned entity id; each successful
    /// auto spawn uses the counter's value and advances it by exactly one.
    pub fn spawn(&mut self, bundle: Bundle) -> (r: Result<(), EcsError>)
        requires
            old(self)@.wf(),
            old(self)@.quiescent(),
            old(self)@.next_entity_id < EntityId::MAX,
        ensures
            final(self)@.wf(),
            final(self)@.quiescent(),
            match spawn_error(old(self)@, bundle@) {
                Some(e) => r == Err::<(), EcsError>(e) && *final(self) == *old(self),
                None => r == Ok::<(), EcsError>(()) && final(self)@ == spawned(
                    old(self)@,
                    old(self)@.next_entity_id,
                    bundle@,
                ) && final(self)@.next_entity_id == old(self)@.next_entity_id + 1,
            },
    {
        let id = self.next_entity_id;
        self.spawn_with_entity_id(id, bundle)
    }
}

/// Row alignment: in a well-formed store — and every store this module
/// hands out or returns is — every archetype holds exactly one row per
/// entity in every column, after any sequence of spawns.
pub proof fn lemma_row_alignment(s: StorageV)
    requires
        s.wf(),
    ensures
        forall|k: int, i: int|
            0 <= k < s.archetypes.len() && 0 <= i < s.archetypes[k].columns.len()
                ==> (#[trigger] s.archetypes[k].columns[i]).values.len()
                == s.archetypes[k].entity_ids.len(),
{
    assert forall|k: int, i: int|
        0 <= k < s.archetypes.len() && 0 <= i < s.archetypes[k].columns.len() implies (
    #[trigger] s.archetypes[k].columns[i]).values.len() == s.archetypes[k].entity_ids.len() by {
        assert(s.archetypes[k].wf());
    }
}

/// Id collision-freedom: in a well-formed store the allocation counter is
/// never an entity id already in use, so the id an auto spawn assigns is
/// fresh; and an auto spawn advances the counter by exactly one past the
/// id it assigned, so successive auto spawns from a fresh store assign
/// zero, then each id exactly one above the last.
pub proof fn lemma_entity_id_fresh(s: StorageV, b: Seq<(Seq<char>, ComponentValueV)>)
    requires
        s.wf(),
        s.next_entity_id < EntityId::MAX,
    ensures
        forall|k: int, i: int|
            0 <= k < s.archetypes.len() && 0 <= i < s.archetypes[k].entity_ids.len()
                ==> #[trigger] s.archetypes[k].entity_ids[i] != s.next_entity_id,
        spawned(s, s.next_entity_id, b).next_entity_id == s.next_entity_id + 1,
{
    assert forall|k: int, i: int|
        0 <= k < s.archetypes.len() && 0 <= i < s.archetypes[k].entity_ids.len() implies
    #[trigger] s.archetypes[k].entity_ids[i] != s.next_entity_id by {
        assert(s.archetypes[k].entity_ids[i] < s.next_entity_id);
    }
}

/// Spawning at an explicit id advances the counter past it, so no later
/// auto spawn ever reuses an explicitly supplied id.
pub proof fn lemma_explicit_id_never_reused(s: StorageV, id: EntityId, b: Seq<
    (Seq<char>, ComponentValueV),
>)
    requires
        id < EntityId::MAX,
    ensures
        spawned(s, id, b).next_entity_id > id,
{
}

/// A successful spawn preserves well-formedness and leaves every lock as it
/// was.
proof fn lemma_spawned_wf(s: StorageV, id: EntityId, b: Seq<(Seq<char>, ComponentValueV)>)
    requires
        s.wf(),
        s.quiescent(),
        id < EntityId::MAX,
        spawn_error(s, b) is None,
    ensures
        spawned(s, id, b).wf(),
        spawned(s, id, b).quiescent(),
{
    let bk = bundle_kind_of(bundle_kind_names(b));
    let t = spawned(s, id, b);
    if s.has_bundle_kind(bk) {
        let ai = s.arch_idx(bk);
        let a = s.archetypes[ai];
        let ra = row_pushed(a, id, b);
        assert(ra.wf() && ra.quiescent()) by {
            assert(a.wf());
            assert(a.quiescent());
            assert forall|p: int, q: int| 0 <= p < q < ra.columns.len() implies (
            #[trigger] ra.columns[p]).kind != (#[trigger] ra.columns[q]).kind by {
                assert(a.columns[p].kind != a.columns[q].kind);
            }
        }
        assert forall|k: int| 0 <= k < t.archetypes.len() implies (#[trigger] t.archetypes[k]).wf()
            && t.archetypes[k].quiescent() by {
            if k != ai {
                assert(t.archetypes[k] == s.archetypes[k]);
            }
        }
        assert(t.bundle_kinds_unique()) by {
            assert forall|p: int, q: int| 0 <= p < q < t.archetypes.len() implies (
            #[trigger] t.archetypes[p]).bundle_kind != (#[trigger] t.archetypes[q]).bundle_kind by {
                assert(t.archetypes[p].bundle_kind == s.archetypes[p].bundle_kind);
                assert(t.archetypes[q].bundle_kind == s.archetypes[q].bundle_kind);
            }
        }
        assert(t.ids_below_next()) by {
            assert forall|k: int, i: int|
                0 <= k < t.archetypes.len() && 0 <= i < t.archetypes[k].entity_ids.len() implies
                #[trigger] t.archetypes[k].entity_ids[i] < t.next_entity_id by {
                if k == ai && i == t.archetypes[k].entity_ids.len() - 1 {
                } else {
                    assert(t.archetypes[k].entity_ids[i] == s.archetypes[k].entity_ids[i]);
                    assert(s.archetypes[k].entity_ids[i] < s.next_entity_id);
                }
            }
        }
    } else {
        let fa = fresh_archetype(bk, id, b);
        assert(fa.wf() && fa.quiescent()) by {
            assert(bundle_kinds_distinct(b));
        }
        assert forall|k: int| 0 <= k < t.archetypes.len() implies (#[trigger] t.archetypes[k]).wf()
            && t.archetypes[k].quiescent() by {
            if k < s.archetypes.len() {
                assert(t.archetypes[k] == s.archetypes[k]);
            }
        }
        assert(t.bundle_kinds_unique()) by {
            assert forall|p: int, q: int| 0 <= p < q < t.archetypes.len() implies (
            #[trigger] t.archetypes[p]).bundle_kind != (#[trigger] t.archetypes[q]).bundle_kind by {
                if q == t.archetypes.len() - 1 {
                    assert(t.archetypes[p] == s.archetypes[p]);
                    assert(!s.has_bundle_kind(bk));
                }
            }
        }
        assert(t.ids_below_next()) by {
            assert forall|k: int, i: int|
                0 <= k < t.archetypes.len() && 0 <= i < t.archetypes[k].entity_ids.len() implies
                #[trigger] t.archetypes[k].entity_ids[i] < t.next_entity_id by {
                if k < s.archetypes.len() {
                    assert(t.archetypes[k].entity_ids[i] == s.archetypes[k].entity_ids[i]);
                    assert(s.archetypes[k].entity_ids[i] < s.next_entity_id);
                } else {
                    assert(t.archetypes[k].entity_ids[i] == id);
                }
            }
        }
    }
}

} // verus!
