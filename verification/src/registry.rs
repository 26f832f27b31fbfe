//! The capability catalogue.
//!
//! A registry records, per component kind, the shape against which values
//! of that kind are checked when a document is read back, and, per schema,
//! the ordered kind list from which whole rows are written and read. It is
//! created once at startup and only read thereafter.

use vstd::prelude::*;

use crate::bundle::{bundle_kind_of, kinds_views, BundleKind};
use crate::value::{shape_fields_view, ScalarShape, Shape, ShapeV};
use crate::{ComponentKind, EcsError};

verus! {

/// One registered schema: its canonical name and its component kinds in
/// declaration order.
#[derive(Debug)]
pub struct Schema {
    bundle_kind: BundleKind,
    kinds: Vec<ComponentKind>,
}

/// Mathematical model of a `Schema`.
pub ghost struct SchemaV {
    pub bundle_kind: Seq<char>,
    pub kinds: Seq<Seq<char>>,
}

impl View for Schema {
    type V = SchemaV;

    closed spec fn view(&self) -> SchemaV {
        SchemaV { bundle_kind: self.bundle_kind@, kinds: kinds_views(self.kinds@) }
    }
}

impl Schema {
    /// The canonical name of the schema.
    pub fn get_bundle_kind(&self) -> (r: &BundleKind)
        ensures
            r@ == self@.bundle_kind,
    {
        &self.bundle_kind
    }

    /// How many component kinds the schema holds.
    pub fn kind_count(&self) -> (n: usize)
        ensures
            n == self@.kinds.len(),
    {
        self.kinds.len()
    }

    /// The component kind at the given position of the declaration order.
    pub fn kind_at(&self, i: usize) -> (r: &ComponentKind)
        requires
            i < self@.kinds.len(),
        ensures
            r@ == self@.kinds[i as int],
    {
        proof {
            assert(self@.kinds[i as int] == self.kinds@[i as int]@);
        }
        &self.kinds[i]
    }
}

/// Whether the names of a field list are pairwise distinct.
pub open spec fn field_names_distinct(fs: Seq<(Seq<char>, ScalarShape)>) -> bool {
    forall|i: int, j: int| 0 <= i < j < fs.len() ==> (#[trigger] fs[i]).0 != (#[trigger] fs[j]).0
}

/// Whether a shape's field names are pairwise distinct; a single-scalar
/// shape trivially is.
pub open spec fn shape_fields_distinct(s: ShapeV) -> bool {
    match s {
        ShapeV::Single(_) => true,
        ShapeV::Fields(fs) => field_names_distinct(fs),
    }
}

/// Mathematical model of a `Registry`.
pub ghost struct RegistryV {
    pub components: Seq<(Seq<char>, ShapeV)>,
    pub schemas: Seq<SchemaV>,
}

impl RegistryV {
    /// Whether the given component kind is registered.
    pub open spec fn has_component_kind(self, kind: Seq<char>) -> bool {
        exists|i: int| 0 <= i < self.components.len() && (#[trigger] self.components[i]).0 == kind
    }

    /// The registered shape of the given component kind.
    pub open spec fn shape_of(self, kind: Seq<char>) -> ShapeV {
        self.components[choose|i: int|
            0 <= i < self.components.len() && (#[trigger] self.components[i]).0 == kind].1
    }

    /// Whether a schema with the given canonical name is registered.
    pub open spec fn has_schema(self, bk: Seq<char>) -> bool {
        exists|i: int| 0 <= i < self.schemas.len() && (#[trigger] self.schemas[i]).bundle_kind == bk
    }

    /// The index of the schema with the given canonical name.
    pub open spec fn schema_idx(self, bk: Seq<char>) -> int {
        choose|i: int| 0 <= i < self.schemas.len() && (#[trigger] self.schemas[i]).bundle_kind == bk
    }

    /// The registered schema with the given canonical name.
    pub open spec fn schema_of(self, bk: Seq<char>) -> SchemaV {
        self.schemas[self.schema_idx(bk)]
    }

    /// Well-formedness: component kinds are distinct, never named like the
    /// two fixed record fields, and field-shaped with distinct field names;
    /// schema names are distinct; every schema holds distinct, registered
    /// kinds and is named canonically after them.
    pub open spec fn wf(self) -> bool {
        &&& forall|i: int, j: int|
            0 <= i < j < self.components.len() ==> (#[trigger] self.components[i]).0 != (
            #[trigger] self.components[j]).0
        &&& forall|i: int|
            0 <= i < self.components.len() ==> (#[trigger] self.components[i]).0 != "bundle_kind"@
                && self.components[i].0 != "entity_id"@
        &&& forall|i: int|
            0 <= i < self.components.len() ==> shape_fields_distinct(
                (#[trigger] self.components[i]).1,
            )
        &&& forall|i: int, j: int|
            0 <= i < j < self.schemas.len() ==> (#[trigger] self.schemas[i]).bundle_kind != (
            #[trigger] self.schemas[j]).bundle_kind
        &&& forall|i: int|
            0 <= i < self.schemas.len() ==> {
                let s = #[trigger] self.schemas[i];
                &&& s.kinds.len() > 0
                &&& forall|p: int, q: int|
                    0 <= p < q < s.kinds.len() ==> (#[trigger] s.kinds[p]) != (#[trigger] s.kinds[q])
                &&& forall|p: int| 0 <= p < s.kinds.len() ==> self.has_component_kind(#[trigger] s.kinds[p])
                &&& s.bundle_kind == bundle_kind_of(s.kinds)
            }
    }
}

/// When component kinds are distinct, the shape of a kind is the one
/// registered at its index.
pub proof fn lemma_shape_of_unique(r: RegistryV, kind: Seq<char>, i: int)
    requires
        forall|p: int, q: int|
            0 <= p < q < r.components.len() ==> (#[trigger] r.components[p]).0 != (
            #[trigger] r.components[q]).0,
        0 <= i < r.components.len(),
        r.components[i].0 == kind,
    ensures
        r.has_component_kind(kind),
        r.shape_of(kind) == r.components[i].1,
{
    assert(r.has_component_kind(kind));
    let j = choose|j: int| 0 <= j < r.components.len() && (#[trigger] r.components[j]).0 == kind;
    if i < j {
        assert(r.components[i].0 != r.components[j].0);
    } else if j < i {
        assert(r.components[j].0 != r.components[i].0);
    }
}

/// When schema names are distinct, the schema of a name is the one
/// registered at its index.
pub proof fn lemma_schema_of_unique(r: RegistryV, bk: Seq<char>, i: int)
    requires
        forall|p: int, q: int|
            0 <= p < q < r.schemas.len() ==> (#[trigger] r.schemas[p]).bundle_kind != (
            #[trigger] r.schemas[q]).bundle_kind,
        0 <= i < r.schemas.len(),
        r.schemas[i].bundle_kind == bk,
    ensures
        r.has_schema(bk),
        r.schema_idx(bk) == i,
{
    assert(r.has_schema(bk));
    let j = r.schema_idx(bk);
    if i < j {
        assert(r.schemas[i].bundle_kind != r.schemas[j].bundle_kind);
    } else if j < i {
        assert(r.schemas[j].bundle_kind != r.schemas[i].bundle_kind);
    }
}

/// The capability catalogue: per component kind a shape, per schema the
/// ordered kind list, both looked up by canonical name.
#[derive(Debug)]
pub struct Registry {
    components: Vec<(ComponentKind, Shape)>,
    schemas: Vec<Schema>,
}

/// The models of a component list.
pub open spec fn comp_views(cs: Seq<(ComponentKind, Shape)>) -> Seq<(Seq<char>, ShapeV)> {
    cs.map_values(|p: (ComponentKind, Shape)| (p.0@, p.1@))
}

/// The models of a schema list.
pub open spec fn schema_views(ss: Seq<Schema>) -> Seq<SchemaV> {
    ss.map_values(|s: Schema| s@)
}

impl View for Registry {
    type V = RegistryV;

    closed spec fn view(&self) -> RegistryV {
        RegistryV { components: comp_views(self.components@), schemas: schema_views(self.schemas@) }
    }
}

/// Whether a shape's field names are pairwise distinct.
fn shape_fields_distinct_exec(shape: &Shape) -> (r: bool)
    ensures
        r == shape_fields_distinct(shape@),
{
    match shape {
        Shape::Single(_) => true,
        Shape::Fields(fs) => {
            let n = fs.len();
            let mut i: usize = 0;
            while i < n
                invariant
                    i <= n,
                    n == fs@.len(),
                    shape@ == ShapeV::Fields(shape_fields_view(fs@)),
                    forall|p: int, q: int|
                        0 <= p < q < n && p < i ==> (#[trigger] shape_fields_view(fs@)[p]).0 != (
                        #[trigger] shape_fields_view(fs@)[q]).0,
                decreases n - i,
            {
                let mut j: usize = i + 1;
                while j < n
                    invariant
                        i < j <= n,
                        n == fs@.len(),
                        shape@ == ShapeV::Fields(shape_fields_view(fs@)),
                        forall|q: int|
                            i < q < j ==> (#[trigger] shape_fields_view(fs@)[q]).0
                                != shape_fields_view(fs@)[i as int].0,
                    decreases n - j,
                {
                    proof {
                        assert(shape_fields_view(fs@)[i as int] == (fs@[i as int].0@, fs@[i as int].1));
                        assert(shape_fields_view(fs@)[j as int] == (fs@[j as int].0@, fs@[j as int].1));
                    }
                    if fs[i].0 == fs[j].0 {
                        proof {
                            let gfs = shape_fields_view(fs@);
                            assert(gfs[i as int].0 == gfs[j as int].0);
                            assert(!field_names_distinct(gfs));
                        }
                        return false;
                    }
                    j += 1;
                }
                i += 1;
            }
            true
        },
    }
}

impl Registry {
    /// A fresh, empty registry.
    pub fn new() -> (r: Registry)
        ensures
            r@.components == Seq::<(Seq<char>, ShapeV)>::empty(),
            r@.schemas == Seq::<SchemaV>::empty(),
            r@.wf(),
    {
        let r = Registry { components: Vec::new(), schemas: Vec::new() };
        proof {
            assert(r@.components =~= Seq::<(Seq<char>, ShapeV)>::empty());
            assert(r@.schemas =~= Seq::<SchemaV>::empty());
        }
        r
    }

    /// How many component kinds are registered.
    pub fn component_count(&self) -> (n: usize)
        ensures
            n == self@.components.len(),
    {
        self.components.len()
    }

    /// How many schemas are registered.
    pub fn schema_count(&self) -> (n: usize)
        ensures
            n == self@.schemas.len(),
    {
        self.schemas.len()
    }

    /// The position of the given kind among the registered components.
    fn find_component(&self, kind: &ComponentKind) -> (r: Option<usize>)
        ensures
            match r {
                Some(i) => 0 <= i < self@.components.len() && self@.components[i as int].0 == kind@,
                None => !self@.has_component_kind(kind@),
            },
    {
        let mut i: usize = 0;
        while i < self.components.len()
            invariant
                i <= self.components.len(),
                forall|j: int| 0 <= j < i ==> (#[trigger] self@.components[j]).0 != kind@,
            decreases self.components.len() - i,
        {
            proof {
                assert(self@.components[i as int] == (
                    self.components@[i as int].0@,
                    self.components@[i as int].1@,
                ));
            }
            if self.components[i].0.0 == kind.0 {
                return Some(i);
            }
            i += 1;
        }
        None
    }

    /// The position of the given schema name among the registered schemas.
    fn find_schema(&self, bk: &BundleKind) -> (r: Option<usize>)
        ensures
            match r {
                Some(i) => 0 <= i < self@.schemas.len() && self@.schemas[i as int].bundle_kind
                    == bk@,
                None => !self@.has_schema(bk@),
            },
    {
        let mut i: usize = 0;
        while i < self.schemas.len()
            invariant
                i <= self.schemas.len(),
                forall|j: int| 0 <= j < i ==> (#[trigger] self@.schemas[j]).bundle_kind != bk@,
            decreases self.schemas.len() - i,
        {
            proof {
                assert(self@.schemas[i as int] == self.schemas@[i as int]@);
            }
            if self.schemas[i].bundle_kind.0 == bk.0 {
                return Some(i);
            }
            i += 1;
        }
        None
    }

    /// Record a component kind together with the shape its values take in
    /// the persisted document. Must be called once per distinct kind before
    /// the kind is used in any schema or spawn. Fails, leaving the registry
    /// unchanged, when the kind is named like one of the two fixed record
    /// fields, is already registered, or repeats a field name in its shape.
    pub fn register_component(&mut self, kind: ComponentKind, shape: Shape) -> (r: Result<
        (),
        EcsError,
    >)
        requires
            old(self)@.wf(),
        ensures
            final(self)@.wf(),
            ({
                let bad = kind@ == "bundle_kind"@ || kind@ == "entity_id"@ || old(
                    self,
                )@.has_component_kind(kind@) || !shape_fields_distinct(shape@);
                if bad {
                    r == Err::<(), EcsError>(EcsError::ConfigurationError) && *final(self) == *old(
                        self,
                    )
                } else {
                    r == Ok::<(), EcsError>(()) && final(self)@ == (RegistryV {
                        components: old(self)@.components.push((kind@, shape@)),
                        ..old(self)@
                    })
                }
            }),
    {
        let reserved_a = String::from_str("bundle_kind");
        let reserved_b = String::from_str("entity_id");
        if kind.0 == reserved_a || kind.0 == reserved_b {
            return Err(EcsError::ConfigurationError);
        }
        if self.find_component(&kind).is_some() {
            return Err(EcsError::ConfigurationError);
        }
        if !shape_fields_distinct_exec(&shape) {
            return Err(EcsError::ConfigurationError);
        }
        self.components.push((kind, shape));
        proof {
            assert(self@.components =~= old(self)@.components.push(
                (self.components@.last().0@, self.components@.last().1@),
            ));
            assert(self@.schemas =~= old(self)@.schemas);
            assert forall|p: int, q: int| 0 <= p < q < self@.components.len() implies (
            #[trigger] self@.components[p]).0 != (#[trigger] self@.components[q]).0 by {
                if q == self@.components.len() - 1 {
                    assert(self@.components[p] == old(self)@.components[p]);
                    assert(!old(self)@.has_component_kind(self@.components[q].0));
                }
            }
            assert forall|k: int| 0 <= k < self@.schemas.len() implies {
                let s = #[trigger] self@.schemas[k];
                &&& s.kinds.len() > 0
                &&& forall|p: int, q: int|
                    0 <= p < q < s.kinds.len() ==> (#[trigger] s.kinds[p]) != (#[trigger] s.kinds[q])
                &&& forall|p: int|
                    0 <= p < s.kinds.len() ==> self@.has_component_kind(#[trigger] s.kinds[p])
                &&& s.bundle_kind == bundle_kind_of(s.kinds)
            } by {
                assert(self@.schemas[k] == old(self)@.schemas[k]);
                let s = self@.schemas[k];
                assert forall|p: int| 0 <= p < s.kinds.len() implies self@.has_component_kind(
                    #[trigger] s.kinds[p],
                ) by {
                    assert(old(self)@.has_component_kind(s.kinds[p]));
                    let w = choose|w: int|
                        0 <= w < old(self)@.components.len() && (#[trigger] old(
                            self,
                        )@.components[w]).0 == s.kinds[p];
                    assert(self@.components[w].0 == s.kinds[p]);
                }
            }
        }
        Ok(())
    }

    /// Record a schema: the set of component kinds spawned together, under
    /// the canonical name computed from them. Order of declaration is kept
    /// for row layout but does not affect the name. Fails, leaving the
    /// registry unchanged, when the kind list is empty or repeats a kind,
    /// when any kind was not registered as a component first, or when the
    /// canonical name is already taken.
    pub fn register_archetype(&mut self, kinds: Vec<ComponentKind>) -> (r: Result<(), EcsError>)
        requires
            old(self)@.wf(),
        ensures
            final(self)@.wf(),
            ({
                let ks = kinds_views(kinds@);
                let bad = ks.len() == 0 || (exists|p: int, q: int|
                    0 <= p < q < ks.len() && ks[p] == ks[q]) || (exists|p: int|
                    0 <= p < ks.len() && !old(self)@.has_component_kind(#[trigger] ks[p])) || old(
                    self,
                )@.has_schema(bundle_kind_of(ks));
                if bad {
                    r == Err::<(), EcsError>(EcsError::ConfigurationError) && *final(self) == *old(
                        self,
                    )
                } else {
                    r == Ok::<(), EcsError>(()) && final(self)@ == (RegistryV {
                        schemas: old(self)@.schemas.push(
                            (SchemaV { bundle_kind: bundle_kind_of(ks), kinds: ks }),
                        ),
                        ..old(self)@
                    })
                }
            }),
    {
        let ghost ks = kinds_views(kinds@);
        let n = kinds.len();
        if n == 0 {
            return Err(EcsError::ConfigurationError);
        }
        let mut i: usize = 0;
        while i < n
            invariant
                i <= n,
                n == kinds@.len(),
                ks == kinds_views(kinds@),
                *self == *old(self),
                self@.wf(),
                forall|p: int, q: int| 0 <= p < q < n && p < i ==> ks[p] != ks[q],
                forall|p: int| 0 <= p < i ==> self@.has_component_kind(#[trigger] ks[p]),
            decreases n - i,
        {
            proof {
                assert(ks[i as int] == kinds@[i as int]@);
            }
            let mut j: usize = i + 1;
            while j < n
                invariant
                    i < j <= n,
                    n == kinds@.len(),
                    ks == kinds_views(kinds@),
                    *self == *old(self),
                    self@.wf(),
                    forall|q: int| i < q < j ==> ks[q] != ks[i as int],
                decreases n - j,
            {
                proof {
                    assert(ks[j as int] == kinds@[j as int]@);
                    assert(ks[i as int] == kinds@[i as int]@);
                }
                if kinds[i].0 == kinds[j].0 {
                    return Err(EcsError::ConfigurationError);
                }
                j += 1;
            }
            if self.find_component(&kinds[i]).is_none() {
                return Err(EcsError::ConfigurationError);
            }
            i += 1;
        }
        let bundle_kind = BundleKind::from_component_kinds(&kinds);
        if self.find_schema(&bundle_kind).is_some() {
            return Err(EcsError::ConfigurationError);
        }
        let schema = Schema { bundle_kind, kinds };
        self.schemas.push(schema);
        proof {
            assert(self@.schemas =~= old(self)@.schemas.push(
                (SchemaV { bundle_kind: bundle_kind_of(ks), kinds: ks }),
            ));
            assert(self@.components =~= old(self)@.components);
            assert forall|p: int, q: int| 0 <= p < q < self@.schemas.len() implies (
            #[trigger] self@.schemas[p]).bundle_kind != (#[trigger] self@.schemas[q]).bundle_kind by {
                if q == self@.schemas.len() - 1 {
                    assert(self@.schemas[p] == old(self)@.schemas[p]);
                    assert(!old(self)@.has_schema(self@.schemas[q].bundle_kind));
                }
            }
            assert forall|k: int| 0 <= k < self@.schemas.len() implies {
                let s = #[trigger] self@.schemas[k];
                &&& s.kinds.len() > 0
                &&& forall|p: int, q: int|
                    0 <= p < q < s.kinds.len() ==> (#[trigger] s.kinds[p]) != (#[trigger] s.kinds[q])
                &&& forall|p: int|
                    0 <= p < s.kinds.len() ==> self@.has_component_kind(#[trigger] s.kinds[p])
                &&& s.bundle_kind == bundle_kind_of(s.kinds)
            } by {
                if k < old(self)@.schemas.len() {
                    assert(old(self)@.schemas[k] == self@.schemas[k]);
                }
            }
        }
        Ok(())
    }

    /// The shape capability registered for a component kind; failure means
    /// the kind was never registered — a setup bug, never a recoverable
    /// runtime condition.
    pub fn kind_to_capability(&self, kind: &ComponentKind) -> (r: Result<&Shape, EcsError>)
        requires
            self@.wf(),
        ensures
            match r {
                Ok(shape) => self@.has_component_kind(kind@) && shape@ == self@.shape_of(kind@),
                Err(e) => !self@.has_component_kind(kind@) && e == EcsError::ConfigurationError,
            },
    {
        match self.find_component(kind) {
            Some(i) => {
                proof {
                    lemma_shape_of_unique(self@, kind@, i as int);
                    assert(self@.components[i as int] == (
                        self.components@[i as int].0@,
                        self.components@[i as int].1@,
                    ));
                }
                Ok(&self.components[i].1)
            },
            None => Err(EcsError::ConfigurationError),
        }
    }

    /// The row capability registered for a schema name; failure means the
    /// schema was never registered — a setup bug, never a recoverable
    /// runtime condition.
    pub fn bundle_kind_to_capability(&self, bk: &BundleKind) -> (r: Result<&Schema, EcsError>)
        requires
            self@.wf(),
        ensures
            match r {
                Ok(schema) => self@.has_schema(bk@) && schema@ == self@.schema_of(bk@),
                Err(e) => !self@.has_schema(bk@) && e == EcsError::ConfigurationError,
            },
    {
        match self.find_schema(bk) {
            Some(i) => {
                proof {
                    lemma_schema_of_unique(self@, bk@, i as int);
                    assert(self@.schemas[i as int] == self.schemas@[i as int]@);
                }
                Ok(&self.schemas[i])
            },
            None => Err(EcsError::ConfigurationError),
        }
    }
}

} // verus!
