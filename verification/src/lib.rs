//! An in-process entity/component data engine: a schema-on-write columnar
//! store that groups entities by the exact set of component kinds attached to
//! them, supports bulk creation, capability-filtered querying across groups,
//! and structured-document round-trip persistence.

use vstd::prelude::*;

pub mod bundle;
pub mod query;
pub mod registry;
pub mod serialization;
pub mod storage;
pub mod value;

use crate::bundle::Bundle;
use crate::query::{
    conflict_free, locked_storage, matched_idxs, params_distinct, released_storage, Query,
    QueryResult,
};
use crate::registry::Registry;
use crate::serialization::{
    records_of_storage, records_of_text, replay, ser_error, text_of_records,
};
use crate::storage::{spawn_error, spawned, Storage, StorageV};
use crate::value::Shape;

verus! {

/// Type for all entity identifiers.
pub type EntityId = u64;

/// The main identifier for any given component kind. No two component types
/// may share a `ComponentKind` within one registry.
#[derive(Debug)]
pub struct ComponentKind(pub String);

impl View for ComponentKind {
    type V = Seq<char>;

    open spec fn view(&self) -> Seq<char> {
        self.0@
    }
}

impl ComponentKind {
    /// A fresh `ComponentKind` holding the same name.
    pub fn duplicate(&self) -> (r: ComponentKind)
        ensures
            r == *self,
    {
        ComponentKind(self.0.clone())
    }
}

/// Every failure the engine can report.
#[derive(Debug, Clone, Copy, PartialEq, Eq, Structural)]
pub enum EcsError {
    /// A kind or schema was used before it was registered, or registered
    /// inconsistently. Always a setup bug at the call site.
    ConfigurationError,
    /// A requested column access mode is incompatible with an access that is
    /// still outstanding. Never retried internally.
    LockConflict,
    /// Input text is not a valid record array, a record is missing required
    /// fields, or a component value does not match its registered shape.
    MalformedDocument,
    /// A stored column does not line up with the request; indicates an
    /// engine-level inconsistency, not bad user input.
    InternalInvariantViolation,
}

/// Mathematical model of an `ECS`.
pub ghost struct EcsV {
    pub registry: crate::registry::RegistryV,
    pub storage: StorageV,
}

impl EcsV {
    /// Well-formedness of the whole instance.
    pub open spec fn wf(self) -> bool {
        self.registry.wf() && self.storage.wf()
    }
}

/// The main engine instance: one capability registry and one archetype
/// store, driven together.
#[derive(Debug)]
pub struct ECS {
    /// The capability catalogue; registrations all happen before any spawn,
    /// query or persistence call that uses them.
    pub registry: Registry,
    storage: Storage,
}

impl View for ECS {
    type V = EcsV;

    closed spec fn view(&self) -> EcsV {
        EcsV { registry: self.registry@, storage: self.storage@ }
    }
}

impl ECS {
    /// Register a new component kind with the shape its values take.
    pub fn register_component(&mut self, kind: ComponentKind, shape: Shape) -> (r: Result<
        (),
        EcsError,
    >)
        requires
            old(self)@.wf(),
        ensures
            final(self)@.wf(),
            final(self)@.storage == old(self)@.storage,
            ({
                let bad = kind@ == "bundle_kind"@ || kind@ == "entity_id"@ || old(
                    self,
                )@.registry.has_component_kind(kind@) || !crate::registry::shape_fields_distinct(
                    shape@,
                );
                if bad {
                    r == Err::<(), EcsError>(EcsError::ConfigurationError) && final(self)@.registry
                        == old(self)@.registry
                } else {
                    r == Ok::<(), EcsError>(()) && final(self)@.registry == (
                    crate::registry::RegistryV {
                        components: old(self)@.registry.components.push((kind@, shape@)),
                        ..old(self)@.registry
                    })
                }
            }),
    {
        self.registry.register_component(kind, shape)
    }

    /// Register a new archetype schema; the order of the component kinds
    /// does not matter for the schema's canonical name. Every kind must
    /// have been registered as a component first.
    pub fn register_archetype(&mut self, kinds: Vec<ComponentKind>) -> (r: Result<(), EcsError>)
        requires
            old(self)@.wf(),
        ensures
            final(self)@.wf(),
            final(self)@.storage == old(self)@.storage,
            ({
                let ks = crate::bundle::kinds_views(kinds@);
                let bad = ks.len() == 0 || (exists|p: int, q: int|
                    0 <= p < q < ks.len() && ks[p] == ks[q]) || (exists|p: int|
                    0 <= p < ks.len() && !old(self)@.registry.has_component_kind(
                        #[trigger] ks[p],
                    )) || old(self)@.registry.has_schema(crate::bundle::bundle_kind_of(ks));
                if bad {
                    r == Err::<(), EcsError>(EcsError::ConfigurationError) && final(self)@.registry
                        == old(self)@.registry
                } else {
                    r == Ok::<(), EcsError>(()) && final(self)@.registry == (
                    crate::registry::RegistryV {
                        schemas: old(self)@.registry.schemas.push(
                            (crate::registry::SchemaV {
                                bundle_kind: crate::bundle::bundle_kind_of(ks),
                                kinds: ks,
                            }),
                        ),
                        ..old(self)@.registry
                    })
                }
            }),
    {
        self.registry.register_archetype(kinds)
    }

    /// Spawn a bundle of components into a new entity, at the next
    /// auto-assigned entity id.
    pub fn spawn_bundle(&mut self, bundle: Bundle) -> (r: Result<(), EcsError>)
        requires
            old(self)@.wf(),
            old(self)@.storage.quiescent(),
            old(self)@.storage.next_entity_id < EntityId::MAX,
        ensures
            final(self)@.wf(),
            final(self)@.registry == old(self)@.registry,
            final(self)@.storage.quiescent(),
            match spawn_error(old(self)@.storage, bundle@) {
                Some(e) => r == Err::<(), EcsError>(e) && final(self)@.storage == old(
                    self,
                )@.storage,
                None => r == Ok::<(), EcsError>(()) && final(self)@.storage == spawned(
                    old(self)@.storage,
                    old(self)@.storage.next_entity_id,
                    bundle@,
                ),
            },
    {
        self.storage.spawn(bundle)
    }

    /// Query the store for all rows of archetypes whose schemas include at
    /// least the requested kinds.
    pub fn query(&mut self, q: &Query) -> (r: Result<QueryResult, EcsError>)
        requires
            old(self)@.wf(),
            q.params@.len() >= 1,
            params_distinct(q@),
        ensures
            final(self)@.wf(),
            final(self)@.registry == old(self)@.registry,
            r is Ok <==> conflict_free(old(self)@.storage, q@),
            r is Err ==> r == Err::<QueryResult, EcsError>(EcsError::LockConflict)
                && final(self)@.storage == old(self)@.storage,
            r matches Ok(qr) ==> {
                &&& final(self)@.storage == locked_storage(old(self)@.storage, q@)
                &&& qr@.params == q@
                &&& qr@.matched == matched_idxs(old(self)@.storage, q@)
                &&& forall|p: int, j: int|
                    0 <= p < q@.len() && 0 <= j < qr@.matched.len() ==> #[trigger] qr@.data[p][j]
                        == old(self)@.storage.archetypes[qr@.matched[j]].col_of(q@[p].0).values
                &&& qr@.wf()
                &&& qr@.holds_on(final(self)@.storage)
            },
    {
        self.storage.query(q)
    }

    /// Let a query result's locks go, storing its staged writes.
    pub fn release(&mut self, qr: QueryResult)
        requires
            old(self)@.wf(),
            qr@.wf(),
            qr@.holds_on(old(self)@.storage),
        ensures
            final(self)@.wf(),
            final(self)@.registry == old(self)@.registry,
            final(self)@.storage == released_storage(old(self)@.storage, qr@),
    {
        qr.release(&mut self.storage)
    }

    /// Serialize every entity to one structured-document text.
    pub fn serialize(&self) -> (r: Result<String, EcsError>)
        requires
            self@.wf(),
        ensures
            match ser_error(self@.storage, self@.registry) {
                Some(e) => r == Err::<String, EcsError>(e),
                None => r matches Ok(text) && text@ == text_of_records(
                    records_of_storage(self@.storage, self@.registry),
                ) && records_of_text(text@) == Some(
                    records_of_storage(self@.storage, self@.registry),
                ),
            },
    {
        crate::serialization::serialize(&self.storage, &self.registry)
    }

    /// Replace the store with the entities of a structured-document text;
    /// on any failure the store is left as it was.
    pub fn deserialize(&mut self, text: &str) -> (r: Result<(), EcsError>)
        requires
            old(self)@.wf(),
        ensures
            final(self)@.wf(),
            final(self)@.registry == old(self)@.registry,
            records_of_text(text@) is None ==> r == Err::<(), EcsError>(
                EcsError::MalformedDocument,
            ) && final(self)@.storage == old(self)@.storage,
            records_of_text(text@) matches Some(records) ==> match replay(
                records,
                old(self)@.registry,
            ) {
                Ok(sv) => r == Ok::<(), EcsError>(()) && final(self)@.storage == sv,
                Err(e) => r == Err::<(), EcsError>(e) && final(self)@.storage == old(
                    self,
                )@.storage,
            },
    {
        match crate::serialization::deserialize(text, &self.registry) {
            Ok(storage) => {
                self.storage = storage;
                Ok(())
            },
            Err(e) => Err(e),
        }
    }
}

impl Default for ECS {
    /// A fresh instance: an empty registry and an empty store.
    fn default() -> (r: Self)
        ensures
            r@.wf(),
            r@.registry.components == Seq::<(Seq<char>, crate::value::ShapeV)>::empty(),
            r@.registry.schemas == Seq::<crate::registry::SchemaV>::empty(),
            r@.storage.archetypes == Seq::<crate::storage::ArchetypeV>::empty(),
            r@.storage.next_entity_id == 0,
            r@.storage.quiescent(),
    {
        ECS { registry: Registry::new(), storage: Storage::new() }
    }
}

} // verus!
