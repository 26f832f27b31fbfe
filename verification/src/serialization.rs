//! Structured-document persistence.
//!
//! A store is persisted as one array of tagged records, one per entity:
//! the schema name under `bundle_kind`, the entity id under `entity_id`,
//! then one field per component of the schema, named by its kind and
//! holding that component's structured encoding. The logical document is
//! built and checked here, fully verified; only the encoding of the
//! finished record array to text, and the parsing of text back into a
//! record array, are delegated to an outside library.

use vstd::prelude::*;

use crate::bundle::Bundle;
use crate::registry::{Registry, RegistryV};
use crate::storage::{
    spawn_error, spawned, ArchetypeV, ColumnV, Storage, StorageV,
};
use crate::value::{
    value_clone, value_matches, value_matches_exec, values_view, Scalar, ScalarV, ComponentValue, ComponentValueV,
};
use crate::{ComponentKind, EcsError, EntityId};

verus! {

/// The model of one record's field list.
pub open spec fn rec_view(rec: Seq<(String, ComponentValue)>) -> Seq<(Seq<char>, ComponentValueV)> {
    rec.map_values(|f: (String, ComponentValue)| (f.0@, f.1@))
}

/// The models of a record array.
pub open spec fn recs_view(records: Seq<Vec<(String, ComponentValue)>>) -> Seq<Seq<(Seq<char>, ComponentValueV)>> {
    records.map_values(|r: Vec<(String, ComponentValue)>| rec_view(r@))
}

/// The text an encoded record array takes. The encoding is delegated to
/// the outside library and depends on the records alone.
pub uninterp spec fn text_of_records(records: Seq<Seq<(Seq<char>, ComponentValueV)>>) -> Seq<char>;

/// The record array a text denotes, if it is a valid encoding of one whose
/// every value fits the shapes this engine stores. Parsing is delegated to
/// the outside library and depends on the text alone.
pub uninterp spec fn records_of_text(text: Seq<char>) -> Option<Seq<Seq<(Seq<char>, ComponentValueV)>>>;

/// Whether one record can be encoded faithfully: its field names are
/// pairwise distinct, and so are the field names inside each
/// record-shaped value.
pub open spec fn rec_encodable(rec: Seq<(Seq<char>, ComponentValueV)>) -> bool {
    &&& forall|i: int, j: int|
        0 <= i < j < rec.len() ==> (#[trigger] rec[i]).0 != (#[trigger] rec[j]).0
    &&& forall|i: int|
        0 <= i < rec.len() ==> match (#[trigger] rec[i]).1 {
            ComponentValueV::Single(_) => true,
            ComponentValueV::Fields(fs) => forall|x: int, y: int|
                0 <= x < y < fs.len() ==> (#[trigger] fs[x]).0 != (#[trigger] fs[y]).0,
        }
}

/// Whether every record of an array can be encoded faithfully.
pub open spec fn recs_encodable(records: Seq<Seq<(Seq<char>, ComponentValueV)>>) -> bool {
    forall|i: int| 0 <= i < records.len() ==> rec_encodable(#[trigger] records[i])
}

/// The outside library's document value type, declared so that the
/// conversion helpers below may pass values of it along; it stays opaque
/// to every contract.
#[verifier::external_type_specification]
#[verifier::external_body]
pub struct ExJsonValue(serde_json::Value);

/// Relies on `serde_json::Value::from` over one scalar.
#[verifier::external_body]
fn scalar_to_json(s: &Scalar) -> serde_json::Value {
    match s {
        Scalar::Num(n) => serde_json::Value::from(*n),
        Scalar::Text(t) => serde_json::Value::from(t.clone()),
    }
}

/// Relies on `serde_json::Map` to carry a value's fields in insertion
/// order.
#[verifier::external_body]
fn value_to_json(v: &ComponentValue) -> serde_json::Value {
    match v {
        ComponentValue::Single(s) => scalar_to_json(s),
        ComponentValue::Fields(fs) => {
            let mut m = serde_json::Map::new();
            for (k, s) in fs.iter() {
                m.insert(k.clone(), scalar_to_json(s));
            }
            serde_json::Value::Object(m)
        },
    }
}

/// Relies on `serde_json::Map` to carry a record's fields in insertion
/// order.
#[verifier::external_body]
fn record_to_json(rec: &Vec<(String, ComponentValue)>) -> serde_json::Value {
    let mut m = serde_json::Map::new();
    for (k, v) in rec.iter() {
        m.insert(k.clone(), value_to_json(v));
    }
    serde_json::Value::Object(m)
}

/// Relies on `serde_json::to_string`: the record array is encoded as one
/// JSON array of objects, deterministically — field order kept, every
/// scalar written as a JSON number or string — and parsing the encoded
/// text yields the same record array back.
#[verifier::external_body]
fn records_to_text(records: &Vec<Vec<(String, ComponentValue)>>) -> (r: String)
    requires
        recs_encodable(recs_view(records@)),
    ensures
        r@ == text_of_records(recs_view(records@)),
        records_of_text(r@) == Some(recs_view(records@)),
{
    let arr: Vec<serde_json::Value> = records.iter().map(record_to_json).collect();
    serde_json::to_string(&serde_json::Value::Array(arr)).unwrap()
}

/// Relies on `serde_json::Value::as_u64` and `as_str`.
#[verifier::external_body]
fn json_to_scalar(v: &serde_json::Value) -> Option<Scalar> {
    if let Some(n) = v.as_u64() {
        return Some(Scalar::Num(n));
    }
    if let Some(s) = v.as_str() {
        return Some(Scalar::Text(s.to_string()));
    }
    None
}

/// Relies on `serde_json::Value::as_object` iterating fields in document
/// order.
#[verifier::external_body]
fn json_to_value(v: &serde_json::Value) -> Option<ComponentValue> {
    if v.is_object() {
        let mut out: Vec<(String, Scalar)> = Vec::new();
        for (k, f) in v.as_object()? {
            out.push((k.clone(), json_to_scalar(f)?));
        }
        Some(ComponentValue::Fields(out))
    } else {
        Some(ComponentValue::Single(json_to_scalar(v)?))
    }
}

/// Relies on `serde_json::Value::as_object` iterating fields in document
/// order.
#[verifier::external_body]
fn json_to_record(v: &serde_json::Value) -> Option<Vec<(String, ComponentValue)>> {
    let mut out: Vec<(String, ComponentValue)> = Vec::new();
    for (k, f) in v.as_object()? {
        out.push((k.clone(), json_to_value(f)?));
    }
    Some(out)
}

/// Relies on `serde_json::from_str` and `ComponentValue::as_array`: a text parses
/// exactly when it is a JSON array of objects whose values all fit the
/// scalar, text or flat-record forms this engine stores.
#[verifier::external_body]
fn text_to_records(text: &str) -> (r: Option<Vec<Vec<(String, ComponentValue)>>>)
    ensures
        r is Some <==> records_of_text(text@) is Some,
        r matches Some(records) ==> Some(recs_view(records@)) == records_of_text(text@),
{
    let parsed: serde_json::Value = serde_json::from_str(text).ok()?;
    let arr = parsed.as_array()?;
    let mut out: Vec<Vec<(String, ComponentValue)>> = Vec::new();
    for item in arr {
        out.push(json_to_record(item)?);
    }
    Some(out)
}

/// The record one row of an archetype serializes to: the schema name, the
/// entity id, then each component of the schema in declaration order.
pub open spec fn record_of_row(a: ArchetypeV, kinds: Seq<Seq<char>>, i: int) -> Seq<
    (Seq<char>, ComponentValueV),
> {
    seq![
        ("bundle_kind"@, ComponentValueV::Single(ScalarV::Text(a.bundle_kind))),
        ("entity_id"@, ComponentValueV::Single(ScalarV::Num(a.entity_ids[i]))),
    ] + Seq::new(kinds.len(), |p: int| (kinds[p], a.col_of(kinds[p]).values[i]))
}

/// All records of one archetype, row order preserved.
pub open spec fn arch_records(a: ArchetypeV, kinds: Seq<Seq<char>>) -> Seq<
    Seq<(Seq<char>, ComponentValueV)>,
> {
    Seq::new(a.entity_ids.len(), |i: int| record_of_row(a, kinds, i))
}

/// Which failure, if any, serializing one archetype must report: its
/// schema name must be registered, and every schema kind must have a
/// column whose every value matches the kind's registered shape.
pub open spec fn arch_ser_error(a: ArchetypeV, reg: RegistryV) -> Option<EcsError> {
    if !reg.has_schema(a.bundle_kind) {
        Some(EcsError::ConfigurationError)
    } else if !(forall|p: int|
        0 <= p < reg.schema_of(a.bundle_kind).kinds.len() ==> a.has_kind(
            #[trigger] reg.schema_of(a.bundle_kind).kinds[p],
        ) && forall|i: int|
            0 <= i < a.col_of(reg.schema_of(a.bundle_kind).kinds[p]).values.len()
                ==> value_matches(
                #[trigger] a.col_of(reg.schema_of(a.bundle_kind).kinds[p]).values[i],
                reg.shape_of(reg.schema_of(a.bundle_kind).kinds[p]),
            )) {
        Some(EcsError::InternalInvariantViolation)
    } else {
        None
    }
}

/// Which failure, if any, serializing the first `m` archetypes must
/// report: the first archetype's failure, in store order.
pub open spec fn ser_error_upto(s: StorageV, reg: RegistryV, m: int) -> Option<EcsError>
    decreases m,
{
    if m <= 0 {
        None
    } else if ser_error_upto(s, reg, m - 1) is Some {
        ser_error_upto(s, reg, m - 1)
    } else {
        arch_ser_error(s.archetypes[m - 1], reg)
    }
}

/// Which failure, if any, serializing a store must report.
pub open spec fn ser_error(s: StorageV, reg: RegistryV) -> Option<EcsError> {
    ser_error_upto(s, reg, s.archetypes.len() as int)
}

/// The records of the first `m` archetypes, concatenated in store order,
/// row order preserved within each archetype.
pub open spec fn records_upto(s: StorageV, reg: RegistryV, m: int) -> Seq<
    Seq<(Seq<char>, ComponentValueV)>,
>
    decreases m,
{
    if m <= 0 {
        Seq::empty()
    } else {
        records_upto(s, reg, m - 1) + arch_records(
            s.archetypes[m - 1],
            reg.schema_of(s.archetypes[m - 1].bundle_kind).kinds,
        )
    }
}

/// The whole document of a store: every archetype's records, concatenated
/// in store order.
pub open spec fn records_of_storage(s: StorageV, reg: RegistryV) -> Seq<Seq<(Seq<char>, ComponentValueV)>> {
    records_upto(s, reg, s.archetypes.len() as int)
}

/// A failure among the first archetypes stays the failure of the whole
/// store.
proof fn lemma_ser_error_mono(s: StorageV, reg: RegistryV, m: int, n: int)
    requires
        0 <= m <= n <= s.archetypes.len(),
        ser_error_upto(s, reg, m) is Some,
    ensures
        ser_error_upto(s, reg, n) == ser_error_upto(s, reg, m),
    decreases n - m,
{
    if m < n {
        lemma_ser_error_mono(s, reg, m + 1, n);
    }
}

/// A value that matches a shape whose field names are distinct has
/// distinct field names itself.
proof fn lemma_matching_value_encodable(v: ComponentValueV, sh: crate::value::ShapeV)
    requires
        value_matches(v, sh),
        crate::registry::shape_fields_distinct(sh),
    ensures
        match v {
            ComponentValueV::Single(_) => true,
            ComponentValueV::Fields(fs) => forall|x: int, y: int|
                0 <= x < y < fs.len() ==> (#[trigger] fs[x]).0 != (#[trigger] fs[y]).0,
        },
{
    match v {
        ComponentValueV::Single(_) => {},
        ComponentValueV::Fields(fs) => {
            match sh {
                crate::value::ShapeV::Fields(shf) => {
                    assert forall|x: int, y: int| 0 <= x < y < fs.len() implies (
                    #[trigger] fs[x]).0 != (#[trigger] fs[y]).0 by {
                        assert(fs[x].0 == shf[x].0);
                        assert(fs[y].0 == shf[y].0);
                        assert(crate::registry::field_names_distinct(shf));
                    }
                },
                crate::value::ShapeV::Single(_) => {},
            }
        },
    }
}


/// Serialize a store against a registry: one tagged record per entity,
/// every archetype's rows in order, archetypes in store order, encoded as
/// one structured-document text. Fails with `ConfigurationError` when an
/// archetype's schema name was never registered, and with
/// `InternalInvariantViolation` when an archetype lacks a schema kind's
/// column or stores a value that does not match its registered shape; the
/// first failing archetype in store order decides.
pub fn serialize(storage: &Storage, registry: &Registry) -> (r: Result<String, EcsError>)
    requires
        storage@.wf(),
        registry@.wf(),
    ensures
        match ser_error(storage@, registry@) {
            Some(e) => r == Err::<String, EcsError>(e),
            None => r matches Ok(text) && text@ == text_of_records(
                records_of_storage(storage@, registry@),
            ) && records_of_text(text@) == Some(records_of_storage(storage@, registry@)),
        },
{
    let ghost sv = storage@;
    let ghost rv = registry@;
    let mut records: Vec<Vec<(String, ComponentValue)>> = Vec::new();
    let n = storage.archetype_count();
    let mut m: usize = 0;
    proof {
        assert(recs_view(records@) =~= records_upto(sv, rv, 0));
    }
    while m < n
        invariant
            m <= n,
            n == sv.archetypes.len(),
            sv == storage@,
            rv == registry@,
            sv.wf(),
            rv.wf(),
            ser_error_upto(sv, rv, m as int) is None,
            recs_view(records@) == records_upto(sv, rv, m as int),
            recs_encodable(recs_view(records@)),
        decreases n - m,
    {
        let ghost pre_records = recs_view(records@);
        let arch = storage.get_archetype_at(m);
        let ghost av = sv.archetypes[m as int];
        let schema = match registry.bundle_kind_to_capability(arch.get_bundle_kind()) {
            Ok(schema) => schema,
            Err(e) => {
                proof {
                    assert(arch_ser_error(av, rv) == Some(EcsError::ConfigurationError));
                    assert(ser_error_upto(sv, rv, m as int + 1) == Some(
                        EcsError::ConfigurationError,
                    ));
                    lemma_ser_error_mono(sv, rv, m as int + 1, sv.archetypes.len() as int);
                }
                return Err(e);
            },
        };
        let ghost kinds = rv.schema_of(av.bundle_kind).kinds;
        let kc = schema.kind_count();
        let mut p: usize = 0;
        while p < kc
            invariant
                p <= kc,
                kc == kinds.len(),
                sv == storage@,
                rv == registry@,
                sv.wf(),
                rv.wf(),
                m < n,
                n == sv.archetypes.len(),
                av == sv.archetypes[m as int],
                schema@ == rv.schema_of(av.bundle_kind),
                kinds == rv.schema_of(av.bundle_kind).kinds,
                arch@ == av,
                rv.has_schema(av.bundle_kind),
                ser_error_upto(sv, rv, m as int) is None,
                forall|pp: int|
                    0 <= pp < p ==> av.has_kind(#[trigger] kinds[pp]) && forall|i: int|
                        0 <= i < av.col_of(kinds[pp]).values.len() ==> value_matches(
                            #[trigger] av.col_of(kinds[pp]).values[i],
                            rv.shape_of(kinds[pp]),
                        ),
            decreases kc - p,
        {
            let kind = schema.kind_at(p);
            if !arch.has_component(kind) {
                proof {
                    if arch_ser_error(av, rv) is None {
                        assert(av.has_kind(
                            #[trigger] rv.schema_of(av.bundle_kind).kinds[p as int],
                        ));
                    }
                    assert(arch_ser_error(av, rv) == Some(EcsError::InternalInvariantViolation));
                    assert(ser_error_upto(sv, rv, m as int + 1) == Some(
                        EcsError::InternalInvariantViolation,
                    ));
                    lemma_ser_error_mono(sv, rv, m as int + 1, sv.archetypes.len() as int);
                }
                return Err(EcsError::InternalInvariantViolation);
            }
            let shape = match registry.kind_to_capability(kind) {
                Ok(shape) => shape,
                Err(_) => {
                    proof {
                        let si = rv.schema_idx(av.bundle_kind);
                        assert(0 <= si < rv.schemas.len());
                        assert(rv.schemas[si] == rv.schema_of(av.bundle_kind));
                        assert(rv.has_component_kind(rv.schema_of(av.bundle_kind).kinds[p as int]));
                        assert(false);
                    }
                    return Err(EcsError::ConfigurationError);
                },
            };
            let rows = arch.get_entity_count();
            let mut i: usize = 0;
            while i < rows
                invariant
                    i <= rows,
                    sv == storage@,
                    rv == registry@,
                    sv.wf(),
                    rv.wf(),
                    m < n,
                    n == sv.archetypes.len(),
                    av == sv.archetypes[m as int],
                    arch@ == av,
                    p < kc,
                    kc == kinds.len(),
                    rv.has_schema(av.bundle_kind),
                    kinds == rv.schema_of(av.bundle_kind).kinds,
                    av.has_kind(kinds[p as int]),
                    rows == av.entity_ids.len(),
                    kind@ == kinds[p as int],
                    shape@ == rv.shape_of(kinds[p as int]),
                    av.col_of(kinds[p as int]).values.len() == rows,
                    ser_error_upto(sv, rv, m as int) is None,
                    forall|ii: int|
                        0 <= ii < i ==> value_matches(
                            #[trigger] av.col_of(kinds[p as int]).values[ii],
                            rv.shape_of(kinds[p as int]),
                        ),
                decreases rows - i,
            {
                let v = arch.get_component_at_index_unchecked(kind, i);
                if !value_matches_exec(v, shape) {
                    proof {
                        assert(!value_matches(
                            av.col_of(kinds[p as int]).values[i as int],
                            rv.shape_of(kinds[p as int]),
                        ));
                        if arch_ser_error(av, rv) is None {
                            assert(av.has_kind(
                                #[trigger] rv.schema_of(av.bundle_kind).kinds[p as int],
                            ) && forall|ii: int|
                                0 <= ii < av.col_of(
                                    rv.schema_of(av.bundle_kind).kinds[p as int],
                                ).values.len() ==> value_matches(
                                    #[trigger] av.col_of(
                                        rv.schema_of(av.bundle_kind).kinds[p as int],
                                    ).values[ii],
                                    rv.shape_of(rv.schema_of(av.bundle_kind).kinds[p as int]),
                                ));
                            assert(value_matches(
                                av.col_of(kinds[p as int]).values[i as int],
                                rv.shape_of(kinds[p as int]),
                            ));
                        }
                        assert(arch_ser_error(av, rv) == Some(
                            EcsError::InternalInvariantViolation,
                        ));
                        assert(ser_error_upto(sv, rv, m as int + 1) == Some(
                            EcsError::InternalInvariantViolation,
                        ));
                        lemma_ser_error_mono(sv, rv, m as int + 1, sv.archetypes.len() as int);
                    }
                    return Err(EcsError::InternalInvariantViolation);
                }
                i += 1;
            }
            p += 1;
        }
        proof {
            assert(arch_ser_error(av, rv) is None);
            assert(ser_error_upto(sv, rv, m as int + 1) is None);
        }
        let rows = arch.get_entity_count();
        let mut i: usize = 0;
        while i < rows
            invariant
                i <= rows,
                sv == storage@,
                rv == registry@,
                sv.wf(),
                rv.wf(),
                m < n,
                n == sv.archetypes.len(),
                av == sv.archetypes[m as int],
                arch@ == av,
                schema@ == rv.schema_of(av.bundle_kind),
                kinds == rv.schema_of(av.bundle_kind).kinds,
                kc == kinds.len(),
                rows == av.entity_ids.len(),
                rv.has_schema(av.bundle_kind),
                arch_ser_error(av, rv) is None,
                ser_error_upto(sv, rv, m as int) is None,
                recs_view(records@) == pre_records + arch_records(av, kinds).subrange(0, i as int),
                pre_records == records_upto(sv, rv, m as int),
                recs_encodable(recs_view(records@)),
            decreases rows - i,
        {
            let mut rec: Vec<(String, ComponentValue)> = Vec::new();
            rec.push(
                (
                    String::from_str("bundle_kind"),
                    ComponentValue::Single(Scalar::Text(arch.get_bundle_kind().0.clone())),
                ),
            );
            rec.push(
                (
                    String::from_str("entity_id"),
                    ComponentValue::Single(Scalar::Num(arch.get_entity_id_at_index_unchecked(i))),
                ),
            );
            proof {
                assert(rec_view(rec@) =~= record_of_row(av, kinds, i as int).subrange(0, 2));
            }
            let mut p: usize = 0;
            while p < kc
                invariant
                    p <= kc,
                    sv == storage@,
                    rv == registry@,
                    sv.wf(),
                    rv.wf(),
                    m < n,
                    n == sv.archetypes.len(),
                    av == sv.archetypes[m as int],
                    arch@ == av,
                    schema@ == rv.schema_of(av.bundle_kind),
                    kinds == rv.schema_of(av.bundle_kind).kinds,
                    kc == kinds.len(),
                    i < rows,
                    rows == av.entity_ids.len(),
                    arch_ser_error(av, rv) is None,
                    rv.has_schema(av.bundle_kind),
                    rec@.len() == 2 + p,
                    rec_view(rec@) == record_of_row(av, kinds, i as int).subrange(0, 2 + p as int),
                decreases kc - p,
            {
                let kind = schema.kind_at(p);
                proof {
                    assert(av.has_kind(kinds[p as int]));
                    assert(av.col_of(kinds[p as int]).values.len() == rows);
                }
                let v = arch.get_component_at_index_unchecked(kind, i);
                let ghost rec_pre = rec@;
                rec.push((kind.0.clone(), value_clone(v)));
                proof {
                    assert(rec_view(rec@) =~= record_of_row(av, kinds, i as int).subrange(
                        0,
                        2 + p as int + 1,
                    )) by {
                        assert(rec@.subrange(0, 2 + p as int) =~= rec_pre);
                        assert(rec_view(rec@).len() == 2 + p + 1);
                        assert forall|x: int| 0 <= x < rec_view(rec@).len() implies rec_view(
                            rec@,
                        )[x] == record_of_row(av, kinds, i as int)[x] by {
                            assert(rec_view(rec@)[x] == (rec@[x].0@, rec@[x].1@));
                            if x < 2 + p {
                                assert(rec@[x] == rec_pre[x]);
                                assert(rec_view(rec_pre)[x] == (rec_pre[x].0@, rec_pre[x].1@));
                                assert(rec_view(rec_pre)[x] == record_of_row(
                                    av,
                                    kinds,
                                    i as int,
                                ).subrange(0, 2 + p as int)[x]);
                            } else {
                                assert(record_of_row(av, kinds, i as int)[x] == (
                                    kinds[p as int],
                                    av.col_of(kinds[p as int]).values[i as int],
                                ));
                            }
                        }
                    }
                }
                p += 1;
            }
            proof {
                assert(record_of_row(av, kinds, i as int).subrange(
                    0,
                    record_of_row(av, kinds, i as int).len() as int,
                ) =~= record_of_row(av, kinds, i as int));
                assert(rec_encodable(rec_view(rec@))) by {
                    lemma_record_encodable(av, rv, kinds, i as int);
                }
            }
            let ghost recs_pre = recs_view(records@);
            let ghost recv = rec_view(rec@);
            records.push(rec);
            proof {
                assert(recs_view(records@) =~= recs_pre.push(recv)) by {
                    assert forall|x: int| 0 <= x < recs_view(records@).len() implies recs_view(
                        records@,
                    )[x] == recs_pre.push(recv)[x] by {
                        assert(recs_view(records@)[x] == rec_view(records@[x]@));
                        if x < recs_pre.len() {
                            assert(recs_pre[x] == rec_view(records@[x]@));
                        }
                    }
                }
                assert(arch_records(av, kinds).subrange(0, i as int + 1) =~= arch_records(
                    av,
                    kinds,
                ).subrange(0, i as int).push(record_of_row(av, kinds, i as int)));
                assert(recs_view(records@) =~= pre_records + arch_records(av, kinds).subrange(
                    0,
                    i as int + 1,
                ));
                assert(recs_encodable(recs_view(records@))) by {
                    assert forall|x: int| 0 <= x < recs_view(records@).len() implies rec_encodable(
                        #[trigger] recs_view(records@)[x],
                    ) by {
                        if x < recs_pre.len() {
                            assert(recs_view(records@)[x] == recs_pre[x]);
                            assert(rec_encodable(recs_pre[x]));
                        } else {
                            assert(recs_view(records@)[x] == recv);
                        }
                    }
                }
            }
            i += 1;
        }
        proof {
            assert(arch_records(av, kinds).subrange(0, rows as int) =~= arch_records(av, kinds));
            assert(recs_view(records@) == records_upto(sv, rv, m as int + 1));
        }
        m += 1;
    }
    let text = records_to_text(&records);
    Ok(text)
}

/// Every record a well-formed store serializes to against a well-formed
/// registry can be encoded faithfully.
proof fn lemma_record_encodable(av: ArchetypeV, rv: RegistryV, kinds: Seq<Seq<char>>, i: int)
    requires
        rv.wf(),
        rv.has_schema(av.bundle_kind),
        kinds == rv.schema_of(av.bundle_kind).kinds,
        arch_ser_error(av, rv) is None,
        0 <= i < av.entity_ids.len(),
        av.wf(),
    ensures
        rec_encodable(record_of_row(av, kinds, i)),
{
    let rec = record_of_row(av, kinds, i);
    let sch = rv.schema_of(av.bundle_kind);
    assert(0 <= rv.schema_idx(av.bundle_kind) < rv.schemas.len());
    assert(rv.schemas[rv.schema_idx(av.bundle_kind)] == sch);
    assert forall|x: int, y: int| 0 <= x < y < rec.len() implies (#[trigger] rec[x]).0 != (
    #[trigger] rec[y]).0 by {
        if x >= 2 && y >= 2 {
            assert(rec[x].0 == kinds[x - 2]);
            assert(rec[y].0 == kinds[y - 2]);
            assert(sch.kinds[x - 2] != sch.kinds[y - 2]);
        } else if y >= 2 {
            assert(rec[y].0 == kinds[y - 2]);
            assert(rv.has_component_kind(kinds[y - 2]));
            let w = choose|w: int|
                0 <= w < rv.components.len() && (#[trigger] rv.components[w]).0 == kinds[y - 2];
            assert(rv.components[w].0 != "bundle_kind"@ && rv.components[w].0 != "entity_id"@);
        } else {
            assert(rec[0].0 == "bundle_kind"@ && rec[1].0 == "entity_id"@);
            assert("bundle_kind"@ != "entity_id"@) by {
                reveal_strlit("bundle_kind");
                reveal_strlit("entity_id");
            }
        }
    }
    assert forall|x: int| 0 <= x < rec.len() implies match (#[trigger] rec[x]).1 {
        ComponentValueV::Single(_) => true,
        ComponentValueV::Fields(fs) => forall|a: int, b: int|
            0 <= a < b < fs.len() ==> (#[trigger] fs[a]).0 != (#[trigger] fs[b]).0,
    } by {
        if x >= 2 {
            let k = kinds[x - 2];
            assert(av.has_kind(k));
            assert(value_matches(av.col_of(k).values[i], rv.shape_of(k)));
            assert(rv.has_component_kind(k));
            let w = choose|w: int|
                0 <= w < rv.components.len() && (#[trigger] rv.components[w]).0 == k;
            crate::registry::lemma_shape_of_unique(rv, k, w);
            assert(crate::registry::shape_fields_distinct(rv.shape_of(k)));
            lemma_matching_value_encodable(av.col_of(k).values[i], rv.shape_of(k));
            assert(rec[x].1 == av.col_of(k).values[i]);
        }
    }
}

/// The first field of a record carrying the given name, if any.
pub open spec fn field_of(rec: Seq<(Seq<char>, ComponentValueV)>, name: Seq<char>) -> Option<
    ComponentValueV,
>
    decreases rec.len(),
{
    if rec.len() == 0 {
        None
    } else if rec.first().0 == name {
        Some(rec.first().1)
    } else {
        field_of(rec.drop_first(), name)
    }
}

/// Whether every schema kind has a field in the record that matches the
/// kind's registered shape.
pub open spec fn fields_ok(
    rec: Seq<(Seq<char>, ComponentValueV)>,
    reg: RegistryV,
    kinds: Seq<Seq<char>>,
) -> bool {
    forall|p: int|
        0 <= p < kinds.len() ==> field_of(rec, #[trigger] kinds[p]) is Some && value_matches(
            field_of(rec, kinds[p])->Some_0,
            reg.shape_of(kinds[p]),
        )
}

/// What one record asks the store to spawn, or the failure reading it must
/// report: a text `bundle_kind` and a numeric, usable `entity_id` are
/// required fields; the schema named by the tag must be registered; and
/// each schema kind's field must be present and match its registered
/// shape.
pub open spec fn rec_build(rec: Seq<(Seq<char>, ComponentValueV)>, reg: RegistryV) -> Result<
    (EntityId, Seq<(Seq<char>, ComponentValueV)>),
    EcsError,
> {
    match field_of(rec, "bundle_kind"@) {
        Some(ComponentValueV::Single(ScalarV::Text(tag))) => {
            if !reg.has_schema(tag) {
                Err(EcsError::ConfigurationError)
            } else {
                match field_of(rec, "entity_id"@) {
                    Some(ComponentValueV::Single(ScalarV::Num(id))) => {
                        if id == EntityId::MAX {
                            Err(EcsError::MalformedDocument)
                        } else {
                            let kinds = reg.schema_of(tag).kinds;
                            if fields_ok(rec, reg, kinds) {
                                Ok(
                                    (
                                        id,
                                        Seq::new(
                                            kinds.len(),
                                            |p: int|
                                                (kinds[p], field_of(rec, kinds[p])->Some_0),
                                        ),
                                    ),
                                )
                            } else {
                                Err(EcsError::MalformedDocument)
                            }
                        }
                    },
                    _ => Err(EcsError::MalformedDocument),
                }
            }
        },
        _ => Err(EcsError::MalformedDocument),
    }
}

/// The store the first `n` records rebuild, or the first failure: starting
/// from a fresh store, each record is read and its bundle spawned at its
/// original entity id; any failure fails the whole rebuild.
pub open spec fn replay_upto(
    records: Seq<Seq<(Seq<char>, ComponentValueV)>>,
    reg: RegistryV,
    n: int,
) -> Result<StorageV, EcsError>
    decreases n,
{
    if n <= 0 {
        Ok(StorageV { archetypes: Seq::empty(), next_entity_id: 0 })
    } else {
        match replay_upto(records, reg, n - 1) {
            Err(e) => Err(e),
            Ok(s) => match rec_build(records[n - 1], reg) {
                Err(e) => Err(e),
                Ok(built) => match spawn_error(s, built.1) {
                    Some(e) => Err(e),
                    None => Ok(spawned(s, built.0, built.1)),
                },
            },
        }
    }
}

/// The store a whole record array rebuilds, or the first failure.
pub open spec fn replay(records: Seq<Seq<(Seq<char>, ComponentValueV)>>, reg: RegistryV) -> Result<
    StorageV,
    EcsError,
> {
    replay_upto(records, reg, records.len() as int)
}

/// A failure among the first records stays the failure of the whole
/// rebuild.
proof fn lemma_replay_err_mono(
    records: Seq<Seq<(Seq<char>, ComponentValueV)>>,
    reg: RegistryV,
    m: int,
    n: int,
)
    requires
        0 <= m <= n <= records.len(),
        replay_upto(records, reg, m) is Err,
    ensures
        replay_upto(records, reg, n) == replay_upto(records, reg, m),
    decreases n - m,
{
    if m < n {
        lemma_replay_err_mono(records, reg, m + 1, n);
    }
}

/// The first field of a record carrying the given name, if any.
fn find_field<'a>(rec: &'a Vec<(String, ComponentValue)>, name: &String) -> (r: Option<
    &'a ComponentValue,
>)
    ensures
        match r {
            Some(v) => field_of(rec_view(rec@), name@) == Some(v@),
            None => field_of(rec_view(rec@), name@) is None,
        },
{
    let ghost rv = rec_view(rec@);
    let mut i: usize = 0;
    proof {
        assert(rv.skip(0) =~= rv);
    }
    while i < rec.len()
        invariant
            i <= rec@.len(),
            rv == rec_view(rec@),
            rv.len() == rec@.len(),
            field_of(rv, name@) == field_of(rv.skip(i as int), name@),
        decreases rec@.len() - i,
    {
        proof {
            assert(rv[i as int] == (rec@[i as int].0@, rec@[i as int].1@));
            assert(rv.skip(i as int).first() == rv[i as int]);
        }
        if rec[i].0 == *name {
            proof {
                assert(field_of(rv.skip(i as int), name@) == Some(rv[i as int].1));
            }
            return Some(&rec[i].1);
        }
        proof {
            assert(rv.skip(i as int).drop_first() =~= rv.skip(i as int + 1));
        }
        i += 1;
    }
    proof {
        assert(rv.skip(rec@.len() as int).len() == 0);
    }
    None
}

/// Replace a store's contents with the entities of a structured-document
/// text: parse it as a record array and spawn every record's bundle at its
/// original entity id into a fresh store. Built atomically: the first
/// failure — a text that is no valid record array, a record missing a
/// required field or carrying a value that does not match its kind's
/// registered shape (`MalformedDocument`), or a schema name that was never
/// registered (`ConfigurationError`) — fails the whole call and no store
/// is returned.
pub fn deserialize(text: &str, registry: &Registry) -> (r: Result<Storage, EcsError>)
    requires
        registry@.wf(),
    ensures
        records_of_text(text@) is None ==> r == Err::<Storage, EcsError>(
            EcsError::MalformedDocument,
        ),
        records_of_text(text@) matches Some(records) ==> match replay(records, registry@) {
            Ok(sv) => r matches Ok(st) && st@ == sv && st@.wf() && st@.quiescent(),
            Err(e) => r == Err::<Storage, EcsError>(e),
        },
{
    let ghost rv = registry@;
    let parsed = match text_to_records(text) {
        Some(parsed) => parsed,
        None => {
            return Err(EcsError::MalformedDocument);
        },
    };
    let ghost records = recs_view(parsed@);
    let mut storage = Storage::new();
    let n = parsed.len();
    let mut m: usize = 0;
    while m < n
        invariant
            m <= n,
            n == parsed@.len(),
            rv == registry@,
            rv.wf(),
            records == recs_view(parsed@),
            records.len() == parsed@.len(),
            records_of_text(text@) == Some(records),
            replay_upto(records, rv, m as int) == Ok::<StorageV, EcsError>(storage@),
            storage@.wf(),
            storage@.quiescent(),
        decreases n - m,
    {
        let rec = &parsed[m];
        let ghost recv = records[m as int];
        proof {
            assert(recv == rec_view(parsed@[m as int]@));
        }
        let reserved_bk = String::from_str("bundle_kind");
        let tag = match find_field(rec, &reserved_bk) {
            Some(v) => match v {
                ComponentValue::Single(sc) => match sc {
                    Scalar::Text(t) => t.clone(),
                    Scalar::Num(_) => {
                        proof {
                            lemma_replay_err_mono(records, rv, m as int + 1, records.len() as int);
                        }
                        return Err(EcsError::MalformedDocument);
                    },
                },
                ComponentValue::Fields(_) => {
                    proof {
                        lemma_replay_err_mono(records, rv, m as int + 1, records.len() as int);
                    }
                    return Err(EcsError::MalformedDocument);
                },
            },
            None => {
                proof {
                    lemma_replay_err_mono(records, rv, m as int + 1, records.len() as int);
                }
                return Err(EcsError::MalformedDocument);
            },
        };
        let bk = crate::bundle::BundleKind(tag);
        proof {
            assert(field_of(recv, "bundle_kind"@) == Some(
                ComponentValueV::Single(ScalarV::Text(bk@)),
            ));
        }
        let schema = match registry.bundle_kind_to_capability(&bk) {
            Ok(schema) => schema,
            Err(e) => {
                proof {
                    assert(rec_build(recv, rv) == Err::<
                        (EntityId, Seq<(Seq<char>, ComponentValueV)>),
                        EcsError,
                    >(EcsError::ConfigurationError));
                    lemma_replay_err_mono(records, rv, m as int + 1, records.len() as int);
                }
                return Err(e);
            },
        };
        let reserved_id = String::from_str("entity_id");
        let id = match find_field(rec, &reserved_id) {
            Some(v) => match v {
                ComponentValue::Single(sc) => match sc {
                    Scalar::Num(id) => *id,
                    Scalar::Text(_) => {
                        proof {
                            lemma_replay_err_mono(records, rv, m as int + 1, records.len() as int);
                        }
                        return Err(EcsError::MalformedDocument);
                    },
                },
                ComponentValue::Fields(_) => {
                    proof {
                        lemma_replay_err_mono(records, rv, m as int + 1, records.len() as int);
                    }
                    return Err(EcsError::MalformedDocument);
                },
            },
            None => {
                proof {
                    lemma_replay_err_mono(records, rv, m as int + 1, records.len() as int);
                }
                return Err(EcsError::MalformedDocument);
            },
        };
        if id == EntityId::MAX {
            proof {
                lemma_replay_err_mono(records, rv, m as int + 1, records.len() as int);
            }
            return Err(EcsError::MalformedDocument);
        }
        let ghost kinds = rv.schema_of(bk@).kinds;
        let kc = schema.kind_count();
        let mut parts: Vec<(ComponentKind, ComponentValue)> = Vec::new();
        let mut p: usize = 0;
        while p < kc
            invariant
                p <= kc,
                m < n,
                n == parsed@.len(),
                rv == registry@,
                rv.wf(),
                records == recs_view(parsed@),
                records.len() == parsed@.len(),
                records_of_text(text@) == Some(records),
                replay_upto(records, rv, m as int) == Ok::<StorageV, EcsError>(storage@),
                storage@.wf(),
                storage@.quiescent(),
                recv == records[m as int],
                recv == rec_view(rec@),
                kc == kinds.len(),
                schema@ == rv.schema_of(bk@),
                kinds == rv.schema_of(bk@).kinds,
                rv.has_schema(bk@),
                field_of(recv, "bundle_kind"@) == Some(
                    ComponentValueV::Single(ScalarV::Text(bk@)),
                ),
                field_of(recv, "entity_id"@) == Some(ComponentValueV::Single(ScalarV::Num(id))),
                id != EntityId::MAX,
                parts@.len() == p,
                forall|pp: int|
                    0 <= pp < p ==> field_of(recv, #[trigger] kinds[pp]) is Some && value_matches(
                        field_of(recv, kinds[pp])->Some_0,
                        rv.shape_of(kinds[pp]),
                    ),
                forall|pp: int|
                    0 <= pp < p ==> (#[trigger] crate::bundle::parts_view(parts@)[pp]) == (
                        kinds[pp],
                        field_of(recv, kinds[pp])->Some_0,
                    ),
            decreases kc - p,
        {
            let kind = schema.kind_at(p);
            let v = match find_field(rec, &kind.0) {
                Some(v) => v,
                None => {
                    proof {
                        assert(!fields_ok(recv, rv, kinds));
                        lemma_replay_err_mono(records, rv, m as int + 1, records.len() as int);
                    }
                    return Err(EcsError::MalformedDocument);
                },
            };
            let shape = match registry.kind_to_capability(kind) {
                Ok(shape) => shape,
                Err(_) => {
                    proof {
                        let si = rv.schema_idx(bk@);
                        assert(0 <= si < rv.schemas.len());
                        assert(rv.schemas[si] == rv.schema_of(bk@));
                        assert(rv.has_component_kind(rv.schema_of(bk@).kinds[p as int]));
                        assert(false);
                    }
                    return Err(EcsError::ConfigurationError);
                },
            };
            if !value_matches_exec(v, shape) {
                proof {
                    assert(!fields_ok(recv, rv, kinds));
                    lemma_replay_err_mono(records, rv, m as int + 1, records.len() as int);
                }
                return Err(EcsError::MalformedDocument);
            }
            let ghost old_parts = crate::bundle::parts_view(parts@);
            parts.push((kind.duplicate(), value_clone(v)));
            proof {
                assert(field_of(recv, kinds[p as int]) == Some(v@));
                assert forall|pp: int|
                    0 <= pp < p + 1 implies (#[trigger] crate::bundle::parts_view(parts@)[pp]) == (
                    kinds[pp],
                    field_of(recv, kinds[pp])->Some_0,
                ) by {
                    assert(crate::bundle::parts_view(parts@)[pp] == (
                        parts@[pp].0@,
                        parts@[pp].1@,
                    ));
                    if pp < p {
                        assert(old_parts[pp] == (parts@[pp].0@, parts@[pp].1@));
                    }
                }
            }
            p += 1;
        }
        let bundle = Bundle { parts };
        let ghost pre_spawn = storage@;
        proof {
            assert(fields_ok(recv, rv, kinds));
            assert(rec_build(recv, rv) == Ok::<
                (EntityId, Seq<(Seq<char>, ComponentValueV)>),
                EcsError,
            >(
                (
                    id,
                    Seq::new(
                        kinds.len(),
                        |pp: int| (kinds[pp], field_of(recv, kinds[pp])->Some_0),
                    ),
                ),
            ));
            assert(bundle@ =~= Seq::new(
                kinds.len(),
                |pp: int| (kinds[pp], field_of(recv, kinds[pp])->Some_0),
            ));
        }
        match storage.spawn_with_entity_id(id, bundle) {
            Ok(_) => {
                proof {
                    assert(replay_upto(records, rv, m as int + 1) == Ok::<StorageV, EcsError>(
                        storage@,
                    ));
                }
            },
            Err(e) => {
                proof {
                    assert(replay_upto(records, rv, m as int + 1) == Err::<StorageV, EcsError>(e));
                    lemma_replay_err_mono(records, rv, m as int + 1, records.len() as int);
                }
                return Err(e);
            },
        }
        m += 1;
    }
    proof {
        assert(replay(records, rv) == Ok::<StorageV, EcsError>(storage@));
    }
    Ok(storage)
}

/// The two fixed record field names differ.
proof fn proof_strlit_facts()
    ensures
        "bundle_kind"@ != "entity_id"@,
{
    reveal_strlit("bundle_kind");
    reveal_strlit("entity_id");
    assert(("bundle_kind"@).len() == 11);
    assert(("entity_id"@).len() == 9);
}

/// The (kind, value) parts one row of an archetype spawns as.
pub open spec fn row_parts(a: ArchetypeV, kinds: Seq<Seq<char>>, i: int) -> Seq<
    (Seq<char>, ComponentValueV),
> {
    Seq::new(kinds.len(), |p: int| (kinds[p], a.col_of(kinds[p]).values[i]))
}

/// An archetype as a rebuild leaves it after the first `i` rows: the same
/// schema name and entity ids, one unlocked column per schema kind in
/// declaration order, each holding the first `i` values of its source
/// column.
pub open spec fn partial_arch(a: ArchetypeV, kinds: Seq<Seq<char>>, i: int) -> ArchetypeV {
    ArchetypeV {
        bundle_kind: a.bundle_kind,
        entity_ids: a.entity_ids.subrange(0, i),
        columns: Seq::new(
            kinds.len(),
            |p: int|
                ColumnV {
                    kind: kinds[p],
                    values: a.col_of(kinds[p]).values.subrange(0, i),
                    readers: 0,
                    writer: false,
                },
        ),
    }
}

/// An archetype as a rebuild leaves it: its columns in schema order.
pub open spec fn rebuilt_arch(a: ArchetypeV, kinds: Seq<Seq<char>>) -> ArchetypeV {
    partial_arch(a, kinds, a.entity_ids.len() as int)
}

/// The archetypes a rebuild of the first `m` archetypes' records leaves
/// behind: each nonempty archetype rebuilt, in store order; an archetype
/// without rows leaves no records and so is not recreated.
pub open spec fn rebuilt_upto(s: StorageV, reg: RegistryV, m: int) -> Seq<ArchetypeV>
    decreases m,
{
    if m <= 0 {
        Seq::empty()
    } else {
        rebuilt_upto(s, reg, m - 1) + (if s.archetypes[m - 1].entity_ids.len() == 0 {
            Seq::<ArchetypeV>::empty()
        } else {
            seq![
                rebuilt_arch(
                    s.archetypes[m - 1],
                    reg.schema_of(s.archetypes[m - 1].bundle_kind).kinds,
                ),
            ]
        })
    }
}

/// A rebuild reads only the records it is given.
proof fn lemma_replay_prefix_congruence(
    r1: Seq<Seq<(Seq<char>, ComponentValueV)>>,
    r2: Seq<Seq<(Seq<char>, ComponentValueV)>>,
    reg: RegistryV,
    n: int,
)
    requires
        0 <= n <= r1.len(),
        n <= r2.len(),
        forall|x: int| 0 <= x < n ==> r1[x] == r2[x],
    ensures
        replay_upto(r1, reg, n) == replay_upto(r2, reg, n),
    decreases n,
{
    if n > 0 {
        lemma_replay_prefix_congruence(r1, r2, reg, n - 1);
    }
}

/// In a list of pairs with distinct names, looking a name up finds its own
/// pair.
proof fn lemma_field_of_pairs(pairs: Seq<(Seq<char>, ComponentValueV)>, p: int)
    requires
        0 <= p < pairs.len(),
        forall|x: int, y: int|
            0 <= x < y < pairs.len() ==> (#[trigger] pairs[x]).0 != (#[trigger] pairs[y]).0,
    ensures
        field_of(pairs, pairs[p].0) == Some(pairs[p].1),
    decreases p,
{
    if p == 0 {
        assert(pairs.first() == pairs[0]);
    } else {
        assert(pairs.first().0 != pairs[p].0);
        assert(pairs.drop_first()[p - 1] == pairs[p]);
        assert forall|x: int, y: int|
            0 <= x < y < pairs.drop_first().len() implies (#[trigger] pairs.drop_first()[x]).0 != (
        #[trigger] pairs.drop_first()[y]).0 by {
            assert(pairs.drop_first()[x] == pairs[x + 1]);
            assert(pairs.drop_first()[y] == pairs[y + 1]);
        }
        lemma_field_of_pairs(pairs.drop_first(), p - 1);
    }
}

/// Reading back the record one row serializes to yields exactly that row's
/// entity id and parts.
#[verifier::rlimit(60)]
proof fn lemma_rec_build_of_row(a: ArchetypeV, reg: RegistryV, kinds: Seq<Seq<char>>, i: int)
    requires
        reg.wf(),
        reg.has_schema(a.bundle_kind),
        kinds == reg.schema_of(a.bundle_kind).kinds,
        arch_ser_error(a, reg) is None,
        a.wf(),
        0 <= i < a.entity_ids.len(),
        a.entity_ids[i] < EntityId::MAX,
    ensures
        rec_build(record_of_row(a, kinds, i), reg) == Ok::<
            (EntityId, Seq<(Seq<char>, ComponentValueV)>),
            EcsError,
        >((a.entity_ids[i], row_parts(a, kinds, i))),
{
    proof_strlit_facts();
    let rec = record_of_row(a, kinds, i);
    let head = seq![
        ("bundle_kind"@, ComponentValueV::Single(ScalarV::Text(a.bundle_kind))),
        ("entity_id"@, ComponentValueV::Single(ScalarV::Num(a.entity_ids[i]))),
    ];
    let tail = Seq::new(kinds.len(), |p: int| (kinds[p], a.col_of(kinds[p]).values[i]));
    assert(rec == head + tail);
    assert(rec.first() == head[0]);
    assert(field_of(rec, "bundle_kind"@) == Some(
        ComponentValueV::Single(ScalarV::Text(a.bundle_kind)),
    ));
    let rec1 = rec.drop_first();
    assert(rec1 =~= seq![head[1]] + tail);
    assert(rec1.first() == head[1]);
    assert(field_of(rec, "entity_id"@) == field_of(rec1, "entity_id"@));
    assert(field_of(rec1, "entity_id"@) == Some(
        ComponentValueV::Single(ScalarV::Num(a.entity_ids[i])),
    ));
    let si = reg.schema_idx(a.bundle_kind);
    assert(0 <= si < reg.schemas.len());
    assert(reg.schemas[si] == reg.schema_of(a.bundle_kind));
    assert forall|p: int| 0 <= p < kinds.len() implies field_of(rec, #[trigger] kinds[p])
        == Some(a.col_of(kinds[p]).values[i]) by {
        assert(reg.has_component_kind(kinds[p]));
        let w = choose|w: int|
            0 <= w < reg.components.len() && (#[trigger] reg.components[w]).0 == kinds[p];
        assert(reg.components[w].0 != "bundle_kind"@ && reg.components[w].0 != "entity_id"@);
        assert(rec.first().0 != kinds[p]);
        assert(rec1.first().0 != kinds[p]);
        assert(rec1.drop_first() =~= tail);
        assert(field_of(rec, kinds[p]) == field_of(rec1, kinds[p]));
        assert(field_of(rec1, kinds[p]) == field_of(tail, kinds[p]));
        assert forall|x: int, y: int|
            0 <= x < y < tail.len() implies (#[trigger] tail[x]).0 != (#[trigger] tail[y]).0 by {
            assert(reg.schemas[si].kinds[x] != reg.schemas[si].kinds[y]);
        }
        lemma_field_of_pairs(tail, p);
        assert(tail[p] == (kinds[p], a.col_of(kinds[p]).values[i]));
    }
    assert(fields_ok(rec, reg, kinds)) by {
        assert forall|p: int|
            0 <= p < kinds.len() implies field_of(rec, #[trigger] kinds[p]) is Some
            && value_matches(field_of(rec, kinds[p])->Some_0, reg.shape_of(kinds[p])) by {
            assert(a.has_kind(#[trigger] reg.schema_of(a.bundle_kind).kinds[p]) && forall|ii: int|
                0 <= ii < a.col_of(reg.schema_of(a.bundle_kind).kinds[p]).values.len()
                    ==> value_matches(
                    #[trigger] a.col_of(reg.schema_of(a.bundle_kind).kinds[p]).values[ii],
                    reg.shape_of(reg.schema_of(a.bundle_kind).kinds[p]),
                ));
            assert(a.aligned());
            crate::storage::lemma_col_idx_unique(a, kinds[p], a.col_idx(kinds[p]));
            assert(a.col_of(kinds[p]).values.len() == a.entity_ids.len());
        }
    }
    assert(row_parts(a, kinds, i) =~= Seq::new(
        kinds.len(),
        |p: int| (kinds[p], field_of(rec, kinds[p])->Some_0),
    ));
}

/// The archetypes a rebuild creates carry pairwise distinct schema names,
/// each one of a source archetype among the first `m`.
proof fn lemma_rebuilt_upto_props(s: StorageV, reg: RegistryV, m: int)
    requires
        s.wf(),
        0 <= m <= s.archetypes.len(),
    ensures
        forall|j1: int, j2: int|
            0 <= j1 < j2 < rebuilt_upto(s, reg, m).len() ==> (#[trigger] rebuilt_upto(
                s,
                reg,
                m,
            )[j1]).bundle_kind != (#[trigger] rebuilt_upto(s, reg, m)[j2]).bundle_kind,
        forall|j: int|
            0 <= j < rebuilt_upto(s, reg, m).len() ==> exists|k: int|
                0 <= k < m && (#[trigger] rebuilt_upto(s, reg, m)[j]).bundle_kind
                    == s.archetypes[k].bundle_kind,
    decreases m,
{
    if m > 0 {
        lemma_rebuilt_upto_props(s, reg, m - 1);
        let prev = rebuilt_upto(s, reg, m - 1);
        let cur = rebuilt_upto(s, reg, m);
        assert forall|j: int|
            0 <= j < cur.len() implies exists|k: int|
            0 <= k < m && (#[trigger] cur[j]).bundle_kind == s.archetypes[k].bundle_kind by {
            if j < prev.len() {
                assert(cur[j] == prev[j]);
                let k = choose|k: int|
                    0 <= k < m - 1 && (#[trigger] prev[j]).bundle_kind
                        == s.archetypes[k].bundle_kind;
                assert(0 <= k < m && cur[j].bundle_kind == s.archetypes[k].bundle_kind);
            } else {
                assert(cur[j].bundle_kind == s.archetypes[m - 1].bundle_kind);
            }
        }
        assert forall|j1: int, j2: int|
            0 <= j1 < j2 < cur.len() implies (#[trigger] cur[j1]).bundle_kind != (
        #[trigger] cur[j2]).bundle_kind by {
            if j2 < prev.len() {
                assert(cur[j1] == prev[j1] && cur[j2] == prev[j2]);
            } else {
                assert(cur[j1] == prev[j1]);
                assert(cur[j2].bundle_kind == s.archetypes[m - 1].bundle_kind);
                let k = choose|k: int|
                    0 <= k < m - 1 && (#[trigger] prev[j1]).bundle_kind
                        == s.archetypes[k].bundle_kind;
                assert(s.archetypes[k].bundle_kind != s.archetypes[m - 1].bundle_kind);
            }
        }
    }
}

/// The store a rebuild of the first `m` archetypes' records — plus the
/// first `i` rows of archetype `m` — leaves behind: every nonempty source
/// archetype rebuilt in order, with a partial rebuild of archetype `m`.
#[verifier::rlimit(100)]
proof fn lemma_replay_state(s: StorageV, reg: RegistryV, m: int, i: int)
    requires
        s.wf(),
        reg.wf(),
        0 <= m <= s.archetypes.len(),
        ser_error_upto(s, reg, m) is None,
        m < s.archetypes.len() ==> 0 <= i <= s.archetypes[m].entity_ids.len() && arch_ser_error(
            s.archetypes[m],
            reg,
        ) is None,
        m == s.archetypes.len() ==> i == 0,
    ensures
        ({
            let rr = records_upto(s, reg, m) + (if m < s.archetypes.len() {
                arch_records(
                    s.archetypes[m],
                    reg.schema_of(s.archetypes[m].bundle_kind).kinds,
                ).subrange(0, i)
            } else {
                Seq::empty()
            });
            &&& replay_upto(rr, reg, rr.len() as int) is Ok
            &&& (replay_upto(rr, reg, rr.len() as int)->Ok_0).archetypes == rebuilt_upto(s, reg, m)
                + (if i > 0 {
                seq![
                    partial_arch(
                        s.archetypes[m],
                        reg.schema_of(s.archetypes[m].bundle_kind).kinds,
                        i,
                    ),
                ]
            } else {
                Seq::<ArchetypeV>::empty()
            })
        }),
    decreases m, i,
{
    let rr = records_upto(s, reg, m) + (if m < s.archetypes.len() {
        arch_records(s.archetypes[m], reg.schema_of(s.archetypes[m].bundle_kind).kinds).subrange(
            0,
            i,
        )
    } else {
        Seq::empty()
    });
    if i == 0 {
        if m == 0 {
            assert(rr =~= Seq::<Seq<(Seq<char>, ComponentValueV)>>::empty());
            assert(replay_upto(rr, reg, 0) == Ok::<StorageV, EcsError>(StorageV {
                archetypes: Seq::empty(),
                next_entity_id: 0,
            }));
            assert(rebuilt_upto(s, reg, 0) + Seq::<ArchetypeV>::empty() =~= Seq::<
                ArchetypeV,
            >::empty());
        } else {
            let a = s.archetypes[m - 1];
            let kinds = reg.schema_of(a.bundle_kind).kinds;
            let rows = a.entity_ids.len() as int;
            assert(ser_error_upto(s, reg, m - 1) is None);
            assert(arch_ser_error(a, reg) is None);
            lemma_replay_state(s, reg, m - 1, rows);
            let rr_prev = records_upto(s, reg, m - 1) + arch_records(a, kinds).subrange(0, rows);
            assert(arch_records(a, kinds).subrange(0, rows) =~= arch_records(a, kinds));
            assert(rr =~= rr_prev);
            if rows > 0 {
                assert(rebuilt_upto(s, reg, m) =~= rebuilt_upto(s, reg, m - 1) + seq![
                    partial_arch(a, kinds, rows),
                ]);
            } else {
                assert(rebuilt_upto(s, reg, m) =~= rebuilt_upto(s, reg, m - 1) + Seq::<
                    ArchetypeV,
                >::empty());
            }
        }
    } else {
        let a = s.archetypes[m];
        let kinds = reg.schema_of(a.bundle_kind).kinds;
        lemma_replay_state(s, reg, m, i - 1);
        let rr_prev = records_upto(s, reg, m) + arch_records(a, kinds).subrange(0, i - 1);
        let rec = record_of_row(a, kinds, i - 1);
        assert(arch_records(a, kinds).subrange(0, i) =~= arch_records(a, kinds).subrange(
            0,
            i - 1,
        ).push(rec)) by {
            assert(arch_records(a, kinds)[i - 1] == rec);
        }
        assert(rr =~= rr_prev.push(rec));
        assert(rr.len() == rr_prev.len() + 1);
        assert forall|x: int| 0 <= x < rr_prev.len() implies rr[x] == rr_prev[x] by {
            assert(rr_prev.push(rec)[x] == rr_prev[x]);
        }
        lemma_replay_prefix_congruence(rr, rr_prev, reg, rr_prev.len() as int);
        let st = replay_upto(rr_prev, reg, rr_prev.len() as int)->Ok_0;
        assert(replay_upto(rr, reg, rr.len() as int - 1) == Ok::<StorageV, EcsError>(st));
        assert(rr[rr.len() - 1] == rec);
        let id = a.entity_ids[i - 1];
        assert(id < EntityId::MAX) by {
            assert(forall|k: int, x: int|
                0 <= k < s.archetypes.len() && 0 <= x < s.archetypes[k].entity_ids.len()
                    ==> #[trigger] s.archetypes[k].entity_ids[x] < s.next_entity_id);
            assert(a.entity_ids[i - 1] < s.next_entity_id);
        }
        assert(a.wf());
        lemma_rec_build_of_row(a, reg, kinds, i - 1);
        let parts = row_parts(a, kinds, i - 1);
        // The schema's kinds are distinct and named canonically.
        let si = reg.schema_idx(a.bundle_kind);
        assert(0 <= si < reg.schemas.len());
        assert(reg.schemas[si] == reg.schema_of(a.bundle_kind));
        assert(crate::bundle::bundle_kind_names(parts) =~= kinds) by {
            assert forall|p: int|
                0 <= p < parts.len() implies crate::bundle::bundle_kind_names(parts)[p]
                == kinds[p] by {
                assert(crate::bundle::bundle_kind_names(parts)[p] == parts[p].0);
            }
        }
        assert(crate::storage::bundle_kinds_distinct(parts)) by {
            assert forall|x: int, y: int|
                0 <= x < y < parts.len() implies (#[trigger] parts[x]).0 != (
            #[trigger] parts[y]).0 by {
                assert(reg.schemas[si].kinds[x] != reg.schemas[si].kinds[y]);
            }
        }
        let bko = crate::bundle::bundle_kind_of(crate::bundle::bundle_kind_names(parts));
        assert(bko == a.bundle_kind) by {
            assert(reg.schemas[si].bundle_kind == crate::bundle::bundle_kind_of(
                reg.schemas[si].kinds,
            ));
        }
        lemma_rebuilt_upto_props(s, reg, m);
        let prev_archs = rebuilt_upto(s, reg, m);
        if i == 1 {
            assert(st.archetypes == prev_archs + Seq::<ArchetypeV>::empty());
            assert(st.archetypes =~= prev_archs);
            assert(!st.has_bundle_kind(bko)) by {
                if st.has_bundle_kind(bko) {
                    let j = choose|j: int|
                        0 <= j < st.archetypes.len() && (#[trigger] st.archetypes[j]).bundle_kind
                            == bko;
                    assert(prev_archs[j].bundle_kind == bko);
                    let k = choose|k: int|
                        0 <= k < m && (#[trigger] prev_archs[j]).bundle_kind
                            == s.archetypes[k].bundle_kind;
                    assert(s.archetypes[k].bundle_kind != s.archetypes[m].bundle_kind);
                }
            }
            assert(spawn_error(st, parts) is None);
            let nxt = spawned(st, id, parts);
            assert(nxt.archetypes == st.archetypes.push(
                crate::storage::fresh_archetype(bko, id, parts),
            ));
            assert(crate::storage::fresh_archetype(bko, id, parts) == partial_arch(a, kinds, 1))
                by {
                let fa = crate::storage::fresh_archetype(bko, id, parts);
                let pa = partial_arch(a, kinds, 1);
                assert(fa.columns.len() == pa.columns.len());
                assert forall|p: int| 0 <= p < kinds.len() implies fa.columns[p]
                    == pa.columns[p] by {
                    assert(fa.columns[p].kind == parts[p].0);
                    assert(fa.columns[p].values =~= a.col_of(kinds[p]).values.subrange(0, 1));
                }
                assert(fa.columns =~= pa.columns);
                assert(fa.entity_ids =~= pa.entity_ids);
            }
            assert(nxt.archetypes =~= prev_archs + seq![partial_arch(a, kinds, 1)]);
            assert(replay_upto(rr, reg, rr.len() as int) == Ok::<StorageV, EcsError>(nxt));
        } else {
            let pa_prev = partial_arch(a, kinds, i - 1);
            assert(st.archetypes == prev_archs + seq![pa_prev]);
            let last = st.archetypes.len() - 1;
            assert(st.archetypes[last] == pa_prev);
            assert(pa_prev.bundle_kind == bko);
            assert(st.bundle_kinds_unique()) by {
                assert forall|j1: int, j2: int|
                    0 <= j1 < j2 < st.archetypes.len() implies (
                #[trigger] st.archetypes[j1]).bundle_kind != (
                #[trigger] st.archetypes[j2]).bundle_kind by {
                    if j2 < last {
                        assert(st.archetypes[j1] == prev_archs[j1]);
                        assert(st.archetypes[j2] == prev_archs[j2]);
                    } else {
                        assert(st.archetypes[j1] == prev_archs[j1]);
                        let k = choose|k: int|
                            0 <= k < m && (#[trigger] prev_archs[j1]).bundle_kind
                                == s.archetypes[k].bundle_kind;
                        assert(s.archetypes[k].bundle_kind != s.archetypes[m].bundle_kind);
                    }
                }
            }
            crate::storage::lemma_arch_idx_unique(st, bko, last);
            assert(crate::storage::kinds_match(pa_prev, parts)) by {
                assert forall|x: int| 0 <= x < pa_prev.columns.len() implies
                    crate::storage::bundle_has_kind(parts, (#[trigger] pa_prev.columns[x]).kind)
                    by {
                    assert(parts[x].0 == pa_prev.columns[x].kind);
                }
                assert forall|x: int| 0 <= x < parts.len() implies pa_prev.has_kind(
                    (#[trigger] parts[x]).0,
                ) by {
                    assert(pa_prev.columns[x].kind == parts[x].0);
                }
            }
            assert(spawn_error(st, parts) is None);
            let nxt = spawned(st, id, parts);
            assert(pa_prev.kinds_unique()) by {
                assert forall|x: int, y: int|
                    0 <= x < y < pa_prev.columns.len() implies (
                #[trigger] pa_prev.columns[x]).kind != (#[trigger] pa_prev.columns[y]).kind by {
                    assert(reg.schemas[si].kinds[x] != reg.schemas[si].kinds[y]);
                }
            }
            assert(crate::storage::row_pushed(pa_prev, id, parts) == partial_arch(a, kinds, i))
                by {
                let rp = crate::storage::row_pushed(pa_prev, id, parts);
                let pa = partial_arch(a, kinds, i);
                assert forall|p: int| 0 <= p < kinds.len() implies rp.columns[p]
                    == pa.columns[p] by {
                    assert(pa_prev.columns[p].kind == kinds[p]);
                    crate::storage::lemma_bundle_value_unique(parts, kinds[p], p);
                    assert(crate::storage::bundle_value_of(parts, kinds[p]) == a.col_of(
                        kinds[p],
                    ).values[i - 1]);
                    assert(a.col_of(kinds[p]).values.subrange(0, i - 1).push(
                        a.col_of(kinds[p]).values[i - 1],
                    ) =~= a.col_of(kinds[p]).values.subrange(0, i));
                }
                assert(rp.columns =~= pa.columns);
                assert(pa_prev.entity_ids.push(id) =~= a.entity_ids.subrange(0, i));
            }
            assert(nxt.archetypes == st.archetypes.update(
                last,
                crate::storage::row_pushed(pa_prev, id, parts),
            ));
            assert(nxt.archetypes =~= prev_archs + seq![partial_arch(a, kinds, i)]);
            assert(replay_upto(rr, reg, rr.len() as int) == Ok::<StorageV, EcsError>(nxt));
        }
    }
}

/// The records and the failure of the first `n` archetypes depend only on
/// those archetypes.
proof fn lemma_records_upto_congruence(t1: StorageV, t2: StorageV, reg: RegistryV, n: int)
    requires
        0 <= n <= t1.archetypes.len(),
        n <= t2.archetypes.len(),
        forall|x: int| 0 <= x < n ==> t1.archetypes[x] == t2.archetypes[x],
    ensures
        records_upto(t1, reg, n) == records_upto(t2, reg, n),
        ser_error_upto(t1, reg, n) == ser_error_upto(t2, reg, n),
    decreases n,
{
    if n > 0 {
        lemma_records_upto_congruence(t1, t2, reg, n - 1);
    }
}

/// A rebuilt archetype serializes to exactly the records its source did,
/// and serializes without failure.
proof fn lemma_rebuilt_arch_records(a: ArchetypeV, reg: RegistryV, kinds: Seq<Seq<char>>)
    requires
        reg.wf(),
        reg.has_schema(a.bundle_kind),
        kinds == reg.schema_of(a.bundle_kind).kinds,
        arch_ser_error(a, reg) is None,
        a.wf(),
    ensures
        rebuilt_arch(a, kinds).bundle_kind == a.bundle_kind,
        arch_records(rebuilt_arch(a, kinds), kinds) == arch_records(a, kinds),
        arch_ser_error(rebuilt_arch(a, kinds), reg) is None,
{
    let ra = rebuilt_arch(a, kinds);
    let si = reg.schema_idx(a.bundle_kind);
    assert(0 <= si < reg.schemas.len());
    assert(reg.schemas[si] == reg.schema_of(a.bundle_kind));
    assert(ra.kinds_unique()) by {
        assert forall|x: int, y: int|
            0 <= x < y < ra.columns.len() implies (#[trigger] ra.columns[x]).kind != (
        #[trigger] ra.columns[y]).kind by {
            assert(reg.schemas[si].kinds[x] != reg.schemas[si].kinds[y]);
        }
    }
    assert(ra.entity_ids =~= a.entity_ids);
    assert forall|p: int| 0 <= p < kinds.len() implies ra.has_kind(#[trigger] kinds[p])
        && ra.col_of(kinds[p]).values == a.col_of(kinds[p]).values by {
        assert(ra.columns[p].kind == kinds[p]);
        crate::storage::lemma_col_idx_unique(ra, kinds[p], p);
        assert(a.has_kind(#[trigger] reg.schema_of(a.bundle_kind).kinds[p]));
        crate::storage::lemma_col_idx_unique(a, kinds[p], a.col_idx(kinds[p]));
        assert(a.col_of(kinds[p]).values.len() == a.entity_ids.len());
        assert(ra.columns[p].values =~= a.col_of(kinds[p]).values);
    }
    assert(arch_records(ra, kinds) =~= arch_records(a, kinds)) by {
        assert forall|i: int| 0 <= i < a.entity_ids.len() implies arch_records(ra, kinds)[i]
            == arch_records(a, kinds)[i] by {
            assert(record_of_row(ra, kinds, i) =~= record_of_row(a, kinds, i)) by {
                assert forall|x: int| 0 <= x < record_of_row(ra, kinds, i).len() implies
                    record_of_row(ra, kinds, i)[x] == record_of_row(a, kinds, i)[x] by {
                    assert(ra.entity_ids[i] == a.entity_ids[i]);
                    if x >= 2 {
                        assert(record_of_row(ra, kinds, i)[x] == (
                            kinds[x - 2],
                            ra.col_of(kinds[x - 2]).values[i],
                        ));
                        assert(record_of_row(a, kinds, i)[x] == (
                            kinds[x - 2],
                            a.col_of(kinds[x - 2]).values[i],
                        ));
                    }
                }
            }
        }
    }
    assert(arch_ser_error(ra, reg) is None) by {
        assert forall|p: int|
            0 <= p < reg.schema_of(ra.bundle_kind).kinds.len() implies ra.has_kind(
            #[trigger] reg.schema_of(ra.bundle_kind).kinds[p],
        ) && forall|i: int|
            0 <= i < ra.col_of(reg.schema_of(ra.bundle_kind).kinds[p]).values.len()
                ==> value_matches(
                #[trigger] ra.col_of(reg.schema_of(ra.bundle_kind).kinds[p]).values[i],
                reg.shape_of(reg.schema_of(ra.bundle_kind).kinds[p]),
            ) by {
            assert(a.has_kind(#[trigger] reg.schema_of(a.bundle_kind).kinds[p]) && forall|i: int|
                0 <= i < a.col_of(reg.schema_of(a.bundle_kind).kinds[p]).values.len()
                    ==> value_matches(
                    #[trigger] a.col_of(reg.schema_of(a.bundle_kind).kinds[p]).values[i],
                    reg.shape_of(reg.schema_of(a.bundle_kind).kinds[p]),
                ));
            assert(ra.col_of(kinds[p]).values == a.col_of(kinds[p]).values);
        }
    }
}

/// A store whose archetypes are the rebuilds of the first `m` archetypes
/// serializes to exactly the records those archetypes did, without
/// failure.
proof fn lemma_rebuilt_records(s: StorageV, reg: RegistryV, m: int, t: StorageV)
    requires
        s.wf(),
        reg.wf(),
        0 <= m <= s.archetypes.len(),
        ser_error_upto(s, reg, m) is None,
        t.archetypes == rebuilt_upto(s, reg, m),
    ensures
        records_upto(t, reg, t.archetypes.len() as int) == records_upto(s, reg, m),
        ser_error_upto(t, reg, t.archetypes.len() as int) is None,
    decreases m,
{
    if m == 0 {
        assert(t.archetypes.len() == 0);
    } else {
        let a = s.archetypes[m - 1];
        let kinds = reg.schema_of(a.bundle_kind).kinds;
        let prev = StorageV {
            archetypes: rebuilt_upto(s, reg, m - 1),
            next_entity_id: t.next_entity_id,
        };
        assert(ser_error_upto(s, reg, m - 1) is None);
        assert(arch_ser_error(a, reg) is None);
        lemma_rebuilt_records(s, reg, m - 1, prev);
        if a.entity_ids.len() == 0 {
            assert(t.archetypes =~= prev.archetypes);
            lemma_records_upto_congruence(t, prev, reg, prev.archetypes.len() as int);
            assert(arch_records(a, kinds) =~= Seq::<Seq<(Seq<char>, ComponentValueV)>>::empty());
            assert(records_upto(s, reg, m) =~= records_upto(s, reg, m - 1));
            assert(records_upto(t, reg, t.archetypes.len() as int) == records_upto(
                prev,
                reg,
                prev.archetypes.len() as int,
            ));
        } else {
            let ra = rebuilt_arch(a, kinds);
            assert(t.archetypes =~= prev.archetypes.push(ra));
            let nt = t.archetypes.len() as int;
            assert(nt == prev.archetypes.len() + 1);
            assert forall|x: int| 0 <= x < nt - 1 implies t.archetypes[x] == prev.archetypes[x]
                by {
                assert(prev.archetypes.push(ra)[x] == prev.archetypes[x]);
            }
            lemma_records_upto_congruence(t, prev, reg, nt - 1);
            lemma_rebuilt_arch_records(a, reg, kinds);
            assert(t.archetypes[nt - 1] == ra);
            assert(records_upto(t, reg, nt) == records_upto(t, reg, nt - 1) + arch_records(
                ra,
                reg.schema_of(ra.bundle_kind).kinds,
            ));
            assert(reg.schema_of(ra.bundle_kind).kinds == kinds);
        }
    }
}

/// Round trip: serializing any well-formed store that serializes without
/// failure, rebuilding a fresh store from the records, and serializing
/// again yields the same records — and so the same text. Record field
/// order within one record and record order across the array are both
/// preserved exactly.
pub proof fn lemma_serialize_round_trip(s: StorageV, reg: RegistryV)
    requires
        s.wf(),
        reg.wf(),
        ser_error(s, reg) is None,
    ensures
        replay(records_of_storage(s, reg), reg) is Ok,
        ser_error(replay(records_of_storage(s, reg), reg)->Ok_0, reg) is None,
        records_of_storage(replay(records_of_storage(s, reg), reg)->Ok_0, reg)
            == records_of_storage(s, reg),
{
    let n = s.archetypes.len() as int;
    lemma_replay_state(s, reg, n, 0);
    let rr = records_upto(s, reg, n) + Seq::<Seq<(Seq<char>, ComponentValueV)>>::empty();
    assert(rr =~= records_of_storage(s, reg));
    let st = replay_upto(rr, reg, rr.len() as int)->Ok_0;
    assert(st.archetypes =~= rebuilt_upto(s, reg, n));
    lemma_rebuilt_records(s, reg, n, st);
    assert(replay(records_of_storage(s, reg), reg) == replay_upto(rr, reg, rr.len() as int));
}

} // verus!
