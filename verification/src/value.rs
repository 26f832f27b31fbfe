//! The runtime representation of component values and of the shapes a
//! registry records for them.
//!
//! A component value is carried in the same form it takes in the persisted
//! document: either a single wrapped scalar (single-field components) or a
//! small record of named scalar fields (multi-field components).

use vstd::prelude::*;

verus! {

/// One scalar field of a component value: an unsigned number or a text.
#[derive(Debug)]
pub enum Scalar {
    Num(u64),
    Text(String),
}

/// Mathematical model of a `Scalar`.
pub ghost enum ScalarV {
    Num(u64),
    Text(Seq<char>),
}

impl View for Scalar {
    type V = ScalarV;

    open spec fn view(&self) -> ScalarV {
        match self {
            Scalar::Num(n) => ScalarV::Num(*n),
            Scalar::Text(s) => ScalarV::Text(s@),
        }
    }
}

/// A component value as stored in a column and as it appears in one record
/// of the persisted document.
#[derive(Debug)]
pub enum ComponentValue {
    /// A single wrapped scalar.
    Single(Scalar),
    /// A record of named scalar fields, in a fixed order.
    Fields(Vec<(String, Scalar)>),
}

/// Mathematical model of a `ComponentValue`.
pub ghost enum ComponentValueV {
    Single(ScalarV),
    Fields(Seq<(Seq<char>, ScalarV)>),
}

/// The model of a field list: each name as a sequence of characters.
pub open spec fn fields_view(fs: Seq<(String, Scalar)>) -> Seq<(Seq<char>, ScalarV)> {
    fs.map_values(|p: (String, Scalar)| (p.0@, p.1@))
}

impl View for ComponentValue {
    type V = ComponentValueV;

    open spec fn view(&self) -> ComponentValueV {
        match self {
            ComponentValue::Single(s) => ComponentValueV::Single(s@),
            ComponentValue::Fields(fs) => ComponentValueV::Fields(fields_view(fs@)),
        }
    }
}

/// The shape of one scalar: which variant it must be.
#[derive(Debug, Clone, Copy, PartialEq, Eq, Structural)]
pub enum ScalarShape {
    Num,
    Text,
}

/// The registered shape of a component kind: the deserialize capability a
/// registry records for it. A value matches the shape exactly when it can be
/// accepted for that kind during deserialization.
#[derive(Debug)]
pub enum Shape {
    /// A single wrapped scalar of the given variant.
    Single(ScalarShape),
    /// A record with exactly the given named scalar fields, in order.
    Fields(Vec<(String, ScalarShape)>),
}

/// Mathematical model of a `Shape`.
pub ghost enum ShapeV {
    Single(ScalarShape),
    Fields(Seq<(Seq<char>, ScalarShape)>),
}

/// The model of a shape field list.
pub open spec fn shape_fields_view(fs: Seq<(String, ScalarShape)>) -> Seq<(Seq<char>, ScalarShape)> {
    fs.map_values(|p: (String, ScalarShape)| (p.0@, p.1))
}

impl View for Shape {
    type V = ShapeV;

    open spec fn view(&self) -> ShapeV {
        match self {
            Shape::Single(s) => ShapeV::Single(*s),
            Shape::Fields(fs) => ShapeV::Fields(shape_fields_view(fs@)),
        }
    }
}

/// Whether a scalar is of the variant the shape asks for.
pub open spec fn scalar_matches(v: ScalarV, s: ScalarShape) -> bool {
    match (v, s) {
        (ScalarV::Num(_), ScalarShape::Num) => true,
        (ScalarV::Text(_), ScalarShape::Text) => true,
        _ => false,
    }
}

/// Whether a value matches a registered shape: same structure, same field
/// names in the same order, and each scalar of the registered variant.
pub open spec fn value_matches(v: ComponentValueV, s: ShapeV) -> bool {
    match (v, s) {
        (ComponentValueV::Single(sv), ShapeV::Single(ss)) => scalar_matches(sv, ss),
        (ComponentValueV::Fields(fv), ShapeV::Fields(fs)) => {
            &&& fv.len() == fs.len()
            &&& forall|i: int|
                0 <= i < fv.len() ==> (#[trigger] fv[i]).0 == fs[i].0 && scalar_matches(
                    fv[i].1,
                    fs[i].1,
                )
        },
        _ => false,
    }
}

/// The models of a sequence of values.
pub open spec fn values_view(vs: Seq<ComponentValue>) -> Seq<ComponentValueV> {
    vs.map_values(|v: ComponentValue| v@)
}

/// A fresh scalar equal to the given one.
pub fn scalar_clone(s: &Scalar) -> (r: Scalar)
    ensures
        r == *s,
{
    match s {
        Scalar::Num(n) => Scalar::Num(*n),
        Scalar::Text(t) => Scalar::Text(t.clone()),
    }
}

/// A fresh value whose model equals the given one's.
pub fn value_clone(v: &ComponentValue) -> (r: ComponentValue)
    ensures
        r@ == v@,
{
    match v {
        ComponentValue::Single(s) => ComponentValue::Single(scalar_clone(s)),
        ComponentValue::Fields(fs) => {
            let mut out: Vec<(String, Scalar)> = Vec::new();
            let mut i: usize = 0;
            while i < fs.len()
                invariant
                    i <= fs.len(),
                    out@.len() == i,
                    forall|j: int| 0 <= j < i ==> out@[j] == fs@[j],
                decreases fs.len() - i,
            {
                let name = fs[i].0.clone();
                let scalar = scalar_clone(&fs[i].1);
                out.push((name, scalar));
                i += 1;
            }
            proof {
                assert(out@ =~= fs@);
            }
            ComponentValue::Fields(out)
        },
    }
}

/// A fresh vector of values whose models equal the given ones'.
pub fn values_clone(vs: &Vec<ComponentValue>) -> (r: Vec<ComponentValue>)
    ensures
        values_view(r@) == values_view(vs@),
        r@.len() == vs@.len(),
{
    let mut out: Vec<ComponentValue> = Vec::new();
    let mut i: usize = 0;
    while i < vs.len()
        invariant
            i <= vs.len(),
            out@.len() == i,
            forall|j: int| 0 <= j < i ==> (#[trigger] out@[j])@ == vs@[j]@,
        decreases vs.len() - i,
    {
        out.push(value_clone(&vs[i]));
        i += 1;
    }
    proof {
        assert(values_view(out@) =~= values_view(vs@));
    }
    out
}

/// Whether a scalar is of the variant the shape asks for.
pub fn scalar_matches_exec(v: &Scalar, s: &ScalarShape) -> (r: bool)
    ensures
        r == scalar_matches(v@, *s),
{
    match v {
        Scalar::Num(_) => matches!(s, ScalarShape::Num),
        Scalar::Text(_) => matches!(s, ScalarShape::Text),
    }
}

/// Whether a value matches a registered shape.
pub fn value_matches_exec(v: &ComponentValue, s: &Shape) -> (r: bool)
    ensures
        r == value_matches(v@, s@),
{
    match v {
        ComponentValue::Single(sv) => match s {
            Shape::Single(ss) => scalar_matches_exec(sv, ss),
            Shape::Fields(_) => false,
        },
        ComponentValue::Fields(fv) => match s {
            Shape::Single(_) => false,
            Shape::Fields(fs) => {
                if fv.len() != fs.len() {
                    return false;
                }
            let mut i: usize = 0;
            while i < fv.len()
                invariant
                    i <= fv.len(),
                    fv@.len() == fs@.len(),
                    v@ == ComponentValueV::Fields(fields_view(fv@)),
                    s@ == ShapeV::Fields(shape_fields_view(fs@)),
                    forall|j: int|
                        0 <= j < i ==> (#[trigger] fields_view(fv@)[j]).0 == shape_fields_view(
                            fs@,
                        )[j].0 && scalar_matches(fields_view(fv@)[j].1, shape_fields_view(fs@)[j].1),
                decreases fv.len() - i,
            {
                proof {
                    assert(fields_view(fv@)[i as int] == (fv@[i as int].0@, fv@[i as int].1@));
                    assert(shape_fields_view(fs@)[i as int] == (fs@[i as int].0@, fs@[i as int].1));
                }
                if !(fv[i].0 == fs[i].0) {
                    return false;
                }
                if !scalar_matches_exec(&fv[i].1, &fs[i].1) {
                    return false;
                }
                i += 1;
            }
            true
            },
        },
    }
}

} // verus!
