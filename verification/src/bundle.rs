//! Bundles and canonical schema naming.
//!
//! A bundle is an ordered collection of (kind, value) pairs spawned together
//! to create one entity. The canonical name of the schema it belongs to, its
//! `BundleKind`, is derived from the *set* of component kinds alone: the kind
//! names are sorted case-insensitively (ties between names that differ only
//! in case are broken by the raw character values) and concatenated, so that
//! composing the same kinds in any order yields the same `BundleKind`.

use vstd::prelude::*;
use vstd::relations::{
    antisymmetric, reflexive, sorted_by, strongly_connected, total_ordering, transitive,
};
use vstd::seq_lib::lemma_sorted_unique;

use crate::value::{ComponentValue, ComponentValueV};
use crate::ComponentKind;

verus! {

/// The case-folding key of one character: upper-case ASCII letters are
/// mapped onto their lower-case counterparts, every other character onto its
/// own code point.
pub open spec fn char_key(c: char) -> int {
    if ('A' as int) <= c as int && c as int <= ('Z' as int) {
        c as int + 32
    } else {
        c as int
    }
}

/// The case-folded keys of a name.
pub open spec fn fold_keys(s: Seq<char>) -> Seq<int> {
    s.map_values(|c: char| char_key(c))
}

/// The raw code points of a name.
pub open spec fn raw_keys(s: Seq<char>) -> Seq<int> {
    s.map_values(|c: char| c as int)
}

/// Strict lexicographic order on integer sequences.
pub open spec fn ilex_lt(a: Seq<int>, b: Seq<int>) -> bool
    decreases a.len(),
{
    if b.len() == 0 {
        false
    } else if a.len() == 0 {
        true
    } else if a.first() < b.first() {
        true
    } else if a.first() > b.first() {
        false
    } else {
        ilex_lt(a.drop_first(), b.drop_first())
    }
}

proof fn lemma_ilex_connex(a: Seq<int>, b: Seq<int>)
    ensures
        ilex_lt(a, b) || ilex_lt(b, a) || a == b,
    decreases a.len(),
{
    if b.len() == 0 && a.len() == 0 {
        assert(a =~= b);
    } else if b.len() == 0 || a.len() == 0 {
    } else if a.first() == b.first() {
        lemma_ilex_connex(a.drop_first(), b.drop_first());
        if !ilex_lt(a, b) && !ilex_lt(b, a) {
            assert(a.drop_first() == b.drop_first());
            assert(a.len() == b.len());
            assert forall|i: int| 0 <= i < a.len() implies a[i] == b[i] by {
                if i == 0 {
                    assert(a[0] == a.first());
                    assert(b[0] == b.first());
                } else {
                    assert(a.drop_first()[i - 1] == a[i]);
                    assert(b.drop_first()[i - 1] == b[i]);
                }
            }
            assert(a =~= b);
        }
    }
}

proof fn lemma_ilex_asym(a: Seq<int>, b: Seq<int>)
    ensures
        !(ilex_lt(a, b) && ilex_lt(b, a)),
    decreases a.len(),
{
    if a.len() > 0 && b.len() > 0 && a.first() == b.first() {
        lemma_ilex_asym(a.drop_first(), b.drop_first());
    }
}

proof fn lemma_ilex_trans(a: Seq<int>, b: Seq<int>, c: Seq<int>)
    requires
        ilex_lt(a, b),
        ilex_lt(b, c),
    ensures
        ilex_lt(a, c),
    decreases a.len(),
{
    if a.len() > 0 && b.len() > 0 && c.len() > 0 && a.first() == b.first() && b.first()
        == c.first() {
        lemma_ilex_trans(a.drop_first(), b.drop_first(), c.drop_first());
    }
}

/// The canonical order on kind names: case-insensitive comparison of the
/// names, with ties between case-variants broken by the raw code points.
pub open spec fn kind_le(a: Seq<char>, b: Seq<char>) -> bool {
    if fold_keys(a) == fold_keys(b) {
        a == b || ilex_lt(raw_keys(a), raw_keys(b))
    } else {
        ilex_lt(fold_keys(a), fold_keys(b))
    }
}

/// The canonical order as a closure value, for use with sequence sorting.
pub open spec fn kind_le_fn() -> spec_fn(Seq<char>, Seq<char>) -> bool {
    |a: Seq<char>, b: Seq<char>| kind_le(a, b)
}

/// Two names with equal raw code points are equal.
proof fn lemma_raw_keys_injective(a: Seq<char>, b: Seq<char>)
    requires
        raw_keys(a) == raw_keys(b),
    ensures
        a == b,
{
    assert(a =~= b) by {
        assert(raw_keys(a).len() == a.len());
        assert(raw_keys(b).len() == b.len());
        assert forall|i: int| 0 <= i < a.len() implies a[i] == b[i] by {
            assert(raw_keys(a)[i] == a[i] as int);
            assert(raw_keys(b)[i] == b[i] as int);
        }
    }
}

/// The canonical order on kind names is a total ordering.
pub proof fn lemma_kind_le_total_ordering()
    ensures
        total_ordering(kind_le_fn()),
{
    let leq = kind_le_fn();
    assert(reflexive(leq)) by {
        assert forall|a: Seq<char>| #[trigger] leq(a, a) by {
            assert(kind_le(a, a));
        }
    }
    assert(antisymmetric(leq)) by {
        assert forall|a: Seq<char>, b: Seq<char>| #[trigger] leq(a, b) && #[trigger] leq(b, a)
            implies a == b by {
            lemma_ilex_asym(fold_keys(a), fold_keys(b));
            lemma_ilex_asym(raw_keys(a), raw_keys(b));
        }
    }
    assert(strongly_connected(leq)) by {
        assert forall|a: Seq<char>, b: Seq<char>| #[trigger] leq(a, b) || #[trigger] leq(b, a) by {
            lemma_ilex_connex(fold_keys(a), fold_keys(b));
            if fold_keys(a) == fold_keys(b) {
                lemma_ilex_connex(raw_keys(a), raw_keys(b));
                if raw_keys(a) == raw_keys(b) {
                    lemma_raw_keys_injective(a, b);
                }
            }
        }
    }
    assert(transitive(leq)) by {
        assert forall|a: Seq<char>, b: Seq<char>, c: Seq<char>|
            #[trigger] leq(a, b) && #[trigger] leq(b, c) implies leq(a, c) by {
            if fold_keys(a) == fold_keys(b) && fold_keys(b) == fold_keys(c) {
                if a != b && b != c {
                    lemma_ilex_trans(raw_keys(a), raw_keys(b), raw_keys(c));
                }
            } else if fold_keys(a) == fold_keys(b) {
                assert(ilex_lt(fold_keys(b), fold_keys(c)));
            } else if fold_keys(b) == fold_keys(c) {
                assert(ilex_lt(fold_keys(a), fold_keys(b)));
            } else {
                lemma_ilex_trans(fold_keys(a), fold_keys(b), fold_keys(c));
                if fold_keys(a) == fold_keys(c) {
                    lemma_ilex_asym(fold_keys(a), fold_keys(b));
                }
            }
        }
    }
}

/// Concatenation of a sequence of names.
pub open spec fn concat_all(ks: Seq<Seq<char>>) -> Seq<char>
    decreases ks.len(),
{
    if ks.len() == 0 {
        Seq::empty()
    } else {
        ks.first() + concat_all(ks.drop_first())
    }
}

/// The canonical ordering of a collection of kind names.
pub open spec fn canonical_order(ks: Seq<Seq<char>>) -> Seq<Seq<char>> {
    ks.sort_by(kind_le_fn())
}

/// The canonical schema name derived from a collection of kind names: the
/// names in canonical order, concatenated.
pub open spec fn bundle_kind_of(ks: Seq<Seq<char>>) -> Seq<char> {
    concat_all(canonical_order(ks))
}

/// The comparison keys of a name: case-folded or raw.
pub open spec fn keys_of(s: Seq<char>, fold: bool) -> Seq<int> {
    if fold {
        fold_keys(s)
    } else {
        raw_keys(s)
    }
}

/// The comparison key of one character, as executable code computes it.
fn char_key_exec(c: char, fold: bool) -> (k: u32)
    ensures
        k as int == if fold {
            char_key(c)
        } else {
            c as int
        },
{
    let cu = c as u32;
    if fold && cu >= 65 && cu <= 90 {
        cu + 32
    } else {
        cu
    }
}

/// Three-way lexicographic comparison of two names under the chosen keys:
/// 0 when the first is strictly below, 1 when the keys are equal, 2 when the
/// second is strictly below.
fn str_keys_cmp(a: &str, b: &str, fold: bool) -> (r: u8)
    ensures
        r <= 2,
        r == 0 ==> ilex_lt(keys_of(a@, fold), keys_of(b@, fold)),
        r == 1 ==> keys_of(a@, fold) == keys_of(b@, fold),
        r == 2 ==> ilex_lt(keys_of(b@, fold), keys_of(a@, fold)),
{
    let a_len = a.unicode_len();
    let b_len = b.unicode_len();
    let ghost ka = keys_of(a@, fold);
    let ghost kb = keys_of(b@, fold);
    proof {
        assert(ka.skip(0) =~= ka);
        assert(kb.skip(0) =~= kb);
    }
    let mut i: usize = 0;
    loop
        invariant
            i <= a_len,
            i <= b_len,
            a_len == a@.len(),
            b_len == b@.len(),
            ka == keys_of(a@, fold),
            kb == keys_of(b@, fold),
            ka.len() == a@.len(),
            kb.len() == b@.len(),
            forall|j: int| 0 <= j < i ==> ka[j] == kb[j],
            ilex_lt(ka, kb) == ilex_lt(ka.skip(i as int), kb.skip(i as int)),
            ilex_lt(kb, ka) == ilex_lt(kb.skip(i as int), ka.skip(i as int)),
        decreases a_len - i,
    {
        if i == a_len && i == b_len {
            proof {
                assert(ka =~= kb);
            }
            return 1;
        }
        if i == a_len {
            proof {
                assert(ka.skip(i as int).len() == 0);
                assert(kb.skip(i as int).len() > 0);
            }
            return 0;
        }
        if i == b_len {
            proof {
                assert(kb.skip(i as int).len() == 0);
                assert(ka.skip(i as int).len() > 0);
            }
            return 2;
        }
        let ca = a.get_char(i);
        let cb = b.get_char(i);
        let x = char_key_exec(ca, fold);
        let y = char_key_exec(cb, fold);
        proof {
            assert(ka[i as int] == if fold {
                char_key(a@[i as int])
            } else {
                a@[i as int] as int
            });
            assert(kb[i as int] == if fold {
                char_key(b@[i as int])
            } else {
                b@[i as int] as int
            });
            assert(ka.skip(i as int).first() == ka[i as int]);
            assert(kb.skip(i as int).first() == kb[i as int]);
        }
        if x < y {
            return 0;
        }
        if x > y {
            return 2;
        }
        proof {
            assert(ka.skip(i as int).drop_first() =~= ka.skip(i as int + 1));
            assert(kb.skip(i as int).drop_first() =~= kb.skip(i as int + 1));
        }
        i += 1;
    }
}

/// Whether one name comes no later than another in the canonical order.
pub fn kind_le_exec(a: &str, b: &str) -> (r: bool)
    ensures
        r == kind_le(a@, b@),
{
    let c = str_keys_cmp(a, b, true);
    if c == 0 {
        proof {
            lemma_ilex_asym(fold_keys(a@), fold_keys(b@));
        }
        true
    } else if c == 2 {
        proof {
            lemma_ilex_asym(fold_keys(a@), fold_keys(b@));
        }
        false
    } else {
        let d = str_keys_cmp(a, b, false);
        if d == 0 {
            true
        } else if d == 2 {
            proof {
                lemma_ilex_asym(raw_keys(a@), raw_keys(b@));
            }
            false
        } else {
            proof {
                lemma_raw_keys_injective(a@, b@);
            }
            true
        }
    }
}

/// Order independence: any two collections of kind names that hold the same
/// names the same number of times yield the same canonical schema name. In
/// particular every permutation of a fixed set of component kinds names the
/// same schema.
pub proof fn lemma_bundle_kind_order_independent(a: Seq<Seq<char>>, b: Seq<Seq<char>>)
    requires
        a.to_multiset() == b.to_multiset(),
    ensures
        bundle_kind_of(a) == bundle_kind_of(b),
{
    lemma_kind_le_total_ordering();
    a.lemma_sort_by_ensures(kind_le_fn());
    b.lemma_sort_by_ensures(kind_le_fn());
    lemma_sorted_unique(a.sort_by(kind_le_fn()), b.sort_by(kind_le_fn()), kind_le_fn());
    assert(canonical_order(a) == canonical_order(b));
}

/// The models of a collection of names.
pub open spec fn str_views(ss: Seq<String>) -> Seq<Seq<char>> {
    ss.map_values(|s: String| s@)
}

/// The models of a collection of component kinds.
pub open spec fn kinds_views(ks: Seq<ComponentKind>) -> Seq<Seq<char>> {
    ks.map_values(|k: ComponentKind| k@)
}

/// The canonical order holds between any two names, one way or the other.
proof fn lemma_kind_le_connex(a: Seq<char>, b: Seq<char>)
    ensures
        kind_le(a, b) || kind_le(b, a),
{
    lemma_ilex_connex(fold_keys(a), fold_keys(b));
    if fold_keys(a) == fold_keys(b) {
        lemma_ilex_connex(raw_keys(a), raw_keys(b));
        if raw_keys(a) == raw_keys(b) {
            lemma_raw_keys_injective(a, b);
        }
    }
}

/// The canonical order is transitive.
proof fn lemma_kind_le_trans(a: Seq<char>, b: Seq<char>, c: Seq<char>)
    requires
        kind_le(a, b),
        kind_le(b, c),
    ensures
        kind_le(a, c),
{
    if fold_keys(a) == fold_keys(b) && fold_keys(b) == fold_keys(c) {
        if a != b && b != c {
            lemma_ilex_trans(raw_keys(a), raw_keys(b), raw_keys(c));
        }
    } else if fold_keys(a) == fold_keys(b) {
        assert(ilex_lt(fold_keys(b), fold_keys(c)));
    } else if fold_keys(b) == fold_keys(c) {
        assert(ilex_lt(fold_keys(a), fold_keys(b)));
    } else {
        lemma_ilex_trans(fold_keys(a), fold_keys(b), fold_keys(c));
        if fold_keys(a) == fold_keys(c) {
            lemma_ilex_asym(fold_keys(a), fold_keys(b));
        }
    }
}

/// Inserting an element below which everything before its position sits, and
/// at or above which everything from its position on sits, keeps a sequence
/// sorted.
proof fn lemma_sorted_insert(s: Seq<Seq<char>>, p: int, x: Seq<char>)
    requires
        sorted_by(s, kind_le_fn()),
        0 <= p <= s.len(),
        forall|q: int| 0 <= q < p ==> kind_le(#[trigger] s[q], x),
        p < s.len() ==> !kind_le(s[p], x),
    ensures
        sorted_by(s.insert(p, x), kind_le_fn()),
{
    let t = s.insert(p, x);
    s.insert_ensures(p, x);
    let leq = kind_le_fn();
    assert forall|i: int, j: int| 0 <= i < j < t.len() implies #[trigger] leq(t[i], t[j]) by {
        if i < p && j < p {
            assert(leq(s[i], s[j]));
        } else if i < p && j == p {
            assert(kind_le(s[i], x));
        } else if i < p && p < j {
            assert(leq(s[i], s[j - 1]));
            assert(t[i] == s[i] && t[j] == s[j - 1]);
        } else if i == p && p < j {
            lemma_kind_le_connex(s[p], x);
            assert(kind_le(x, s[p]));
            if j - 1 > p {
                assert(leq(s[p], s[j - 1]));
                lemma_kind_le_trans(x, s[p], s[j - 1]);
            }
            assert(t[j] == s[j - 1]);
        } else {
            assert(leq(s[i - 1], s[j - 1]));
            assert(t[i] == s[i - 1] && t[j] == s[j - 1]);
        }
    }
}

/// Inserting an element anywhere adds exactly it to the multiset of elements.
proof fn lemma_insert_multiset(s: Seq<Seq<char>>, p: int, x: Seq<char>)
    requires
        0 <= p <= s.len(),
    ensures
        s.insert(p, x).to_multiset() == s.to_multiset().insert(x),
{
    broadcast use vstd::seq_lib::group_to_multiset_ensures;
    broadcast use vstd::multiset::group_multiset_axioms;

    let t = s.insert(p, x);
    s.insert_ensures(p, x);
    assert(t.remove(p) =~= s);
    assert(t.remove(p).to_multiset() == t.to_multiset().remove(t[p]));
    assert(t.contains(x));
    assert(t.to_multiset().count(x) > 0);
    assert(t.to_multiset() =~= s.to_multiset().insert(x));
}

/// The models of a name collection commute with insertion.
proof fn lemma_str_views_insert(s: Seq<String>, p: int, x: String)
    requires
        0 <= p <= s.len(),
    ensures
        str_views(s.insert(p, x)) == str_views(s).insert(p, x@),
{
    s.insert_ensures(p, x);
    str_views(s).insert_ensures(p, x@);
    assert(str_views(s.insert(p, x)) =~= str_views(s).insert(p, x@));
}

/// The position at which a name is inserted into a collection sorted in
/// canonical order: the first position whose name does not come before it.
fn find_insert_pos(names: &Vec<String>, x: &String) -> (p: usize)
    ensures
        p <= names.len(),
        forall|q: int| 0 <= q < p ==> kind_le(#[trigger] str_views(names@)[q], x@),
        p < names.len() ==> !kind_le(str_views(names@)[p as int], x@),
{
    let mut p: usize = 0;
    while p < names.len()
        invariant
            p <= names.len(),
            forall|q: int| 0 <= q < p ==> kind_le(#[trigger] str_views(names@)[q], x@),
        decreases names.len() - p,
    {
        proof {
            assert(str_views(names@)[p as int] == names@[p as int]@);
        }
        if !kind_le_exec(names[p].as_str(), x.as_str()) {
            return p;
        }
        p += 1;
    }
    p
}

/// Concatenating one more name on the right.
proof fn lemma_concat_push(s: Seq<Seq<char>>, x: Seq<char>)
    ensures
        concat_all(s.push(x)) == concat_all(s) + x,
    decreases s.len(),
{
    if s.len() == 0 {
        assert(s.push(x).drop_first() =~= Seq::<Seq<char>>::empty());
        assert(concat_all(Seq::<Seq<char>>::empty()) =~= Seq::<char>::empty());
        assert(concat_all(s.push(x)) =~= concat_all(s) + x);
    } else {
        assert(s.push(x).first() == s.first());
        assert(s.push(x).drop_first() =~= s.drop_first().push(x));
        lemma_concat_push(s.drop_first(), x);
        assert(s.first() + (concat_all(s.drop_first()) + x) =~= (s.first() + concat_all(
            s.drop_first(),
        )) + x);
    }
}

/// The canonical name of one bundle schema. Two bundles whose component
/// kinds form the same set carry the same `BundleKind`, whatever the order
/// in which the kinds were given.
#[derive(Debug)]
pub struct BundleKind(pub String);

impl View for BundleKind {
    type V = Seq<char>;

    open spec fn view(&self) -> Seq<char> {
        self.0@
    }
}

impl BundleKind {
    /// A fresh `BundleKind` holding the same name.
    pub fn duplicate(&self) -> (r: BundleKind)
        ensures
            r == *self,
    {
        BundleKind(self.0.clone())
    }

    /// The canonical schema name of a collection of component kinds: the
    /// kind names in canonical order, concatenated.
    pub fn from_component_kinds(component_kinds: &Vec<ComponentKind>) -> (r: BundleKind)
        ensures
            r@ == bundle_kind_of(kinds_views(component_kinds@)),
    {
        let ghost all = kinds_views(component_kinds@);
        let mut names: Vec<String> = Vec::new();
        proof {
            assert(str_views(names@) =~= Seq::<Seq<char>>::empty());
            assert(all.subrange(0, 0) =~= Seq::<Seq<char>>::empty());
        }
        let mut i: usize = 0;
        while i < component_kinds.len()
            invariant
                i <= component_kinds.len(),
                all == kinds_views(component_kinds@),
                all.len() == component_kinds@.len(),
                sorted_by(str_views(names@), kind_le_fn()),
                str_views(names@).to_multiset() == all.subrange(0, i as int).to_multiset(),
            decreases component_kinds.len() - i,
        {
            broadcast use vstd::seq_lib::group_to_multiset_ensures;

            let name = component_kinds[i].0.clone();
            let p = find_insert_pos(&names, &name);
            proof {
                lemma_sorted_insert(str_views(names@), p as int, name@);
                lemma_insert_multiset(str_views(names@), p as int, name@);
                lemma_str_views_insert(names@, p as int, name);
                assert(all[i as int] == component_kinds@[i as int]@);
                assert(all.subrange(0, i as int + 1) =~= all.subrange(0, i as int).push(
                    all[i as int],
                ));
            }
            names.insert(p, name);
            i += 1;
        }
        proof {
            assert(all.subrange(0, all.len() as int) =~= all);
            lemma_kind_le_total_ordering();
            all.lemma_sort_by_ensures(kind_le_fn());
            lemma_sorted_unique(str_views(names@), all.sort_by(kind_le_fn()), kind_le_fn());
            assert(str_views(names@) == canonical_order(all));
        }
        let mut acc = String::new();
        let mut j: usize = 0;
        while j < names.len()
            invariant
                j <= names.len(),
                acc@ == concat_all(str_views(names@).subrange(0, j as int)),
            decreases names.len() - j,
        {
            proof {
                assert(str_views(names@).subrange(0, j as int + 1) =~= str_views(
                    names@,
                ).subrange(0, j as int).push(str_views(names@)[j as int]));
                lemma_concat_push(str_views(names@).subrange(0, j as int), str_views(names@)[j as int]);
                assert(str_views(names@)[j as int] == names@[j as int]@);
            }
            acc.append(names[j].as_str());
            j += 1;
        }
        proof {
            assert(str_views(names@).subrange(0, names@.len() as int) =~= str_views(names@));
        }
        BundleKind(acc)
    }
}

/// A bundle: an ordered collection of (kind, value) pairs, spawned together
/// to create one entity.
#[derive(Debug)]
pub struct Bundle {
    /// The component values of the bundle, each under its kind.
    pub parts: Vec<(ComponentKind, ComponentValue)>,
}

/// The model of a bundle's parts.
pub open spec fn parts_view(ps: Seq<(ComponentKind, ComponentValue)>) -> Seq<(Seq<char>, ComponentValueV)> {
    ps.map_values(|p: (ComponentKind, ComponentValue)| (p.0@, p.1@))
}

impl View for Bundle {
    type V = Seq<(Seq<char>, ComponentValueV)>;

    open spec fn view(&self) -> Seq<(Seq<char>, ComponentValueV)> {
        parts_view(self.parts@)
    }
}

/// The kind names of a bundle model, in the order given.
pub open spec fn bundle_kind_names(b: Seq<(Seq<char>, ComponentValueV)>) -> Seq<Seq<char>> {
    b.map_values(|p: (Seq<char>, ComponentValueV)| p.0)
}

impl Bundle {
    /// The canonical name of the schema this bundle belongs to, computed
    /// from the bundle's own component kinds.
    pub fn get_bundle_kind(&self) -> (r: BundleKind)
        ensures
            r@ == bundle_kind_of(bundle_kind_names(self@)),
    {
        let mut kinds: Vec<ComponentKind> = Vec::new();
        let mut i: usize = 0;
        while i < self.parts.len()
            invariant
                i <= self.parts.len(),
                kinds@.len() == i,
                forall|j: int| 0 <= j < i ==> #[trigger] kinds@[j]@ == self.parts@[j].0@,
            decreases self.parts.len() - i,
        {
            kinds.push(self.parts[i].0.duplicate());
            i += 1;
        }
        let r = BundleKind::from_component_kinds(&kinds);
        proof {
            assert(kinds_views(kinds@) =~= bundle_kind_names(self@));
        }
        r
    }
}

} // verus!
