//! The query engine.
//!
//! A query names a fixed list of parameters, each one component kind tagged
//! read-mode or write-mode. Issuing it against a store locks, per matching
//! archetype, each requested column in the requested mode — an archetype
//! matches when its schema includes at least every requested kind — and
//! hands back a result holding a snapshot of every locked column. The
//! result is iterated row by row, exactly once; written values become
//! visible in the store when the result is released, which also lets every
//! lock go. Requesting one kind twice in a single query — in particular
//! reading and writing the same kind at once — is a disallowed
//! precondition.

use vstd::prelude::*;

use crate::storage::{Archetype, ArchetypeV, ColumnV, Storage, StorageV};
use crate::value::{value_clone, values_view, ComponentValue, ComponentValueV};
use crate::{ComponentKind, EcsError};

verus! {

/// The access mode of one query parameter.
#[derive(Debug, Clone, Copy, PartialEq, Eq, Structural)]
pub enum AccessMode {
    Read,
    Write,
}

/// One query parameter: a component kind and the mode in which its columns
/// are to be held.
#[derive(Debug)]
pub struct Parameter {
    pub kind: ComponentKind,
    pub mode: AccessMode,
}

impl View for Parameter {
    type V = (Seq<char>, AccessMode);

    open spec fn view(&self) -> (Seq<char>, AccessMode) {
        (self.kind@, self.mode)
    }
}

/// A query: the ordered list of its parameters.
#[derive(Debug)]
pub struct Query {
    pub params: Vec<Parameter>,
}

/// The models of a parameter list.
pub open spec fn params_view(ps: Seq<Parameter>) -> Seq<(Seq<char>, AccessMode)> {
    ps.map_values(|p: Parameter| p@)
}

impl View for Query {
    type V = Seq<(Seq<char>, AccessMode)>;

    open spec fn view(&self) -> Seq<(Seq<char>, AccessMode)> {
        params_view(self.params@)
    }
}

/// Whether the parameters request pairwise distinct kinds.
pub open spec fn params_distinct(ps: Seq<(Seq<char>, AccessMode)>) -> bool {
    forall|i: int, j: int| 0 <= i < j < ps.len() ==> (#[trigger] ps[i]).0 != (#[trigger] ps[j]).0
}

/// Whether some parameter requests the given kind.
pub open spec fn params_has_kind(ps: Seq<(Seq<char>, AccessMode)>, k: Seq<char>) -> bool {
    exists|p: int| 0 <= p < ps.len() && (#[trigger] ps[p]).0 == k
}

/// The mode in which the given kind is requested.
pub open spec fn mode_of(ps: Seq<(Seq<char>, AccessMode)>, k: Seq<char>) -> AccessMode {
    ps[choose|p: int| 0 <= p < ps.len() && (#[trigger] ps[p]).0 == k].1
}

/// With distinct kinds, the mode of a kind is the one parameter's with it.
pub proof fn lemma_mode_of_unique(ps: Seq<(Seq<char>, AccessMode)>, k: Seq<char>, p: int)
    requires
        params_distinct(ps),
        0 <= p < ps.len(),
        ps[p].0 == k,
    ensures
        params_has_kind(ps, k),
        mode_of(ps, k) == ps[p].1,
{
    assert(params_has_kind(ps, k));
    let q = choose|q: int| 0 <= q < ps.len() && (#[trigger] ps[q]).0 == k;
    if p < q {
        assert(ps[p].0 != ps[q].0);
    } else if q < p {
        assert(ps[q].0 != ps[p].0);
    }
}

/// Whether an archetype matches a parameter list: its schema includes at
/// least every requested kind.
pub open spec fn matches_params(a: ArchetypeV, ps: Seq<(Seq<char>, AccessMode)>) -> bool {
    forall|p: int| 0 <= p < ps.len() ==> a.has_kind((#[trigger] ps[p]).0)
}

/// The indices of the archetypes among the first `n` that match, in store
/// order.
pub open spec fn matched_upto(s: StorageV, ps: Seq<(Seq<char>, AccessMode)>, n: int) -> Seq<int>
    decreases n,
{
    if n <= 0 {
        Seq::empty()
    } else if matches_params(s.archetypes[n - 1], ps) {
        matched_upto(s, ps, n - 1).push(n - 1)
    } else {
        matched_upto(s, ps, n - 1)
    }
}

/// The indices of all matching archetypes, in store order.
pub open spec fn matched_idxs(s: StorageV, ps: Seq<(Seq<char>, AccessMode)>) -> Seq<int> {
    matched_upto(s, ps, s.archetypes.len() as int)
}

/// The matched index list holds exactly the matching archetype positions,
/// each once, in increasing order. This is the "at least" matching rule:
/// an archetype contributes its rows exactly when its schema includes every
/// requested kind, however many further kinds it carries.
pub proof fn lemma_matched_upto_props(s: StorageV, ps: Seq<(Seq<char>, AccessMode)>, n: int)
    requires
        n <= s.archetypes.len(),
    ensures
        forall|j: int|
            0 <= j < matched_upto(s, ps, n).len() ==> 0 <= #[trigger] matched_upto(s, ps, n)[j]
                < n,
        forall|j: int, l: int|
            0 <= j < l < matched_upto(s, ps, n).len() ==> #[trigger] matched_upto(s, ps, n)[j]
                < #[trigger] matched_upto(s, ps, n)[l],
        forall|j: int|
            0 <= j < matched_upto(s, ps, n).len() ==> matches_params(
                s.archetypes[#[trigger] matched_upto(s, ps, n)[j]],
                ps,
            ),
        forall|m: int|
            0 <= m < n && matches_params(s.archetypes[m], ps) ==> matched_upto(s, ps, n).contains(
                m,
            ),
    decreases n,
{
    if n > 0 {
        lemma_matched_upto_props(s, ps, n - 1);
        let prev = matched_upto(s, ps, n - 1);
        let cur = matched_upto(s, ps, n);
        assert forall|m: int|
            0 <= m < n && matches_params(s.archetypes[m], ps) implies cur.contains(m) by {
            if m < n - 1 {
                assert(prev.contains(m));
                let j = choose|j: int| 0 <= j < prev.len() && prev[j] == m;
                assert(cur[j] == m);
            } else {
                assert(cur[cur.len() - 1] == m);
            }
        }
    }
}

/// Whether the requested locks can all be taken on an archetype in its
/// current state: a kind to be written must be entirely free, a kind to be
/// read must not be write-held and must leave its reader count
/// representable.
pub open spec fn demand_ok(a: ArchetypeV, ps: Seq<(Seq<char>, AccessMode)>) -> bool {
    forall|p: int|
        0 <= p < ps.len() ==> {
            let c = a.col_of((#[trigger] ps[p]).0);
            match ps[p].1 {
                AccessMode::Read => !c.writer && c.readers < usize::MAX,
                AccessMode::Write => !c.writer && c.readers == 0,
            }
        }
}

/// Whether every matching archetype can satisfy the requested locks; when
/// not, the whole fetch fails with a lock conflict and no lock is taken.
pub open spec fn conflict_free(s: StorageV, ps: Seq<(Seq<char>, AccessMode)>) -> bool {
    forall|m: int|
        0 <= m < s.archetypes.len() && matches_params(#[trigger] s.archetypes[m], ps)
            ==> demand_ok(s.archetypes[m], ps)
}

/// An archetype after every requested lock was taken: one more reader on
/// each read kind, the writer flag on each written kind; nothing else
/// moves.
pub open spec fn arch_locked(a: ArchetypeV, ps: Seq<(Seq<char>, AccessMode)>) -> ArchetypeV {
    ArchetypeV {
        bundle_kind: a.bundle_kind,
        entity_ids: a.entity_ids,
        columns: Seq::new(
            a.columns.len(),
            |i: int|
                if params_has_kind(ps, a.columns[i].kind) {
                    match mode_of(ps, a.columns[i].kind) {
                        AccessMode::Read => ColumnV {
                            readers: a.columns[i].readers + 1,
                            ..a.columns[i]
                        },
                        AccessMode::Write => ColumnV { writer: true, ..a.columns[i] },
                    }
                } else {
                    a.columns[i]
                },
        ),
    }
}

/// The store after a successful fetch: every matching archetype locked per
/// the request, every other archetype untouched.
pub open spec fn locked_storage(s: StorageV, ps: Seq<(Seq<char>, AccessMode)>) -> StorageV {
    StorageV {
        archetypes: Seq::new(
            s.archetypes.len(),
            |m: int|
                if matches_params(s.archetypes[m], ps) {
                    arch_locked(s.archetypes[m], ps)
                } else {
                    s.archetypes[m]
                },
        ),
        next_entity_id: s.next_entity_id,
    }
}

/// The number of rows in the first `j` segments.
pub open spec fn prefix_rows<A>(d: Seq<Seq<A>>, j: int) -> int
    decreases j,
{
    if j <= 0 {
        0
    } else {
        prefix_rows(d, j - 1) + d[j - 1].len()
    }
}

/// The row prefix is monotone in the segment count.
pub proof fn lemma_prefix_rows_mono<A>(d: Seq<Seq<A>>, j1: int, j2: int)
    requires
        0 <= j1 <= j2,
    ensures
        prefix_rows(d, j1) <= prefix_rows(d, j2),
    decreases j2 - j1,
{
    if j1 < j2 {
        lemma_prefix_rows_mono(d, j1, j2 - 1);
    }
}

/// A row prefix is never negative.
pub proof fn lemma_prefix_rows_nonneg<A>(d: Seq<Seq<A>>, j: int)
    ensures
        prefix_rows(d, j) >= 0,
    decreases j,
{
    if j > 0 {
        lemma_prefix_rows_nonneg(d, j - 1);
    }
}

/// Skipping the first segment shifts the row prefix by its length.
proof fn lemma_prefix_rows_shift<A>(d: Seq<Seq<A>>, j: int)
    requires
        1 <= j <= d.len(),
    ensures
        prefix_rows(d, j) == d[0].len() + prefix_rows(d.drop_first(), j - 1),
    decreases j,
{
    if j > 1 {
        lemma_prefix_rows_shift(d, j - 1);
        assert(d.drop_first()[j - 2] == d[j - 1]);
    } else {
        assert(prefix_rows(d, 0) == 0);
        assert(prefix_rows(d.drop_first(), 0) == 0);
    }
}

/// The flattened sequence holds exactly the rows of all segments.
pub proof fn lemma_flatten_len<A>(d: Seq<Seq<A>>)
    ensures
        d.flatten().len() == prefix_rows(d, d.len() as int),
    decreases d.len(),
{
    if d.len() > 0 {
        lemma_flatten_len(d.drop_first());
        lemma_prefix_rows_shift(d, d.len() as int);
    }
}

/// The element at a segment coordinate sits at its flat position.
pub proof fn lemma_flatten_index<A>(d: Seq<Seq<A>>, seg: int, off: int)
    requires
        0 <= seg < d.len(),
        0 <= off < d[seg].len(),
    ensures
        0 <= prefix_rows(d, seg) + off < d.flatten().len(),
        d.flatten()[prefix_rows(d, seg) + off] == d[seg][off],
    decreases seg,
{
    lemma_flatten_len(d);
    lemma_prefix_rows_mono(d, 0, seg);
    assert(prefix_rows(d, seg + 1) == prefix_rows(d, seg) + d[seg].len());
    lemma_prefix_rows_mono(d, seg + 1, d.len() as int);
    if seg == 0 {
        assert(d.flatten() == d.first() + d.drop_first().flatten());
        assert((d.first() + d.drop_first().flatten())[off] == d.first()[off]);
    } else {
        lemma_flatten_index(d.drop_first(), seg - 1, off);
        lemma_prefix_rows_shift(d, seg);
        assert(d.drop_first()[seg - 1] == d[seg]);
        let pos = prefix_rows(d.drop_first(), seg - 1) + off;
        assert((d.first() + d.drop_first().flatten())[d[0].len() + pos] == d.drop_first().flatten()[
            pos]);
    }
}

/// Updating one element at a segment coordinate updates exactly its flat
/// position.
pub proof fn lemma_flatten_update<A>(d: Seq<Seq<A>>, seg: int, off: int, v: A)
    requires
        0 <= seg < d.len(),
        0 <= off < d[seg].len(),
    ensures
        d.update(seg, d[seg].update(off, v)).flatten() == d.flatten().update(
            prefix_rows(d, seg) + off,
            v,
        ),
    decreases seg,
{
    lemma_flatten_index(d, seg, off);
    let du = d.update(seg, d[seg].update(off, v));
    if seg == 0 {
        assert(du.first() == d[0].update(off, v));
        assert(du.drop_first() =~= d.drop_first());
        assert(du.flatten() == d[0].update(off, v) + d.drop_first().flatten());
        assert(d[0].update(off, v) + d.drop_first().flatten() =~= (d[0]
            + d.drop_first().flatten()).update(off, v));
        assert(d.flatten() == d.first() + d.drop_first().flatten());
    } else {
        lemma_flatten_update(d.drop_first(), seg - 1, off, v);
        lemma_prefix_rows_shift(d, seg);
        assert(d.drop_first()[seg - 1] == d[seg]);
        assert(du.first() == d.first());
        assert(du.drop_first() =~= d.drop_first().update(seg - 1, d[seg].update(off, v)));
        assert(du.flatten() == d.first() + du.drop_first().flatten());
        assert(d.flatten() == d.first() + d.drop_first().flatten());
        let pos = prefix_rows(d.drop_first(), seg - 1) + off;
        lemma_flatten_index(d.drop_first(), seg - 1, off);
        assert(d.first() + d.drop_first().flatten().update(pos, v) =~= (d.first()
            + d.drop_first().flatten()).update(d[0].len() + pos, v));
    }
}

/// Mathematical model of a `QueryResult`.
pub ghost struct QueryResultV {
    pub params: Seq<(Seq<char>, AccessMode)>,
    pub matched: Seq<int>,
    pub data: Seq<Seq<Seq<ComponentValueV>>>,
    pub seg: int,
    pub off: int,
}

impl QueryResultV {
    /// Internal consistency: one data row per parameter and matching
    /// archetype, all parameters over the same row counts, the cursor in
    /// range.
    pub open spec fn wf(self) -> bool {
        &&& self.params.len() >= 1
        &&& params_distinct(self.params)
        &&& self.data.len() == self.params.len()
        &&& forall|p: int| 0 <= p < self.data.len() ==> (#[trigger] self.data[p]).len() == self.matched.len()
        &&& forall|p: int, j: int|
            0 <= p < self.data.len() && 0 <= j < self.matched.len() ==> (#[trigger] self.data[p][j]).len()
                == self.data[0][j].len()
        &&& 0 <= self.seg <= self.matched.len()
        &&& 0 <= self.off
        &&& self.seg < self.matched.len() ==> self.off <= self.data[0][self.seg].len()
        &&& self.seg == self.matched.len() ==> self.off == 0
    }

    /// How many rows the result yields in all.
    pub open spec fn total_rows(self) -> int {
        prefix_rows(self.data[0], self.matched.len() as int)
    }

    /// How many rows were handed out already.
    pub open spec fn consumed(self) -> int {
        prefix_rows(self.data[0], self.seg) + self.off
    }

    /// The row at the given flat position: one value per parameter.
    pub open spec fn row_at(self, r: int) -> Seq<ComponentValueV> {
        Seq::new(self.params.len(), |p: int| self.data[p].flatten()[r])
    }

    /// Whether the result still describes the given store: every matched
    /// archetype holds the locks the result took, with columns of the
    /// lengths the result captured.
    pub open spec fn holds_on(self, s: StorageV) -> bool {
        &&& forall|j: int, l: int|
            0 <= j < l < self.matched.len() ==> #[trigger] self.matched[j] < #[trigger] self.matched[l]
        &&& forall|j: int| 0 <= j < self.matched.len() ==> 0 <= #[trigger] self.matched[j] < s.archetypes.len()
        &&& forall|j: int, p: int|
            0 <= j < self.matched.len() && 0 <= p < self.params.len() ==> {
                let a = s.archetypes[#[trigger] self.matched[j]];
                let c = a.col_of((#[trigger] self.params[p]).0);
                &&& a.has_kind(self.params[p].0)
                &&& c.values.len() == self.data[p][j].len()
                &&& match self.params[p].1 {
                    AccessMode::Read => c.readers > 0,
                    AccessMode::Write => c.writer,
                }
            }
    }
}

/// A query result: per parameter and matching archetype a snapshot of the
/// locked column, iterated row by row in a single pass. Writes staged with
/// `write_at` become visible in the store when the result is released.
#[derive(Debug)]
pub struct QueryResult {
    params: Vec<Parameter>,
    matched: Vec<usize>,
    data: Vec<Vec<Vec<ComponentValue>>>,
    seg: usize,
    off: usize,
}

/// The models of a matched index list.
pub open spec fn idxs_view(v: Seq<usize>) -> Seq<int> {
    v.map_values(|u: usize| u as int)
}

/// The models of the per-parameter, per-archetype data.
pub open spec fn data_view(d: Seq<Vec<Vec<ComponentValue>>>) -> Seq<Seq<Seq<ComponentValueV>>> {
    d.map_values(|pv: Vec<Vec<ComponentValue>>| pv@.map_values(|sv: Vec<ComponentValue>| values_view(sv@)))
}

impl View for QueryResult {
    type V = QueryResultV;

    closed spec fn view(&self) -> QueryResultV {
        QueryResultV {
            params: params_view(self.params@),
            matched: idxs_view(self.matched@),
            data: data_view(self.data@),
            seg: self.seg as int,
            off: self.off as int,
        }
    }
}

/// Whether an archetype matches a query.
fn arch_matches_exec(a: &Archetype, q: &Query) -> (r: bool)
    ensures
        r == matches_params(a@, q@),
{
    let mut p: usize = 0;
    while p < q.params.len()
        invariant
            p <= q.params@.len(),
            forall|j: int| 0 <= j < p ==> a@.has_kind((#[trigger] q@[j]).0),
        decreases q.params@.len() - p,
    {
        proof {
            assert(q@[p as int] == q.params@[p as int]@);
        }
        if !a.has_component(&q.params[p].kind) {
            return false;
        }
        p += 1;
    }
    true
}

/// The "at least" matching rule as one statement: a query's matched list
/// holds an archetype's position exactly when the archetype's schema
/// includes every requested kind — archetypes with further, unrequested
/// kinds included, archetypes missing any requested kind excluded.
pub proof fn lemma_query_at_least(s: StorageV, ps: Seq<(Seq<char>, AccessMode)>)
    ensures
        forall|m: int|
            matched_idxs(s, ps).contains(m) <==> (0 <= m < s.archetypes.len() && matches_params(
                #[trigger] s.archetypes[m],
                ps,
            )),
{
    lemma_matched_upto_props(s, ps, s.archetypes.len() as int);
    assert forall|m: int|
        matched_idxs(s, ps).contains(m) <==> (0 <= m < s.archetypes.len() && matches_params(
            #[trigger] s.archetypes[m],
            ps,
        )) by {
        if matched_idxs(s, ps).contains(m) {
            let j = choose|j: int|
                0 <= j < matched_idxs(s, ps).len() && matched_idxs(s, ps)[j] == m;
            assert(matches_params(s.archetypes[matched_idxs(s, ps)[j]], ps));
        }
    }
}

/// Releasing a result taken on a store that had no lock outstanding
/// leaves no lock outstanding again: issuing a query and releasing its
/// result is lock-neutral.
pub proof fn lemma_query_release_quiescent(
    s: StorageV,
    ps: Seq<(Seq<char>, AccessMode)>,
    qr: QueryResultV,
)
    requires
        s.wf(),
        s.quiescent(),
        params_distinct(ps),
        qr.params == ps,
        qr.matched == matched_idxs(s, ps),
        qr.wf(),
    ensures
        released_storage(locked_storage(s, ps), qr).quiescent(),
{
    let ls = locked_storage(s, ps);
    let rs = released_storage(ls, qr);
    lemma_matched_upto_props(s, ps, s.archetypes.len() as int);
    assert forall|m: int| 0 <= m < rs.archetypes.len() implies (
    #[trigger] rs.archetypes[m]).quiescent() by {
        let a = s.archetypes[m];
        assert(a.quiescent());
        if qr.matched.contains(m) {
            let l = choose|l: int| 0 <= l < qr.matched.len() && qr.matched[l] == m;
            assert(matches_params(s.archetypes[qr.matched[l]], ps));
            assert(matches_params(a, ps));
            let la = arch_locked(a, ps);
            let ra = arch_released(la, ps, seg_data(qr, seg_of(qr, m)));
            assert(rs.archetypes[m] == ra);
            assert forall|i: int| 0 <= i < ra.columns.len() implies (
            #[trigger] ra.columns[i]).readers == 0 && !ra.columns[i].writer by {
                let k = a.columns[i].kind;
                assert(la.columns[i].kind == k);
                assert(a.columns[i].readers == 0 && !a.columns[i].writer);
                if params_has_kind(ps, k) {
                    match mode_of(ps, k) {
                        AccessMode::Read => {
                            assert(la.columns[i].readers == 1 && !la.columns[i].writer);
                        },
                        AccessMode::Write => {
                            assert(la.columns[i].readers == 0 && la.columns[i].writer);
                        },
                    }
                } else {
                    assert(la.columns[i] == a.columns[i]);
                }
            }
        } else {
            assert(rs.archetypes[m] == ls.archetypes[m]);
            if matches_params(a, ps) {
                assert(qr.matched.contains(m));
            } else {
                assert(ls.archetypes[m] == a);
            }
        }
    }
}

/// An element is in a pushed sequence exactly when it is the pushed one or
/// was already there.
proof fn lemma_contains_push(s: Seq<int>, x: int, m: int)
    ensures
        s.push(x).contains(m) <==> (s.contains(m) || m == x),
{
    if s.contains(m) {
        let j = choose|j: int| 0 <= j < s.len() && s[j] == m;
        assert(s.push(x)[j] == m);
    }
    if m == x {
        assert(s.push(x)[s.len() as int] == m);
    }
    if s.push(x).contains(m) {
        let j = choose|j: int| 0 <= j < s.push(x).len() && s.push(x)[j] == m;
        if j < s.len() {
            assert(s[j] == m);
        }
    }
}

/// The store while a fetch is in progress: the archetypes named by `done`
/// fully locked, all others untouched.
spec fn locked_prefix(s: StorageV, ps: Seq<(Seq<char>, AccessMode)>, done: Seq<int>) -> StorageV {
    StorageV {
        archetypes: Seq::new(
            s.archetypes.len(),
            |m: int|
                if done.contains(m) {
                    arch_locked(s.archetypes[m], ps)
                } else {
                    s.archetypes[m]
                },
        ),
        next_entity_id: s.next_entity_id,
    }
}

impl Storage {
    /// Issue a query: match every archetype whose schema includes at least
    /// each requested kind, lock each requested column in its requested
    /// mode on every match, and hand back the result with one snapshot per
    /// locked column. Failure to take any single lock fails the whole
    /// fetch with `LockConflict`, taking none and leaving the store
    /// unchanged. Requesting no matching archetype yields an empty result,
    /// not an error.
    pub fn query(&mut self, q: &Query) -> (r: Result<QueryResult, EcsError>)
        requires
            old(self)@.wf(),
            q.params@.len() >= 1,
            params_distinct(q@),
        ensures
            final(self)@.wf(),
            r is Ok <==> conflict_free(old(self)@, q@),
            r is Err ==> r == Err::<QueryResult, EcsError>(EcsError::LockConflict) && *final(self)
                == *old(self),
            r matches Ok(qr) ==> {
                &&& final(self)@ == locked_storage(old(self)@, q@)
                &&& qr@.params == q@
                &&& qr@.matched == matched_idxs(old(self)@, q@)
                &&& qr@.seg == 0
                &&& qr@.off == 0
                &&& forall|p: int, j: int|
                    0 <= p < q@.len() && 0 <= j < qr@.matched.len() ==> #[trigger] qr@.data[p][j]
                        == old(self)@.archetypes[qr@.matched[j]].col_of(q@[p].0).values
                &&& qr@.wf()
                &&& qr@.holds_on(final(self)@)
            },
    {
        let ghost s0 = self@;
        let ghost ps = q@;
        let n = self.archetype_count();
        let mut matched: Vec<usize> = Vec::new();
        let mut m: usize = 0;
        proof {
            assert(idxs_view(matched@) =~= matched_upto(s0, ps, 0));
        }
        while m < n
            invariant
                m <= n,
                n == s0.archetypes.len(),
                *self == *old(self),
                self@ == s0,
                ps == q@,
                idxs_view(matched@) == matched_upto(s0, ps, m as int),
            decreases n - m,
        {
            if arch_matches_exec(self.get_archetype_at(m), q) {
                matched.push(m);
                proof {
                    assert(idxs_view(matched@) =~= matched_upto(s0, ps, m as int + 1));
                }
            }
            m += 1;
        }
        proof {
            lemma_matched_upto_props(s0, ps, n as int);
        }
        let ghost midx = matched_idxs(s0, ps);
        // Pre-check every needed lock before taking any, so that a conflict
        // leaves no partial result behind.
        let mut j: usize = 0;
        while j < matched.len()
            invariant
                j <= matched@.len(),
                *self == *old(self),
                self@ == s0,
                s0.wf(),
                ps == q@,
                ps.len() == q.params@.len(),
                ps.len() >= 1,
                idxs_view(matched@) == midx,
                midx == matched_idxs(s0, ps),
                forall|l: int| 0 <= l < midx.len() ==> 0 <= #[trigger] midx[l] < s0.archetypes.len(),
                forall|l: int|
                    0 <= l < midx.len() ==> matches_params(s0.archetypes[#[trigger] midx[l]], ps),
                forall|l: int|
                    0 <= l < j ==> demand_ok(s0.archetypes[#[trigger] midx[l]], ps),
            decreases matched@.len() - j,
        {
            let ai = matched[j];
            proof {
                assert(midx[j as int] == matched@[j as int] as int);
            }
            let a = self.get_archetype_at(ai);
            let mut p: usize = 0;
            while p < q.params.len()
                invariant
                    p <= q.params@.len(),
                    *self == *old(self),
                    self@ == s0,
                    s0.wf(),
                    ps == q@,
                    ps.len() == q.params@.len(),
                    a@ == s0.archetypes[idxs_view(matched@)[j as int]],
                    j < matched@.len(),
                    idxs_view(matched@) == midx,
                    s0.wf(),
                    0 <= midx[j as int] < s0.archetypes.len(),
                    matches_params(a@, ps),
                    forall|pp: int|
                        0 <= pp < p ==> {
                            let c = a@.col_of((#[trigger] ps[pp]).0);
                            match ps[pp].1 {
                                AccessMode::Read => !c.writer && c.readers < usize::MAX,
                                AccessMode::Write => !c.writer && c.readers == 0,
                            }
                        },
                decreases q.params@.len() - p,
            {
                proof {
                    assert(ps[p as int] == q.params@[p as int]@);
                    assert(a@.has_kind(ps[p as int].0));
                    assert(a@.kinds_unique());
                }
                let (rdrs, wrtr) = a.column_lock_state(&q.params[p].kind);
                let ok = match q.params[p].mode {
                    AccessMode::Read => !wrtr && rdrs < usize::MAX,
                    AccessMode::Write => !wrtr && rdrs == 0,
                };
                if !ok {
                    proof {
                        if demand_ok(a@, ps) {
                            assert({
                                let c = a@.col_of((#[trigger] ps[p as int]).0);
                                match ps[p as int].1 {
                                    AccessMode::Read => !c.writer && c.readers < usize::MAX,
                                    AccessMode::Write => !c.writer && c.readers == 0,
                                }
                            });
                        }
                        assert(!demand_ok(a@, ps));
                        assert(matches_params(s0.archetypes[midx[j as int]], ps));
                        assert(!conflict_free(s0, ps));
                    }
                    return Err(EcsError::LockConflict);
                }
                p += 1;
            }
            j += 1;
        }
        proof {
            assert(conflict_free(s0, ps)) by {
                assert forall|mm: int|
                    0 <= mm < s0.archetypes.len() && matches_params(
                        #[trigger] s0.archetypes[mm],
                        ps,
                    ) implies demand_ok(s0.archetypes[mm], ps) by {
                    assert(midx.contains(mm));
                    let l = choose|l: int| 0 <= l < midx.len() && midx[l] == mm;
                    assert(demand_ok(s0.archetypes[midx[l]], ps));
                }
            }
        }
        // Take every lock and snapshot every matched column.
        let mut data: Vec<Vec<Vec<ComponentValue>>> = Vec::new();
        let mut p0: usize = 0;
        while p0 < q.params.len()
            invariant
                p0 <= q.params@.len(),
                data@.len() == p0,
                forall|p: int| 0 <= p < p0 ==> (#[trigger] data@[p])@.len() == 0,
            decreases q.params@.len() - p0,
        {
            data.push(Vec::new());
            p0 += 1;
        }
        proof {
            assert(midx.subrange(0, 0) =~= Seq::<int>::empty());
            assert(self@.archetypes =~= locked_prefix(s0, ps, midx.subrange(0, 0)).archetypes);
            assert(self@ == locked_prefix(s0, ps, midx.subrange(0, 0)));
        }
        let mut j: usize = 0;
        while j < matched.len()
            invariant
                j <= matched@.len(),
                ps == q@,
                ps.len() == q.params@.len(),
                ps.len() >= 1,
                params_distinct(ps),
                s0.wf(),
                conflict_free(s0, ps),
                idxs_view(matched@) == midx,
                midx == matched_idxs(s0, ps),
                forall|l: int| 0 <= l < midx.len() ==> 0 <= #[trigger] midx[l] < s0.archetypes.len(),
                forall|l: int, l2: int|
                    0 <= l < l2 < midx.len() ==> #[trigger] midx[l] < #[trigger] midx[l2],
                forall|l: int|
                    0 <= l < midx.len() ==> matches_params(s0.archetypes[#[trigger] midx[l]], ps),
                self@ == locked_prefix(s0, ps, midx.subrange(0, j as int)),
                data@.len() == ps.len(),
                forall|p: int| 0 <= p < ps.len() ==> (#[trigger] data@[p])@.len() == j,
                forall|p: int, l: int|
                    0 <= p < ps.len() && 0 <= l < j ==> values_view(
                        (#[trigger] data@[p]@[l])@,
                    ) == s0.archetypes[midx[l]].col_of(ps[p].0).values,
            decreases matched@.len() - j,
        {
            let ai = matched[j];
            let ghost a0 = s0.archetypes[ai as int];
            proof {
                assert(midx[j as int] == ai as int);
                assert(!midx.subrange(0, j as int).contains(ai as int)) by {
                    if midx.subrange(0, j as int).contains(ai as int) {
                        let l = choose|l: int|
                            0 <= l < j && midx.subrange(0, j as int)[l] == ai as int;
                        assert(midx[l] == ai as int);
                        assert(midx[l] < midx[j as int]);
                    }
                }
                assert(locked_prefix(s0, ps, midx.subrange(0, j as int)).archetypes[ai as int]
                    == a0);
                assert(arch_locked(a0, ps.subrange(0, 0)) == a0) by {
                    assert(arch_locked(a0, ps.subrange(0, 0)).columns =~= a0.columns);
                }
            }
            let mut p: usize = 0;
            while p < q.params.len()
                invariant
                    p <= q.params@.len(),
                    ps == q@,
                    ps.len() == q.params@.len(),
                    params_distinct(ps),
                    s0.wf(),
                    j < matched@.len(),
                    idxs_view(matched@) == midx,
                    ai == matched@[j as int],
                    midx[j as int] == ai as int,
                    0 <= ai as int && (ai as int) < s0.archetypes.len(),
                    a0 == s0.archetypes[ai as int],
                    a0.wf(),
                    matches_params(a0, ps),
                    demand_ok(a0, ps),
                    !midx.subrange(0, j as int).contains(ai as int),
                    self@.next_entity_id == s0.next_entity_id,
                    self@.archetypes.len() == s0.archetypes.len(),
                    forall|mm: int|
                        0 <= mm < s0.archetypes.len() && mm != ai as int
                            ==> #[trigger] self@.archetypes[mm] == locked_prefix(
                            s0,
                            ps,
                            midx.subrange(0, j as int),
                        ).archetypes[mm],
                    self@.archetypes[ai as int] == arch_locked(a0, ps.subrange(0, p as int)),
                    data@.len() == ps.len(),
                    forall|pp: int|
                        0 <= pp < ps.len() ==> (#[trigger] data@[pp])@.len() == (if pp < p {
                            j + 1
                        } else {
                            j as int
                        }),
                    forall|pp: int, l: int|
                        0 <= pp < ps.len() && 0 <= l < j ==> values_view(
                            (#[trigger] data@[pp]@[l])@,
                        ) == s0.archetypes[midx[l]].col_of(ps[pp].0).values,
                    forall|pp: int|
                        0 <= pp < p ==> values_view((#[trigger] data@[pp])@[j as int]@)
                            == a0.col_of(ps[pp].0).values,
                decreases q.params@.len() - p,
            {
                let ghost cur = self@.archetypes[ai as int];
                let ghost k = ps[p as int].0;
                proof {
                    assert(ps[p as int] == q.params@[p as int]@);
                    assert(!params_has_kind(ps.subrange(0, p as int), k)) by {
                        if params_has_kind(ps.subrange(0, p as int), k) {
                            let w = choose|w: int|
                                0 <= w < p && (#[trigger] ps.subrange(0, p as int)[w]).0 == k;
                            assert(ps[w].0 == ps[p as int].0);
                        }
                    }
                    assert(a0.has_kind(k));
                    let ci = a0.col_idx(k);
                    assert(a0.columns[ci].kind == k);
                    assert(cur.columns.len() == a0.columns.len());
                    assert(cur.columns[ci].kind == k);
                    assert(cur.kinds_unique()) by {
                        assert forall|x: int, y: int|
                            0 <= x < y < cur.columns.len() implies (#[trigger] cur.columns[x]).kind
                            != (#[trigger] cur.columns[y]).kind by {
                            assert(cur.columns[x].kind == a0.columns[x].kind);
                            assert(cur.columns[y].kind == a0.columns[y].kind);
                        }
                    }
                    crate::storage::lemma_col_idx_unique(cur, k, ci);
                    assert(cur.col_of(k) == cur.columns[ci]);
                    assert(cur.columns[ci] == a0.columns[ci]);
                    crate::storage::lemma_col_idx_unique(a0, k, ci);
                }
                let arch = self.archetype_at_mut(ai);
                let vals = match q.params[p].mode {
                    AccessMode::Read => {
                        let got = arch.get_component_vec_lock(&q.params[p].kind);
                        match got {
                            Ok(v) => v,
                            Err(_) => {
                                proof {
                                    assert(false);
                                }
                                Vec::new()
                            },
                        }
                    },
                    AccessMode::Write => {
                        let got = arch.get_component_vec_lock_mut(&q.params[p].kind);
                        match got {
                            Ok(v) => v,
                            Err(_) => {
                                proof {
                                    assert(false);
                                }
                                Vec::new()
                            },
                        }
                    },
                };
                proof {
                    let ci = a0.col_idx(k);
                    assert(ps.subrange(0, p as int + 1).drop_last() =~= ps.subrange(0, p as int));
                    assert(ps.subrange(0, p as int + 1)[p as int] == ps[p as int]);
                    assert(self@.archetypes[ai as int] == arch_locked(
                        a0,
                        ps.subrange(0, p as int + 1),
                    )) by {
                        let nxt = self@.archetypes[ai as int];
                        let tgt = arch_locked(a0, ps.subrange(0, p as int + 1));
                        assert(nxt.columns.len() == a0.columns.len());
                        assert forall|x: int| 0 <= x < a0.columns.len() implies nxt.columns[x]
                            == tgt.columns[x] by {
                            let kx = a0.columns[x].kind;
                            if x == ci {
                                lemma_mode_of_unique(ps.subrange(0, p as int + 1), k, p as int);
                                assert(params_has_kind(ps.subrange(0, p as int + 1), kx)) by {
                                    assert(ps.subrange(0, p as int + 1)[p as int].0 == kx);
                                }
                            } else {
                                assert(kx != k) by {
                                    if kx == k {
                                        if x < ci {
                                            assert(a0.columns[x].kind != a0.columns[ci].kind);
                                        } else {
                                            assert(a0.columns[ci].kind != a0.columns[x].kind);
                                        }
                                    }
                                }
                                assert(nxt.columns[x] == arch_locked(
                                    a0,
                                    ps.subrange(0, p as int),
                                ).columns[x]);
                                assert(params_has_kind(ps.subrange(0, p as int + 1), kx)
                                    == params_has_kind(ps.subrange(0, p as int), kx)) by {
                                    if params_has_kind(ps.subrange(0, p as int + 1), kx) {
                                        let w = choose|w: int|
                                            0 <= w < p + 1 && (#[trigger] ps.subrange(
                                                0,
                                                p as int + 1,
                                            )[w]).0 == kx;
                                        if w < p {
                                            assert(ps.subrange(0, p as int)[w].0 == kx);
                                        }
                                    }
                                    if params_has_kind(ps.subrange(0, p as int), kx) {
                                        let w = choose|w: int|
                                            0 <= w < p && (#[trigger] ps.subrange(
                                                0,
                                                p as int,
                                            )[w]).0 == kx;
                                        assert(ps.subrange(0, p as int + 1)[w].0 == kx);
                                    }
                                }
                                if params_has_kind(ps.subrange(0, p as int), kx) {
                                    lemma_mode_of_unique_sub(ps, p as int, kx);
                                }
                            }
                        }
                        assert(nxt.columns =~= tgt.columns);
                    }
                    assert(values_view(vals@) == a0.col_of(k).values);
                }
                data_push_segment(&mut data, p, vals);
                p += 1;
            }
            proof {
                assert(ps.subrange(0, ps.len() as int) =~= ps);
                assert(self@.archetypes[ai as int] == arch_locked(a0, ps));
                assert(midx.subrange(0, j as int + 1) =~= midx.subrange(0, j as int).push(
                    ai as int,
                ));
                assert(self@.archetypes =~= locked_prefix(
                    s0,
                    ps,
                    midx.subrange(0, j as int + 1),
                ).archetypes) by {
                    assert forall|mm: int| 0 <= mm < s0.archetypes.len() implies self@.archetypes[mm]
                        == locked_prefix(s0, ps, midx.subrange(0, j as int + 1)).archetypes[mm] by {
                        lemma_contains_push(midx.subrange(0, j as int), ai as int, mm);
                    }
                }
            }
            j += 1;
        }
        // Assemble the result.
        let mut out_params: Vec<Parameter> = Vec::new();
        let mut p1: usize = 0;
        while p1 < q.params.len()
            invariant
                p1 <= q.params@.len(),
                out_params@.len() == p1,
                forall|p: int| 0 <= p < p1 ==> #[trigger] out_params@[p]@ == q.params@[p]@,
            decreases q.params@.len() - p1,
        {
            let kind = q.params[p1].kind.duplicate();
            let mode = q.params[p1].mode;
            out_params.push(Parameter { kind, mode });
            p1 += 1;
        }
        let qr = QueryResult { params: out_params, matched, data, seg: 0, off: 0 };
        proof {
            assert(qr@.params =~= q@);
            assert(midx.subrange(0, midx.len() as int) =~= midx);
            assert(self@.archetypes =~= locked_storage(s0, ps).archetypes) by {
                assert forall|mm: int| 0 <= mm < s0.archetypes.len() implies self@.archetypes[mm]
                    == locked_storage(s0, ps).archetypes[mm] by {
                    lemma_matched_upto_props(s0, ps, n as int);
                    if matches_params(s0.archetypes[mm], ps) {
                        assert(midx.contains(mm));
                    } else {
                        if midx.contains(mm) {
                            let l = choose|l: int| 0 <= l < midx.len() && midx[l] == mm;
                            assert(matches_params(s0.archetypes[midx[l]], ps));
                        }
                    }
                }
            }
            lemma_locked_storage_wf(s0, ps);
            assert(qr@.wf()) by {
                assert forall|p: int, l: int|
                    0 <= p < qr@.data.len() && 0 <= l < qr@.matched.len() implies (
                #[trigger] qr@.data[p][l]).len() == qr@.data[0][l].len() by {
                    let am = s0.archetypes[midx[l]];
                    assert(qr@.data[p][l] == am.col_of(ps[p].0).values);
                    assert(qr@.data[0][l] == am.col_of(ps[0].0).values);
                    assert(am.wf());
                    assert(am.col_of(ps[p].0).values.len() == am.entity_ids.len());
                    assert(am.col_of(ps[0].0).values.len() == am.entity_ids.len());
                }
            }
            assert(qr@.holds_on(self@)) by {
                assert forall|l: int, p: int|
                    0 <= l < qr@.matched.len() && 0 <= p < qr@.params.len() implies {
                    let a = self@.archetypes[#[trigger] qr@.matched[l]];
                    let c = a.col_of((#[trigger] qr@.params[p]).0);
                    &&& a.has_kind(qr@.params[p].0)
                    &&& c.values.len() == qr@.data[p][l].len()
                    &&& match qr@.params[p].1 {
                        AccessMode::Read => c.readers > 0,
                        AccessMode::Write => c.writer,
                    }
                } by {
                    let mm = qr@.matched[l];
                    let a0m = s0.archetypes[mm];
                    let k = qr@.params[p].0;
                    let a = self@.archetypes[mm];
                    assert(a == arch_locked(a0m, ps));
                    assert(a0m.has_kind(k));
                    let ci = a0m.col_idx(k);
                    assert(a0m.kinds_unique());
                    assert(a.columns[ci].kind == k);
                    assert(a.kinds_unique()) by {
                        assert forall|x: int, y: int|
                            0 <= x < y < a.columns.len() implies (#[trigger] a.columns[x]).kind != (
                        #[trigger] a.columns[y]).kind by {
                            assert(a.columns[x].kind == a0m.columns[x].kind);
                            assert(a.columns[y].kind == a0m.columns[y].kind);
                        }
                    }
                    crate::storage::lemma_col_idx_unique(a, k, ci);
                    crate::storage::lemma_col_idx_unique(a0m, k, ci);
                    lemma_mode_of_unique(ps, k, p);
                    assert(params_has_kind(ps, k)) by {
                        assert(ps[p].0 == k);
                    }
                    assert(demand_ok(a0m, ps));
                }
            }
        }
        Ok(qr)
    }
}

/// With distinct kinds, the mode a prefix assigns to a kind it holds is
/// the mode the whole list assigns it.
proof fn lemma_mode_of_unique_sub(ps: Seq<(Seq<char>, AccessMode)>, p: int, k: Seq<char>)
    requires
        params_distinct(ps),
        0 <= p < ps.len(),
        params_has_kind(ps.subrange(0, p), k),
    ensures
        mode_of(ps.subrange(0, p), k) == mode_of(ps.subrange(0, p + 1), k),
{
    let w = choose|w: int| 0 <= w < p && (#[trigger] ps.subrange(0, p)[w]).0 == k;
    assert(ps.subrange(0, p)[w] == ps[w]);
    assert(ps.subrange(0, p + 1)[w] == ps[w]);
    assert(params_distinct(ps.subrange(0, p))) by {
        assert forall|x: int, y: int|
            0 <= x < y < p implies (#[trigger] ps.subrange(0, p)[x]).0 != (#[trigger] ps.subrange(
            0,
            p,
        )[y]).0 by {
            assert(ps.subrange(0, p)[x] == ps[x]);
            assert(ps.subrange(0, p)[y] == ps[y]);
        }
    }
    assert(params_distinct(ps.subrange(0, p + 1))) by {
        assert forall|x: int, y: int|
            0 <= x < y < p + 1 implies (#[trigger] ps.subrange(0, p + 1)[x]).0 != (
        #[trigger] ps.subrange(0, p + 1)[y]).0 by {
            assert(ps.subrange(0, p + 1)[x] == ps[x]);
            assert(ps.subrange(0, p + 1)[y] == ps[y]);
        }
    }
    lemma_mode_of_unique(ps.subrange(0, p), k, w);
    lemma_mode_of_unique(ps.subrange(0, p + 1), k, w);
}

/// Locking changes no value, no id and no kind, so a well-formed store
/// stays well-formed.
proof fn lemma_locked_storage_wf(s: StorageV, ps: Seq<(Seq<char>, AccessMode)>)
    requires
        s.wf(),
    ensures
        locked_storage(s, ps).wf(),
{
    let t = locked_storage(s, ps);
    assert forall|m: int| 0 <= m < t.archetypes.len() implies (#[trigger] t.archetypes[m]).wf() by {
        let a = s.archetypes[m];
        assert(a.wf());
        if matches_params(a, ps) {
            let la = arch_locked(a, ps);
            assert forall|x: int, y: int|
                0 <= x < y < la.columns.len() implies (#[trigger] la.columns[x]).kind != (
            #[trigger] la.columns[y]).kind by {
                assert(la.columns[x].kind == a.columns[x].kind);
                assert(la.columns[y].kind == a.columns[y].kind);
            }
            assert forall|x: int| 0 <= x < la.columns.len() implies (
            #[trigger] la.columns[x]).values.len() == la.entity_ids.len() by {
                assert(la.columns[x].values == a.columns[x].values);
            }
        }
    }
    assert forall|m: int, i: int|
        0 <= m < t.archetypes.len() && 0 <= i < t.archetypes[m].entity_ids.len() implies
    #[trigger] t.archetypes[m].entity_ids[i] < t.next_entity_id by {
        assert(t.archetypes[m].entity_ids == s.archetypes[m].entity_ids);
        assert(s.archetypes[m].entity_ids[i] < s.next_entity_id);
    }
    assert forall|m: int, m2: int|
        0 <= m < m2 < t.archetypes.len() implies (#[trigger] t.archetypes[m]).bundle_kind != (
    #[trigger] t.archetypes[m2]).bundle_kind by {
        assert(t.archetypes[m].bundle_kind == s.archetypes[m].bundle_kind);
        assert(t.archetypes[m2].bundle_kind == s.archetypes[m2].bundle_kind);
    }
}

/// The position of the parameter requesting the given kind.
pub open spec fn param_idx_of(ps: Seq<(Seq<char>, AccessMode)>, k: Seq<char>) -> int {
    choose|p: int| 0 <= p < ps.len() && (#[trigger] ps[p]).0 == k
}

/// An archetype after every lock a result took on it was let go: one
/// reader fewer on each read kind and, on each written kind, the writer
/// flag cleared and the result's staged values stored in place.
pub open spec fn arch_released(
    a: ArchetypeV,
    ps: Seq<(Seq<char>, AccessMode)>,
    row_data: Seq<Seq<ComponentValueV>>,
) -> ArchetypeV {
    ArchetypeV {
        bundle_kind: a.bundle_kind,
        entity_ids: a.entity_ids,
        columns: Seq::new(
            a.columns.len(),
            |i: int|
                if params_has_kind(ps, a.columns[i].kind) {
                    match mode_of(ps, a.columns[i].kind) {
                        AccessMode::Read => ColumnV {
                            readers: (a.columns[i].readers - 1) as nat,
                            ..a.columns[i]
                        },
                        AccessMode::Write => ColumnV {
                            values: row_data[param_idx_of(ps, a.columns[i].kind)],
                            writer: false,
                            ..a.columns[i]
                        },
                    }
                } else {
                    a.columns[i]
                },
        ),
    }
}

/// The per-parameter data a result holds for the archetype at one matched
/// position.
pub open spec fn seg_data(qr: QueryResultV, j: int) -> Seq<Seq<ComponentValueV>> {
    Seq::new(qr.params.len(), |p: int| qr.data[p][j])
}

/// The position in the matched list at which a result matched the given
/// archetype.
pub open spec fn seg_of(qr: QueryResultV, m: int) -> int {
    choose|j: int| 0 <= j < qr.matched.len() && (#[trigger] qr.matched[j]) == m
}

/// The store after a result was released: every matched archetype released
/// per the result's parameters and staged data, every other archetype
/// untouched.
pub open spec fn released_storage(s: StorageV, qr: QueryResultV) -> StorageV {
    StorageV {
        archetypes: Seq::new(
            s.archetypes.len(),
            |m: int|
                if qr.matched.contains(m) {
                    arch_released(s.archetypes[m], qr.params, seg_data(qr, seg_of(qr, m)))
                } else {
                    s.archetypes[m]
                },
        ),
        next_entity_id: s.next_entity_id,
    }
}

impl QueryResult {
    /// How many parameters the result carries.
    pub fn param_count(&self) -> (n: usize)
        ensures
            n == self@.params.len(),
    {
        self.params.len()
    }

    /// The next row of the single logical sequence the result yields: one
    /// value per parameter, rows of every matched archetype in match
    /// order. Each row is handed out exactly once; after the last, `None`.
    pub fn next(&mut self) -> (r: Option<Vec<ComponentValue>>)
        requires
            old(self)@.wf(),
        ensures
            final(self)@.wf(),
            final(self)@.params == old(self)@.params,
            final(self)@.matched == old(self)@.matched,
            final(self)@.data == old(self)@.data,
            old(self)@.consumed() < old(self)@.total_rows() ==> {
                &&& r is Some
                &&& final(self)@.consumed() == old(self)@.consumed() + 1
                &&& values_view((r->Some_0)@) == old(self)@.row_at(old(self)@.consumed())
            },
            old(self)@.consumed() >= old(self)@.total_rows() ==> r is None && final(self)@.consumed()
                == old(self)@.consumed(),
    {
        let ghost pre = self@;
        while self.seg < self.matched.len() && self.off == data_seg_len(&self.data, self.seg)
            invariant
                pre.wf(),
                params_view(self.params@) == pre.params,
                idxs_view(self.matched@) == pre.matched,
                data_view(self.data@) == pre.data,
                0 <= self.seg <= self.matched@.len(),
                self.seg < self.matched@.len() ==> (self.off as int) <= pre.data[0][self.seg as int].len(),
                self.seg == self.matched@.len() ==> self.off == 0,
                prefix_rows(pre.data[0], self.seg as int) + self.off == pre.consumed(),
            decreases self.matched@.len() - self.seg,
        {
            proof {
                assert(pre.data[0][self.seg as int].len() == prefix_rows(
                    pre.data[0],
                    self.seg as int + 1,
                ) - prefix_rows(pre.data[0], self.seg as int));
            }
            self.seg += 1;
            self.off = 0;
        }
        proof {
            lemma_flatten_len(pre.data[0]);
        }
        if self.seg == self.matched.len() {
            proof {
                assert(self@.consumed() == pre.consumed());
                assert(pre.consumed() >= pre.total_rows()) by {
                    assert(prefix_rows(pre.data[0], self.seg as int) == pre.total_rows());
                }
            }
            return None;
        }
        proof {
            assert((self.off as int) < pre.data[0][self.seg as int].len());
            lemma_prefix_rows_mono(pre.data[0], self.seg as int + 1, pre.matched.len() as int);
            assert(prefix_rows(pre.data[0], self.seg as int + 1) == prefix_rows(
                pre.data[0],
                self.seg as int,
            ) + pre.data[0][self.seg as int].len());
            assert(pre.consumed() < pre.total_rows());
        }
        let mut row: Vec<ComponentValue> = Vec::new();
        let mut p: usize = 0;
        let ghost c = pre.consumed();
        proof {
            lemma_prefix_rows_nonneg(pre.data[0], self.seg as int);
        }
        while p < self.params.len()
            invariant
                p <= self.params@.len(),
                pre.wf(),
                params_view(self.params@) == pre.params,
                data_view(self.data@) == pre.data,
                idxs_view(self.matched@) == pre.matched,
                0 <= self.seg,
                (self.seg as int) < pre.matched.len(),
                (self.off as int) < pre.data[0][self.seg as int].len(),
                c == prefix_rows(pre.data[0], self.seg as int) + self.off,
                0 <= c < pre.total_rows(),
                row@.len() == p,
                forall|pp: int|
                    0 <= pp < p ==> (#[trigger] row@[pp])@ == pre.data[pp][self.seg as int][self.off as int],
            decreases self.params@.len() - p,
        {
            proof {
                assert(pre.data[p as int].len() == pre.matched.len());
                assert(pre.data[p as int][self.seg as int].len() == pre.data[0][self.seg as int].len());
            }
            let v = value_clone(&self.data[p][self.seg][self.off]);
            proof {
                assert(data_view(self.data@)[p as int][self.seg as int][self.off as int]
                    == self.data@[p as int]@[self.seg as int]@[self.off as int]@);
            }
            row.push(v);
            p += 1;
        }
        self.off += 1;
        proof {
            assert(self@.consumed() == c + 1);
            assert(values_view(row@) =~= pre.row_at(c)) by {
                assert forall|pp: int| 0 <= pp < pre.params.len() implies values_view(row@)[pp]
                    == pre.row_at(c)[pp] by {
                    lemma_prefix_rows_congruent(pre.data[pp], pre.data[0], self.seg as int);
                    lemma_flatten_index(pre.data[pp], self.seg as int, self.off as int - 1);
                }
            }
            assert(self@.wf());
        }
        Some(row)
    }

    /// Stage a value for one write-mode parameter at one row of the
    /// result's logical sequence. The store itself is unchanged until the
    /// result is released.
    pub fn write_at(&mut self, param: usize, row: usize, value: ComponentValue)
        requires
            old(self)@.wf(),
            param < old(self)@.params.len(),
            old(self)@.params[param as int].1 is Write,
            (row as int) < old(self)@.total_rows(),
        ensures
            final(self)@.wf(),
            final(self)@.params == old(self)@.params,
            final(self)@.matched == old(self)@.matched,
            final(self)@.seg == old(self)@.seg,
            final(self)@.off == old(self)@.off,
            forall|p: int|
                0 <= p < old(self)@.params.len() && p != param ==> #[trigger] final(self)@.data[p]
                    == old(self)@.data[p],
            forall|j: int|
                0 <= j < old(self)@.matched.len() ==> (#[trigger] final(self)@.data[param as int][j]).len()
                    == old(self)@.data[param as int][j].len(),
            final(self)@.data[param as int].flatten() == old(self)@.data[param as int].flatten().update(
                row as int,
                value@,
            ),
    {
        let ghost pre = self@;
        let ghost dp = pre.data[param as int];
        proof {
            lemma_prefix_rows_congruent_all(dp, pre.data[0], pre.matched.len() as int);
        }
        let bound = self.matched.len();
        let mut sgi: usize = 0;
        let mut r = row;
        loop
            invariant
                pre.wf(),
                bound == pre.matched.len(),
                param < pre.params.len(),
                params_view(self.params@) == pre.params,
                idxs_view(self.matched@) == pre.matched,
                data_view(self.data@) == pre.data,
                self.seg == pre.seg,
                self.off == pre.off,
                dp == pre.data[param as int],
                dp.len() == pre.matched.len(),
                0 <= sgi <= pre.matched.len(),
                (row as int) == prefix_rows(dp, sgi as int) + r,
                (row as int) < prefix_rows(dp, pre.matched.len() as int),
            ensures
                (sgi as int) < pre.matched.len(),
                (r as int) < dp[sgi as int].len(),
                (row as int) == prefix_rows(dp, sgi as int) + r,
            decreases pre.matched.len() - sgi,
        {
            proof {
                assert((sgi as int) < pre.matched.len()) by {
                    if sgi as int == pre.matched.len() {
                        assert((row as int) == prefix_rows(dp, pre.matched.len() as int) + r);
                        assert(false);
                    }
                }
                assert(pre.data[param as int][sgi as int].len() == self.data@[param as int]@[sgi as int]@.len());
            }
            let l = data_seg_len_p(&self.data, param, sgi);
            if r < l {
                break ;
            }
            proof {
                assert(prefix_rows(dp, sgi as int + 1) == prefix_rows(dp, sgi as int)
                    + dp[sgi as int].len());
                lemma_prefix_rows_mono(dp, sgi as int + 1, pre.matched.len() as int);
            }
            r -= l;
            sgi += 1;
        }
        proof {
            assert((sgi as int) < pre.matched.len());
            assert((r as int) < dp[sgi as int].len());
        }
        data_set_value(&mut self.data, param, sgi, r, value);
        proof {
            assert(data_view(self.data@) =~= pre.data.update(
                param as int,
                dp.update(sgi as int, dp[sgi as int].update(r as int, value@)),
            ));
            lemma_flatten_update(dp, sgi as int, r as int, value@);
            assert(self@.wf()) by {
                assert forall|p: int, j: int|
                    0 <= p < self@.data.len() && 0 <= j < self@.matched.len() implies (
                #[trigger] self@.data[p][j]).len() == self@.data[0][j].len() by {
                    assert(pre.data[p][j].len() == pre.data[0][j].len());
                    if p == param && j == sgi as int {
                    }
                }
            }
        }
    }

    /// Let every lock the result took go, storing each write-mode
    /// parameter's staged values into its columns. The written values are
    /// visible to any later query or serialization from here on.
    pub fn release(self, storage: &mut Storage)
        requires
            old(storage)@.wf(),
            self@.wf(),
            self@.holds_on(old(storage)@),
        ensures
            final(storage)@.wf(),
            final(storage)@ == released_storage(old(storage)@, self@),
    {
        let ghost s0 = old(storage)@;
        let ghost qr = self@;
        let QueryResult { params, matched, data, seg: _, off: _ } = self;
        let mut j: usize = 0;
        proof {
            assert(idxs_view(matched@).subrange(0, 0) =~= Seq::<int>::empty());
            assert(storage@.archetypes =~= released_prefix(s0, qr, 0).archetypes);
        }
        while j < matched.len()
            invariant
                j <= matched@.len(),
                s0.wf(),
                qr.wf(),
                qr.holds_on(s0),
                params_view(params@) == qr.params,
                idxs_view(matched@) == qr.matched,
                data_view(data@) == qr.data,
                storage@ == released_prefix(s0, qr, j as int),
            decreases matched@.len() - j,
        {
            let ai = matched[j];
            let ghost a0 = s0.archetypes[ai as int];
            proof {
                assert(qr.matched[j as int] == ai as int);
                assert(!matched_before(qr, j as int, ai as int)) by {
                    if matched_before(qr, j as int, ai as int) {
                        let l = choose|l: int|
                            0 <= l < j && (#[trigger] qr.matched[l]) == ai as int;
                        assert(qr.matched[l] < qr.matched[j as int]);
                    }
                }
                assert(released_prefix(s0, qr, j as int).archetypes[ai as int] == a0);
                assert(arch_released(a0, qr.params.subrange(0, 0), seg_data(qr, j as int)) == a0)
                    by {
                    assert(arch_released(
                        a0,
                        qr.params.subrange(0, 0),
                        seg_data(qr, j as int),
                    ).columns =~= a0.columns);
                }
                assert(a0.wf());
            }
            let mut p: usize = 0;
            while p < params.len()
                invariant
                    p <= params@.len(),
                    s0.wf(),
                    qr.wf(),
                    qr.holds_on(s0),
                    params_view(params@) == qr.params,
                    idxs_view(matched@) == qr.matched,
                    data_view(data@) == qr.data,
                    j < matched@.len(),
                    ai == matched@[j as int],
                    qr.matched[j as int] == ai as int,
                    0 <= ai as int && (ai as int) < s0.archetypes.len(),
                    a0 == s0.archetypes[ai as int],
                    a0.wf(),
                    !matched_before(qr, j as int, ai as int),
                    storage@.next_entity_id == s0.next_entity_id,
                    storage@.archetypes.len() == s0.archetypes.len(),
                    forall|mm: int|
                        0 <= mm < s0.archetypes.len() && mm != ai as int
                            ==> #[trigger] storage@.archetypes[mm] == released_prefix(
                            s0,
                            qr,
                            j as int,
                        ).archetypes[mm],
                    storage@.archetypes[ai as int] == arch_released(
                        a0,
                        qr.params.subrange(0, p as int),
                        seg_data(qr, j as int),
                    ),
                decreases params@.len() - p,
            {
                let ghost cur = storage@.archetypes[ai as int];
                let ghost ps = qr.params;
                let ghost k = ps[p as int].0;
                proof {
                    assert(ps[p as int] == params@[p as int]@);
                    assert(!params_has_kind(ps.subrange(0, p as int), k)) by {
                        if params_has_kind(ps.subrange(0, p as int), k) {
                            let w = choose|w: int|
                                0 <= w < p && (#[trigger] ps.subrange(0, p as int)[w]).0 == k;
                            assert(ps[w].0 == ps[p as int].0);
                        }
                    }
                    assert(a0.has_kind(k));
                    let ci = a0.col_idx(k);
                    assert(a0.columns[ci].kind == k);
                    assert(cur.columns.len() == a0.columns.len());
                    assert(cur.columns[ci].kind == k);
                    assert(cur.kinds_unique()) by {
                        assert forall|x: int, y: int|
                            0 <= x < y < cur.columns.len() implies (#[trigger] cur.columns[x]).kind
                            != (#[trigger] cur.columns[y]).kind by {
                            assert(cur.columns[x].kind == a0.columns[x].kind);
                            assert(cur.columns[y].kind == a0.columns[y].kind);
                        }
                    }
                    crate::storage::lemma_col_idx_unique(cur, k, ci);
                    crate::storage::lemma_col_idx_unique(a0, k, ci);
                    assert(cur.columns[ci] == a0.columns[ci]);
                }
                let arch = storage.archetype_at_mut(ai);
                match params[p].mode {
                    AccessMode::Read => {
                        arch.release_component_vec_lock(&params[p].kind);
                    },
                    AccessMode::Write => {
                        proof {
                            assert(qr.data[p as int][j as int] == data_view(data@)[p as int][j as int]);
                        }
                        let vals = data_clone_segment(&data, p, j);
                        arch.release_component_vec_lock_mut(&params[p].kind, vals);
                    },
                }
                proof {
                    let ci = a0.col_idx(k);
                    assert(ps.subrange(0, p as int + 1)[p as int] == ps[p as int]);
                    assert(storage@.archetypes[ai as int] == arch_released(
                        a0,
                        ps.subrange(0, p as int + 1),
                        seg_data(qr, j as int),
                    )) by {
                        let nxt = storage@.archetypes[ai as int];
                        let tgt = arch_released(
                            a0,
                            ps.subrange(0, p as int + 1),
                            seg_data(qr, j as int),
                        );
                        assert(nxt.columns.len() == a0.columns.len());
                        assert forall|x: int| 0 <= x < a0.columns.len() implies nxt.columns[x]
                            == tgt.columns[x] by {
                            let kx = a0.columns[x].kind;
                            if x == ci {
                                lemma_mode_of_unique(ps.subrange(0, p as int + 1), k, p as int);
                                assert(params_has_kind(ps.subrange(0, p as int + 1), kx)) by {
                                    assert(ps.subrange(0, p as int + 1)[p as int].0 == kx);
                                }
                                assert(param_idx_of(ps.subrange(0, p as int + 1), kx) == p as int)
                                    by {
                                    let w = param_idx_of(ps.subrange(0, p as int + 1), kx);
                                    if w < p {
                                        assert(ps.subrange(0, p as int + 1)[w].0 == kx);
                                        assert(ps[w].0 == ps[p as int].0);
                                    }
                                }
                                assert(seg_data(qr, j as int)[p as int] == qr.data[p as int][j as int]);
                            } else {
                                assert(kx != k) by {
                                    if kx == k {
                                        if x < ci {
                                            assert(a0.columns[x].kind != a0.columns[ci].kind);
                                        } else {
                                            assert(a0.columns[ci].kind != a0.columns[x].kind);
                                        }
                                    }
                                }
                                assert(nxt.columns[x] == arch_released(
                                    a0,
                                    ps.subrange(0, p as int),
                                    seg_data(qr, j as int),
                                ).columns[x]);
                                assert(params_has_kind(ps.subrange(0, p as int + 1), kx)
                                    == params_has_kind(ps.subrange(0, p as int), kx)) by {
                                    if params_has_kind(ps.subrange(0, p as int + 1), kx) {
                                        let w = choose|w: int|
                                            0 <= w < p + 1 && (#[trigger] ps.subrange(
                                                0,
                                                p as int + 1,
                                            )[w]).0 == kx;
                                        if w < p {
                                            assert(ps.subrange(0, p as int)[w].0 == kx);
                                        }
                                    }
                                    if params_has_kind(ps.subrange(0, p as int), kx) {
                                        let w = choose|w: int|
                                            0 <= w < p && (#[trigger] ps.subrange(
                                                0,
                                                p as int,
                                            )[w]).0 == kx;
                                        assert(ps.subrange(0, p as int + 1)[w].0 == kx);
                                    }
                                }
                                if params_has_kind(ps.subrange(0, p as int), kx) {
                                    lemma_mode_of_unique_sub(ps, p as int, kx);
                                    lemma_param_idx_of_sub(ps, p as int, kx);
                                }
                            }
                        }
                        assert(nxt.columns =~= tgt.columns);
                    }
                }
                p += 1;
            }
            proof {
                assert(qr.params.subrange(0, qr.params.len() as int) =~= qr.params);
                assert(storage@.archetypes[ai as int] == arch_released(
                    a0,
                    qr.params,
                    seg_data(qr, j as int),
                ));
                assert(storage@.archetypes =~= released_prefix(s0, qr, j as int + 1).archetypes)
                    by {
                    assert forall|mm: int| 0 <= mm < s0.archetypes.len() implies storage@.archetypes[mm]
                        == released_prefix(s0, qr, j as int + 1).archetypes[mm] by {
                        if mm == ai as int {
                            assert(matched_before(qr, j as int + 1, mm)) by {
                                assert(qr.matched[j as int] == mm);
                            }
                            assert(first_match(qr, j as int + 1, mm) == j as int) by {
                                let l = first_match(qr, j as int + 1, mm);
                                if l < j {
                                    assert(qr.matched[l] < qr.matched[j as int]);
                                }
                            }
                        } else {
                            assert(matched_before(qr, j as int + 1, mm) == matched_before(
                                qr,
                                j as int,
                                mm,
                            )) by {
                                if matched_before(qr, j as int + 1, mm) {
                                    let l = choose|l: int|
                                        0 <= l < j + 1 && (#[trigger] qr.matched[l]) == mm;
                                    assert(l != j);
                                    assert(matched_before(qr, j as int, mm));
                                }
                                if matched_before(qr, j as int, mm) {
                                    let l = choose|l: int|
                                        0 <= l < j && (#[trigger] qr.matched[l]) == mm;
                                    assert(0 <= l < j + 1 && qr.matched[l] == mm);
                                }
                            }
                            if matched_before(qr, j as int, mm) {
                                assert(first_match(qr, j as int + 1, mm) == first_match(
                                    qr,
                                    j as int,
                                    mm,
                                )) by {
                                    let l1 = first_match(qr, j as int, mm);
                                    let l2 = first_match(qr, j as int + 1, mm);
                                    if l1 != l2 {
                                        if l1 < l2 {
                                            assert(qr.matched[l1] < qr.matched[l2]);
                                        } else {
                                            assert(qr.matched[l2] < qr.matched[l1]);
                                        }
                                    }
                                }
                            }
                        }
                    }
                }
            }
            j += 1;
        }
        proof {
            assert(storage@ == released_storage(s0, qr)) by {
                assert(storage@.archetypes =~= released_storage(s0, qr).archetypes) by {
                    assert forall|mm: int| 0 <= mm < s0.archetypes.len() implies storage@.archetypes[mm]
                        == released_storage(s0, qr).archetypes[mm] by {
                        assert(matched_before(qr, qr.matched.len() as int, mm) == qr.matched.contains(
                            mm,
                        ));
                        if qr.matched.contains(mm) {
                            let l = first_match(qr, qr.matched.len() as int, mm);
                            assert(seg_of(qr, mm) == l) by {
                                let l2 = seg_of(qr, mm);
                                if l != l2 {
                                    if l < l2 {
                                        assert(qr.matched[l] < qr.matched[l2]);
                                    } else {
                                        assert(qr.matched[l2] < qr.matched[l]);
                                    }
                                }
                            }
                        }
                    }
                }
            }
            lemma_released_storage_wf(s0, qr);
        }
    }
}

/// Whether one of the first `j` matched positions names the archetype.
spec fn matched_before(qr: QueryResultV, j: int, m: int) -> bool {
    exists|l: int| 0 <= l < j && (#[trigger] qr.matched[l]) == m
}

/// The matched position among the first `j` naming the archetype.
spec fn first_match(qr: QueryResultV, j: int, m: int) -> int {
    choose|l: int| 0 <= l < j && (#[trigger] qr.matched[l]) == m
}

/// The store while a release is in progress: the archetypes at the first
/// `j` matched positions fully released, all others untouched.
spec fn released_prefix(s: StorageV, qr: QueryResultV, j: int) -> StorageV {
    StorageV {
        archetypes: Seq::new(
            s.archetypes.len(),
            |m: int|
                if matched_before(qr, j, m) {
                    arch_released(s.archetypes[m], qr.params, seg_data(qr, first_match(qr, j, m)))
                } else {
                    s.archetypes[m]
                },
        ),
        next_entity_id: s.next_entity_id,
    }
}

/// Releasing changes no id, no kind and no column length, so a well-formed
/// store stays well-formed.
proof fn lemma_released_storage_wf(s: StorageV, qr: QueryResultV)
    requires
        s.wf(),
        qr.wf(),
        qr.holds_on(s),
    ensures
        released_storage(s, qr).wf(),
{
    let t = released_storage(s, qr);
    assert forall|m: int| 0 <= m < t.archetypes.len() implies (#[trigger] t.archetypes[m]).wf() by {
        let a = s.archetypes[m];
        assert(a.wf());
        if qr.matched.contains(m) {
            let l = seg_of(qr, m);
            assert(0 <= l < qr.matched.len());
            assert(qr.matched[l] == m);
            let ra = arch_released(a, qr.params, seg_data(qr, l));
            assert forall|x: int, y: int|
                0 <= x < y < ra.columns.len() implies (#[trigger] ra.columns[x]).kind != (
            #[trigger] ra.columns[y]).kind by {
                assert(ra.columns[x].kind == a.columns[x].kind);
                assert(ra.columns[y].kind == a.columns[y].kind);
            }
            assert forall|x: int| 0 <= x < ra.columns.len() implies (
            #[trigger] ra.columns[x]).values.len() == ra.entity_ids.len() by {
                let kx = a.columns[x].kind;
                if params_has_kind(qr.params, kx) && mode_of(qr.params, kx) is Write {
                    let pi = param_idx_of(qr.params, kx);
                    assert(0 <= pi < qr.params.len());
                    assert(qr.params[pi].0 == kx);
                    assert(seg_data(qr, l)[pi] == qr.data[pi][l]);
                    assert(a.col_of(kx).values.len() == qr.data[pi][l].len());
                    crate::storage::lemma_col_idx_unique(a, kx, x);
                } else {
                    assert(ra.columns[x].values == a.columns[x].values);
                }
            }
        }
    }
    assert forall|m: int, i: int|
        0 <= m < t.archetypes.len() && 0 <= i < t.archetypes[m].entity_ids.len() implies
    #[trigger] t.archetypes[m].entity_ids[i] < t.next_entity_id by {
        assert(t.archetypes[m].entity_ids == s.archetypes[m].entity_ids);
        assert(s.archetypes[m].entity_ids[i] < s.next_entity_id);
    }
    assert forall|m: int, m2: int|
        0 <= m < m2 < t.archetypes.len() implies (#[trigger] t.archetypes[m]).bundle_kind != (
    #[trigger] t.archetypes[m2]).bundle_kind by {
        assert(t.archetypes[m].bundle_kind == s.archetypes[m].bundle_kind);
        assert(t.archetypes[m2].bundle_kind == s.archetypes[m2].bundle_kind);
    }
}

/// With distinct kinds, the parameter position a prefix assigns to a kind
/// it holds is the position the longer prefix assigns it.
proof fn lemma_param_idx_of_sub(ps: Seq<(Seq<char>, AccessMode)>, p: int, k: Seq<char>)
    requires
        params_distinct(ps),
        0 <= p < ps.len(),
        params_has_kind(ps.subrange(0, p), k),
    ensures
        param_idx_of(ps.subrange(0, p), k) == param_idx_of(ps.subrange(0, p + 1), k),
{
    let w1 = param_idx_of(ps.subrange(0, p), k);
    assert(ps.subrange(0, p)[w1] == ps[w1]);
    assert(ps.subrange(0, p + 1)[w1] == ps[w1]);
    assert(params_has_kind(ps.subrange(0, p + 1), k)) by {
        assert(ps.subrange(0, p + 1)[w1].0 == k);
    }
    let w2 = param_idx_of(ps.subrange(0, p + 1), k);
    assert(ps.subrange(0, p + 1)[w2] == ps[w2]);
    if w1 != w2 {
        if w1 < w2 {
            assert(ps[w1].0 != ps[w2].0);
        } else {
            assert(ps[w2].0 != ps[w1].0);
        }
    }
}

/// The row prefixes of two data blocks agree wherever their segment
/// lengths do.
proof fn lemma_prefix_rows_congruent<A>(d1: Seq<Seq<A>>, d2: Seq<Seq<A>>, j: int)
    requires
        forall|l: int| 0 <= l < j ==> (#[trigger] d1[l]).len() == d2[l].len(),
        0 <= j,
    ensures
        prefix_rows(d1, j) == prefix_rows(d2, j),
    decreases j,
{
    if j > 0 {
        lemma_prefix_rows_congruent(d1, d2, j - 1);
    }
}

/// The row prefixes of two data blocks agree at every cut wherever their
/// segment lengths do.
proof fn lemma_prefix_rows_congruent_all<A>(d1: Seq<Seq<A>>, d2: Seq<Seq<A>>, n: int)
    requires
        forall|l: int| 0 <= l < n ==> (#[trigger] d1[l]).len() == d2[l].len(),
        0 <= n,
    ensures
        forall|j: int| 0 <= j <= n ==> prefix_rows(d1, j) == prefix_rows(d2, j),
{
    assert forall|j: int| 0 <= j <= n implies prefix_rows(d1, j) == prefix_rows(d2, j) by {
        lemma_prefix_rows_congruent(d1, d2, j);
    }
}

/// The length of the first parameter's segment at one matched position.
fn data_seg_len(d: &Vec<Vec<Vec<ComponentValue>>>, seg: usize) -> (n: usize)
    requires
        d@.len() >= 1,
        (seg as int) < d@[0]@.len(),
    ensures
        n == data_view(d@)[0][seg as int].len(),
{
    proof {
        assert(data_view(d@)[0][seg as int] == values_view(d@[0]@[seg as int]@));
    }
    d[0][seg].len()
}

/// The length of one parameter's segment at one matched position.
fn data_seg_len_p(d: &Vec<Vec<Vec<ComponentValue>>>, p: usize, seg: usize) -> (n: usize)
    requires
        (p as int) < d@.len(),
        (seg as int) < d@[p as int]@.len(),
    ensures
        n == data_view(d@)[p as int][seg as int].len(),
{
    proof {
        assert(data_view(d@)[p as int][seg as int] == values_view(d@[p as int]@[seg as int]@));
    }
    d[p][seg].len()
}

/// Overwrite one staged value.
fn data_set_value(d: &mut Vec<Vec<Vec<ComponentValue>>>, p: usize, seg: usize, off: usize, value: ComponentValue)
    requires
        (p as int) < old(d)@.len(),
        (seg as int) < old(d)@[p as int]@.len(),
        (off as int) < old(d)@[p as int]@[seg as int]@.len(),
    ensures
        final(d)@.len() == old(d)@.len(),
        data_view(final(d)@) == data_view(old(d)@).update(
            p as int,
            data_view(old(d)@)[p as int].update(
                seg as int,
                data_view(old(d)@)[p as int][seg as int].update(off as int, value@),
            ),
        ),
{
    d[p][seg][off] = value;
    proof {
        assert(values_view(d@[p as int]@[seg as int]@) =~= data_view(old(d)@)[p as int][seg as int].update(
            off as int,
            value@,
        ));
        assert(d@[p as int]@.map_values(|sv: Vec<ComponentValue>| values_view(sv@)) =~= data_view(
            old(d)@,
        )[p as int].update(
            seg as int,
            data_view(old(d)@)[p as int][seg as int].update(off as int, value@),
        ));
        assert(data_view(d@) =~= data_view(old(d)@).update(
            p as int,
            data_view(old(d)@)[p as int].update(
                seg as int,
                data_view(old(d)@)[p as int][seg as int].update(off as int, value@),
            ),
        ));
    }
}

/// A fresh copy of one staged segment.
fn data_clone_segment(d: &Vec<Vec<Vec<ComponentValue>>>, p: usize, seg: usize) -> (r: Vec<ComponentValue>)
    requires
        (p as int) < d@.len(),
        (seg as int) < d@[p as int]@.len(),
    ensures
        values_view(r@) == data_view(d@)[p as int][seg as int],
        r@.len() == d@[p as int]@[seg as int]@.len(),
{
    proof {
        assert(data_view(d@)[p as int][seg as int] == values_view(d@[p as int]@[seg as int]@));
    }
    crate::value::values_clone(&d[p][seg])
}

/// Append one snapshot to one parameter's data.
fn data_push_segment(d: &mut Vec<Vec<Vec<ComponentValue>>>, p: usize, seg: Vec<ComponentValue>)
    requires
        p < old(d)@.len(),
    ensures
        final(d)@.len() == old(d)@.len(),
        forall|x: int|
            0 <= x < old(d)@.len() && x != p ==> #[trigger] final(d)@[x] == old(d)@[x],
        final(d)@[p as int]@ == old(d)@[p as int]@.push(seg),
{
    let slot = &mut d[p];
    slot.push(seg);
}

} // verus!
