//! Traversal scheduling and the batch pipeline.
//!
//! The scheduler walks the node forest once, top down: a node under a
//! `Disjoint` verdict is skipped with its whole subtree, a node under a
//! `Contains` verdict is taken whole with no per-point test, everything
//! else is loaded and filtered point by point.  The pipeline then processes
//! the scheduled nodes in order, re-chunks surviving rows into batches of at
//! most `max_batch` points and hands each batch to a consumer, stopping at
//! the first error.

use vstd::prelude::*;

verus! {

use crate::data::Batch;
use crate::data::RowV;
use crate::data::matching_rows;
use crate::data::rows_of;
use crate::index::Index;
use crate::index::node_data_ok;
use crate::index::sel_of;
use crate::index::names_of;
use crate::query::Class;
use crate::query::LocationPredicate;
use crate::query::Query;
use crate::query::classify_spec;
use crate::query::cell_covers;
use crate::cell::CellId;
use crate::query::lemma_classify_sound;

/// An error the caller's callback asked the pipeline to propagate.
#[derive(Clone, Copy, PartialEq, Eq, Structural, Debug)]
pub struct CallbackError {
    pub code: u64,
}

/// Everything a query run can fail with.
#[derive(Clone, Copy, PartialEq, Eq, Structural, Debug)]
pub enum QueryError {
    /// The location predicate is malformed; rejected before traversal.
    Geometry,
    /// The backing data of the named node is missing.
    NodeLoad(usize),
    /// The named node lacks a requested attribute.
    AttributeMissing(usize),
    /// The consumer refused a batch; carried through verbatim.
    Callback(CallbackError),
    /// A wire message or stream was malformed.
    Transport,
}

/// How a scheduled node's points are to be treated.
#[derive(Clone, Copy, PartialEq, Eq, Structural, Debug)]
pub enum FilterMode {
    /// Deliver the node's batch without any per-point test.
    TakeAll,
    /// Test every point of the node against the predicate.
    PerPoint,
}

/// The scheduler's verdict for one node.
#[derive(Clone, Copy, PartialEq, Eq, Structural, Debug)]
pub enum Verdict {
    /// Neither the node nor its subtree contributes anything.
    Skip,
    /// All points of the node are results.
    TakeAll,
    /// The node's points must be tested individually.
    PerPoint,
}

/// The verdict a classification alone dictates.
pub open spec fn verdict_of_class(c: Class) -> Verdict {
    match c {
        Class::Disjoint => Verdict::Skip,
        Class::Contains => Verdict::TakeAll,
        Class::Intersects => Verdict::PerPoint,
    }
}

/// The verdict of a node: a skipped or fully taken ancestor decides; only a
/// partially covered parent lets the node's own classification speak.
pub open spec fn verdict_of(ix: Index, pred: LocationPredicate, i: int) -> Verdict
    decreases i,
{
    let own = verdict_of_class(classify_spec(pred, ix.nodes@[i].volume));
    match ix.nodes@[i].parent {
        Option::None => own,
        Option::Some(p) => if 0 <= p < i {
            match verdict_of(ix, pred, p as int) {
                Verdict::Skip => Verdict::Skip,
                Verdict::TakeAll => Verdict::TakeAll,
                Verdict::PerPoint => own,
            }
        } else {
            Verdict::Skip
        },
    }
}

/// Soundness of the scheduler's verdicts: a skipped node holds no matching
/// point, a fully taken node holds only matching points.
pub proof fn lemma_verdict_sound(ix: Index, pred: LocationPredicate, i: int, p: crate::geom::Pos)
    requires
        ix.wf(),
        pred.wf(),
        0 <= i < ix.nodes@.len(),
        p.wf(),
        ix.nodes@[i].volume.contains(p),
    ensures
        verdict_of(ix, pred, i) == Verdict::Skip ==> !pred.contains(p),
        verdict_of(ix, pred, i) == Verdict::TakeAll ==> pred.contains(p),
    decreases i,
{
    lemma_classify_sound(pred, ix.nodes@[i].volume, p);
    match ix.nodes@[i].parent {
        Option::None => {},
        Option::Some(par) => {
            ix.nodes@[i].volume.lemma_inside_transfers(ix.nodes@[par as int].volume, p);
            lemma_verdict_sound(ix, pred, par as int, p);
        },
    }
}

/// Computes every node's verdict in one ascending pass.
pub fn compute_verdicts(ix: &Index, pred: &LocationPredicate) -> (r: Vec<Verdict>)
    requires
        ix.wf(),
        pred.wf(),
    ensures
        r@.len() == ix.nodes@.len(),
        forall|i: int|
            0 <= i < r@.len() ==> #[trigger] r@[i] == verdict_of(*ix, *pred, i),
{
    let n = ix.nodes.len();
    let mut r: Vec<Verdict> = Vec::new();
    let mut i: usize = 0;
    while i < n
        invariant
            0 <= i <= n,
            n == ix.nodes@.len(),
            ix.wf(),
            pred.wf(),
            r@.len() == i,
            forall|m: int|
                0 <= m < i ==> #[trigger] r@[m] == verdict_of(*ix, *pred, m),
        decreases n - i,
    {
        let own = match pred.classify(&ix.nodes[i].volume) {
            Class::Disjoint => Verdict::Skip,
            Class::Contains => Verdict::TakeAll,
            Class::Intersects => Verdict::PerPoint,
        };
        let v = match ix.nodes[i].parent {
            Option::None => own,
            Option::Some(p) => match r[p] {
                Verdict::Skip => Verdict::Skip,
                Verdict::TakeAll => Verdict::TakeAll,
                Verdict::PerPoint => own,
            },
        };
        r.push(v);
        i += 1;
    }
    r
}

/// The scheduler's output up to node `n`: the nodes that must be visited,
/// ascending, each with its filter mode.
pub open spec fn worklist_upto(ix: Index, pred: LocationPredicate, n: int) -> Seq<(usize, FilterMode)>
    decreases n,
{
    if n <= 0 {
        Seq::empty()
    } else {
        let rest = worklist_upto(ix, pred, n - 1);
        match verdict_of(ix, pred, n - 1) {
            Verdict::Skip => rest,
            Verdict::TakeAll => rest.push(((n - 1) as usize, FilterMode::TakeAll)),
            Verdict::PerPoint => rest.push(((n - 1) as usize, FilterMode::PerPoint)),
        }
    }
}

/// The pruning descent of the traversal scheduler: one ordered worklist of
/// nodes to visit, each marked for whole-node delivery or per-point
/// filtering.
pub fn schedule(ix: &Index, pred: &LocationPredicate) -> (w: Vec<(usize, FilterMode)>)
    requires
        ix.wf(),
        pred.wf(),
    ensures
        w@ == worklist_upto(*ix, *pred, ix.nodes@.len() as int),
{
    let verdicts = compute_verdicts(ix, pred);
    let mut w: Vec<(usize, FilterMode)> = Vec::new();
    let mut i: usize = 0;
    while i < verdicts.len()
        invariant
            0 <= i <= verdicts@.len(),
            verdicts@.len() == ix.nodes@.len(),
            ix.wf(),
            pred.wf(),
            forall|m: int|
                0 <= m < verdicts@.len()
                    ==> #[trigger] verdicts@[m] == verdict_of(*ix, *pred, m),
            w@ == worklist_upto(*ix, *pred, i as int),
        decreases verdicts@.len() - i,
    {
        match verdicts[i] {
            Verdict::Skip => {},
            Verdict::TakeAll => {
                w.push((i, FilterMode::TakeAll));
            },
            Verdict::PerPoint => {
                w.push((i, FilterMode::PerPoint));
            },
        }
        i += 1;
    }
    w
}

/// Whether node `i` can serve the query: its data is present and every
/// requested attribute resolves.
pub open spec fn node_ok(ix: Index, q: Query, i: int) -> bool {
    ix.data@[i] is Some && sel_of(ix.data@[i]->0, names_of(q.attributes@)) is Some
}

/// The error a failing node produces.
pub open spec fn error_at(ix: Index, q: Query, i: int) -> QueryError {
    if ix.data@[i] is None {
        QueryError::NodeLoad(i as usize)
    } else {
        QueryError::AttributeMissing(i as usize)
    }
}

/// The rows of node `i` under the query's attribute selection.
pub open spec fn node_rows(ix: Index, q: Query, i: int) -> Seq<RowV> {
    let d = ix.data@[i]->0;
    let sel = sel_of(d, names_of(q.attributes@))->0;
    d.sel_rows(sel)
}

/// The rows node `i` contributes to the result.
pub open spec fn kept_rows(ix: Index, q: Query, i: int) -> Seq<RowV> {
    match verdict_of(ix, q.location, i) {
        Verdict::Skip => Seq::empty(),
        Verdict::TakeAll => node_rows(ix, q, i),
        Verdict::PerPoint => matching_rows(node_rows(ix, q, i), q.location),
    }
}

/// The contributed rows of node `i`, cut into chunks of at most `cap` rows.
pub open spec fn chunks_of(rows: Seq<RowV>, cap: int) -> Seq<Seq<RowV>> {
    Seq::new(
        (((rows.len() + cap - 1) / cap) as nat),
        |k: int| rows.subrange(
            k * cap,
            if (k + 1) * cap <= rows.len() { (k + 1) * cap } else { rows.len() as int },
        ),
    )
}

/// The batches node `i` sends, in order.
pub open spec fn node_plan(ix: Index, q: Query, cap: int, i: int) -> Seq<Seq<RowV>> {
    chunks_of(kept_rows(ix, q, i), cap)
}

/// All batches of nodes `0..n`, in delivery order.
pub open spec fn plan_upto(ix: Index, q: Query, cap: int, n: int) -> Seq<Seq<RowV>>
    decreases n,
{
    if n <= 0 {
        Seq::empty()
    } else {
        plan_upto(ix, q, cap, n - 1) + node_plan(ix, q, cap, n - 1)
    }
}

/// The first visited node at or after `i` that cannot serve the query.
pub open spec fn first_bad_from(ix: Index, q: Query, i: int) -> Option<int>
    decreases ix.nodes@.len() - i,
{
    if i < 0 || i >= ix.nodes@.len() {
        Option::None
    } else if verdict_of(ix, q.location, i) != Verdict::Skip && !node_ok(ix, q, i) {
        Option::Some(i)
    } else {
        first_bad_from(ix, q, i + 1)
    }
}

/// The index before which the run can deliver: the first failing node, or
/// one past the last node.
pub open spec fn eff_end(ix: Index, q: Query) -> int {
    match first_bad_from(ix, q, 0) {
        Option::Some(i) => i,
        Option::None => ix.nodes@.len() as int,
    }
}

/// The batches a run of the query delivers before completing or failing.
pub open spec fn eff_plan(ix: Index, q: Query, cap: int) -> Seq<Seq<RowV>> {
    plan_upto(ix, q, cap, eff_end(ix, q))
}

/// Shorter plan prefixes are prefixes of longer ones.
pub proof fn lemma_plan_extends(ix: Index, q: Query, cap: int, n: int, m: int)
    requires
        0 <= n <= m,
    ensures
        plan_upto(ix, q, cap, n).len() <= plan_upto(ix, q, cap, m).len(),
        plan_upto(ix, q, cap, m).take(plan_upto(ix, q, cap, n).len() as int)
            == plan_upto(ix, q, cap, n),
    decreases m - n,
{
    if n == m {
        assert(plan_upto(ix, q, cap, m).take(plan_upto(ix, q, cap, n).len() as int)
            =~= plan_upto(ix, q, cap, n));
    } else {
        lemma_plan_extends(ix, q, cap, n, m - 1);
        assert(plan_upto(ix, q, cap, m).take(plan_upto(ix, q, cap, n).len() as int)
            =~= plan_upto(ix, q, cap, m - 1).take(plan_upto(ix, q, cap, n).len() as int));
    }
}

/// A skipped or empty node sends no batches.
pub proof fn lemma_chunks_empty(cap: int)
    requires
        cap >= 1,
    ensures
        chunks_of(Seq::<RowV>::empty(), cap) == Seq::<Seq<RowV>>::empty(),
{
    assert((0 + cap - 1) / cap == 0) by (nonlinear_arith)
        requires
            cap >= 1,
    ;
    assert(chunks_of(Seq::<RowV>::empty(), cap) =~= Seq::<Seq<RowV>>::empty());
}

/// Total number of rows across a sequence of batches.
pub open spec fn rows_total(h: Seq<Seq<RowV>>) -> nat
    decreases h.len(),
{
    if h.len() == 0 {
        0
    } else {
        rows_total(h.drop_last()) + h.last().len()
    }
}

/// A sink for result batches.  `accept` either takes a batch, extending the
/// accepted history, or refuses it with an error code, leaving the history
/// unchanged; whether it refuses is a function of the history alone, so a
/// whole run's outcome is pinned down by the driver's contract.
pub trait BatchConsumer: Sized {
    /// The batches accepted so far, as rows.
    spec fn taken(&self) -> Seq<Seq<RowV>>;

    /// How often `accept` has been invoked, refusals included.
    spec fn calls(&self) -> nat;

    /// Whether the next batch will be accepted, given the history.
    spec fn accepts(history: Seq<Seq<RowV>>) -> bool;

    /// The error code returned when a batch is refused.
    spec fn fail_code(history: Seq<Seq<RowV>>) -> u64;

    /// Consumes or refuses one batch.
    fn accept(&mut self, b: Batch) -> (r: Result<(), CallbackError>)
        requires
            b.aligned(),
        ensures
            final(self).calls() == old(self).calls() + 1,
            Self::accepts(old(self).taken()) ==> r == Ok::<(), CallbackError>(())
                && final(self).taken() == old(self).taken().push(b@),
            !Self::accepts(old(self).taken()) ==> r == Err::<(), CallbackError>(
                CallbackError { code: Self::fail_code(old(self).taken()) },
            ) && final(self).taken() == old(self).taken(),
    ;
}

/// A consumer that keeps every batch it is handed.
pub struct Collector {
    pub batches: Vec<Batch>,
}

impl Collector {
    /// An empty collector.
    pub fn new() -> (r: Collector)
        ensures
            r.taken() == Seq::<Seq<RowV>>::empty(),
            r.calls() == 0,
    {
        let r = Collector { batches: Vec::new() };
        proof {
            assert(r.taken() =~= Seq::<Seq<RowV>>::empty());
        }
        r
    }
}

impl BatchConsumer for Collector {
    open spec fn taken(&self) -> Seq<Seq<RowV>> {
        self.batches@.map_values(|b: Batch| b@)
    }

    open spec fn calls(&self) -> nat {
        self.batches@.len()
    }

    open spec fn accepts(history: Seq<Seq<RowV>>) -> bool {
        true
    }

    open spec fn fail_code(history: Seq<Seq<RowV>>) -> u64 {
        0
    }

    fn accept(&mut self, b: Batch) -> (r: Result<(), CallbackError>) {
        let ghost prev = self.batches@;
        self.batches.push(b);
        proof {
            assert(self.taken() =~= old(self).taken().push(self.batches@.last()@));
        }
        Ok(())
    }
}

/// A consumer that refuses the batch after the first `N` with error `CODE`,
/// the shape of a callback that aborts a query early.
pub struct FailAfter<const N: usize, const CODE: u64> {
    accepted: usize,
    history: Ghost<Seq<Seq<RowV>>>,
    invocations: Ghost<nat>,
}

impl<const N: usize, const CODE: u64> FailAfter<N, CODE> {
    #[verifier::type_invariant]
    spec fn type_wf(self) -> bool {
        self.accepted == self.history@.len()
    }

    /// A fresh consumer that will accept `N` batches.
    pub fn new() -> (r: FailAfter<N, CODE>)
        ensures
            r.taken() == Seq::<Seq<RowV>>::empty(),
            r.calls() == 0,
    {
        FailAfter { accepted: 0, history: Ghost(Seq::empty()), invocations: Ghost(0) }
    }

    /// How many batches have been accepted.
    pub fn accepted_count(&self) -> (r: usize)
        ensures
            r == self.taken().len(),
    {
        proof {
            use_type_invariant(&*self);
        }
        self.accepted
    }
}

impl<const N: usize, const CODE: u64> BatchConsumer for FailAfter<N, CODE> {
    closed spec fn taken(&self) -> Seq<Seq<RowV>> {
        self.history@
    }

    closed spec fn calls(&self) -> nat {
        self.invocations@
    }

    open spec fn accepts(history: Seq<Seq<RowV>>) -> bool {
        history.len() < N
    }

    open spec fn fail_code(history: Seq<Seq<RowV>>) -> u64 {
        CODE
    }

    fn accept(&mut self, b: Batch) -> (r: Result<(), CallbackError>) {
        proof {
            use_type_invariant(&*self);
        }
        if self.accepted < N {
            *self = FailAfter {
                accepted: self.accepted + 1,
                history: Ghost(self.history@.push(b@)),
                invocations: Ghost(self.invocations@ + 1),
            };
            Ok(())
        } else {
            *self = FailAfter {
                accepted: self.accepted,
                history: self.history,
                invocations: Ghost(self.invocations@ + 1),
            };
            Err(CallbackError { code: CODE })
        }
    }
}

/// The consumer accepts every batch of the plan, each in the history context
/// in which it arrives.
pub open spec fn accepts_prefixes<C: BatchConsumer>(t0: Seq<Seq<RowV>>, plan: Seq<Seq<RowV>>) -> bool {
    forall|k: int| 0 <= k < plan.len() ==> C::accepts(t0 + #[trigger] plan.take(k))
}

/// The consumer accepts the first `k` batches of the plan and refuses the
/// next one.
pub open spec fn refusal_at<C: BatchConsumer>(t0: Seq<Seq<RowV>>, plan: Seq<Seq<RowV>>, k: int) -> bool {
    &&& 0 <= k < plan.len()
    &&& forall|m: int| 0 <= m < k ==> C::accepts(t0 + #[trigger] plan.take(m))
    &&& !C::accepts(t0 + plan.take(k))
}

/// Runs one query against one index, delivering every matching point to the
/// consumer in size-capped batches: nodes are visited in order, skipped
/// subtrees contribute nothing, fully covered nodes are taken whole, and the
/// first error (malformed query, failing node load, missing attribute or
/// consumer refusal) ends the run.
pub fn run_query<C: BatchConsumer>(
    ix: &Index,
    q: &Query,
    max_batch: usize,
    c: &mut C,
) -> (r: Result<(), QueryError>)
    requires
        ix.wf(),
        max_batch >= 1,
    ensures
        !q.location.wf() ==> r == Err::<(), QueryError>(QueryError::Geometry)
            && final(c).taken() == old(c).taken() && final(c).calls() == old(c).calls(),
        q.location.wf() && accepts_prefixes::<C>(
            old(c).taken(),
            eff_plan(*ix, *q, max_batch as int),
        ) ==> {
            &&& final(c).taken() == old(c).taken() + eff_plan(*ix, *q, max_batch as int)
            &&& final(c).calls() == old(c).calls() + eff_plan(*ix, *q, max_batch as int).len()
            &&& match first_bad_from(*ix, *q, 0) {
                Option::None => r == Ok::<(), QueryError>(()),
                Option::Some(bad) => r == Err::<(), QueryError>(error_at(*ix, *q, bad)),
            }
        },
        q.location.wf() && !accepts_prefixes::<C>(
            old(c).taken(),
            eff_plan(*ix, *q, max_batch as int),
        ) ==> exists|k: int|
            {
                &&& #[trigger] refusal_at::<C>(old(c).taken(), eff_plan(*ix, *q, max_batch as int), k)
                &&& final(c).taken() == old(c).taken() + eff_plan(
                    *ix,
                    *q,
                    max_batch as int,
                ).take(k)
                &&& final(c).calls() == old(c).calls() + k + 1
                &&& r == Err::<(), QueryError>(QueryError::Callback(CallbackError {
                    code: C::fail_code(
                        old(c).taken() + eff_plan(*ix, *q, max_batch as int).take(k),
                    ),
                }))
            },
{
    let ghost gix = *ix;
    let ghost gq = *q;
    let ghost cap = max_batch as int;
    let ghost t0 = c.taken();
    let ghost c0 = c.calls();
    if !q.location.is_wf() {
        return Err(QueryError::Geometry);
    }
    let verdicts = compute_verdicts(ix, &q.location);
    let n = ix.nodes.len();
    let mut i: usize = 0;
    proof {
        assert(c.taken() =~= t0 + plan_upto(gix, gq, cap, 0));
    }
    while i < n
        invariant
            0 <= i <= n,
            n == ix.nodes@.len(),
            gix == *ix,
            gq == *q,
            cap == max_batch as int,
            max_batch >= 1,
            ix.wf(),
            q.location.wf(),
            verdicts@.len() == n,
            forall|m: int|
                0 <= m < n ==> #[trigger] verdicts@[m] == verdict_of(gix, gq.location, m),
            first_bad_from(gix, gq, 0) == first_bad_from(gix, gq, i as int),
            t0 == old(c).taken(),
            c0 == old(c).calls(),
            c.taken() == t0 + plan_upto(gix, gq, cap, i as int),
            c.calls() == c0 + plan_upto(gix, gq, cap, i as int).len(),
            accepts_prefixes::<C>(t0, plan_upto(gix, gq, cap, i as int)),
        decreases n - i,
    {
        let ghost plan_i = plan_upto(gix, gq, cap, i as int);
        let v = verdicts[i];
        if v == Verdict::Skip {
            proof {
                lemma_chunks_empty(cap);
                assert(kept_rows(gix, gq, i as int) =~= Seq::<RowV>::empty());
                assert(plan_upto(gix, gq, cap, i + 1) =~= plan_i);
            }
            i += 1;
            continue;
        }
        let d = match &ix.data[i] {
            Option::Some(d) => d,
            Option::None => {
                proof {
                    assert(first_bad_from(gix, gq, i as int) == Option::Some(i as int));
                    assert(eff_end(gix, gq) == i as int);
                    assert(eff_plan(gix, gq, cap) == plan_upto(gix, gq, cap, i as int));
                    assert(accepts_prefixes::<C>(t0, eff_plan(gix, gq, cap)));
                    assert(c.taken() == t0 + eff_plan(gix, gq, cap));
                    assert(error_at(gix, gq, i as int) == QueryError::NodeLoad(i));
                }
                return Err(QueryError::NodeLoad(i));
            },
        };
        let sel = match crate::index::resolve_columns(d, &q.attributes) {
            Option::Some(sel) => sel,
            Option::None => {
                proof {
                    assert(first_bad_from(gix, gq, i as int) == Option::Some(i as int));
                    assert(eff_end(gix, gq) == i as int);
                }
                return Err(QueryError::AttributeMissing(i));
            },
        };
        proof {
            assert(node_ok(gix, gq, i as int));
            assert(first_bad_from(gix, gq, i as int) == first_bad_from(gix, gq, i + 1));
        }
        let rows = d.to_rows(&sel);
        let ncols = q.attributes.len();
        proof {
            assert(rows_of(rows@) == node_rows(gix, gq, i as int));
            assert(forall|m: int|
                0 <= m < rows@.len() ==> (#[trigger] rows@[m]).pos.wf()) by {
                assert(node_data_ok(gix.data@[i as int]->0, gix.nodes@[i as int].volume));
            }
        }
        let kept = if v == Verdict::PerPoint {
            let f = crate::data::filter_records(&rows, &q.location);
            proof {
                let p = |r: RowV| gq.location.contains(r.pos);
                crate::data::lemma_filter_attr_len(rows_of(rows@), p, ncols as int);
                assert(rows_of(f@) == kept_rows(gix, gq, i as int));
                assert(forall|m: int|
                    0 <= m < f@.len() ==> (#[trigger] f@[m]).attrs@.len() == ncols) by {
                    assert(forall|m: int|
                        0 <= m < f@.len()
                            ==> rows_of(f@)[m] == (#[trigger] f@[m])@);
                }
            }
            f
        } else {
            proof {
                assert(verdict_of(gix, gq.location, i as int) == Verdict::TakeAll);
                assert(rows_of(rows@) == kept_rows(gix, gq, i as int));
            }
            rows
        };
        let total = kept.len();
        let ghost krows = kept_rows(gix, gq, i as int);
        let ghost nplan = node_plan(gix, gq, cap, i as int);
        let mut start: usize = 0;
        let ghost mut k: int = 0;
        proof {
            assert(plan_i + nplan.take(0) =~= plan_i);
        }
        while start < total
            invariant
                0 <= i < n,
                n == ix.nodes@.len(),
                gix == *ix,
                gq == *q,
                cap == max_batch as int,
                max_batch >= 1,
                ix.wf(),
                q.location.wf(),
                total == kept@.len(),
                rows_of(kept@) == krows,
                krows == kept_rows(gix, gq, i as int),
                nplan == node_plan(gix, gq, cap, i as int),
                ncols == q.attributes@.len(),
                forall|m: int|
                    0 <= m < kept@.len() ==> (#[trigger] kept@[m]).attrs@.len() == ncols,
                first_bad_from(gix, gq, 0) == first_bad_from(gix, gq, i + 1),
                plan_i == plan_upto(gix, gq, cap, i as int),
                t0 == old(c).taken(),
                c0 == old(c).calls(),
                start == k * cap || (k == nplan.len() && start == total),
                0 <= k <= nplan.len(),
                start <= total,
                c.taken() == t0 + (plan_i + nplan.take(k)),
                c.calls() == c0 + plan_i.len() + k,
                accepts_prefixes::<C>(t0, plan_i + nplan.take(k)),
            decreases total - start,
        {
            let is_last = total - start < max_batch;
            let end = if is_last {
                total
            } else {
                start + max_batch
            };
            proof {
                assert(start == k * cap);
                lemma_chunk_index(krows, cap, k, start as int, end as int);
            }
            let b = Batch::from_rows(&kept, start, end, ncols);
            proof {
                assert(b@ =~= nplan[k]);
            }
            let ghost pre = c.taken();
            match c.accept(b) {
                Ok(_) => {},
                Err(e) => {
                    proof {
                        lemma_refusal_return::<C>(gix, gq, cap, i as int, k, t0);
                    }
                    return Err(QueryError::Callback(e));
                },
            }
            proof {
                assert(C::accepts(t0 + (plan_i + nplan.take(k))));
                assert(c.taken() == pre.push(nplan[k]));
                assert(nplan.take(k + 1) =~= nplan.take(k).push(nplan[k]));
                assert(t0 + (plan_i + nplan.take(k + 1))
                    =~= (t0 + (plan_i + nplan.take(k))).push(nplan[k]));
                assert forall|m: int|
                    0 <= m < (plan_i + nplan.take(k + 1)).len() implies C::accepts(
                    t0 + #[trigger] (plan_i + nplan.take(k + 1)).take(m),
                ) by {
                    if m < (plan_i + nplan.take(k)).len() {
                        assert((plan_i + nplan.take(k + 1)).take(m)
                            =~= (plan_i + nplan.take(k)).take(m));
                    } else {
                        assert((plan_i + nplan.take(k + 1)).take(m)
                            =~= plan_i + nplan.take(k));
                    }
                }
            }
            proof {
                if is_last {
                    lemma_chunk_last(krows, cap, k, start as int);
                } else {
                    assert((k + 1) * cap == k * cap + cap) by (nonlinear_arith);
                }
                k = k + 1;
            }
            start = end;
        }
        proof {
            if start == k * cap {
                lemma_chunk_end(krows, cap, k, start as int);
            }
            assert(nplan.take(k) =~= nplan);
            assert(plan_upto(gix, gq, cap, i + 1) == plan_i + nplan);
        }
        i += 1;
    }
    proof {
        assert(first_bad_from(gix, gq, n as int) is None);
        assert(eff_end(gix, gq) == n as int);
    }
    Ok(())
}

/// The `k`-th chunk of a row sequence is the subrange the chunk loop cuts.
pub proof fn lemma_chunk_index(rows: Seq<RowV>, cap: int, k: int, start: int, end: int)
    requires
        cap >= 1,
        k >= 0,
        start == k * cap,
        start < rows.len(),
        end == if rows.len() - start < cap { rows.len() as int } else { start + cap },
    ensures
        0 <= k < chunks_of(rows, cap).len(),
        chunks_of(rows, cap)[k] == rows.subrange(start, end),
{
    let len = rows.len() as int;
    let count = (len + cap - 1) / cap;
    assert((k + 1) * cap == k * cap + cap) by (nonlinear_arith);
    vstd::arithmetic::div_mod::lemma_div_is_ordered((k + 1) * cap, len + cap - 1, cap);
    vstd::arithmetic::div_mod::lemma_fundamental_div_mod_converse((k + 1) * cap, cap, k + 1, 0);
    assert(count >= k + 1);
    assert(chunks_of(rows, cap)[k] == rows.subrange(
        k * cap,
        if (k + 1) * cap <= len { (k + 1) * cap } else { len },
    ));
}

/// A chunk that ends at the row count is the last one.
pub proof fn lemma_chunk_last(rows: Seq<RowV>, cap: int, k: int, start: int)
    requires
        cap >= 1,
        k >= 0,
        start == k * cap,
        start < rows.len(),
        rows.len() - start <= cap,
    ensures
        k + 1 == chunks_of(rows, cap).len(),
{
    let len = rows.len() as int;
    let count = (len + cap - 1) / cap;
    assert((k + 1) * cap == k * cap + cap) by (nonlinear_arith);
    vstd::arithmetic::div_mod::lemma_div_is_ordered((k + 1) * cap, len + cap - 1, cap);
    vstd::arithmetic::div_mod::lemma_fundamental_div_mod_converse((k + 1) * cap, cap, k + 1, 0);
    assert(count >= k + 1);
    assert(len + cap - 1 <= (k + 1) * cap + cap - 1);
    vstd::arithmetic::div_mod::lemma_div_is_ordered(len + cap - 1, (k + 1) * cap + cap - 1, cap);
    vstd::arithmetic::div_mod::lemma_fundamental_div_mod_converse(
        (k + 1) * cap + cap - 1,
        cap,
        k + 1,
        cap - 1,
    );
    assert(count <= k + 1);
}

/// When the cut position reaches the end, every chunk has been cut.
pub proof fn lemma_chunk_end(rows: Seq<RowV>, cap: int, k: int, start: int)
    requires
        cap >= 1,
        k >= 0,
        start == k * cap,
        start >= rows.len(),
        k <= chunks_of(rows, cap).len(),
    ensures
        k == chunks_of(rows, cap).len(),
{
    let len = rows.len() as int;
    let count = (len + cap - 1) / cap;
    assert(len + cap - 1 <= k * cap + cap - 1);
    vstd::arithmetic::div_mod::lemma_div_is_ordered(len + cap - 1, k * cap + cap - 1, cap);
    vstd::arithmetic::div_mod::lemma_fundamental_div_mod_converse(
        k * cap + cap - 1,
        cap,
        k,
        cap - 1,
    );
    assert(count <= k);
}

/// Packaging of the consumer-refusal exit: the failing batch is a position
/// of the effective plan, and everything before it was delivered.
proof fn lemma_refusal_return<C: BatchConsumer>(
    ix: Index,
    q: Query,
    cap: int,
    i: int,
    k: int,
    t0: Seq<Seq<RowV>>,
)
    requires
        cap >= 1,
        0 <= i < ix.nodes@.len(),
        first_bad_from(ix, q, 0) == first_bad_from(ix, q, i + 1),
        0 <= k < node_plan(ix, q, cap, i).len(),
        accepts_prefixes::<C>(t0, plan_upto(ix, q, cap, i) + node_plan(ix, q, cap, i).take(k)),
        !C::accepts(t0 + (plan_upto(ix, q, cap, i) + node_plan(ix, q, cap, i).take(k))),
    ensures
        refusal_at::<C>(
            t0,
            eff_plan(ix, q, cap),
            plan_upto(ix, q, cap, i).len() + k,
        ),
        eff_plan(ix, q, cap).take(plan_upto(ix, q, cap, i).len() + k)
            == plan_upto(ix, q, cap, i) + node_plan(ix, q, cap, i).take(k),
        !accepts_prefixes::<C>(t0, eff_plan(ix, q, cap)),
{
    let upto_i = plan_upto(ix, q, cap, i);
    let nplan = node_plan(ix, q, cap, i);
    let partial = upto_i + nplan.take(k);
    let kk = upto_i.len() + k;
    let ep = eff_plan(ix, q, cap);
    let ee = eff_end(ix, q);
    lemma_first_bad_lower(ix, q, i + 1);
    assert(ee >= i + 1);
    lemma_plan_extends(ix, q, cap, i + 1, ee);
    assert(plan_upto(ix, q, cap, i + 1) == upto_i + nplan);
    assert(ep.take(plan_upto(ix, q, cap, i + 1).len() as int) == upto_i + nplan);
    assert(kk < (upto_i + nplan).len());
    assert(ep.len() >= (upto_i + nplan).len());
    // the first kk batches of the effective plan are exactly the delivered ones
    assert(ep.take(kk as int) =~= (upto_i + nplan).take(kk as int)) by {
        assert forall|m: int| 0 <= m < kk implies ep.take(kk as int)[m] == (upto_i
            + nplan).take(kk as int)[m] by {
            assert(ep[m] == ep.take(plan_upto(ix, q, cap, i + 1).len() as int)[m]);
        }
    }
    assert((upto_i + nplan).take(kk as int) =~= partial);
    assert(ep.take(kk as int) == partial);
    assert forall|m: int| 0 <= m < kk implies C::accepts(t0 + #[trigger] ep.take(m)) by {
        assert(ep.take(m) =~= partial.take(m));
        assert(C::accepts(t0 + partial.take(m)));
    }
    assert(!C::accepts(t0 + ep.take(kk as int)));
    assert(refusal_at::<C>(t0, ep, kk as int));
}

/// The first failing node at or after `i` is at or after `i`.
proof fn lemma_first_bad_lower(ix: Index, q: Query, i: int)
    ensures
        match first_bad_from(ix, q, i) {
            Option::Some(b) => b >= i,
            Option::None => true,
        },
    decreases ix.nodes@.len() - i,
{
    if 0 <= i < ix.nodes@.len() {
        lemma_first_bad_lower(ix, q, i + 1);
    }
}

/// `j` lies in the subtree rooted at `i` (including `i` itself).
pub open spec fn in_subtree(ix: Index, j: int, i: int) -> bool
    decreases j,
{
    j == i || match ix.nodes@[j].parent {
        Option::None => false,
        Option::Some(p) => if 0 <= p < j {
            in_subtree(ix, p as int, i)
        } else {
            false
        },
    }
}

/// A point of a node's volume lies in every ancestor's volume.
proof fn lemma_subtree_transfer(ix: Index, j: int, i: int, p: crate::geom::Pos)
    requires
        ix.wf(),
        0 <= i < ix.nodes@.len(),
        0 <= j < ix.nodes@.len(),
        in_subtree(ix, j, i),
        p.wf(),
        ix.nodes@[j].volume.contains(p),
    ensures
        ix.nodes@[i].volume.contains(p),
    decreases j,
{
    if j != i {
        let par = ix.nodes@[j].parent->0;
        ix.nodes@[j].volume.lemma_inside_transfers(ix.nodes@[par as int].volume, p);
        lemma_subtree_transfer(ix, par as int, i, p);
    }
}

/// A filter that rejects every element yields the empty sequence.
proof fn lemma_filter_none(s: Seq<RowV>, pred: spec_fn(RowV) -> bool)
    requires
        forall|i: int| 0 <= i < s.len() ==> !pred(#[trigger] s[i]),
    ensures
        s.filter(pred) == Seq::<RowV>::empty(),
    decreases s.len(),
{
    reveal(Seq::filter);
    if s.len() > 0 {
        assert(forall|i: int|
            0 <= i < s.drop_last().len() ==> !pred(#[trigger] s.drop_last()[i]));
        lemma_filter_none(s.drop_last(), pred);
        assert(s.last() == s[s.len() - 1]);
    }
}

/// No point of a node classified `Disjoint` — nor of any node in its
/// subtree — contributes anything to a query's results.
pub proof fn theorem_disjoint_contributes_nothing(ix: Index, q: Query, cap: int, i: int, j: int)
    requires
        ix.wf(),
        q.location.wf(),
        cap >= 1,
        0 <= i < ix.nodes@.len(),
        0 <= j < ix.nodes@.len(),
        classify_spec(q.location, ix.nodes@[i].volume) == Class::Disjoint,
        in_subtree(ix, j, i),
        node_ok(ix, q, j),
    ensures
        kept_rows(ix, q, j) == Seq::<RowV>::empty(),
        node_plan(ix, q, cap, j) == Seq::<Seq<RowV>>::empty(),
{
    let d = ix.data@[j]->0;
    let sel = sel_of(d, names_of(q.attributes@))->0;
    let rows = node_rows(ix, q, j);
    assert(node_data_ok(d, ix.nodes@[j].volume));
    assert forall|m: int| 0 <= m < rows.len() implies !q.location.contains(
        #[trigger] rows[m].pos,
    ) by {
        let p = d.positions@[m];
        assert(rows[m].pos == p);
        lemma_subtree_transfer(ix, j, i, p);
        lemma_classify_sound(q.location, ix.nodes@[i].volume, p);
    }
    match verdict_of(ix, q.location, j) {
        Verdict::Skip => {},
        Verdict::TakeAll => {
            // every point would have to match, yet none does: the node is empty
            if rows.len() > 0 {
                let p = d.positions@[0];
                lemma_verdict_sound(ix, q.location, j, p);
                assert(rows[0].pos == p);
                assert(false);
            }
            assert(kept_rows(ix, q, j) =~= Seq::<RowV>::empty());
        },
        Verdict::PerPoint => {
            lemma_filter_none(rows, |r: RowV| q.location.contains(r.pos));
        },
    }
    lemma_chunks_empty(cap);
    assert(kept_rows(ix, q, j) =~= Seq::<RowV>::empty());
}

/// A node classified `Contains` contributes its whole batch, unfiltered.
pub proof fn theorem_contains_taken_whole(ix: Index, q: Query, i: int)
    requires
        ix.wf(),
        q.location.wf(),
        0 <= i < ix.nodes@.len(),
        classify_spec(q.location, ix.nodes@[i].volume) == Class::Contains,
        node_ok(ix, q, i),
    ensures
        kept_rows(ix, q, i) == node_rows(ix, q, i),
{
    let d = ix.data@[i]->0;
    let rows = node_rows(ix, q, i);
    assert(node_data_ok(d, ix.nodes@[i].volume));
    match verdict_of(ix, q.location, i) {
        Verdict::TakeAll => {},
        Verdict::PerPoint => {
            // impossible: the node's own classification is `Contains`
            assert(false);
        },
        Verdict::Skip => {
            // a skipped ancestor excludes every point, `Contains` includes
            // every point: the node must be empty
            if rows.len() > 0 {
                let p = d.positions@[0];
                lemma_verdict_sound(ix, q.location, i, p);
                lemma_classify_sound(q.location, ix.nodes@[i].volume, p);
                assert(false);
            }
            assert(kept_rows(ix, q, i) =~= rows);
        },
    }
}

/// Every point whose containing cell was put into a cell union is matched
/// by that union, and everything the union matches lies in one of its
/// cells: the round trip loses nothing and adds nothing.
pub proof fn theorem_cell_union_roundtrip(cs: Vec<CellId>, level: u8, ps: Seq<crate::geom::Pos>)
    requires
        level <= crate::cell::MAX_CELL_LEVEL,
        forall|m: int| 0 <= m < ps.len() ==> (#[trigger] ps[m]).wf(),
        forall|m: int|
            0 <= m < ps.len() ==> cs@.contains(crate::cell::cell_of(#[trigger] ps[m], level)),
    ensures
        forall|m: int|
            0 <= m < ps.len()
                ==> LocationPredicate::CellUnion(cs).contains(#[trigger] ps[m]),
        forall|p: crate::geom::Pos|
            LocationPredicate::CellUnion(cs).contains(p) ==> exists|k: int|
                0 <= k < cs@.len() && #[trigger] cell_covers(cs@[k], p),
{
    assert forall|m: int|
        0 <= m < ps.len() implies LocationPredicate::CellUnion(cs).contains(
        #[trigger] ps[m],
    ) by {
        let c = crate::cell::cell_of(ps[m], level);
        let k = choose|k: int| 0 <= k < cs@.len() && cs@[k] == c;
        assert(cell_covers(cs@[k], ps[m]));
    }
}

/// Every batch of a plan respects the configured point cap.
pub proof fn theorem_batch_cap(rows: Seq<RowV>, cap: int, k: int)
    requires
        cap >= 1,
        0 <= k < chunks_of(rows, cap).len(),
    ensures
        chunks_of(rows, cap)[k].len() <= cap,
{
    let len = rows.len() as int;
    let count = (len + cap - 1) / cap;
    vstd::arithmetic::div_mod::lemma_fundamental_div_mod(len + cap - 1, cap);
    vstd::arithmetic::div_mod::lemma_mod_bound(len + cap - 1, cap);
    assert((k + 1) * cap == k * cap + cap) by (nonlinear_arith);
    assert(k * cap <= (count - 1) * cap) by (nonlinear_arith)
        requires
            k <= count - 1,
            cap >= 1,
    ;
    assert((count - 1) * cap == count * cap - cap) by (nonlinear_arith);
}

/// The rows of a sequence of batches, in order.
pub open spec fn concat_rows(h: Seq<Seq<RowV>>) -> Seq<RowV>
    decreases h.len(),
{
    if h.len() == 0 {
        Seq::empty()
    } else {
        concat_rows(h.drop_last()) + h.last()
    }
}

/// `rows_total` counts exactly the concatenated rows.
pub proof fn lemma_rows_total_is_concat_len(h: Seq<Seq<RowV>>)
    ensures
        rows_total(h) == concat_rows(h).len(),
    decreases h.len(),
{
    if h.len() > 0 {
        lemma_rows_total_is_concat_len(h.drop_last());
    }
}

/// Concatenation of batch sequences splits over `+`.
pub proof fn lemma_concat_rows_add(a: Seq<Seq<RowV>>, b: Seq<Seq<RowV>>)
    ensures
        concat_rows(a + b) == concat_rows(a) + concat_rows(b),
    decreases b.len(),
{
    if b.len() == 0 {
        assert(a + b =~= a);
        assert(concat_rows(a) + concat_rows(b) =~= concat_rows(a));
    } else {
        lemma_concat_rows_add(a, b.drop_last());
        assert((a + b).drop_last() =~= a + b.drop_last());
        assert((a + b).last() == b.last());
        assert(concat_rows(a) + concat_rows(b.drop_last()) + b.last()
            =~= concat_rows(a) + (concat_rows(b.drop_last()) + b.last()));
    }
}

/// Cutting rows into capped chunks and concatenating them restores the
/// original rows: re-chunking loses and duplicates nothing.
pub proof fn lemma_chunks_concat(rows: Seq<RowV>, cap: int)
    requires
        cap >= 1,
    ensures
        concat_rows(chunks_of(rows, cap)) == rows,
    decreases rows.len(),
{
    let len = rows.len() as int;
    let count = (len + cap - 1) / cap;
    if len == 0 {
        assert(rows =~= Seq::<RowV>::empty());
        lemma_chunks_empty(cap);
        assert(concat_rows(chunks_of(rows, cap)) =~= rows);
    } else {
        vstd::arithmetic::div_mod::lemma_fundamental_div_mod(len + cap - 1, cap);
        vstd::arithmetic::div_mod::lemma_mod_bound(len + cap - 1, cap);
        assert(count >= 1) by {
            vstd::arithmetic::div_mod::lemma_div_is_ordered(cap, len + cap - 1, cap);
            vstd::arithmetic::div_mod::lemma_fundamental_div_mod_converse(cap, cap, 1, 0);
        }
        assert((count - 1) * cap == count * cap - cap) by (nonlinear_arith);
        assert(len <= count * cap && (count - 1) * cap < len);
        let flen = (count - 1) * cap;
        let front = rows.take(flen);
        assert(front.len() == flen);
        let fcount = (flen + cap - 1) / cap;
        assert(fcount == count - 1) by {
            vstd::arithmetic::div_mod::lemma_fundamental_div_mod_converse(
                flen + cap - 1,
                cap,
                count - 1,
                cap - 1,
            );
        }
        assert(chunks_of(rows, cap).drop_last() =~= chunks_of(front, cap)) by {
            assert forall|m: int| 0 <= m < count - 1 implies chunks_of(rows, cap)[m]
                == chunks_of(front, cap)[m] by {
                assert((m + 1) * cap <= (count - 1) * cap) by (nonlinear_arith)
                    requires
                        m + 1 <= count - 1,
                        cap >= 1,
                ;
                assert(m * cap >= 0) by (nonlinear_arith)
                    requires
                        m >= 0,
                        cap >= 1,
                ;
                assert(chunks_of(rows, cap)[m] == rows.subrange(m * cap, (m + 1) * cap));
                assert(chunks_of(front, cap)[m] == front.subrange(m * cap, (m + 1) * cap));
                assert((m + 1) * cap == m * cap + cap) by (nonlinear_arith);
                assert(front.take(flen) =~= rows.take(flen));
                vstd::seq_lib::subrange_of_matching_take(
                    rows,
                    front,
                    m * cap,
                    (m + 1) * cap,
                    flen,
                );
            }
        }
        lemma_chunks_concat(front, cap);
        assert(chunks_of(rows, cap).last() == rows.subrange(flen, len));
        assert(concat_rows(chunks_of(rows, cap)) == front + rows.subrange(flen, len));
        assert(front + rows.subrange(flen, len) =~= rows);
    }
}

/// Under `AllPoints` every node's verdict is `TakeAll`: nothing is skipped
/// and nothing is filtered.
pub proof fn lemma_all_points_verdict(ix: Index, i: int)
    requires
        ix.wf(),
        0 <= i < ix.nodes@.len(),
    ensures
        verdict_of(ix, LocationPredicate::AllPoints, i) == Verdict::TakeAll,
    decreases i,
{
    match ix.nodes@[i].parent {
        Option::None => {},
        Option::Some(p) => {
            lemma_all_points_verdict(ix, p as int);
        },
    }
}

/// Total rows across nodes `0..n` under the query's attribute selection.
pub open spec fn total_rows_upto(ix: Index, q: Query, n: int) -> nat
    decreases n,
{
    if n <= 0 {
        0
    } else {
        total_rows_upto(ix, q, n - 1) + node_rows(ix, q, n - 1).len()
    }
}

/// An `AllPoints` query that completes delivers every stored point exactly
/// once: the delivered row count equals the index's total row count.
pub proof fn theorem_all_points_complete(ix: Index, q: Query, cap: int)
    requires
        ix.wf(),
        cap >= 1,
        q.location is AllPoints,
        first_bad_from(ix, q, 0) is None,
    ensures
        rows_total(eff_plan(ix, q, cap)) == total_rows_upto(ix, q, ix.nodes@.len() as int),
{
    lemma_all_points_total(ix, q, cap, ix.nodes@.len() as int);
}

/// Induction step for `theorem_all_points_complete`.
proof fn lemma_all_points_total(ix: Index, q: Query, cap: int, n: int)
    requires
        ix.wf(),
        cap >= 1,
        q.location is AllPoints,
        0 <= n <= ix.nodes@.len(),
    ensures
        rows_total(plan_upto(ix, q, cap, n)) == total_rows_upto(ix, q, n),
    decreases n,
{
    if n > 0 {
        lemma_all_points_total(ix, q, cap, n - 1);
        lemma_all_points_verdict(ix, n - 1);
        assert(kept_rows(ix, q, n - 1) == node_rows(ix, q, n - 1));
        lemma_rows_total_is_concat_len(plan_upto(ix, q, cap, n));
        lemma_rows_total_is_concat_len(plan_upto(ix, q, cap, n - 1));
        lemma_rows_total_is_concat_len(node_plan(ix, q, cap, n - 1));
        lemma_concat_rows_add(plan_upto(ix, q, cap, n - 1), node_plan(ix, q, cap, n - 1));
        lemma_chunks_concat(kept_rows(ix, q, n - 1), cap);
    }
}

/// A bounded FIFO of finished batches: the staging buffer between producing
/// workers and the consuming callback loop.  Its capacity never grows, so
/// the rows held in flight are bounded by `cap * max_rows` however large the
/// queried cloud is.
pub struct BoundedQueue {
    items: Vec<Batch>,
    cap: usize,
    max_rows: usize,
}

/// Rows held by at most `cap` batches of at most `max_rows` rows each.
pub proof fn theorem_backpressure_bound(h: Seq<Seq<RowV>>, cap: int, max_rows: int)
    requires
        0 <= h.len() <= cap,
        max_rows >= 0,
        forall|i: int| 0 <= i < h.len() ==> (#[trigger] h[i]).len() <= max_rows,
    ensures
        rows_total(h) <= cap * max_rows,
    decreases h.len(),
{
    if h.len() == 0 {
        assert(cap * max_rows >= 0) by (nonlinear_arith)
            requires
                cap >= 0,
                max_rows >= 0,
        ;
    } else {
        let l = h.len() as int;
        assert(forall|i: int|
            0 <= i < h.drop_last().len() ==> (#[trigger] h.drop_last()[i]).len() <= max_rows);
        theorem_backpressure_bound(h.drop_last(), l - 1, max_rows);
        assert(h.last() == h[l - 1]);
        assert((l - 1) * max_rows + max_rows == l * max_rows) by (nonlinear_arith);
        assert(l * max_rows <= cap * max_rows) by (nonlinear_arith)
            requires
                l <= cap,
                max_rows >= 0,
        ;
    }
}

impl BoundedQueue {
    /// The queue respects its bounds; established by `new` and preserved by
    /// every operation.
    pub closed spec fn wf(self) -> bool {
        &&& self.cap >= 1
        &&& self.items@.len() <= self.cap
        &&& forall|i: int|
            0 <= i < self.items@.len()
                ==> (#[trigger] self.items@[i])@.len() <= self.max_rows
                    && self.items@[i].aligned()
    }

    /// The batches in flight, oldest first.
    pub closed spec fn contents(self) -> Seq<Seq<RowV>> {
        self.items@.map_values(|b: Batch| b@)
    }

    /// The configured buffer size.
    pub closed spec fn spec_cap(self) -> nat {
        self.cap as nat
    }

    /// The configured maximum batch size.
    pub closed spec fn spec_max_rows(self) -> nat {
        self.max_rows as nat
    }

    /// An empty queue with the given capacity and batch cap.
    pub fn new(cap: usize, max_rows: usize) -> (r: BoundedQueue)
        requires
            cap >= 1,
        ensures
            r.contents() == Seq::<Seq<RowV>>::empty(),
            r.spec_cap() == cap,
            r.spec_max_rows() == max_rows,
            r.wf(),
    {
        let r = BoundedQueue { items: Vec::new(), cap, max_rows };
        proof {
            assert(r.contents() =~= Seq::<Seq<RowV>>::empty());
        }
        r
    }

    /// Whether a producer would block.
    pub fn is_full(&self) -> (r: bool)
        ensures
            r == (self.contents().len() == self.spec_cap()),
    {
        self.items.len() == self.cap
    }

    /// Number of batches in flight.
    pub fn len(&self) -> (r: usize)
        ensures
            r == self.contents().len(),
    {
        self.items.len()
    }

    /// Rows held in flight never exceed `cap * max_rows`: the backpressure
    /// bound that keeps memory independent of the dataset's size.
    pub fn in_flight_rows_bounded(&self)
        requires
            self.wf(),
        ensures
            rows_total(self.contents()) <= self.spec_cap() * self.spec_max_rows(),
    {
        proof {
            theorem_backpressure_bound(
                self.contents(),
                self.cap as int,
                self.max_rows as int,
            );
        }
    }

    /// Enqueues one finished batch; the producer must have seen a free slot.
    pub fn push(&mut self, b: Batch)
        requires
            old(self).wf(),
            old(self).contents().len() < old(self).spec_cap(),
            b@.len() <= old(self).spec_max_rows(),
            b.aligned(),
        ensures
            final(self).contents() == old(self).contents().push(b@),
            final(self).spec_cap() == old(self).spec_cap(),
            final(self).spec_max_rows() == old(self).spec_max_rows(),
            final(self).wf(),
    {
        self.items.push(b);
        proof {
            assert(self.contents() =~= old(self).contents().push(self.items@.last()@));
        }
    }

    /// Dequeues the oldest batch, if any.
    pub fn pop(&mut self) -> (r: Option<Batch>)
        requires
            old(self).wf(),
        ensures
            final(self).spec_cap() == old(self).spec_cap(),
            final(self).spec_max_rows() == old(self).spec_max_rows(),
            final(self).wf(),
            match r {
                Option::Some(b) => old(self).contents().len() > 0
                    && b@ == old(self).contents()[0]
                    && final(self).contents() == old(self).contents().skip(1),
                Option::None => old(self).contents().len() == 0
                    && final(self).contents() == old(self).contents(),
            },
    {
        if self.items.len() == 0 {
            return Option::None;
        }
        let b = self.items.remove(0);
        proof {
            assert(self.contents() =~= old(self).contents().skip(1));
        }
        Option::Some(b)
    }
}

/// A consumer that counts delivered points and stops the query with error
/// `CODE` once `LIMIT` points have arrived: the early-exit shape of a
/// benchmark that streams a fixed number of points.
pub struct PointCounter<const LIMIT: u64, const CODE: u64> {
    count: u64,
    history: Ghost<Seq<Seq<RowV>>>,
    invocations: Ghost<nat>,
}

impl<const LIMIT: u64, const CODE: u64> PointCounter<LIMIT, CODE> {
    #[verifier::type_invariant]
    spec fn type_wf(self) -> bool {
        self.count == if rows_total(self.history@) > u64::MAX as nat {
            u64::MAX as nat
        } else {
            rows_total(self.history@)
        }
    }

    /// A fresh counter.
    pub fn new() -> (r: PointCounter<LIMIT, CODE>)
        ensures
            r.taken() == Seq::<Seq<RowV>>::empty(),
            r.calls() == 0,
    {
        PointCounter { count: 0, history: Ghost(Seq::empty()), invocations: Ghost(0) }
    }

    /// Points counted so far, saturating at `u64::MAX`.
    pub fn count(&self) -> (r: u64)
        ensures
            rows_total(self.taken()) <= u64::MAX ==> r == rows_total(self.taken()),
    {
        proof {
            use_type_invariant(&*self);
        }
        self.count
    }
}

impl<const LIMIT: u64, const CODE: u64> BatchConsumer for PointCounter<LIMIT, CODE> {
    closed spec fn taken(&self) -> Seq<Seq<RowV>> {
        self.history@
    }

    closed spec fn calls(&self) -> nat {
        self.invocations@
    }

    open spec fn accepts(history: Seq<Seq<RowV>>) -> bool {
        rows_total(history) < LIMIT
    }

    open spec fn fail_code(history: Seq<Seq<RowV>>) -> u64 {
        CODE
    }

    fn accept(&mut self, b: Batch) -> (r: Result<(), CallbackError>) {
        proof {
            use_type_invariant(&*self);
        }
        if self.count < LIMIT {
            let n = b.len() as u64;
            proof {
                let newh = self.history@.push(b@);
                assert(newh.drop_last() =~= self.history@);
                assert(rows_total(newh) == rows_total(self.history@) + b@.len());
            }
            let new_count = if u64::MAX - self.count < n {
                u64::MAX
            } else {
                self.count + n
            };
            *self = PointCounter {
                count: new_count,
                history: Ghost(self.history@.push(b@)),
                invocations: Ghost(self.invocations@ + 1),
            };
            Ok(())
        } else {
            *self = PointCounter {
                count: self.count,
                history: self.history,
                invocations: Ghost(self.invocations@ + 1),
            };
            Err(CallbackError { code: CODE })
        }
    }
}

/// Nodes before the first failing node can all serve the query (unless the
/// scheduler skips them entirely).
proof fn lemma_good_prefix(ix: Index, q: Query, j: int, i: int)
    requires
        0 <= j <= i < ix.nodes@.len(),
        match first_bad_from(ix, q, j) {
            Option::None => true,
            Option::Some(b) => i < b,
        },
        verdict_of(ix, q.location, i) != Verdict::Skip,
    ensures
        node_ok(ix, q, i),
    decreases i - j,
{
    if j == i {
    } else {
        lemma_good_prefix(ix, q, j + 1, i);
    }
}

/// Everything a query delivers matches its predicate: no stray point ever
/// reaches the consumer, whether its node was taken whole or filtered.
pub proof fn theorem_results_match_predicate(ix: Index, q: Query, cap: int)
    requires
        ix.wf(),
        q.location.wf(),
        cap >= 1,
    ensures
        forall|m: int|
            0 <= m < concat_rows(eff_plan(ix, q, cap)).len()
                ==> q.location.contains(
                (#[trigger] concat_rows(eff_plan(ix, q, cap))[m]).pos,
            ),
{
    lemma_first_bad_lower(ix, q, 0);
    lemma_first_bad_upper(ix, q, 0);
    lemma_results_match_upto(ix, q, cap, eff_end(ix, q));
}

/// The first failing node, when there is one, is a real node.
proof fn lemma_first_bad_upper(ix: Index, q: Query, i: int)
    ensures
        match first_bad_from(ix, q, i) {
            Option::Some(b) => b < ix.nodes@.len(),
            Option::None => true,
        },
    decreases ix.nodes@.len() - i,
{
    if 0 <= i < ix.nodes@.len() {
        lemma_first_bad_upper(ix, q, i + 1);
    }
}

/// Induction step for `theorem_results_match_predicate`.
proof fn lemma_results_match_upto(ix: Index, q: Query, cap: int, n: int)
    requires
        ix.wf(),
        q.location.wf(),
        cap >= 1,
        0 <= n <= ix.nodes@.len(),
        match first_bad_from(ix, q, 0) {
            Option::None => true,
            Option::Some(b) => n <= b,
        },
    ensures
        forall|m: int|
            0 <= m < concat_rows(plan_upto(ix, q, cap, n)).len()
                ==> q.location.contains(
                (#[trigger] concat_rows(plan_upto(ix, q, cap, n))[m]).pos,
            ),
    decreases n,
{
    if n > 0 {
        lemma_results_match_upto(ix, q, cap, n - 1);
        let i = n - 1;
        let kept = kept_rows(ix, q, i);
        lemma_concat_rows_add(plan_upto(ix, q, cap, i), node_plan(ix, q, cap, i));
        lemma_chunks_concat(kept, cap);
        assert forall|m: int| 0 <= m < kept.len() implies q.location.contains(
            (#[trigger] kept[m]).pos,
        ) by {
            match verdict_of(ix, q.location, i) {
                Verdict::Skip => {},
                Verdict::TakeAll => {
                    lemma_good_prefix(ix, q, 0, i);
                    let d = ix.data@[i]->0;
                    assert(node_data_ok(d, ix.nodes@[i].volume));
                    assert(kept[m].pos == d.positions@[m]);
                    lemma_verdict_sound(ix, q.location, i, d.positions@[m]);
                },
                Verdict::PerPoint => {
                    lemma_good_prefix(ix, q, 0, i);
                    let rows = node_rows(ix, q, i);
                    let p = |r: RowV| q.location.contains(r.pos);
                    rows.filter_lemma(p);
                },
            }
        }
        assert(concat_rows(plan_upto(ix, q, cap, n))
            == concat_rows(plan_upto(ix, q, cap, i)) + kept);
    }
}

} // verus!
