//! The point cloud client: one query API over several spatial indices.
//!
//! A client fans a query out over its sources in order, runs each source's
//! pipeline with the same consumer, and stops at the first error; batches of
//! later sources follow batches of earlier ones.

use vstd::prelude::*;

verus! {

use crate::data::RowV;
use crate::index::Index;
use crate::pipeline::BatchConsumer;
use crate::pipeline::QueryError;
use crate::pipeline::accepts_prefixes;
use crate::pipeline::eff_plan;
use crate::pipeline::first_bad_from;
use crate::pipeline::run_query;
use crate::query::Query;

/// All batches the sources `0..j` deliver, in order.
pub open spec fn multi_plan_upto(ixs: Seq<Index>, q: Query, cap: int, j: int) -> Seq<Seq<RowV>>
    decreases j,
{
    if j <= 0 {
        Seq::empty()
    } else {
        multi_plan_upto(ixs, q, cap, j - 1) + eff_plan(ixs[j - 1], q, cap)
    }
}

/// Every source among `0..j` can serve the whole query.
pub open spec fn sources_ok_upto(ixs: Seq<Index>, q: Query, j: int) -> bool {
    forall|m: int| 0 <= m < j ==> first_bad_from(#[trigger] ixs[m], q, 0) is None
}

/// Shorter multi-source plans are prefixes of longer ones.
proof fn lemma_multi_extends(ixs: Seq<Index>, q: Query, cap: int, n: int, m: int)
    requires
        0 <= n <= m,
    ensures
        multi_plan_upto(ixs, q, cap, n).len() <= multi_plan_upto(ixs, q, cap, m).len(),
        multi_plan_upto(ixs, q, cap, m).take(multi_plan_upto(ixs, q, cap, n).len() as int)
            == multi_plan_upto(ixs, q, cap, n),
    decreases m - n,
{
    if n == m {
        assert(multi_plan_upto(ixs, q, cap, m).take(multi_plan_upto(ixs, q, cap, n).len() as int)
            =~= multi_plan_upto(ixs, q, cap, n));
    } else {
        lemma_multi_extends(ixs, q, cap, n, m - 1);
        assert(multi_plan_upto(ixs, q, cap, m).take(multi_plan_upto(ixs, q, cap, n).len() as int)
            =~= multi_plan_upto(ixs, q, cap, m - 1).take(
            multi_plan_upto(ixs, q, cap, n).len() as int,
        ));
    }
}

/// A facade over one or more read-only spatial indices.
#[derive(Clone, Debug)]
pub struct PointCloudClient {
    pub indices: Vec<Index>,
    pub max_batch: usize,
}

impl PointCloudClient {
    /// All sources are well formed and the batch cap is positive.
    pub open spec fn wf(self) -> bool {
        self.max_batch >= 1 && forall|m: int|
            0 <= m < self.indices@.len() ==> (#[trigger] self.indices@[m]).wf()
    }

    /// Builds a client; accepted exactly when its sources are well formed.
    pub fn new(indices: Vec<Index>, max_batch: usize) -> (r: Option<PointCloudClient>)
        ensures
            match r {
                Option::Some(cl) => cl.wf() && cl.indices@ == indices@
                    && cl.max_batch == max_batch,
                Option::None => !(PointCloudClient { indices, max_batch }).wf(),
            },
    {
        if max_batch < 1 {
            return Option::None;
        }
        let mut m: usize = 0;
        while m < indices.len()
            invariant
                0 <= m <= indices@.len(),
                forall|k: int| 0 <= k < m ==> (#[trigger] indices@[k]).wf(),
            decreases indices@.len() - m,
        {
            if !indices[m].check_wf() {
                proof {
                    let pc = PointCloudClient { indices, max_batch };
                    assert(pc.indices@ == indices@);
                    assert(!(pc.indices@[m as int]).wf());
                    assert(!pc.wf());
                }
                return Option::None;
            }
            m += 1;
        }
        Option::Some(PointCloudClient { indices, max_batch })
    }

    /// Runs one query over every source in order, delivering all batches to
    /// the consumer; the first error aborts the remaining sources.  Succeeds
    /// exactly when the predicate is well formed, every source can serve the
    /// query, and the consumer accepts every batch.
    pub fn for_each_point_data<C: BatchConsumer>(&self, q: &Query, c: &mut C) -> (r: Result<
        (),
        QueryError,
    >)
        requires
            self.wf(),
        ensures
            !q.location.wf() ==> r == Err::<(), QueryError>(QueryError::Geometry)
                && final(c).taken() == old(c).taken(),
            r is Ok ==> {
                &&& q.location.wf()
                &&& sources_ok_upto(self.indices@, *q, self.indices@.len() as int)
                &&& final(c).taken() == old(c).taken() + multi_plan_upto(
                    self.indices@,
                    *q,
                    self.max_batch as int,
                    self.indices@.len() as int,
                )
            },
            q.location.wf() && sources_ok_upto(self.indices@, *q, self.indices@.len() as int)
                && accepts_prefixes::<C>(
                old(c).taken(),
                multi_plan_upto(
                    self.indices@,
                    *q,
                    self.max_batch as int,
                    self.indices@.len() as int,
                ),
            ) ==> r is Ok,
    {
        let ghost gq = *q;
        let ghost cap = self.max_batch as int;
        let ghost ixs = self.indices@;
        let ghost t0 = c.taken();
        let ghost total = ixs.len() as int;
        if !q.location.is_wf() {
            return Err(QueryError::Geometry);
        }
        let mut j: usize = 0;
        while j < self.indices.len()
            invariant
                0 <= j <= ixs.len(),
                ixs == self.indices@,
                cap == self.max_batch as int,
                gq == *q,
                total == ixs.len() as int,
                self.wf(),
                q.location.wf(),
                t0 == old(c).taken(),
                sources_ok_upto(ixs, gq, j as int),
                c.taken() == t0 + multi_plan_upto(ixs, gq, cap, j as int),
                accepts_prefixes::<C>(t0, multi_plan_upto(ixs, gq, cap, j as int)),
            decreases ixs.len() - j,
        {
            let ghost before = multi_plan_upto(ixs, gq, cap, j as int);
            let ghost ep = eff_plan(ixs[j as int], gq, cap);
            let ghost t1 = c.taken();
            let res = run_query(&self.indices[j], q, self.max_batch, c);
            match res {
                Ok(_) => {
                    proof {
                        // a refused batch would have produced an error
                        if !accepts_prefixes::<C>(t1, ep) {
                            assert(false);
                        }
                        if first_bad_from(ixs[j as int], gq, 0) is Some {
                            assert(false);
                        }
                        assert(sources_ok_upto(ixs, gq, j + 1));
                        assert(multi_plan_upto(ixs, gq, cap, j + 1) == before + ep);
                        assert(t0 + (before + ep) =~= (t0 + before) + ep);
                        assert forall|k: int|
                            0 <= k < (before + ep).len() implies C::accepts(
                            t0 + #[trigger] (before + ep).take(k),
                        ) by {
                            if k < before.len() {
                                assert((before + ep).take(k) =~= before.take(k));
                            } else {
                                assert(t0 + (before + ep).take(k)
                                    =~= (t0 + before) + ep.take(k - before.len()));
                            }
                        }
                    }
                },
                Err(e) => {
                    proof {
                        let m = ixs.len() as int;
                        if sources_ok_upto(ixs, gq, m) && accepts_prefixes::<C>(
                            t0,
                            multi_plan_upto(ixs, gq, cap, m),
                        ) {
                            lemma_multi_extends(ixs, gq, cap, j as int, m);
                            lemma_multi_extends(ixs, gq, cap, j + 1, m);
                            // every batch of this source's plan is accepted in context
                            assert forall|k: int|
                                0 <= k < ep.len() implies C::accepts(
                                t1 + #[trigger] ep.take(k),
                            ) by {
                                let big = multi_plan_upto(ixs, gq, cap, m);
                                let kk = before.len() + k;
                                assert(multi_plan_upto(ixs, gq, cap, j + 1) == before + ep);
                                assert(kk < big.len());
                                assert(big.take(kk as int) =~= (before + ep).take(kk as int)) by {
                                    assert(big.take(multi_plan_upto(
                                        ixs,
                                        gq,
                                        cap,
                                        j + 1,
                                    ).len() as int) == multi_plan_upto(ixs, gq, cap, j + 1));
                                    assert forall|z: int| 0 <= z < kk implies big.take(
                                        kk as int,
                                    )[z] == (before + ep).take(kk as int)[z] by {
                                        assert(big[z] == big.take(multi_plan_upto(
                                            ixs,
                                            gq,
                                            cap,
                                            j + 1,
                                        ).len() as int)[z]);
                                    }
                                }
                                assert(t0 + (before + ep).take(kk as int)
                                    =~= t1 + ep.take(k));
                                assert(C::accepts(t0 + big.take(kk as int)));
                            }
                            assert(first_bad_from(ixs[j as int], gq, 0) is None);
                            assert(false);
                        }
                    }
                    return Err(e);
                },
            }
            j += 1;
        }
        proof {
            assert(multi_plan_upto(ixs, gq, cap, total) == multi_plan_upto(
                ixs,
                gq,
                cap,
                ixs.len() as int,
            ));
        }
        Ok(())
    }
}

} // verus!
