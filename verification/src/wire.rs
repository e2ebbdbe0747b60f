//! The streaming transport shim: size-capped wire framing of batches.
//!
//! A server streams each result batch as one or more messages, every
//! message holding at most as many rows as fit a byte budget; a client
//! reassembles the messages of one batch in arrival order.  Splitting and
//! reassembly are exact inverses, so the remote path delivers the same rows
//! as the local one.

use vstd::prelude::*;

verus! {

use crate::data::Batch;
use crate::data::PointRec;
use crate::data::RowV;
use crate::pipeline::QueryError;
use crate::pipeline::chunks_of;
use crate::pipeline::concat_rows;
use crate::pipeline::lemma_chunk_index;
use crate::pipeline::lemma_chunk_last;
use crate::pipeline::lemma_chunk_end;
use crate::pipeline::lemma_chunks_empty;

/// Bytes one position occupies on the wire: three eight-byte coordinates.
pub const POSITION_BYTES: usize = 24;

/// Bytes one attribute value occupies on the wire.
pub const VALUE_BYTES: usize = 8;

/// Rows that fit one wire message of `max_bytes` for rows with `ncols`
/// attribute values; at least one row is always sent per message.
pub open spec fn rows_per_message_spec(max_bytes: int, ncols: int) -> int {
    let per = POSITION_BYTES + VALUE_BYTES * ncols;
    if max_bytes / per < 1 {
        1
    } else {
        max_bytes / per
    }
}

/// Executable mirror of `rows_per_message_spec`.
pub fn rows_per_message(max_bytes: usize, ncols: usize) -> (r: usize)
    requires
        ncols <= 65536,
    ensures
        r == rows_per_message_spec(max_bytes as int, ncols as int),
        r >= 1,
{
    let per: usize = POSITION_BYTES + VALUE_BYTES * ncols;
    let d: usize = max_bytes / per;
    if d < 1 {
        1
    } else {
        d
    }
}

/// The rows `msgs` carries, in order.
pub open spec fn wire_rows(msgs: Seq<Batch>) -> Seq<Seq<RowV>> {
    msgs.map_values(|b: Batch| b@)
}

impl Batch {
    /// The columnar slice holding rows `start..end`.
    pub fn slice(&self, start: usize, end: usize) -> (r: Batch)
        requires
            self.aligned(),
            0 <= start <= end <= self@.len(),
        ensures
            r@ == self@.subrange(start as int, end as int),
            r.aligned(),
            r.columns@.len() == self.columns@.len(),
            r.spec_len() == end - start,
    {
        let n: usize = end - start;
        let ncols: usize = self.columns.len();
        let mut positions: Vec<crate::geom::Pos> = Vec::new();
        let mut i: usize = 0;
        while i < n
            invariant
                0 <= i <= n,
                n == end - start,
                0 <= start <= end <= self.positions@.len(),
                positions@.len() == i,
                forall|k: int|
                    0 <= k < i ==> #[trigger] positions@[k] == self.positions@[start + k],
            decreases n - i,
        {
            positions.push(self.positions[start + i]);
            i += 1;
        }
        let mut columns: Vec<Vec<i64>> = Vec::new();
        let mut j: usize = 0;
        while j < ncols
            invariant
                0 <= j <= ncols,
                ncols == self.columns@.len(),
                n == end - start,
                0 <= start <= end <= self.positions@.len(),
                self.aligned(),
                columns@.len() == j,
                forall|k: int| 0 <= k < j ==> (#[trigger] columns@[k])@.len() == n,
                forall|k: int, i2: int|
                    #![trigger columns@[k]@[i2]]
                    0 <= k < j && 0 <= i2 < n
                        ==> columns@[k]@[i2] == self.columns@[k]@[start + i2],
            decreases ncols - j,
        {
            let mut col: Vec<i64> = Vec::new();
            let mut i2: usize = 0;
            while i2 < n
                invariant
                    0 <= i2 <= n,
                    0 <= j < ncols,
                    ncols == self.columns@.len(),
                    n == end - start,
                    0 <= start <= end <= self.positions@.len(),
                    self.aligned(),
                    col@.len() == i2,
                    forall|k: int|
                        0 <= k < i2
                            ==> #[trigger] col@[k] == self.columns@[j as int]@[start + k],
                decreases n - i2,
            {
                col.push(self.columns[j][start + i2]);
                i2 += 1;
            }
            columns.push(col);
            j += 1;
        }
        let r = Batch { positions, columns };
        proof {
            assert forall|i2: int| 0 <= i2 < n implies r.row(i2)
                == self@.subrange(start as int, end as int)[i2] by {
                assert(r.row(i2).attrs =~= self.row(start + i2).attrs);
            }
            assert(r@ =~= self@.subrange(start as int, end as int));
        }
        r
    }
}

/// Splits one batch into wire messages of at most `cap` rows each; the
/// messages carry exactly the batch's rows, in order.
pub fn split_batch(b: &Batch, cap: usize) -> (msgs: Vec<Batch>)
    requires
        b.aligned(),
        cap >= 1,
    ensures
        wire_rows(msgs@) == chunks_of(b@, cap as int),
        forall|m: int|
            0 <= m < msgs@.len()
                ==> (#[trigger] msgs@[m]).aligned()
                    && msgs@[m].columns@.len() == b.columns@.len()
                    && msgs@[m].spec_len() <= cap,
{
    let ghost gcap = cap as int;
    let total = b.len();
    let mut msgs: Vec<Batch> = Vec::new();
    let mut start: usize = 0;
    let ghost mut k: int = 0;
    proof {
        assert(wire_rows(msgs@) =~= chunks_of(b@, gcap).take(0));
    }
    while start < total
        invariant
            b.aligned(),
            cap >= 1,
            gcap == cap as int,
            total == b@.len(),
            start == k * gcap || (k == chunks_of(b@, gcap).len() && start == total),
            0 <= k <= chunks_of(b@, gcap).len(),
            start <= total,
            wire_rows(msgs@) == chunks_of(b@, gcap).take(k),
            msgs@.len() == k,
            forall|m: int|
                0 <= m < msgs@.len()
                    ==> (#[trigger] msgs@[m]).aligned()
                        && msgs@[m].columns@.len() == b.columns@.len()
                        && msgs@[m].spec_len() <= cap,
        decreases total - start,
    {
        let is_last = total - start < cap;
        let end = if is_last {
            total
        } else {
            start + cap
        };
        proof {
            assert(start == k * gcap);
            lemma_chunk_index(b@, gcap, k, start as int, end as int);
        }
        let piece = b.slice(start, end);
        let ghost prev = msgs@;
        msgs.push(piece);
        proof {
            assert(piece@ == chunks_of(b@, gcap)[k]);
            assert(wire_rows(msgs@) =~= chunks_of(b@, gcap).take(k + 1));
            if is_last {
                lemma_chunk_last(b@, gcap, k, start as int);
            } else {
                assert((k + 1) * gcap == k * gcap + gcap) by (nonlinear_arith);
            }
            k = k + 1;
        }
        start = end;
    }
    proof {
        if start == k * gcap {
            lemma_chunk_end(b@, gcap, k, start as int);
        }
        assert(chunks_of(b@, gcap).take(k) =~= chunks_of(b@, gcap));
    }
    msgs
}

/// The row records of a batch, position plus attribute values in column
/// order.
fn batch_to_records(b: &Batch) -> (r: Vec<PointRec>)
    requires
        b.aligned(),
    ensures
        crate::data::rows_of(r@) == b@,
        r@.len() == b@.len(),
        forall|i: int|
            0 <= i < r@.len() ==> (#[trigger] r@[i]).attrs@.len() == b.columns@.len(),
{
    let n = b.len();
    let ncols = b.columns.len();
    let mut out: Vec<PointRec> = Vec::new();
    let mut i: usize = 0;
    while i < n
        invariant
            0 <= i <= n,
            n == b.positions@.len(),
            ncols == b.columns@.len(),
            b.aligned(),
            out@.len() == i,
            forall|k: int| 0 <= k < i ==> (#[trigger] out@[k])@ == b.row(k),
            forall|k: int| 0 <= k < i ==> (#[trigger] out@[k]).attrs@.len() == ncols,
        decreases n - i,
    {
        let mut attrs: Vec<i64> = Vec::new();
        let mut j: usize = 0;
        while j < ncols
            invariant
                0 <= j <= ncols,
                0 <= i < n,
                n == b.positions@.len(),
                ncols == b.columns@.len(),
                b.aligned(),
                attrs@.len() == j,
                forall|k: int|
                    0 <= k < j ==> #[trigger] attrs@[k] == b.columns@[k]@[i as int],
            decreases ncols - j,
        {
            attrs.push(b.columns[j][i]);
            j += 1;
        }
        let rec = PointRec { pos: b.positions[i], attrs };
        proof {
            assert(rec@.attrs =~= b.row(i as int).attrs);
            assert(rec@ == b.row(i as int));
        }
        out.push(rec);
        i += 1;
    }
    proof {
        assert(crate::data::rows_of(out@) =~= b@);
    }
    out
}

/// Reassembles the messages of one batch, in arrival order, back into one
/// columnar batch.  A message whose column count differs from the requested
/// layout, or whose columns are ragged, is a transport error.
pub fn reassemble(msgs: &Vec<Batch>, ncols: usize) -> (r: Result<Batch, QueryError>)
    ensures
        match r {
            Result::Ok(b) => {
                &&& b@ == concat_rows(wire_rows(msgs@))
                &&& b.aligned()
                &&& b.columns@.len() == ncols
                &&& forall|m: int|
                    0 <= m < msgs@.len()
                        ==> (#[trigger] msgs@[m]).aligned()
                            && msgs@[m].columns@.len() == ncols
            },
            Result::Err(e) => e == QueryError::Transport && (exists|m: int|
                0 <= m < msgs@.len() && !((#[trigger] msgs@[m]).aligned()
                    && msgs@[m].columns@.len() == ncols)),
        },
{
    let mut recs: Vec<PointRec> = Vec::new();
    let mut m: usize = 0;
    proof {
        assert(wire_rows(msgs@).take(0) =~= Seq::<Seq<RowV>>::empty());
        assert(crate::data::rows_of(recs@) =~= Seq::<RowV>::empty());
    }
    while m < msgs.len()
        invariant
            0 <= m <= msgs@.len(),
            crate::data::rows_of(recs@) == concat_rows(wire_rows(msgs@).take(m as int)),
            forall|k: int|
                0 <= k < m
                    ==> (#[trigger] msgs@[k]).aligned() && msgs@[k].columns@.len() == ncols,
            forall|i: int|
                0 <= i < recs@.len() ==> (#[trigger] recs@[i]).attrs@.len() == ncols,
        decreases msgs@.len() - m,
    {
        if msgs[m].columns.len() != ncols {
            return Result::Err(QueryError::Transport);
        }
        if !msgs[m].is_aligned() {
            return Result::Err(QueryError::Transport);
        }
        let mut piece = batch_to_records(&msgs[m]);
        let ghost prevrecs = recs@;
        let ghost prevpiece = piece@;
        recs.append(&mut piece);
        proof {
            assert(wire_rows(msgs@).take(m + 1)
                =~= wire_rows(msgs@).take(m as int).push(msgs@[m as int]@));
            assert(wire_rows(msgs@).take(m + 1).drop_last()
                =~= wire_rows(msgs@).take(m as int));
            assert(crate::data::rows_of(recs@)
                =~= crate::data::rows_of(prevrecs) + crate::data::rows_of(prevpiece));
        }
        m += 1;
    }
    proof {
        assert(wire_rows(msgs@).take(msgs@.len() as int) =~= wire_rows(msgs@));
    }
    let total = recs.len();
    let b = Batch::from_rows(&recs, 0, total, ncols);
    proof {
        assert(b@ =~= crate::data::rows_of(recs@));
    }
    Result::Ok(b)
}

/// Round trip: splitting a batch for the wire and reassembling the
/// messages restores exactly the original rows.
pub proof fn theorem_wire_roundtrip(b: Batch, cap: int)
    requires
        cap >= 1,
    ensures
        concat_rows(chunks_of(b@, cap)) == b@,
{
    crate::pipeline::lemma_chunks_concat(b@, cap);
}

} // verus!
