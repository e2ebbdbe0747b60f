//! Point records, columnar node data and size-capped columnar batches.
//!
//! Point data is stored column-wise: one position column and one value
//! column per named attribute.  The engine works internally on rows (one
//! position plus the requested attribute values in query order); a batch is
//! the columnar form of a run of rows, and every batch keeps all its columns
//! at equal length.

use vstd::prelude::*;

verus! {

use crate::geom::Pos;
use crate::query::LocationPredicate;

/// One named attribute column of a node.
#[derive(Clone, Debug)]
pub struct AttrColumn {
    pub name: String,
    pub values: Vec<i64>,
}

/// One point with its requested attribute values, in query order.
#[derive(Clone, Debug)]
pub struct PointRec {
    pub pos: Pos,
    pub attrs: Vec<i64>,
}

/// The mathematical value of a point record.
pub ghost struct RowV {
    pub pos: Pos,
    pub attrs: Seq<i64>,
}

impl View for PointRec {
    type V = RowV;

    open spec fn view(&self) -> RowV {
        RowV { pos: self.pos, attrs: self.attrs@ }
    }
}

/// The row values of a sequence of point records.
pub open spec fn rows_of(s: Seq<PointRec>) -> Seq<RowV> {
    s.map_values(|r: PointRec| r@)
}

/// The rows among `rows` whose position matches the predicate.
pub open spec fn matching_rows(rows: Seq<RowV>, pred: LocationPredicate) -> Seq<RowV> {
    rows.filter(|r: RowV| pred.contains(r.pos))
}

/// The raw, columnar point data of one node.
#[derive(Clone, Debug)]
pub struct NodeData {
    pub positions: Vec<Pos>,
    pub columns: Vec<AttrColumn>,
}

impl NodeData {
    /// Every attribute column is as long as the position column.
    pub open spec fn aligned(self) -> bool {
        forall|j: int|
            0 <= j < self.columns@.len()
                ==> (#[trigger] self.columns@[j]).values@.len() == self.positions@.len()
    }

    /// Executable check of `aligned`.
    pub fn is_aligned(&self) -> (r: bool)
        ensures
            r == self.aligned(),
    {
        let mut j: usize = 0;
        while j < self.columns.len()
            invariant
                0 <= j <= self.columns@.len(),
                forall|k: int|
                    0 <= k < j
                        ==> (#[trigger] self.columns@[k]).values@.len()
                            == self.positions@.len(),
            decreases self.columns@.len() - j,
        {
            if self.columns[j].values.len() != self.positions.len() {
                assert(!self.aligned());
                return false;
            }
            j += 1;
        }
        true
    }

    /// Index of the first column with the given name, if any.
    pub open spec fn col_index_from(cols: Seq<AttrColumn>, name: Seq<char>, from: int) -> Option<int>
        decreases cols.len() - from,
    {
        if from < 0 || from >= cols.len() {
            Option::None
        } else if cols[from].name@ == name {
            Option::Some(from)
        } else {
            Self::col_index_from(cols, name, from + 1)
        }
    }

    /// Index of the column with the given name.
    pub open spec fn col_index(self, name: Seq<char>) -> Option<int> {
        Self::col_index_from(self.columns@, name, 0)
    }

    /// Executable column lookup by name.
    pub fn find_column(&self, name: &String) -> (r: Option<usize>)
        ensures
            match r {
                Option::Some(j) => self.col_index(name@) == Option::Some(j as int)
                    && 0 <= j < self.columns@.len(),
                Option::None => self.col_index(name@) == Option::<int>::None,
            },
    {
        let mut j: usize = 0;
        while j < self.columns.len()
            invariant
                0 <= j <= self.columns@.len(),
                Self::col_index_from(self.columns@, name@, 0)
                    == Self::col_index_from(self.columns@, name@, j as int),
            decreases self.columns@.len() - j,
        {
            if self.columns[j].name == *name {
                return Option::Some(j);
            }
            j += 1;
        }
        Option::None
    }

    /// The row at `i` after selecting the columns at `sel`, in order.
    pub open spec fn sel_row(self, sel: Seq<int>, i: int) -> RowV {
        RowV {
            pos: self.positions@[i],
            attrs: Seq::new(sel.len(), |j: int| self.columns@[sel[j]].values@[i]),
        }
    }

    /// All rows of the node after column selection.
    pub open spec fn sel_rows(self, sel: Seq<int>) -> Seq<RowV> {
        Seq::new(self.positions@.len(), |i: int| self.sel_row(sel, i))
    }

    /// All selected indices are in range.
    pub open spec fn sel_in_range(self, sel: Seq<int>) -> bool {
        forall|j: int| 0 <= j < sel.len() ==> 0 <= #[trigger] sel[j] < self.columns@.len()
    }

    /// Materializes the rows of this node, keeping only the columns at
    /// `sel`, in that order.
    pub fn to_rows(&self, sel: &Vec<usize>) -> (r: Vec<PointRec>)
        requires
            self.aligned(),
            self.sel_in_range(sel@.map_values(|j: usize| j as int)),
        ensures
            rows_of(r@) == self.sel_rows(sel@.map_values(|j: usize| j as int)),
            r@.len() == self.positions@.len(),
            forall|i: int| 0 <= i < r@.len() ==> (#[trigger] r@[i]).pos == self.positions@[i],
            forall|i: int| 0 <= i < r@.len() ==> (#[trigger] r@[i]).attrs@.len() == sel@.len(),
    {
        let ghost gsel = sel@.map_values(|j: usize| j as int);
        let mut out: Vec<PointRec> = Vec::new();
        let mut i: usize = 0;
        while i < self.positions.len()
            invariant
                0 <= i <= self.positions@.len(),
                self.aligned(),
                self.sel_in_range(gsel),
                gsel == sel@.map_values(|j: usize| j as int),
                out@.len() == i,
                forall|k: int| 0 <= k < i ==> (#[trigger] out@[k])@ == self.sel_row(gsel, k),
                forall|k: int| 0 <= k < i ==> (#[trigger] out@[k]).pos == self.positions@[k],
                forall|k: int| 0 <= k < i ==> (#[trigger] out@[k]).attrs@.len() == sel@.len(),
            decreases self.positions@.len() - i,
        {
            let mut attrs: Vec<i64> = Vec::new();
            let mut j: usize = 0;
            while j < sel.len()
                invariant
                    0 <= j <= sel@.len(),
                    0 <= i < self.positions@.len(),
                    self.aligned(),
                    self.sel_in_range(gsel),
                    gsel == sel@.map_values(|j: usize| j as int),
                    attrs@.len() == j,
                    forall|k: int|
                        0 <= k < j
                            ==> #[trigger] attrs@[k]
                                == self.columns@[gsel[k]].values@[i as int],
                decreases sel@.len() - j,
            {
                assert(gsel[j as int] == sel@[j as int] as int);
                let cj: usize = sel[j];
                attrs.push(self.columns[cj].values[i]);
                j += 1;
            }
            let rec = PointRec { pos: self.positions[i], attrs };
            proof {
                assert(rec@.attrs =~= self.sel_row(gsel, i as int).attrs);
                assert(rec@ == self.sel_row(gsel, i as int));
            }
            out.push(rec);
            i += 1;
        }
        proof {
            assert(rows_of(out@) =~= self.sel_rows(gsel));
        }
        out
    }
}

/// A size-capped columnar chunk of query results: one position column and
/// one column per requested attribute, all of equal length.
#[derive(Clone, Debug)]
pub struct Batch {
    pub positions: Vec<Pos>,
    pub columns: Vec<Vec<i64>>,
}

impl Batch {
    /// All columns have the position column's length.
    pub open spec fn aligned(self) -> bool {
        forall|j: int|
            0 <= j < self.columns@.len()
                ==> (#[trigger] self.columns@[j])@.len() == self.positions@.len()
    }

    /// The row at index `i`.
    pub open spec fn row(self, i: int) -> RowV {
        RowV {
            pos: self.positions@[i],
            attrs: Seq::new(self.columns@.len(), |j: int| self.columns@[j]@[i]),
        }
    }

    /// Number of points in the batch.
    pub open spec fn spec_len(self) -> nat {
        self.positions@.len()
    }

    /// Number of points in the batch.
    pub fn len(&self) -> (r: usize)
        ensures
            r == self.spec_len(),
    {
        self.positions.len()
    }

    /// Executable check of `aligned`.
    pub fn is_aligned(&self) -> (r: bool)
        ensures
            r == self.aligned(),
    {
        let mut j: usize = 0;
        while j < self.columns.len()
            invariant
                0 <= j <= self.columns@.len(),
                forall|k: int|
                    0 <= k < j
                        ==> (#[trigger] self.columns@[k])@.len() == self.positions@.len(),
            decreases self.columns@.len() - j,
        {
            if self.columns[j].len() != self.positions.len() {
                assert(!self.aligned());
                return false;
            }
            j += 1;
        }
        true
    }

    /// Builds the columnar batch holding `rows[start..end]`, each row with
    /// `ncols` attribute values.
    pub fn from_rows(rows: &Vec<PointRec>, start: usize, end: usize, ncols: usize) -> (b: Batch)
        requires
            0 <= start <= end <= rows@.len(),
            forall|i: int| 0 <= i < rows@.len() ==> (#[trigger] rows@[i]).attrs@.len() == ncols,
        ensures
            b@ == rows_of(rows@).subrange(start as int, end as int),
            b.aligned(),
            b.columns@.len() == ncols,
            b.spec_len() == end - start,
    {
        let n: usize = end - start;
        let mut positions: Vec<Pos> = Vec::new();
        let mut i: usize = 0;
        while i < n
            invariant
                0 <= i <= n,
                n == end - start,
                0 <= start <= end <= rows@.len(),
                positions@.len() == i,
                forall|k: int|
                    0 <= k < i ==> #[trigger] positions@[k] == rows@[start + k].pos,
            decreases n - i,
        {
            positions.push(rows[start + i].pos);
            i += 1;
        }
        let mut columns: Vec<Vec<i64>> = Vec::new();
        let mut j: usize = 0;
        while j < ncols
            invariant
                0 <= j <= ncols,
                n == end - start,
                0 <= start <= end <= rows@.len(),
                forall|i2: int|
                    0 <= i2 < rows@.len() ==> (#[trigger] rows@[i2]).attrs@.len() == ncols,
                columns@.len() == j,
                forall|k: int| 0 <= k < j ==> (#[trigger] columns@[k])@.len() == n,
                forall|k: int, i2: int|
                    #![trigger columns@[k]@[i2]]
                    0 <= k < j && 0 <= i2 < n
                        ==> columns@[k]@[i2] == rows@[start + i2].attrs@[k],
            decreases ncols - j,
        {
            let mut col: Vec<i64> = Vec::new();
            let mut i2: usize = 0;
            while i2 < n
                invariant
                    0 <= i2 <= n,
                    0 <= j < ncols,
                    n == end - start,
                    0 <= start <= end <= rows@.len(),
                    forall|i3: int|
                        0 <= i3 < rows@.len()
                            ==> (#[trigger] rows@[i3]).attrs@.len() == ncols,
                    col@.len() == i2,
                    forall|k: int|
                        0 <= k < i2 ==> #[trigger] col@[k] == rows@[start + k].attrs@[j as int],
                decreases n - i2,
            {
                col.push(rows[start + i2].attrs[j]);
                i2 += 1;
            }
            columns.push(col);
            j += 1;
        }
        let b = Batch { positions, columns };
        proof {
            assert forall|i2: int| 0 <= i2 < n implies b.row(i2)
                == rows_of(rows@).subrange(start as int, end as int)[i2] by {
                assert(b.row(i2).attrs =~= rows@[start + i2]@.attrs);
            }
            assert(b@ =~= rows_of(rows@).subrange(start as int, end as int));
        }
        b
    }
}

impl View for Batch {
    type V = Seq<RowV>;

    open spec fn view(&self) -> Seq<RowV> {
        Seq::new(self.positions@.len(), |i: int| self.row(i))
    }
}

/// Keeps exactly the records whose position matches the predicate.
pub fn filter_records(rows: &Vec<PointRec>, pred: &LocationPredicate) -> (r: Vec<PointRec>)
    requires
        pred.wf(),
        forall|i: int| 0 <= i < rows@.len() ==> (#[trigger] rows@[i]).pos.wf(),
    ensures
        rows_of(r@) == matching_rows(rows_of(rows@), *pred),
        forall|i: int| 0 <= i < r@.len() ==> (#[trigger] r@[i]).pos.wf(),
{
    broadcast use Seq::lemma_filter_push;

    let ghost p = |r: RowV| pred.contains(r.pos);
    let mut out: Vec<PointRec> = Vec::new();
    let mut i: usize = 0;
    proof {
        assert(rows_of(rows@).take(0) =~= Seq::<RowV>::empty());
        assert(rows_of(out@) =~= Seq::<RowV>::empty());
        assert(Seq::<RowV>::empty().filter(p) =~= Seq::<RowV>::empty());
    }
    while i < rows.len()
        invariant
            0 <= i <= rows@.len(),
            pred.wf(),
            forall|k: int| 0 <= k < rows@.len() ==> (#[trigger] rows@[k]).pos.wf(),
            p == (|r: RowV| pred.contains(r.pos)),
            rows_of(out@) == rows_of(rows@).take(i as int).filter(p),
            forall|k: int| 0 <= k < out@.len() ==> (#[trigger] out@[k]).pos.wf(),
        decreases rows@.len() - i,
    {
        let keep = pred.contains_point(&rows[i].pos);
        proof {
            assert(rows_of(rows@).take(i + 1)
                =~= rows_of(rows@).take(i as int).push(rows@[i as int]@));
            rows_of(rows@).take(i as int).lemma_filter_push(rows@[i as int]@, p);
            assert(p(rows@[i as int]@) == pred.contains(rows@[i as int]@.pos));
        }
        if keep {
            let mut attrs2: Vec<i64> = Vec::new();
            let mut k: usize = 0;
            while k < rows[i].attrs.len()
                invariant
                    0 <= i < rows@.len(),
                    0 <= k <= rows@[i as int].attrs@.len(),
                    attrs2@ == rows@[i as int].attrs@.take(k as int),
                decreases rows@[i as int].attrs@.len() - k,
            {
                proof {
                    assert(rows@[i as int].attrs@.take(k + 1)
                        =~= rows@[i as int].attrs@.take(k as int).push(
                            rows@[i as int].attrs@[k as int]));
                }
                attrs2.push(rows[i].attrs[k]);
                k += 1;
            }
            proof {
                assert(attrs2@ =~= rows@[i as int].attrs@);
            }
            let rec = PointRec { pos: rows[i].pos, attrs: attrs2 };
            let ghost prev = out@;
            out.push(rec);
            proof {
                assert(rec@ == rows@[i as int]@);
                assert(rows_of(out@) =~= rows_of(prev).push(rec@));
            }
        }
        i += 1;
    }
    proof {
        assert(rows_of(rows@).take(rows@.len() as int) =~= rows_of(rows@));
    }
    out
}

/// Filtering keeps each surviving row's attribute count.
pub proof fn lemma_filter_attr_len(s: Seq<RowV>, pred: spec_fn(RowV) -> bool, nc: int)
    requires
        forall|i: int| 0 <= i < s.len() ==> (#[trigger] s[i]).attrs.len() == nc,
    ensures
        forall|i: int|
            0 <= i < s.filter(pred).len() ==> (#[trigger] s.filter(pred)[i]).attrs.len() == nc,
    decreases s.len(),
{
    reveal(Seq::filter);
    if s.len() > 0 {
        assert(forall|i: int|
            0 <= i < s.drop_last().len() ==> (#[trigger] s.drop_last()[i]).attrs.len() == nc);
        lemma_filter_attr_len(s.drop_last(), pred, nc);
        assert(s.last() == s[s.len() - 1]);
        if pred(s.last()) {
            assert(s.filter(pred) == s.drop_last().filter(pred).push(s.last()));
            assert forall|i: int|
                0 <= i < s.filter(pred).len() implies (#[trigger] s.filter(pred)[i]).attrs.len()
                == nc by {
                if i < s.drop_last().filter(pred).len() {
                    assert(s.filter(pred)[i] == s.drop_last().filter(pred)[i]);
                }
            }
        } else {
            assert(s.filter(pred) == s.drop_last().filter(pred));
        }
    }
}

} // verus!
