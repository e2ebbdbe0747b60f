//! The spatial index: node topology, bounding volumes and lazily held data.
//!
//! An index owns a forest of nodes; each node knows its parent (earlier in
//! the node array) and its bounding volume, which nests inside its parent's.
//! Point data is kept per node by an injected data provider and may be
//! absent, in which case loading that node fails.  Both octrees (box
//! volumes) and cell hierarchies (cell volumes) take this one shape.

use vstd::prelude::*;

verus! {

use crate::data::NodeData;
use crate::query::Volume;

/// One node of the hierarchy.
#[derive(Clone, Debug)]
pub struct Node {
    /// Index of the parent node; roots have none.  Parents precede children.
    pub parent: Option<usize>,
    /// The node's bounding volume.
    pub volume: Volume,
}

/// A read-only spatial index over one point cloud.
#[derive(Clone, Debug)]
pub struct Index {
    pub nodes: Vec<Node>,
    pub data: Vec<Option<NodeData>>,
}

/// The point data of one node is aligned, in range and inside the volume.
pub open spec fn node_data_ok(d: NodeData, vol: Volume) -> bool {
    d.aligned() && forall|k: int|
        0 <= k < d.positions@.len()
            ==> (#[trigger] d.positions@[k]).wf() && vol.contains(d.positions@[k])
}

/// Executable check of `node_data_ok`.
fn check_node_data(d: &NodeData, vol: &Volume) -> (r: bool)
    requires
        vol.wf(),
    ensures
        r == node_data_ok(*d, *vol),
{
    if !d.is_aligned() {
        return false;
    }
    let mut k: usize = 0;
    while k < d.positions.len()
        invariant
            0 <= k <= d.positions@.len(),
            vol.wf(),
            forall|m: int|
                0 <= m < k
                    ==> (#[trigger] d.positions@[m]).wf() && vol.contains(d.positions@[m]),
        decreases d.positions@.len() - k,
    {
        let p = d.positions[k];
        if !p.is_wf() {
            assert(!((d.positions@[k as int]).wf()));
            return false;
        }
        if !vol.contains_point(&p) {
            return false;
        }
        k += 1;
    }
    true
}

impl Index {
    /// Number of nodes.
    pub open spec fn spec_len(self) -> nat {
        self.nodes@.len()
    }

    /// Number of nodes.
    pub fn len(&self) -> (r: usize)
        ensures
            r == self.spec_len(),
    {
        self.nodes.len()
    }

    /// Structural well-formedness: one data slot per node, parents precede
    /// their children, volumes are well formed and nest along parent links,
    /// and whatever data is present lies inside its node's volume.
    pub open spec fn wf(self) -> bool {
        &&& self.data@.len() == self.nodes@.len()
        &&& forall|i: int|
            0 <= i < self.nodes@.len()
                ==> (#[trigger] self.nodes@[i]).volume.wf()
        &&& forall|i: int|
            0 <= i < self.nodes@.len() && self.nodes@[i].parent is Some
                ==> {
                    let p = (#[trigger] self.nodes@[i]).parent->0;
                    0 <= p < i && self.nodes@[i].volume.inside(self.nodes@[p as int].volume)
                }
        &&& forall|i: int|
            0 <= i < self.data@.len() && self.data@[i] is Some
                ==> node_data_ok((#[trigger] self.data@[i])->0, self.nodes@[i].volume)
    }

    /// Validates a candidate index; accepted exactly when well formed.
    pub fn new(nodes: Vec<Node>, data: Vec<Option<NodeData>>) -> (r: Option<Index>)
        ensures
            match r {
                Option::Some(ix) => ix.wf() && ix.nodes@ == nodes@ && ix.data@ == data@,
                Option::None => !(Index { nodes, data }).wf(),
            },
    {
        let ix = Index { nodes, data };
        if ix.check_wf() {
            Option::Some(ix)
        } else {
            Option::None
        }
    }

    /// Executable check of `wf`.
    pub fn check_wf(&self) -> (r: bool)
        ensures
            r == self.wf(),
    {
        if self.data.len() != self.nodes.len() {
            return false;
        }
        let mut i: usize = 0;
        while i < self.nodes.len()
            invariant
                0 <= i <= self.nodes@.len(),
                self.data@.len() == self.nodes@.len(),
                forall|m: int|
                    0 <= m < i ==> (#[trigger] self.nodes@[m]).volume.wf(),
                forall|m: int|
                    0 <= m < i && self.nodes@[m].parent is Some
                        ==> {
                            let p = (#[trigger] self.nodes@[m]).parent->0;
                            0 <= p < m
                                && self.nodes@[m].volume.inside(self.nodes@[p as int].volume)
                        },
                forall|m: int|
                    0 <= m < i && self.data@[m] is Some
                        ==> node_data_ok(
                            (#[trigger] self.data@[m])->0,
                            self.nodes@[m].volume,
                        ),
            decreases self.nodes@.len() - i,
        {
            if !self.nodes[i].volume.is_wf() {
                return false;
            }
            match self.nodes[i].parent {
                Option::Some(p) => {
                    if p >= i {
                        return false;
                    }
                    if !self.nodes[i].volume.is_inside(&self.nodes[p].volume) {
                        return false;
                    }
                },
                Option::None => {},
            }
            match &self.data[i] {
                Option::Some(d) => {
                    if !check_node_data(d, &self.nodes[i].volume) {
                        return false;
                    }
                },
                Option::None => {},
            }
            i += 1;
        }
        true
    }

    /// The node indices without a parent, in ascending order.
    pub fn root_ids(&self) -> (r: Vec<usize>)
        ensures
            forall|j: int|
                0 <= j < r@.len()
                    ==> 0 <= #[trigger] r@[j] < self.nodes@.len()
                        && self.nodes@[r@[j] as int].parent is None,
            forall|k: int|
                0 <= k < self.nodes@.len() && self.nodes@[k].parent is None
                    ==> r@.contains(k as usize),
    {
        let mut r: Vec<usize> = Vec::new();
        let mut i: usize = 0;
        while i < self.nodes.len()
            invariant
                0 <= i <= self.nodes@.len(),
                forall|j: int|
                    0 <= j < r@.len()
                        ==> 0 <= #[trigger] r@[j] < self.nodes@.len()
                            && self.nodes@[r@[j] as int].parent is None,
                forall|k: int|
                    0 <= k < i && self.nodes@[k].parent is None
                        ==> r@.contains(k as usize),
            decreases self.nodes@.len() - i,
        {
            if self.nodes[i].parent.is_none() {
                let ghost prev = r@;
                r.push(i);
                proof {
                    assert(r@[prev.len() as int] == i);
                    assert forall|k: int|
                        prev.contains(k as usize) implies #[trigger] r@.contains(
                        k as usize,
                    ) by {
                        let idx = choose|idx: int|
                            0 <= idx < prev.len() && prev[idx] == k as usize;
                        assert(r@[idx] == k as usize);
                    }
                }
            }
            i += 1;
        }
        r
    }

    /// The children of a node, in ascending order.
    pub fn children(&self, id: usize) -> (r: Vec<usize>)
        ensures
            forall|j: int|
                0 <= j < r@.len()
                    ==> 0 <= #[trigger] r@[j] < self.nodes@.len()
                        && self.nodes@[r@[j] as int].parent == Option::Some(id),
            forall|k: int|
                0 <= k < self.nodes@.len() && self.nodes@[k].parent == Option::Some(id)
                    ==> r@.contains(k as usize),
    {
        let mut r: Vec<usize> = Vec::new();
        let mut i: usize = 0;
        while i < self.nodes.len()
            invariant
                0 <= i <= self.nodes@.len(),
                forall|j: int|
                    0 <= j < r@.len()
                        ==> 0 <= #[trigger] r@[j] < self.nodes@.len()
                            && self.nodes@[r@[j] as int].parent == Option::Some(id),
                forall|k: int|
                    0 <= k < i && self.nodes@[k].parent == Option::Some(id)
                        ==> r@.contains(k as usize),
            decreases self.nodes@.len() - i,
        {
            let is_child = match self.nodes[i].parent {
                Option::Some(p) => p == id,
                Option::None => false,
            };
            if is_child {
                let ghost prev = r@;
                r.push(i);
                proof {
                    assert(r@[prev.len() as int] == i);
                    assert forall|k: int|
                        prev.contains(k as usize) implies #[trigger] r@.contains(
                        k as usize,
                    ) by {
                        let idx = choose|idx: int|
                            0 <= idx < prev.len() && prev[idx] == k as usize;
                        assert(r@[idx] == k as usize);
                    }
                }
            }
            i += 1;
        }
        r
    }

    /// Materializes one node's batch with the requested attributes, in the
    /// caller's order.  Fails with a load error when the node's backing
    /// data is absent, and with an attribute error when the node lacks a
    /// requested attribute.
    pub fn load_batch(&self, id: usize, attributes: &Vec<String>) -> (r: Result<
        crate::data::Batch,
        crate::pipeline::QueryError,
    >)
        requires
            self.wf(),
            id < self.nodes@.len(),
        ensures
            match r {
                Result::Ok(b) => {
                    &&& self.data@[id as int] is Some
                    &&& sel_of(self.data@[id as int]->0, names_of(attributes@)) is Some
                    &&& b@ == self.data@[id as int]->0.sel_rows(
                        sel_of(self.data@[id as int]->0, names_of(attributes@))->0,
                    )
                    &&& b.aligned()
                    &&& b.columns@.len() == attributes@.len()
                },
                Result::Err(e) => (e == crate::pipeline::QueryError::NodeLoad(id)
                    && self.data@[id as int] is None) || (e
                    == crate::pipeline::QueryError::AttributeMissing(id)
                    && self.data@[id as int] is Some
                    && sel_of(self.data@[id as int]->0, names_of(attributes@)) is None),
            },
    {
        let d = match &self.data[id] {
            Option::Some(d) => d,
            Option::None => {
                return Result::Err(crate::pipeline::QueryError::NodeLoad(id));
            },
        };
        let sel = match resolve_columns(d, attributes) {
            Option::Some(sel) => sel,
            Option::None => {
                return Result::Err(crate::pipeline::QueryError::AttributeMissing(id));
            },
        };
        proof {
            assert(node_data_ok(self.data@[id as int]->0, self.nodes@[id as int].volume));
        }
        let rows = d.to_rows(&sel);
        let total = rows.len();
        let b = crate::data::Batch::from_rows(&rows, 0, total, attributes.len());
        proof {
            assert(b@ =~= crate::data::rows_of(rows@));
        }
        Result::Ok(b)
    }

    /// The bounding volume of a node.
    pub fn bounding_volume(&self, id: usize) -> (r: Volume)
        requires
            id < self.nodes@.len(),
        ensures
            r == self.nodes@[id as int].volume,
    {
        self.nodes[id].volume
    }
}

/// Selection of the columns named by a query, in the caller's order; `None`
/// when some requested attribute is absent from the node.
pub open spec fn sel_of(d: NodeData, names: Seq<Seq<char>>) -> Option<Seq<int>>
    decreases names.len(),
{
    if names.len() == 0 {
        Option::Some(Seq::empty())
    } else {
        match sel_of(d, names.drop_last()) {
            Option::None => Option::None,
            Option::Some(s) => match d.col_index(names.last()) {
                Option::None => Option::None,
                Option::Some(j) => Option::Some(s.push(j)),
            },
        }
    }
}

/// The names of the requested attributes, as character sequences.
pub open spec fn names_of(attrs: Seq<String>) -> Seq<Seq<char>> {
    attrs.map_values(|s: String| s@)
}

/// Resolves each requested attribute to its column, in the caller's order.
pub fn resolve_columns(d: &NodeData, attrs: &Vec<String>) -> (r: Option<Vec<usize>>)
    ensures
        match r {
            Option::Some(sel) => sel_of(*d, names_of(attrs@))
                == Option::Some(sel@.map_values(|j: usize| j as int))
                && d.sel_in_range(sel@.map_values(|j: usize| j as int))
                && sel@.len() == attrs@.len(),
            Option::None => sel_of(*d, names_of(attrs@)) is None,
        },
{
    let mut sel: Vec<usize> = Vec::new();
    let mut j: usize = 0;
    proof {
        assert(names_of(attrs@).take(0) =~= Seq::<Seq<char>>::empty());
    }
    while j < attrs.len()
        invariant
            0 <= j <= attrs@.len(),
            sel@.len() == j,
            sel_of(*d, names_of(attrs@).take(j as int))
                == Option::Some(sel@.map_values(|m: usize| m as int)),
            d.sel_in_range(sel@.map_values(|m: usize| m as int)),
        decreases attrs@.len() - j,
    {
        let found = d.find_column(&attrs[j]);
        proof {
            assert(names_of(attrs@).take(j + 1).drop_last()
                =~= names_of(attrs@).take(j as int));
            assert(names_of(attrs@).take(j + 1).last() == attrs@[j as int]@);
        }
        match found {
            Option::Some(c) => {
                let ghost prev = sel@;
                sel.push(c);
                proof {
                    assert(sel@.map_values(|m: usize| m as int)
                        =~= prev.map_values(|m: usize| m as int).push(c as int));
                }
            },
            Option::None => {
                proof {
                    lemma_sel_of_extends_none(*d, names_of(attrs@), j as int);
                }
                return Option::None;
            },
        }
        j += 1;
    }
    proof {
        assert(names_of(attrs@).take(attrs@.len() as int) =~= names_of(attrs@));
    }
    Option::Some(sel)
}

/// Once a prefix of the names fails to resolve, the whole list fails.
proof fn lemma_sel_of_extends_none(d: NodeData, names: Seq<Seq<char>>, j: int)
    requires
        0 <= j < names.len(),
        sel_of(d, names.take(j + 1)) is None,
    ensures
        sel_of(d, names) is None,
    decreases names.len() - j,
{
    if j + 1 == names.len() {
        assert(names.take(j + 1) =~= names);
    } else {
        if sel_of(d, names.take(j + 2)) is Some {
            assert(names.take(j + 2).drop_last() =~= names.take(j + 1));
        }
        lemma_sel_of_extends_none(d, names, j + 1);
    }
}

} // verus!
