//! The commit DAG: nodes keyed by commit id, with ordered parent edges,
//! derived child edges and an optional reference label per node.
use vstd::prelude::*;

verus! {

/// Errors surfaced by the graph, builder and scene layers.
#[derive(Debug, Clone, Copy, PartialEq, Eq, Structural)]
pub enum GraphError {
    /// A reference name does not contain the expected `/` separator.
    MalformedReferenceName,
    /// A lookup used a commit id that the graph does not contain.
    UnknownCommitId,
    /// An internal edge named a commit id that the graph does not contain.
    GraphConsistency,
    /// The repository collaborator failed to check out the requested commit.
    CheckoutFailed,
}

/// One commit in the history DAG.
pub struct CommitNode {
    /// The commit's unique hash string.
    pub id: String,
    /// Parent commit ids, in the order the repository reports them.
    pub parents: Vec<String>,
    /// Ids of commits that list this commit as a parent, in discovery order.
    pub children: Vec<String>,
    /// Reference (branch/tag) name attached to this commit, if any.
    pub reference: Option<String>,
}

/// Mathematical image of a `CommitNode`.
#[verifier::ext_equal]
pub ghost struct SpecNode {
    pub id: Seq<char>,
    pub parents: Seq<Seq<char>>,
    pub children: Seq<Seq<char>>,
    pub reference: Option<Seq<char>>,
}

impl View for CommitNode {
    type V = SpecNode;

    open spec fn view(&self) -> SpecNode {
        SpecNode {
            id: self.id@,
            parents: self.parents@.map_values(|p: String| p@),
            children: self.children@.map_values(|c: String| c@),
            reference: match self.reference {
                Some(r) => Some(r@),
                None => None,
            },
        }
    }
}

/// The view of a sequence of id strings.
pub open spec fn names_of(v: Seq<String>) -> Seq<Seq<char>> {
    v.map_values(|s: String| s@)
}

/// Whether some node of `g` carries the id `id`.
pub open spec fn has_id(g: Seq<SpecNode>, id: Seq<char>) -> bool {
    exists|j: int| 0 <= j < g.len() && g[j].id == id
}

/// The index of the node carrying `id` (meaningful when `has_id` holds and ids are unique).
pub open spec fn idx_of(g: Seq<SpecNode>, id: Seq<char>) -> int {
    choose|j: int| 0 <= j < g.len() && g[j].id == id
}

/// No two nodes share an id.
pub open spec fn ids_unique(g: Seq<SpecNode>) -> bool {
    forall|i: int, j: int| 0 <= i < j < g.len() ==> g[i].id != g[j].id
}

/// Parent `k` of node `i` resolves to an earlier node whose children list contains `i`'s id.
pub open spec fn parent_edge_wf(g: Seq<SpecNode>, i: int, k: int) -> bool {
    exists|j: int| 0 <= j < i && g[j].id == g[i].parents[k] && g[j].children.contains(g[i].id)
}

/// All parent edges of node `i` are well formed.
pub open spec fn parent_edges_wf(g: Seq<SpecNode>, i: int) -> bool {
    forall|k: int| 0 <= k < g[i].parents.len() ==> #[trigger] parent_edge_wf(g, i, k)
}

/// Child `k` of node `i` resolves to a later node.
pub open spec fn child_edge_wf(g: Seq<SpecNode>, i: int, k: int) -> bool {
    exists|j: int| i < j < g.len() && g[j].id == g[i].children[k]
}

/// Every child edge of node `i` resolves to a later node.
pub open spec fn child_edges_wf(g: Seq<SpecNode>, i: int) -> bool {
    forall|k: int| 0 <= k < g[i].children.len() ==> #[trigger] child_edge_wf(g, i, k)
}

/// Well-formedness of the whole arena: unique ids, parents resolve backward
/// (and are mirrored by a child edge), children resolve forward.
pub open spec fn graph_wf(g: Seq<SpecNode>) -> bool {
    &&& ids_unique(g)
    &&& forall|i: int| 0 <= i < g.len() ==> #[trigger] parent_edges_wf(g, i)
    &&& forall|i: int| 0 <= i < g.len() ==> #[trigger] child_edges_wf(g, i)
}

/// `g` with `cid` appended to the children of the node carrying `pid`, if present.
pub open spec fn append_child(g: Seq<SpecNode>, pid: Seq<char>, cid: Seq<char>) -> Seq<SpecNode> {
    if has_id(g, pid) {
        let j = idx_of(g, pid);
        g.update(
            j,
            SpecNode {
                id: g[j].id,
                parents: g[j].parents,
                children: g[j].children.push(cid),
                reference: g[j].reference,
            },
        )
    } else {
        g
    }
}

/// `g` with `cid` appended to the children of each id in `parents`, processed left to right
/// (one append per occurrence, so a duplicated parent receives the child twice).
pub open spec fn add_child_edges(g: Seq<SpecNode>, parents: Seq<Seq<char>>, cid: Seq<char>) -> Seq<
    SpecNode,
>
    decreases parents.len(),
{
    if parents.len() == 0 {
        g
    } else {
        append_child(add_child_edges(g, parents.drop_last(), cid), parents.last(), cid)
    }
}

/// Every id in `parents` is already a node of `g`.
pub open spec fn all_present(g: Seq<SpecNode>, parents: Seq<Seq<char>>) -> bool {
    forall|k: int| 0 <= k < parents.len() ==> has_id(g, #[trigger] parents[k])
}

/// Whether inserting `(id, parents)` succeeds: either the id is already known
/// (label attachment at most) or all its parents are known.
pub open spec fn spec_add_ok(g: Seq<SpecNode>, id: Seq<char>, parents: Seq<Seq<char>>) -> bool {
    has_id(g, id) || all_present(g, parents)
}

/// Functional meaning of `CommitGraph::add_commit`: idempotent per id, first
/// label wins, parent/child edges wired in both directions on insertion, and
/// the graph left unchanged when a parent is missing.
pub open spec fn spec_add(
    g: Seq<SpecNode>,
    id: Seq<char>,
    parents: Seq<Seq<char>>,
    reference: Option<Seq<char>>,
) -> Seq<SpecNode> {
    if has_id(g, id) {
        let i = idx_of(g, id);
        if reference is Some && g[i].reference is None {
            g.update(
                i,
                SpecNode { id: g[i].id, parents: g[i].parents, children: g[i].children, reference },
            )
        } else {
            g
        }
    } else if all_present(g, parents) {
        add_child_edges(g, parents, id).push(
            SpecNode { id, parents, children: Seq::empty(), reference },
        )
    } else {
        g
    }
}

/// The commit DAG, held as an arena in insertion order: every node's parents
/// stand at earlier indices, its children at later ones.
pub struct CommitGraph {
    /// The nodes, in insertion order.
    pub nodes: Vec<CommitNode>,
}

impl View for CommitGraph {
    type V = Seq<SpecNode>;

    open spec fn view(&self) -> Seq<SpecNode> {
        self.nodes@.map_values(|n: CommitNode| n@)
    }
}

impl CommitGraph {
    /// Arena well-formedness.
    pub open spec fn wf(&self) -> bool {
        graph_wf(self@)
    }

    /// An empty graph.
    pub fn new() -> (r: CommitGraph)
        ensures
            r.wf(),
            r@.len() == 0,
    {
        CommitGraph { nodes: Vec::new() }
    }

    /// Number of commits in the graph.
    pub fn len(&self) -> (r: usize)
        ensures
            r == self@.len(),
    {
        self.nodes.len()
    }

    /// The arena index of the node carrying `id`, if any.
    pub fn find_index(&self, id: &String) -> (r: Option<usize>)
        ensures
            match r {
                Some(i) => i < self@.len() && self@[i as int].id == id@,
                None => !has_id(self@, id@),
            },
    {
        let mut i: usize = 0;
        while i < self.nodes.len()
            invariant
                i <= self@.len(),
                forall|j: int| 0 <= j < i ==> self@[j].id != id@,
            decreases self@.len() - i,
        {
            if self.nodes[i].id == *id {
                return Some(i);
            }
            i += 1;
        }
        None
    }

    /// Insert a commit with the given parent ids and optional reference label.
    /// Idempotent per id: a known id with no label is a no-op, a known id with a
    /// label attaches it only if none is set yet. A fresh id requires every
    /// parent to be present already; a missing parent is a consistency error
    /// and leaves the graph unchanged.
    pub fn add_commit(
        &mut self,
        id: String,
        parents: Vec<String>,
        reference: Option<String>,
    ) -> (r: Result<(), GraphError>)
        requires
            old(self).wf(),
        ensures
            final(self).wf(),
            final(self)@ == spec_add(
                old(self)@,
                id@,
                names_of(parents@),
                match reference {
                    Some(rf) => Some(rf@),
                    None => None,
                },
            ),
            (r is Ok) == spec_add_ok(old(self)@, id@, names_of(parents@)),
            r is Err ==> r == Err::<(), GraphError>(GraphError::GraphConsistency) && final(self)@
                == old(self)@,
    {
        let ghost g0 = self@;
        let ghost ps = names_of(parents@);
        let ghost rv: Option<Seq<char>> = match &reference {
            Some(rf) => Some(rf@),
            None => None,
        };
        proof {
            lemma_spec_add_wf(g0, id@, ps, rv);
        }
        match self.find_index(&id) {
            Some(i) => {
                proof {
                    lemma_idx_of(g0, id@, i as int);
                }
                if reference.is_some() && self.nodes[i].reference.is_none() {
                    self.nodes[i].reference = reference;
                    proof {
                        assert(self@ =~~= spec_add(g0, id@, ps, rv));
                    }
                } else {
                    proof {
                        assert(self@ == spec_add(g0, id@, ps, rv));
                    }
                }
                Ok(())
            },
            None => {
                let mut k: usize = 0;
                while k < parents.len()
                    invariant
                        old(self).wf(),
                        g0 == old(self)@,
                        self@ == g0,
                        !has_id(g0, id@),
                        k <= parents.len(),
                        ps == names_of(parents@),
                        forall|m: int| 0 <= m < k ==> has_id(g0, #[trigger] ps[m]),
                    decreases parents.len() - k,
                {
                    if self.find_index(&parents[k]).is_none() {
                        proof {
                            assert(!has_id(g0, ps[k as int]));
                            assert(!all_present(g0, ps));
                            assert(self@ == spec_add(g0, id@, ps, rv));
                        }
                        return Err(GraphError::GraphConsistency);
                    }
                    k += 1;
                }
                proof {
                    assert(all_present(g0, ps));
                }
                let mut k: usize = 0;
                while k < parents.len()
                    invariant
                        old(self).wf(),
                        g0 == old(self)@,
                        k <= parents.len(),
                        ps == names_of(parents@),
                        all_present(g0, ps),
                        !has_id(g0, id@),
                        self@ == add_child_edges(g0, ps.take(k as int), id@),
                    decreases parents.len() - k,
                {
                    proof {
                        lemma_add_child_edges_frame(g0, ps.take(k as int), id@);
                    }
                    let ghost cur = self@;
                    match self.find_index(&parents[k]) {
                        Some(j) => {
                            proof {
                                assert(ids_unique(cur)) by {
                                    assert(forall|a: int, b: int|
                                        0 <= a < b < cur.len() ==> cur[a].id == g0[a].id && cur[
                                        b].id == g0[b].id);
                                }
                                lemma_idx_of(cur, ps[k as int], j as int);
                            }
                            self.nodes[j].children.push(id.clone());
                            proof {
                                assert(has_id(cur, ps[k as int]));
                                assert(self@ =~~= append_child(cur, ps[k as int], id@));
                                assert(ps.take(k + 1 as int).drop_last() =~= ps.take(k as int));
                                assert(ps.take(k + 1 as int).last() == ps[k as int]);
                                assert(self@ == add_child_edges(g0, ps.take(k + 1 as int), id@));
                            }
                        },
                        None => {
                            proof {
                                let j0 = choose|j0: int| 0 <= j0 < g0.len() && g0[j0].id == ps[k as int];
                                assert(cur[j0].id == g0[j0].id);
                                assert(has_id(cur, ps[k as int]));
                                assert(false);
                            }
                            return Err(GraphError::GraphConsistency);
                        },
                    }
                    k += 1;
                }
                proof {
                    assert(ps.take(parents.len() as int) =~= ps);
                }
                let ghost edged = self@;
                self.nodes.push(CommitNode { id, parents, children: Vec::new(), reference });
                proof {
                    let node = SpecNode {
                        id: id@,
                        parents: ps,
                        children: Seq::empty(),
                        reference: rv,
                    };
                    assert(self@ =~~= edged.push(node));
                    assert(self@ == spec_add(g0, id@, ps, rv));
                }
                Ok(())
            },
        }
    }

    /// Look a commit up by id; an unknown id is an explicit not-found result.
    pub fn get_node(&self, id: &String) -> (r: Result<&CommitNode, GraphError>)
        requires
            self.wf(),
        ensures
            match r {
                Ok(n) => has_id(self@, id@) && n@ == self@[idx_of(self@, id@)],
                Err(e) => e == GraphError::UnknownCommitId && !has_id(self@, id@),
            },
    {
        match self.find_index(id) {
            Some(i) => {
                let n = &self.nodes[i];
                proof {
                    lemma_idx_of(self@, id@, i as int);
                }
                Ok(n)
            },
            None => Err(GraphError::UnknownCommitId),
        }
    }
}

/// `append_child` changes nothing but the children of the targeted node,
/// where it appends exactly `cid`.
pub proof fn lemma_append_child_frame(g: Seq<SpecNode>, pid: Seq<char>, cid: Seq<char>)
    ensures
        append_child(g, pid, cid).len() == g.len(),
        forall|j: int|
            #![trigger append_child(g, pid, cid)[j]]
            0 <= j < g.len() ==> {
                let r = append_child(g, pid, cid);
                r[j].id == g[j].id && r[j].parents == g[j].parents && r[j].reference == g[
                j].reference && (r[j].children == g[j].children || r[j].children == g[
                j].children.push(cid))
            },
        has_id(g, pid) ==> append_child(g, pid, cid)[idx_of(g, pid)].children == g[idx_of(
            g,
            pid,
        )].children.push(cid),
{
}

/// `add_child_edges` keeps every node's id, parents and reference, and only
/// ever appends copies of `cid` to children lists.
pub proof fn lemma_add_child_edges_frame(g: Seq<SpecNode>, parents: Seq<Seq<char>>, cid: Seq<char>)
    ensures
        add_child_edges(g, parents, cid).len() == g.len(),
        forall|j: int|
            #![trigger add_child_edges(g, parents, cid)[j]]
            0 <= j < g.len() ==> {
                let r = add_child_edges(g, parents, cid);
                r[j].id == g[j].id && r[j].parents == g[j].parents && r[j].reference == g[
                j].reference
            },
        forall|j: int, m: int|
            #![trigger add_child_edges(g, parents, cid)[j].children[m]]
            0 <= j < g.len() && 0 <= m < add_child_edges(g, parents, cid)[j].children.len() ==> {
                let r = add_child_edges(g, parents, cid);
                (0 <= m < g[j].children.len() && r[j].children[m] == g[j].children[m]) || r[
                j].children[m] == cid
            },
    decreases parents.len(),
{
    if parents.len() == 0 {
    } else {
        let rp = add_child_edges(g, parents.drop_last(), cid);
        lemma_add_child_edges_frame(g, parents.drop_last(), cid);
        lemma_append_child_frame(rp, parents.last(), cid);
        let r = append_child(rp, parents.last(), cid);
        assert forall|j: int, m: int|
            0 <= j < g.len() && 0 <= m < r[j].children.len() implies ((0 <= m < g[j].children.len()
            && #[trigger] r[j].children[m] == g[j].children[m]) || r[j].children[m] == cid) by {
            if r[j].children == rp[j].children {
            } else {
                assert(r[j].children == rp[j].children.push(cid));
                if m < rp[j].children.len() {
                } else {
                    assert(r[j].children[m] == cid);
                }
            }
        }
    }
}

/// Children membership only grows under `add_child_edges`.
pub proof fn lemma_add_child_edges_mono(
    g: Seq<SpecNode>,
    parents: Seq<Seq<char>>,
    cid: Seq<char>,
    j: int,
    x: Seq<char>,
)
    requires
        0 <= j < g.len(),
        g[j].children.contains(x),
    ensures
        add_child_edges(g, parents, cid)[j].children.contains(x),
    decreases parents.len(),
{
    if parents.len() == 0 {
    } else {
        let rp = add_child_edges(g, parents.drop_last(), cid);
        lemma_add_child_edges_mono(g, parents.drop_last(), cid, j, x);
        lemma_add_child_edges_frame(g, parents.drop_last(), cid);
        lemma_append_child_frame(rp, parents.last(), cid);
        let r = append_child(rp, parents.last(), cid);
        let m = choose|m: int| 0 <= m < rp[j].children.len() && rp[j].children[m] == x;
        if r[j].children == rp[j].children {
        } else {
            assert(r[j].children == rp[j].children.push(cid));
            assert(r[j].children[m] == x);
        }
    }
}

/// After `add_child_edges`, every listed parent's node contains the child id.
pub proof fn lemma_add_child_edges_hits(g: Seq<SpecNode>, parents: Seq<Seq<char>>, cid: Seq<char>)
    requires
        all_present(g, parents),
    ensures
        forall|k: int| 0 <= k < parents.len() ==> exists|j: int|
            0 <= j < g.len() && add_child_edges(g, parents, cid)[j].id == #[trigger] parents[k]
                && add_child_edges(g, parents, cid)[j].children.contains(cid),
    decreases parents.len(),
{
    if parents.len() == 0 {
    } else {
        let pre = parents.drop_last();
        let rp = add_child_edges(g, pre, cid);
        let r = append_child(rp, parents.last(), cid);
        assert(add_child_edges(g, parents, cid) == r);
        assert(all_present(g, pre)) by {
            assert(forall|k: int| 0 <= k < pre.len() ==> #[trigger] pre[k] == parents[k]);
        }
        lemma_add_child_edges_hits(g, pre, cid);
        lemma_add_child_edges_frame(g, pre, cid);
        lemma_append_child_frame(rp, parents.last(), cid);
        assert forall|k: int| 0 <= k < parents.len() implies exists|j: int|
            0 <= j < g.len() && r[j].id == #[trigger] parents[k] && r[j].children.contains(cid) by {
            if k < parents.len() - 1 {
                assert(pre[k] == parents[k]);
                let j = choose|j: int|
                    0 <= j < g.len() && rp[j].id == pre[k] && rp[j].children.contains(cid);
                let m = choose|m: int|
                    0 <= m < rp[j].children.len() && rp[j].children[m] == cid;
                assert(r[j].id == parents[k]);
                if r[j].children == rp[j].children {
                } else {
                    assert(r[j].children == rp[j].children.push(cid));
                    assert(r[j].children[m] == cid);
                }
                assert(r[j].children.contains(cid));
                assert(0 <= j < g.len() && r[j].id == parents[k] && r[j].children.contains(cid));
            } else {
                assert(parents[k] == parents.last());
                assert(has_id(g, parents.last()));
                let j0 = choose|j: int| 0 <= j < g.len() && g[j].id == parents.last();
                assert(rp[j0].id == parents.last());
                assert(has_id(rp, parents.last()));
                let j = idx_of(rp, parents.last());
                assert(0 <= j < g.len() && rp[j].id == parents.last());
                assert(r[j].children == rp[j].children.push(cid));
                assert(r[j].children[rp[j].children.len() as int] == cid);
                assert(r[j].children.contains(cid));
                assert(r[j].id == parents.last());
                assert(0 <= j < g.len() && r[j].id == parents[k] && r[j].children.contains(cid));
            }
        }
    }
}

/// Two graphs that agree on ids, parents and children are equally well formed.
pub proof fn lemma_graph_wf_same_edges(g: Seq<SpecNode>, h: Seq<SpecNode>)
    requires
        graph_wf(g),
        h.len() == g.len(),
        forall|j: int|
            #![trigger h[j]]
            0 <= j < g.len() ==> h[j].id == g[j].id && h[j].parents == g[j].parents && h[j].children
                == g[j].children,
    ensures
        graph_wf(h),
{
    assert forall|i: int| 0 <= i < h.len() implies #[trigger] parent_edges_wf(h, i) by {
        assert(parent_edges_wf(g, i));
        assert forall|k: int| 0 <= k < h[i].parents.len() implies #[trigger] parent_edge_wf(
            h,
            i,
            k,
        ) by {
            assert(parent_edge_wf(g, i, k));
            let j = choose|j: int|
                0 <= j < i && g[j].id == g[i].parents[k] && g[j].children.contains(g[i].id);
            assert(h[j].id == h[i].parents[k] && h[j].children.contains(h[i].id));
        }
    }
    assert forall|i: int| 0 <= i < h.len() implies #[trigger] child_edges_wf(h, i) by {
        assert(child_edges_wf(g, i));
        assert forall|k: int| 0 <= k < h[i].children.len() implies #[trigger] child_edge_wf(
            h,
            i,
            k,
        ) by {
            assert(h[i].children[k] == g[i].children[k]);
            assert(child_edge_wf(g, i, k));
            let j = choose|j: int| i < j < g.len() && g[j].id == g[i].children[k];
            assert(i < j < h.len() && h[j].id == h[i].children[k]);
        }
    }
}

/// Inserting a fresh commit whose parents are all present keeps the graph well formed.
proof fn lemma_insert_wf(g: Seq<SpecNode>, id: Seq<char>, parents: Seq<Seq<char>>, reference: Option<Seq<char>>)
    requires
        graph_wf(g),
        !has_id(g, id),
        all_present(g, parents),
    ensures
        graph_wf(
            add_child_edges(g, parents, id).push(
                SpecNode { id, parents, children: Seq::empty(), reference },
            ),
        ),
{
    let e = add_child_edges(g, parents, id);
    let h = e.push(SpecNode { id, parents, children: Seq::empty(), reference });
    lemma_add_child_edges_frame(g, parents, id);
    lemma_add_child_edges_hits(g, parents, id);
    let n = g.len() as int;
    assert(ids_unique(h)) by {
        assert forall|i: int, j: int| 0 <= i < j < h.len() implies h[i].id != h[j].id by {
            if j < n {
                assert(h[i].id == g[i].id && h[j].id == g[j].id);
            } else {
                assert(h[j].id == id);
                assert(h[i].id == g[i].id);
                if g[i].id == id {
                    assert(has_id(g, id));
                }
            }
        }
    }
    assert forall|i: int| 0 <= i < h.len() implies #[trigger] parent_edges_wf(h, i) by {
        if i < n {
            assert(parent_edges_wf(g, i));
            assert forall|k: int| 0 <= k < h[i].parents.len() implies #[trigger] parent_edge_wf(
                h,
                i,
                k,
            ) by {
                assert(parent_edge_wf(g, i, k));
                let j = choose|j: int|
                    0 <= j < i && g[j].id == g[i].parents[k] && g[j].children.contains(g[i].id);
                lemma_add_child_edges_mono(g, parents, id, j, g[i].id);
                assert(h[j].id == g[j].id && h[j].children == e[j].children);
                assert(h[j].id == h[i].parents[k] && h[j].children.contains(h[i].id));
            }
        } else {
            assert(h[i].parents == parents);
            assert forall|k: int| 0 <= k < h[i].parents.len() implies #[trigger] parent_edge_wf(
                h,
                i,
                k,
            ) by {
                let j = choose|j: int|
                    0 <= j < g.len() && e[j].id == parents[k] && e[j].children.contains(id);
                assert(h[j] == e[j]);
                assert(0 <= j < i && h[j].id == h[i].parents[k] && h[j].children.contains(h[i].id));
            }
        }
    }
    assert forall|i: int| 0 <= i < h.len() implies #[trigger] child_edges_wf(h, i) by {
        if i < n {
            assert(child_edges_wf(g, i));
            assert forall|k: int| 0 <= k < h[i].children.len() implies #[trigger] child_edge_wf(
                h,
                i,
                k,
            ) by {
                assert(h[i].children == e[i].children);
                if 0 <= k < g[i].children.len() && e[i].children[k] == g[i].children[k] {
                    assert(child_edge_wf(g, i, k));
                    let j = choose|j: int| i < j < g.len() && g[j].id == g[i].children[k];
                    assert(i < j < h.len() && h[j].id == h[i].children[k]);
                } else {
                    assert(e[i].children[k] == id);
                    assert(h[n].id == id);
                    assert(i < n < h.len() && h[n].id == h[i].children[k]);
                }
            }
        } else {
            assert(h[i].children.len() == 0);
        }
    }
}

/// `spec_add` preserves graph well-formedness.
pub proof fn lemma_spec_add_wf(
    g: Seq<SpecNode>,
    id: Seq<char>,
    parents: Seq<Seq<char>>,
    reference: Option<Seq<char>>,
)
    requires
        graph_wf(g),
    ensures
        graph_wf(spec_add(g, id, parents, reference)),
{
    if has_id(g, id) {
        let i = idx_of(g, id);
        if reference is Some && g[i].reference is None {
            lemma_graph_wf_same_edges(g, spec_add(g, id, parents, reference));
        }
    } else if all_present(g, parents) {
        lemma_insert_wf(g, id, parents, reference);
    }
}

/// When ids are unique, `idx_of` returns exactly the index whose id matches.
pub proof fn lemma_idx_of(g: Seq<SpecNode>, id: Seq<char>, i: int)
    requires
        ids_unique(g),
        0 <= i < g.len(),
        g[i].id == id,
    ensures
        has_id(g, id),
        idx_of(g, id) == i,
{
    assert(has_id(g, id));
    let j = idx_of(g, id);
    if i < j {
        assert(g[i].id != g[j].id);
    } else if j < i {
        assert(g[j].id != g[i].id);
    }
}

/// One insertion command, as drawn from the repository's reference stream.
pub ghost struct AddCmd {
    pub id: Seq<char>,
    pub parents: Seq<Seq<char>>,
    pub reference: Option<Seq<char>>,
}

/// The graph obtained by applying a whole stream of insertion commands in order.
pub open spec fn spec_apply(g: Seq<SpecNode>, cmds: Seq<AddCmd>) -> Seq<SpecNode>
    decreases cmds.len(),
{
    if cmds.len() == 0 {
        g
    } else {
        spec_apply(
            spec_add(g, cmds[0].id, cmds[0].parents, cmds[0].reference),
            cmds.drop_first(),
        )
    }
}

/// Every command of the stream applies cleanly: its id is already known or
/// all its parents are present when its turn comes.
pub open spec fn cmds_ok(g: Seq<SpecNode>, cmds: Seq<AddCmd>) -> bool
    decreases cmds.len(),
{
    cmds.len() == 0 || (spec_add_ok(g, cmds[0].id, cmds[0].parents) && cmds_ok(
        spec_add(g, cmds[0].id, cmds[0].parents, cmds[0].reference),
        cmds.drop_first(),
    ))
}

/// Applying a command stream preserves well-formedness.
pub proof fn lemma_apply_wf(g: Seq<SpecNode>, cmds: Seq<AddCmd>)
    requires
        graph_wf(g),
    ensures
        graph_wf(spec_apply(g, cmds)),
    decreases cmds.len(),
{
    if cmds.len() > 0 {
        lemma_spec_add_wf(g, cmds[0].id, cmds[0].parents, cmds[0].reference);
        lemma_apply_wf(
            spec_add(g, cmds[0].id, cmds[0].parents, cmds[0].reference),
            cmds.drop_first(),
        );
    }
}

/// `spec_add` never removes a node, and a once-set reference label stays set.
pub proof fn lemma_add_keeps(
    g: Seq<SpecNode>,
    id: Seq<char>,
    parents: Seq<Seq<char>>,
    reference: Option<Seq<char>>,
    x: Seq<char>,
)
    requires
        graph_wf(g),
        has_id(g, x),
    ensures
        has_id(spec_add(g, id, parents, reference), x),
        g[idx_of(g, x)].reference is Some ==> spec_add(g, id, parents, reference)[idx_of(
            spec_add(g, id, parents, reference),
            x,
        )].reference is Some,
{
    let r = spec_add(g, id, parents, reference);
    let i = idx_of(g, x);
    assert(0 <= i < g.len() && g[i].id == x);
    if has_id(g, id) {
        let a = idx_of(g, id);
        if reference is Some && g[a].reference is None {
            assert(r[i].id == x);
            assert(has_id(r, x));
            lemma_idx_of(r, x, i);
            if i == a {
            } else {
                assert(r[i].reference == g[i].reference);
            }
        } else {
            lemma_idx_of(r, x, i);
        }
    } else if all_present(g, parents) {
        lemma_add_child_edges_frame(g, parents, id);
        let e = add_child_edges(g, parents, id);
        assert(r[i].id == g[i].id && r[i].reference == g[i].reference);
        assert(has_id(r, x));
        assert(ids_unique(r)) by {
            lemma_spec_add_wf(g, id, parents, reference);
        }
        lemma_idx_of(r, x, i);
    } else {
        lemma_idx_of(r, x, i);
    }
}

/// A clean command leaves its id present, with a label if it carried one.
pub proof fn lemma_add_establishes(
    g: Seq<SpecNode>,
    id: Seq<char>,
    parents: Seq<Seq<char>>,
    reference: Option<Seq<char>>,
)
    requires
        graph_wf(g),
        spec_add_ok(g, id, parents),
    ensures
        has_id(spec_add(g, id, parents, reference), id),
        reference is Some ==> spec_add(g, id, parents, reference)[idx_of(
            spec_add(g, id, parents, reference),
            id,
        )].reference is Some,
{
    let r = spec_add(g, id, parents, reference);
    lemma_spec_add_wf(g, id, parents, reference);
    if has_id(g, id) {
        let i = idx_of(g, id);
        assert(0 <= i < g.len() && g[i].id == id);
        if reference is Some && g[i].reference is None {
            assert(r[i].id == id && r[i].reference == reference);
            assert(has_id(r, id));
            lemma_idx_of(r, id, i);
        } else {
            assert(r == g);
            lemma_idx_of(r, id, i);
        }
    } else {
        assert(all_present(g, parents));
        lemma_add_child_edges_frame(g, parents, id);
        let n = g.len() as int;
        assert(r[n].id == id && r[n].reference == reference);
        assert(has_id(r, id));
        lemma_idx_of(r, id, n);
    }
}

/// Node presence and set labels survive a whole command stream.
pub proof fn lemma_apply_keeps(g: Seq<SpecNode>, cmds: Seq<AddCmd>, x: Seq<char>)
    requires
        graph_wf(g),
        has_id(g, x),
    ensures
        has_id(spec_apply(g, cmds), x),
        g[idx_of(g, x)].reference is Some ==> spec_apply(g, cmds)[idx_of(
            spec_apply(g, cmds),
            x,
        )].reference is Some,
    decreases cmds.len(),
{
    if cmds.len() > 0 {
        let g1 = spec_add(g, cmds[0].id, cmds[0].parents, cmds[0].reference);
        lemma_add_keeps(g, cmds[0].id, cmds[0].parents, cmds[0].reference, x);
        lemma_spec_add_wf(g, cmds[0].id, cmds[0].parents, cmds[0].reference);
        lemma_apply_keeps(g1, cmds.drop_first(), x);
    }
}

/// After a clean build, every command's id is in the graph, labelled if the
/// command carried a label.
pub proof fn lemma_apply_establishes(g: Seq<SpecNode>, cmds: Seq<AddCmd>, k: int)
    requires
        graph_wf(g),
        cmds_ok(g, cmds),
        0 <= k < cmds.len(),
    ensures
        has_id(spec_apply(g, cmds), cmds[k].id),
        cmds[k].reference is Some ==> spec_apply(g, cmds)[idx_of(
            spec_apply(g, cmds),
            cmds[k].id,
        )].reference is Some,
    decreases cmds.len(),
{
    let g1 = spec_add(g, cmds[0].id, cmds[0].parents, cmds[0].reference);
    lemma_spec_add_wf(g, cmds[0].id, cmds[0].parents, cmds[0].reference);
    if k == 0 {
        lemma_add_establishes(g, cmds[0].id, cmds[0].parents, cmds[0].reference);
        lemma_apply_keeps(g1, cmds.drop_first(), cmds[0].id);
    } else {
        lemma_apply_establishes(g1, cmds.drop_first(), k - 1);
        assert(cmds.drop_first()[k - 1] == cmds[k]);
    }
}

/// Re-applying commands whose ids are all present (and labelled where the
/// command has a label) changes nothing.
pub proof fn lemma_replay_noop(g: Seq<SpecNode>, cmds: Seq<AddCmd>)
    requires
        graph_wf(g),
        forall|k: int|
            0 <= k < cmds.len() ==> has_id(g, #[trigger] cmds[k].id) && (cmds[k].reference is Some
                ==> g[idx_of(g, cmds[k].id)].reference is Some),
    ensures
        spec_apply(g, cmds) == g,
    decreases cmds.len(),
{
    if cmds.len() > 0 {
        assert(has_id(g, cmds[0].id));
        let i = idx_of(g, cmds[0].id);
        let g1 = spec_add(g, cmds[0].id, cmds[0].parents, cmds[0].reference);
        assert(g1 == g) by {
            if cmds[0].reference is Some {
                assert(g[i].reference is Some);
            }
        }
        assert(forall|k: int|
            0 <= k < cmds.drop_first().len() ==> #[trigger] cmds.drop_first()[k] == cmds[k + 1]);
        lemma_replay_noop(g, cmds.drop_first());
    }
}

/// Rebuilding the graph a second time from the same clean input stream yields
/// the same node set, edges and labels: the build is idempotent.
pub proof fn lemma_rebuild_idempotent(cmds: Seq<AddCmd>)
    requires
        cmds_ok(Seq::empty(), cmds),
    ensures
        spec_apply(spec_apply(Seq::empty(), cmds), cmds) == spec_apply(Seq::empty(), cmds),
{
    let gf = spec_apply(Seq::empty(), cmds);
    assert(graph_wf(Seq::<SpecNode>::empty()));
    lemma_apply_wf(Seq::empty(), cmds);
    assert forall|k: int|
        0 <= k < cmds.len() implies has_id(gf, #[trigger] cmds[k].id) && (cmds[k].reference is Some
        ==> gf[idx_of(gf, cmds[k].id)].reference is Some) by {
        lemma_apply_establishes(Seq::empty(), cmds, k);
    }
    lemma_replay_noop(gf, cmds);
}


/// Index of the last `/` in `s`, or `-1` when there is none.
pub open spec fn last_slash(s: Seq<char>) -> int
    decreases s.len(),
{
    if s.len() == 0 {
        -1
    } else if s.last() == '/' {
        s.len() - 1
    } else {
        last_slash(s.drop_last())
    }
}

/// `last_slash` agrees with any witness of a final occurrence.
proof fn lemma_last_slash_found(s: Seq<char>, k: int)
    requires
        0 <= k < s.len(),
        s[k] == '/',
        forall|m: int| k < m < s.len() ==> s[m] != '/',
    ensures
        last_slash(s) == k,
    decreases s.len(),
{
    if k == s.len() - 1 {
    } else {
        assert(s.last() != '/');
        assert(s.drop_last()[k] == '/');
        lemma_last_slash_found(s.drop_last(), k);
    }
}

/// Without any `/`, `last_slash` reports none.
proof fn lemma_last_slash_none(s: Seq<char>)
    requires
        forall|m: int| 0 <= m < s.len() ==> s[m] != '/',
    ensures
        last_slash(s) == -1,
    decreases s.len(),
{
    if s.len() > 0 {
        lemma_last_slash_none(s.drop_last());
    }
}

/// Extract the human-readable label of a reference name: everything after
/// the last `/`. A name without a separator is malformed and is rejected
/// explicitly.
pub fn extract_label(name: &str) -> (r: Result<String, GraphError>)
    ensures
        match r {
            Ok(label) => last_slash(name@) >= 0 && label@ == name@.subrange(
                last_slash(name@) + 1,
                name@.len() as int,
            ),
            Err(e) => e == GraphError::MalformedReferenceName && last_slash(name@) == -1,
        },
{
    let n = name.unicode_len();
    let mut j: usize = n;
    while j > 0
        invariant
            n == name@.len(),
            j <= n,
            forall|m: int| j <= m < n ==> name@[m] != '/',
        decreases j,
    {
        if name.get_char(j - 1) == '/' {
            let label = name.substring_char(j, n).to_owned();
            proof {
                lemma_last_slash_found(name@, j - 1);
            }
            return Ok(label);
        }
        j -= 1;
    }
    proof {
        lemma_last_slash_none(name@);
    }
    Err(GraphError::MalformedReferenceName)
}

} // verus!
