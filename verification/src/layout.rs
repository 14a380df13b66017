//! Layout metrics over the commit DAG: generational depth for the horizontal
//! axis, a subtree-balancing metric and branch height for the vertical axis,
//! and the derived graph-space coordinates.
use vstd::prelude::*;

use crate::graph::CommitGraph;
use crate::graph::SpecNode;
use crate::graph::child_edge_wf;
use crate::graph::child_edges_wf;
use crate::graph::graph_wf;
use crate::graph::idx_of;
use crate::graph::lemma_idx_of;
use crate::graph::parent_edge_wf;
use crate::graph::parent_edges_wf;

verus! {

/// Visual radius of a drawn commit node, in graph-space units.
pub const NODE_RADIUS: i64 = 50;

/// Horizontal distance between consecutive generations (2.5 node radii).
pub const SPACING_X: i64 = 125;

/// Vertical distance between consecutive rows (1.5 node radii).
pub const SPACING_Y: i64 = 75;

/// Depth of parent `k` of node `i`, guarded so that recursion only descends
/// to earlier arena indices.
pub open spec fn spec_parent_depth(g: Seq<SpecNode>, i: int, k: int) -> nat
    decreases i, 0int,
{
    let j = idx_of(g, g[i].parents[k]);
    if 0 <= j < i {
        spec_depth(g, j)
    } else {
        0
    }
}

/// Minimum of the depths of the first `k` parents of node `i` (`k >= 1`).
pub open spec fn spec_min_parent_depth(g: Seq<SpecNode>, i: int, k: int) -> nat
    decreases i, k,
{
    if k < 1 {
        0
    } else if k == 1 {
        spec_parent_depth(g, i, 0)
    } else {
        let rest = spec_min_parent_depth(g, i, k - 1);
        let d = spec_parent_depth(g, i, k - 1);
        if d < rest {
            d
        } else {
            rest
        }
    }
}

/// Generational distance from a root: `0` for a root, otherwise one more than
/// the minimum of the parents' depths.
pub open spec fn spec_depth(g: Seq<SpecNode>, i: int) -> nat
    decreases i, g[i].parents.len() + 1,
{
    if g[i].parents.len() == 0 {
        0
    } else {
        1 + spec_min_parent_depth(g, i, g[i].parents.len() as int)
    }
}

/// Size of the subtree below child `k` of node `i`, guarded so that recursion
/// only ascends to later arena indices.
pub open spec fn spec_child_size(g: Seq<SpecNode>, i: int, k: int) -> nat
    decreases g.len() - i, 0int,
{
    let j = idx_of(g, g[i].children[k]);
    if i < j < g.len() {
        spec_tree_size(g, j)
    } else {
        0
    }
}

/// Sum of the subtree sizes of the first `k` children of node `i`.
pub open spec fn spec_children_sizes(g: Seq<SpecNode>, i: int, k: int) -> nat
    decreases g.len() - i, k,
{
    if k <= 0 {
        0
    } else {
        spec_children_sizes(g, i, k - 1) + spec_child_size(g, i, k - 1)
    }
}

/// Number of extra vertical rows the subtree of node `i` needs beyond its own
/// row: one per sibling beyond the first, summed over the whole subtree.
pub open spec fn spec_tree_size(g: Seq<SpecNode>, i: int) -> nat
    decreases g.len() - i, g[i].children.len() + 1,
{
    (if g[i].children.len() > 0 {
        (g[i].children.len() - 1) as nat
    } else {
        0
    }) + spec_children_sizes(g, i, g[i].children.len() as int)
}

/// Index of the first occurrence of `x` in `s`, or `-1` when absent.
pub open spec fn first_pos(s: Seq<Seq<char>>, x: Seq<char>) -> int
    decreases s.len(),
{
    if s.len() == 0 {
        -1
    } else if s[0] == x {
        0
    } else {
        let r = first_pos(s.drop_first(), x);
        if r < 0 {
            -1
        } else {
            r + 1
        }
    }
}

/// Vertical row of node `i`: a root sits at `0`; a node whose (first) parent
/// has a single child continues on the parent's row; the first of several
/// siblings branches above the parent, every other sibling below, offset by
/// one more than its subtree size.
pub open spec fn spec_height(g: Seq<SpecNode>, i: int) -> int
    decreases i,
{
    if g[i].parents.len() == 0 {
        0
    } else {
        let j = idx_of(g, g[i].parents[0]);
        if 0 <= j < i {
            if g[j].children.len() == 1 {
                spec_height(g, j)
            } else {
                let mult: int = if first_pos(g[j].children, g[i].id) == 0 {
                    -1
                } else {
                    1
                };
                spec_height(g, j) + mult * (1 + spec_tree_size(g, i))
            }
        } else {
            0
        }
    }
}

/// Whether the height of node `i` (and of every ancestor on its first-parent
/// chain) stays within the machine integer range.
pub open spec fn height_fits(g: Seq<SpecNode>, i: int) -> bool
    decreases i,
{
    if g[i].parents.len() == 0 {
        true
    } else {
        let j = idx_of(g, g[i].parents[0]);
        if 0 <= j < i {
            if g[j].children.len() == 1 {
                height_fits(g, j)
            } else {
                height_fits(g, j) && 1 + spec_tree_size(g, i) <= isize::MAX as int
                    && isize::MIN as int <= spec_height(g, i) <= isize::MAX as int
            }
        } else {
            true
        }
    }
}

/// A height that fits is within the machine integer range.
pub proof fn lemma_height_in_range(g: Seq<SpecNode>, i: int)
    requires
        height_fits(g, i),
    ensures
        isize::MIN as int <= spec_height(g, i) <= isize::MAX as int,
    decreases i,
{
    if g[i].parents.len() == 0 {
    } else {
        let j = idx_of(g, g[i].parents[0]);
        if 0 <= j < i {
            if g[j].children.len() == 1 {
                lemma_height_in_range(g, j);
            }
        }
    }
}

/// The depth of a root is `0`, and the depth of any other commit is one more
/// than the minimum over its parents' depths: the minimum is a lower bound on
/// each parent's depth and is attained by some parent.
pub proof fn lemma_depth_recurrence(g: Seq<SpecNode>, i: int)
    requires
        0 <= i < g.len(),
    ensures
        g[i].parents.len() == 0 ==> spec_depth(g, i) == 0,
        g[i].parents.len() > 0 ==> forall|k: int|
            0 <= k < g[i].parents.len() ==> spec_depth(g, i) <= 1 + #[trigger] spec_parent_depth(
                g,
                i,
                k,
            ),
        g[i].parents.len() > 0 ==> exists|k: int|
            0 <= k < g[i].parents.len() && spec_depth(g, i) == 1 + #[trigger] spec_parent_depth(
                g,
                i,
                k,
            ),
{
    if g[i].parents.len() > 0 {
        lemma_min_parent_depth(g, i, g[i].parents.len() as int);
    }
}

/// `spec_min_parent_depth(g, i, k)` is the least of the first `k` parent depths.
pub proof fn lemma_min_parent_depth(g: Seq<SpecNode>, i: int, k: int)
    requires
        1 <= k,
    ensures
        forall|m: int|
            0 <= m < k ==> spec_min_parent_depth(g, i, k) <= #[trigger] spec_parent_depth(g, i, m),
        exists|m: int|
            0 <= m < k && spec_min_parent_depth(g, i, k) == #[trigger] spec_parent_depth(g, i, m),
    decreases k,
{
    if k == 1 {
        assert(0 <= 0 < k && spec_min_parent_depth(g, i, k) == spec_parent_depth(g, i, 0));
    } else {
        lemma_min_parent_depth(g, i, k - 1);
        let rest = spec_min_parent_depth(g, i, k - 1);
        let d = spec_parent_depth(g, i, k - 1);
        if d < rest {
            assert(0 <= k - 1 < k && spec_min_parent_depth(g, i, k) == spec_parent_depth(
                g,
                i,
                k - 1,
            ));
        } else {
            let m = choose|m: int| 0 <= m < k - 1 && rest == #[trigger] spec_parent_depth(g, i, m);
            assert(0 <= m < k && spec_min_parent_depth(g, i, k) == spec_parent_depth(g, i, m));
        }
    }
}

/// A leaf needs no extra rows: the subtree size of a commit without children
/// is zero (and the metric is a count, so it is never negative).
pub proof fn lemma_tree_size_leaf(g: Seq<SpecNode>, i: int)
    requires
        0 <= i < g.len(),
        g[i].children.len() == 0,
    ensures
        spec_tree_size(g, i) == 0,
        spec_tree_size(g, i) >= 0,
{
}

/// A non-root commit whose (first) parent has exactly one child continues on
/// its parent's row: the two heights are equal.
pub proof fn lemma_height_straight_line(g: Seq<SpecNode>, i: int)
    requires
        graph_wf(g),
        0 <= i < g.len(),
        g[i].parents.len() > 0,
        g[idx_of(g, g[i].parents[0])].children.len() == 1,
    ensures
        spec_height(g, i) == spec_height(g, idx_of(g, g[i].parents[0])),
{
    assert(parent_edges_wf(g, i));
    assert(parent_edge_wf(g, i, 0));
    let w = choose|j: int|
        0 <= j < i && g[j].id == g[i].parents[0] && g[j].children.contains(g[i].id);
    lemma_idx_of(g, g[i].parents[0], w);
}

/// When `first_pos` finds nothing, nothing is there; when an element is
/// present, `first_pos` is its first index.
pub proof fn lemma_first_pos_found(s: Seq<Seq<char>>, x: Seq<char>)
    requires
        s.contains(x),
    ensures
        0 <= first_pos(s, x) < s.len(),
        s[first_pos(s, x)] == x,
        forall|m: int| 0 <= m < first_pos(s, x) ==> s[m] != x,
    decreases s.len(),
{
    if s[0] == x {
    } else {
        let w = choose|w: int| 0 <= w < s.len() && s[w] == x;
        assert(s.drop_first()[w - 1] == x);
        assert(s.drop_first().contains(x));
        lemma_first_pos_found(s.drop_first(), x);
        assert forall|m: int| 0 <= m < first_pos(s, x) implies s[m] != x by {
            if m > 0 {
                assert(s.drop_first()[m - 1] == s[m]);
                assert(s.drop_first()[m - 1] != x);
            }
        }
    }
}

/// `first_pos` agrees with any witness of a first occurrence.
pub proof fn lemma_first_pos_unique(s: Seq<Seq<char>>, x: Seq<char>, k: int)
    requires
        0 <= k < s.len(),
        s[k] == x,
        forall|m: int| 0 <= m < k ==> s[m] != x,
    ensures
        first_pos(s, x) == k,
{
    assert(s.contains(x));
    lemma_first_pos_found(s, x);
    let fp = first_pos(s, x);
    if fp < k {
        assert(s[fp] != x);
    } else if fp > k {
        assert(s[k] != x);
    }
}

/// Clip an unbounded count to the machine word range.
pub open spec fn clip_usize(v: nat) -> nat {
    if v <= usize::MAX as nat {
        v
    } else {
        usize::MAX as nat
    }
}

/// The index of the first position of `x` in `v`, scanning left to right.
pub fn position_of(v: &Vec<String>, x: &String) -> (r: Option<usize>)
    ensures
        match r {
            Some(p) => p < v@.len() && v@[p as int]@ == x@ && forall|m: int|
                0 <= m < p ==> v@[m]@ != x@,
            None => forall|m: int| 0 <= m < v@.len() ==> v@[m]@ != x@,
        },
{
    let mut m: usize = 0;
    while m < v.len()
        invariant
            m <= v@.len(),
            forall|j: int| 0 <= j < m ==> v@[j]@ != x@,
        decreases v@.len() - m,
    {
        if v[m] == *x {
            return Some(m);
        }
        m += 1;
    }
    None
}

/// Generational depth of commit `i`: zero for a root, otherwise one more than
/// the smallest depth among its parents.
pub fn get_commit_depth(graph: &CommitGraph, i: usize) -> (r: usize)
    requires
        graph.wf(),
        i < graph@.len(),
    ensures
        r == spec_depth(graph@, i as int),
        r <= i,
    decreases i,
{
    let n = graph.nodes[i].parents.len();
    if n == 0 {
        0
    } else {
        let mut min_depth: usize = usize::MAX;
        let mut k: usize = 0;
        while k < n
            invariant
                graph.wf(),
                i < graph@.len(),
                n == graph@[i as int].parents.len(),
                0 < n,
                k <= n,
                k == 0 ==> min_depth == usize::MAX,
                k > 0 ==> min_depth == spec_min_parent_depth(graph@, i as int, k as int)
                    && min_depth < i,
            decreases n - k,
        {
            let pid = &graph.nodes[i].parents[k];
            proof {
                assert(graph@[i as int].parents[k as int] == pid@);
                assert(parent_edges_wf(graph@, i as int));
                assert(parent_edge_wf(graph@, i as int, k as int));
            }
            match graph.find_index(pid) {
                Some(j) => {
                    proof {
                        let w = choose|w: int|
                            0 <= w < i && graph@[w].id == graph@[i as int].parents[k as int]
                                && graph@[w].children.contains(graph@[i as int].id);
                        lemma_idx_of(graph@, pid@, w);
                        lemma_idx_of(graph@, pid@, j as int);
                        assert(j < i);
                    }
                    let d = get_commit_depth(graph, j);
                    proof {
                        assert(spec_parent_depth(graph@, i as int, k as int) == d);
                    }
                    if d < min_depth {
                        min_depth = d;
                    }
                },
                None => {
                    proof {
                        let w = choose|w: int|
                            0 <= w < i && graph@[w].id == graph@[i as int].parents[k as int]
                                && graph@[w].children.contains(graph@[i as int].id);
                        assert(crate::graph::has_id(graph@, pid@));
                        assert(false);
                    }
                    return 0;
                },
            }
            k += 1;
        }
        min_depth + 1
    }
}

/// Extra vertical rows needed by the subtree of commit `i`, clipped to the
/// machine word range (the exact count when it fits).
pub fn get_commit_tree_size(graph: &CommitGraph, i: usize) -> (r: usize)
    requires
        graph.wf(),
        i < graph@.len(),
    ensures
        r == clip_usize(spec_tree_size(graph@, i as int)),
    decreases graph@.len() - i,
{
    let n = graph.nodes[i].children.len();
    let mut size: usize = if n > 0 {
        n - 1
    } else {
        0
    };
    let ghost base: nat = size as nat;
    let mut k: usize = 0;
    while k < n
        invariant
            graph.wf(),
            i < graph@.len(),
            n == graph@[i as int].children.len(),
            base == (if n > 0 { (n - 1) as nat } else { 0nat }),
            k <= n,
            size == clip_usize(base + spec_children_sizes(graph@, i as int, k as int)),
        decreases n - k,
    {
        let cid = &graph.nodes[i].children[k];
        proof {
            assert(graph@[i as int].children[k as int] == cid@);
            assert(child_edges_wf(graph@, i as int));
            assert(child_edge_wf(graph@, i as int, k as int));
        }
        match graph.find_index(cid) {
            Some(j) => {
                proof {
                    let w = choose|w: int|
                        i < w < graph@.len() && graph@[w].id == graph@[i as int].children[k as int];
                    lemma_idx_of(graph@, cid@, w);
                    lemma_idx_of(graph@, cid@, j as int);
                    assert(i < j);
                }
                let cs = get_commit_tree_size(graph, j);
                proof {
                    assert(spec_child_size(graph@, i as int, k as int) == spec_tree_size(
                        graph@,
                        j as int,
                    ));
                }
                size = size.saturating_add(cs);
            },
            None => {
                proof {
                    let w = choose|w: int|
                        i < w < graph@.len() && graph@[w].id == graph@[i as int].children[k as int];
                    assert(crate::graph::has_id(graph@, cid@));
                    assert(false);
                }
                return 0;
            },
        }
        k += 1;
    }
    size
}

/// Branch height of commit `i`, or `None` when the value (or an intermediate
/// subtree size) leaves the machine integer range.
pub fn get_commit_height_checked(graph: &CommitGraph, i: usize) -> (r: Option<isize>)
    requires
        graph.wf(),
        i < graph@.len(),
    ensures
        match r {
            Some(h) => height_fits(graph@, i as int) && h == spec_height(graph@, i as int),
            None => !height_fits(graph@, i as int),
        },
    decreases i,
{
    let n = graph.nodes[i].parents.len();
    if n == 0 {
        Some(0)
    } else {
        let pid = &graph.nodes[i].parents[0];
        proof {
            assert(graph@[i as int].parents[0] == pid@);
            assert(parent_edges_wf(graph@, i as int));
            assert(parent_edge_wf(graph@, i as int, 0));
        }
        match graph.find_index(pid) {
            Some(j) => {
                proof {
                    let w = choose|w: int|
                        0 <= w < i && graph@[w].id == graph@[i as int].parents[0] && graph@[
                        w].children.contains(graph@[i as int].id);
                    lemma_idx_of(graph@, pid@, w);
                    lemma_idx_of(graph@, pid@, j as int);
                    assert(j < i);
                    assert(graph@[j as int].children.contains(graph@[i as int].id));
                }
                if graph.nodes[j].children.len() == 1 {
                    let r = get_commit_height_checked(graph, j);
                    proof {
                        assert(height_fits(graph@, i as int) == height_fits(graph@, j as int));
                        assert(spec_height(graph@, i as int) == spec_height(graph@, j as int));
                    }
                    r
                } else {
                    let pos = match position_of(&graph.nodes[j].children, &graph.nodes[i].id) {
                        Some(p) => p,
                        None => {
                            proof {
                                let m = choose|m: int|
                                    0 <= m < graph@[j as int].children.len() && graph@[
                                    j as int].children[m] == graph@[i as int].id;
                                assert(false);
                            }
                            return None;
                        },
                    };
                    proof {
                        lemma_first_pos_unique(
                            graph@[j as int].children,
                            graph@[i as int].id,
                            pos as int,
                        );
                    }
                    let ghost sz = spec_tree_size(graph@, i as int);
                    let value = get_commit_tree_size(graph, i);
                    if value > (isize::MAX as usize) - 1 {
                        proof {
                            if sz > usize::MAX as nat {
                                assert(value == usize::MAX);
                            }
                            assert(1 + sz > isize::MAX as int);
                            assert(!height_fits(graph@, i as int));
                        }
                        return None;
                    }
                    proof {
                        if sz > usize::MAX as nat {
                            assert(value == usize::MAX);
                            assert(false);
                        }
                        assert(sz == value as nat);
                    }
                    let vi: isize = value as isize;
                    match get_commit_height_checked(graph, j) {
                        Some(ph) => {
                            let delta: isize = if pos == 0 {
                                -1 - vi
                            } else {
                                1 + vi
                            };
                            let out = ph.checked_add(delta);
                            proof {
                                lemma_height_in_range(graph@, j as int);
                                assert(spec_height(graph@, i as int) == spec_height(
                                    graph@,
                                    j as int,
                                ) + (if pos == 0 { -1int } else { 1int }) * (1 + spec_tree_size(
                                    graph@,
                                    i as int,
                                )));
                                assert(vi as int == sz);
                                if pos == 0 {
                                    assert(delta as int == -1 - vi);
                                    assert((-1int) * (1 + sz) == -1 - sz);
                                    assert(delta == (-1int) * (1 + sz));
                                } else {
                                    assert(delta as int == 1 + vi);
                                    assert((1int) * (1 + sz) == 1 + sz);
                                    assert(delta == (1int) * (1 + sz));
                                }
                                if out is Some {
                                    assert(height_fits(graph@, i as int));
                                } else {
                                    assert(!(isize::MIN as int <= spec_height(graph@, i as int)
                                        <= isize::MAX as int));
                                    assert(!height_fits(graph@, i as int));
                                }
                            }
                            out
                        },
                        None => None,
                    }
                }
            },
            None => {
                proof {
                    let w = choose|w: int|
                        0 <= w < i && graph@[w].id == graph@[i as int].parents[0] && graph@[
                        w].children.contains(graph@[i as int].id);
                    assert(crate::graph::has_id(graph@, pid@));
                    assert(false);
                }
                None
            },
        }
    }
}

/// Branch height of commit `i`, for graphs whose heights fit the machine
/// integer range.
pub fn get_commit_height(graph: &CommitGraph, i: usize) -> (r: isize)
    requires
        graph.wf(),
        i < graph@.len(),
        height_fits(graph@, i as int),
    ensures
        r == spec_height(graph@, i as int),
{
    match get_commit_height_checked(graph, i) {
        Some(h) => h,
        None => {
            proof {
                assert(false);
            }
            0
        },
    }
}

/// Graph-space location of commit `i`: `x` spreads generations apart, `y`
/// spreads sibling branches apart. `None` when a coordinate leaves the
/// representable range.
pub fn get_commit_node_location(graph: &CommitGraph, i: usize) -> (r: Option<(i64, i64)>)
    requires
        graph.wf(),
        i < graph@.len(),
    ensures
        match r {
            Some(p) => height_fits(graph@, i as int) && p.0 == SPACING_X * spec_depth(
                graph@,
                i as int,
            ) && p.1 == SPACING_Y * spec_height(graph@, i as int) && p.0 > i64::MIN && p.1
                > i64::MIN,
            None => !height_fits(graph@, i as int) || SPACING_X * spec_depth(graph@, i as int)
                > i64::MAX as int || SPACING_Y * spec_height(graph@, i as int) > i64::MAX as int
                || SPACING_Y * spec_height(graph@, i as int) < -i64::MAX as int,
        },
{
    let d = get_commit_depth(graph, i);
    let h = match get_commit_height_checked(graph, i) {
        Some(h) => h,
        None => {
            return None;
        },
    };
    let x = match (d as u64).checked_mul(125) {
        Some(x) => x,
        None => {
            proof {
                assert(SPACING_X * spec_depth(graph@, i as int) > i64::MAX as int) by (nonlinear_arith)
                    requires
                        d as nat == spec_depth(graph@, i as int),
                        d as int * 125 > u64::MAX as int,
                    ;
            }
            return None;
        },
    };
    if x > i64::MAX as u64 {
        return None;
    }
    let y = match (h as i64).checked_mul(75) {
        Some(y) => y,
        None => {
            return None;
        },
    };
    if y == i64::MIN {
        return None;
    }
    Some((x as i64, y))
}


/// One memoized layout pass over the whole arena, as a layout refresh runs
/// it: depths by a forward scan, subtree sizes by a backward scan, heights by
/// a forward scan, each later entry computed from earlier memo entries and
/// each entry exactly the per-node metric.
pub fn compute_layout(graph: &CommitGraph) -> (r: (Vec<usize>, Vec<usize>, Vec<Option<isize>>))
    requires
        graph.wf(),
    ensures
        r.0@.len() == graph@.len(),
        r.1@.len() == graph@.len(),
        r.2@.len() == graph@.len(),
        forall|i: int| 0 <= i < graph@.len() ==> #[trigger] r.0@[i] == spec_depth(graph@, i),
        forall|i: int|
            0 <= i < graph@.len() ==> #[trigger] r.1@[i] == clip_usize(spec_tree_size(graph@, i)),
        forall|i: int|
            0 <= i < graph@.len() ==> match #[trigger] r.2@[i] {
                Some(h) => height_fits(graph@, i) && h == spec_height(graph@, i),
                None => !height_fits(graph@, i),
            },
{
    let n = graph.len();
    let mut depths: Vec<usize> = Vec::new();
    let mut i: usize = 0;
    while i < n
        invariant
            graph.wf(),
            n == graph@.len(),
            i <= n,
            depths@.len() == i,
            forall|k: int|
                0 <= k < i ==> #[trigger] depths@[k] == spec_depth(graph@, k) && depths@[k] <= k,
        decreases n - i,
    {
        let parent_count = graph.nodes[i].parents.len();
        let d: usize = if parent_count == 0 {
            0
        } else {
            let mut min_depth: usize = usize::MAX;
            let mut k: usize = 0;
            while k < parent_count
                invariant
                    graph.wf(),
                    i < graph@.len(),
                    parent_count == graph@[i as int].parents.len(),
                    0 < parent_count,
                    k <= parent_count,
                    depths@.len() == i,
                    forall|t: int|
                        0 <= t < i ==> #[trigger] depths@[t] == spec_depth(graph@, t) && depths@[t]
                            <= t,
                    k == 0 ==> min_depth == usize::MAX,
                    k > 0 ==> min_depth == spec_min_parent_depth(graph@, i as int, k as int)
                        && min_depth < i,
                decreases parent_count - k,
            {
                let pid = &graph.nodes[i].parents[k];
                proof {
                    assert(graph@[i as int].parents[k as int] == pid@);
                    assert(parent_edges_wf(graph@, i as int));
                    assert(parent_edge_wf(graph@, i as int, k as int));
                }
                match graph.find_index(pid) {
                    Some(j) => {
                        proof {
                            let w = choose|w: int|
                                0 <= w < i && graph@[w].id == graph@[i as int].parents[k as int]
                                    && graph@[w].children.contains(graph@[i as int].id);
                            lemma_idx_of(graph@, pid@, w);
                            lemma_idx_of(graph@, pid@, j as int);
                            assert(j < i);
                        }
                        let pd = depths[j];
                        proof {
                            assert(spec_parent_depth(graph@, i as int, k as int) == pd);
                        }
                        if pd < min_depth {
                            min_depth = pd;
                        }
                    },
                    None => {
                        proof {
                            let w = choose|w: int|
                                0 <= w < i && graph@[w].id == graph@[i as int].parents[k as int]
                                    && graph@[w].children.contains(graph@[i as int].id);
                            assert(crate::graph::has_id(graph@, pid@));
                            assert(false);
                        }
                    },
                }
                k += 1;
            }
            min_depth + 1
        };
        depths.push(d);
        i += 1;
    }
    let mut sizes: Vec<usize> = Vec::new();
    let mut t: usize = 0;
    while t < n
        invariant
            t <= n,
            sizes@.len() == t,
        decreases n - t,
    {
        sizes.push(0);
        t += 1;
    }
    let mut done: usize = 0;
    while done < n
        invariant
            graph.wf(),
            n == graph@.len(),
            done <= n,
            sizes@.len() == n,
            forall|k: int|
                n - done <= k < n ==> #[trigger] sizes@[k] == clip_usize(
                    spec_tree_size(graph@, k),
                ),
        decreases n - done,
    {
        let i = n - 1 - done;
        let child_count = graph.nodes[i].children.len();
        let mut size: usize = if child_count > 0 {
            child_count - 1
        } else {
            0
        };
        let ghost base: nat = size as nat;
        let mut k: usize = 0;
        while k < child_count
            invariant
                graph.wf(),
                n == graph@.len(),
                i < n,
                i == n - 1 - done,
                done < n,
                child_count == graph@[i as int].children.len(),
                base == (if child_count > 0 {
                    (child_count - 1) as nat
                } else {
                    0nat
                }),
                k <= child_count,
                sizes@.len() == n,
                forall|kk: int|
                    i < kk < n ==> #[trigger] sizes@[kk] == clip_usize(
                        spec_tree_size(graph@, kk),
                    ),
                size == clip_usize(base + spec_children_sizes(graph@, i as int, k as int)),
            decreases child_count - k,
        {
            let cid = &graph.nodes[i].children[k];
            proof {
                assert(graph@[i as int].children[k as int] == cid@);
                assert(child_edges_wf(graph@, i as int));
                assert(child_edge_wf(graph@, i as int, k as int));
            }
            match graph.find_index(cid) {
                Some(j) => {
                    proof {
                        let w = choose|w: int|
                            i < w < graph@.len() && graph@[w].id == graph@[i as int].children[
                            k as int];
                        lemma_idx_of(graph@, cid@, w);
                        lemma_idx_of(graph@, cid@, j as int);
                        assert(i < j);
                    }
                    let cs = sizes[j];
                    proof {
                        assert(spec_child_size(graph@, i as int, k as int) == spec_tree_size(
                            graph@,
                            j as int,
                        ));
                    }
                    size = size.saturating_add(cs);
                },
                None => {
                    proof {
                        let w = choose|w: int|
                            i < w < graph@.len() && graph@[w].id == graph@[i as int].children[
                            k as int];
                        assert(crate::graph::has_id(graph@, cid@));
                        assert(false);
                    }
                },
            }
            k += 1;
        }
        sizes[i] = size;
        done += 1;
    }
    let mut heights: Vec<Option<isize>> = Vec::new();
    let mut i: usize = 0;
    while i < n
        invariant
            graph.wf(),
            n == graph@.len(),
            i <= n,
            heights@.len() == i,
            sizes@.len() == n,
            forall|k: int|
                0 <= k < n ==> #[trigger] sizes@[k] == clip_usize(spec_tree_size(graph@, k)),
            forall|k: int|
                0 <= k < i ==> match #[trigger] heights@[k] {
                    Some(h) => height_fits(graph@, k) && h == spec_height(graph@, k),
                    None => !height_fits(graph@, k),
                },
        decreases n - i,
    {
        let h: Option<isize> = if graph.nodes[i].parents.len() == 0 {
            Some(0isize)
        } else {
            let pid = &graph.nodes[i].parents[0];
            proof {
                assert(graph@[i as int].parents[0] == pid@);
                assert(parent_edges_wf(graph@, i as int));
                assert(parent_edge_wf(graph@, i as int, 0));
            }
            match graph.find_index(pid) {
                Some(j) => {
                    proof {
                        let w = choose|w: int|
                            0 <= w < i && graph@[w].id == graph@[i as int].parents[0] && graph@[
                            w].children.contains(graph@[i as int].id);
                        lemma_idx_of(graph@, pid@, w);
                        lemma_idx_of(graph@, pid@, j as int);
                        assert(j < i);
                        assert(graph@[j as int].children.contains(graph@[i as int].id));
                    }
                    if graph.nodes[j].children.len() == 1 {
                        let r = heights[j];
                        proof {
                            assert(height_fits(graph@, i as int) == height_fits(graph@, j as int));
                            assert(spec_height(graph@, i as int) == spec_height(graph@, j as int));
                        }
                        r
                    } else {
                        let pos = match position_of(&graph.nodes[j].children, &graph.nodes[i].id) {
                            Some(p) => p,
                            None => {
                                proof {
                                    let m = choose|m: int|
                                        0 <= m < graph@[j as int].children.len() && graph@[
                                        j as int].children[m] == graph@[i as int].id;
                                    assert(false);
                                }
                                0
                            },
                        };
                        proof {
                            lemma_first_pos_unique(
                                graph@[j as int].children,
                                graph@[i as int].id,
                                pos as int,
                            );
                        }
                        let ghost sz = spec_tree_size(graph@, i as int);
                        let value = sizes[i];
                        if value > (isize::MAX as usize) - 1 {
                            proof {
                                if sz > usize::MAX as nat {
                                    assert(value == usize::MAX);
                                }
                                assert(1 + sz > isize::MAX as int);
                                assert(!height_fits(graph@, i as int));
                            }
                            None
                        } else {
                            proof {
                                if sz > usize::MAX as nat {
                                    assert(value == usize::MAX);
                                    assert(false);
                                }
                                assert(sz == value as nat);
                            }
                            let vi: isize = value as isize;
                            match heights[j] {
                                Some(ph) => {
                                    let delta: isize = if pos == 0 {
                                        -1 - vi
                                    } else {
                                        1 + vi
                                    };
                                    let out = ph.checked_add(delta);
                                    proof {
                                        lemma_height_in_range(graph@, j as int);
                                        assert(spec_height(graph@, i as int) == spec_height(
                                            graph@,
                                            j as int,
                                        ) + (if pos == 0 {
                                            -1int
                                        } else {
                                            1int
                                        }) * (1 + spec_tree_size(graph@, i as int)));
                                        assert(vi as int == sz);
                                        if pos == 0 {
                                            assert(delta as int == -1 - vi);
                                            assert((-1int) * (1 + sz) == -1 - sz);
                                            assert(delta == (-1int) * (1 + sz));
                                        } else {
                                            assert(delta as int == 1 + vi);
                                            assert((1int) * (1 + sz) == 1 + sz);
                                            assert(delta == (1int) * (1 + sz));
                                        }
                                        if out is Some {
                                            assert(height_fits(graph@, i as int));
                                        } else {
                                            assert(!(isize::MIN as int <= spec_height(
                                                graph@,
                                                i as int,
                                            ) <= isize::MAX as int));
                                            assert(!height_fits(graph@, i as int));
                                        }
                                    }
                                    out
                                },
                                None => {
                                    proof {
                                        assert(!height_fits(graph@, i as int));
                                    }
                                    None
                                },
                            }
                        }
                    }
                },
                None => {
                    proof {
                        let w = choose|w: int|
                            0 <= w < i && graph@[w].id == graph@[i as int].parents[0] && graph@[
                            w].children.contains(graph@[i as int].id);
                        assert(crate::graph::has_id(graph@, pid@));
                        assert(false);
                    }
                    None
                },
            }
        };
        heights.push(h);
        i += 1;
    }
    (depths, sizes, heights)
}

} // verus!
