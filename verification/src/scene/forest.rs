//! The forest shape of a scene graph: parent and child links agree, no node
//! lists a child twice, and no node is its own descendant.

use vstd::prelude::*;
use super::{NodeId, NodeView, SceneGraph};
use super::graph::{drop_id, lemma_drop_id_from};
use super::hierarchy::{slot_live, without_child, with_child, with_parent, detached, ancestor_walk};
use super::reach::{kids, ranked_closed, reaches, is_child_path, acyclic_below, lemma_reaches_self, lemma_reaches_child};
use super::traverse::lemma_reach_rank;

verus! {

/// The parent recorded by the node in slot `x`.
pub open spec fn parent_of(s: Seq<Option<NodeView>>, x: NodeId) -> Option<NodeId> {
    s[x.0 as int].unwrap().parent
}

/// Whether parent and child links agree: a live node's parent is live and
/// lists it, a live node's children are live and name it as parent, and no
/// node lists a child twice.
pub open spec fn links_agree(s: Seq<Option<NodeView>>) -> bool {
    &&& forall|x: NodeId| #[trigger] slot_live(s, x) && parent_of(s, x) is Some ==> {
        &&& slot_live(s, parent_of(s, x).unwrap())
        &&& kids(s, parent_of(s, x).unwrap()).contains(x)
    }
    &&& forall|x: NodeId, k: int| 0 <= k < kids(s, x).len() ==> {
        &&& slot_live(s, #[trigger] kids(s, x)[k])
        &&& parent_of(s, kids(s, x)[k]) == Some(x)
    }
    &&& forall|x: NodeId| #[trigger] kids(s, x).no_duplicates()
}

/// Whether some rank strictly decreases along every child link.
pub open spec fn acyclic(s: Seq<Option<NodeView>>) -> bool {
    exists|rank: spec_fn(NodeId) -> nat| ranked_closed(s, Set::full(), rank)
}

/// A forest: links agree and there is no cycle.
pub open spec fn is_forest(s: Seq<Option<NodeView>>) -> bool {
    links_agree(s) && acyclic(s)
}

/// Without cycles, no cycle can be reached from any node.
pub proof fn lemma_acyclic_below(s: Seq<Option<NodeView>>, id: NodeId)
    requires
        acyclic(s),
    ensures
        acyclic_below(s, id),
{
    let rank = choose|rank: spec_fn(NodeId) -> nat| ranked_closed(s, Set::full(), rank);
    assert(Set::<NodeId>::full().contains(id));
}

/// Ranks strictly decrease along a child path.
pub proof fn lemma_path_descends(s: Seq<Option<NodeView>>, rank: spec_fn(NodeId) -> nat, path: Seq<NodeId>, a: int, b: int)
    requires
        ranked_closed(s, Set::full(), rank),
        is_child_path(s, path),
        0 <= a < b < path.len(),
    ensures
        rank(path[b]) < rank(path[a]),
    decreases b - a,
{
    assert(kids(s, path[b - 1]).contains(path[b]));
    let k = choose|k: int| 0 <= k < kids(s, path[b - 1]).len() && #[trigger] kids(s, path[b - 1])[k] == path[b];
    assert(Set::<NodeId>::full().contains(path[b - 1]));
    if a < b - 1 {
        lemma_path_descends(s, rank, path, a, b - 1);
    }
}

/// The walk up the parent links from the last node of a child path, having
/// passed only nodes further down the path, finds the path's first node.
proof fn lemma_walk_up(
    s: Seq<Option<NodeView>>,
    rank: spec_fn(NodeId) -> nat,
    path: Seq<NodeId>,
    j: int,
    visited: Set<u32>,
    fuel: nat,
)
    requires
        links_agree(s),
        ranked_closed(s, Set::full(), rank),
        is_child_path(s, path),
        1 <= j < path.len(),
        forall|v: u32| visited.contains(v) ==> exists|i: int| j < i < path.len() && (#[trigger] path[i]).0 == v,
        fuel >= j + 1,
    ensures
        ancestor_walk(s, path[0], path[j], visited, fuel) == Some(true),
    decreases j,
{
    assert(kids(s, path[j - 1]).contains(path[j]));
    let k = choose|k: int| 0 <= k < kids(s, path[j - 1]).len() && #[trigger] kids(s, path[j - 1])[k] == path[j];
    assert(slot_live(s, kids(s, path[j - 1])[k]));
    assert(parent_of(s, path[j]) == Some(path[j - 1]));
    if visited.contains(path[j].0) {
        let i = choose|i: int| j < i < path.len() && (#[trigger] path[i]).0 == path[j].0;
        lemma_path_descends(s, rank, path, j, i);
        assert(path[i] == path[j]);
    }
    if j > 1 {
        lemma_path_descends(s, rank, path, 0, j - 1);
        assert(path[j - 1] != path[0]);
        let v2 = visited.insert(path[j].0);
        assert forall|v: u32| v2.contains(v) implies exists|i: int| j - 1 < i < path.len() && (#[trigger] path[i]).0 == v by {
            if v == path[j].0 {
                assert(path[j].0 == v);
            } else {
                let i = choose|i: int| j < i < path.len() && (#[trigger] path[i]).0 == v;
            }
        }
        lemma_walk_up(s, rank, path, j - 1, v2, (fuel - 1) as nat);
    }
}

/// A child path that starts at a live slot visits distinct live slots, so it is
/// no longer than the number of slots.
proof fn lemma_path_len_bound(s: Seq<Option<NodeView>>, rank: spec_fn(NodeId) -> nat, path: Seq<NodeId>)
    requires
        links_agree(s),
        ranked_closed(s, Set::full(), rank),
        is_child_path(s, path),
        slot_live(s, path[0]),
        s.len() <= u32::MAX,
    ensures
        path.len() <= s.len(),
{
    let ids = path.map_values(|x: NodeId| x.0);
    assert(ids.len() == path.len());
    assert forall|a: int, b: int| 0 <= a < ids.len() && 0 <= b < ids.len() && a != b implies ids[a] != ids[b] by {
        assert(ids[a] == path[a].0 && ids[b] == path[b].0);
        if a < b {
            lemma_path_descends(s, rank, path, a, b);
        } else {
            lemma_path_descends(s, rank, path, b, a);
        }
    }
    assert(ids.no_duplicates());
    ids.unique_seq_to_set();
    let range = Set::<u32>::range(0, s.len() as u32);
    vstd::set_lib::range_set_properties::<u32>(0, s.len() as u32);
    assert forall|i: int| 0 <= i < ids.len() implies range.contains(#[trigger] ids[i]) by {
        lemma_path_live(s, path, i);
        assert(ids[i] == path[i].0);
    }
    assert(ids.to_set().subset_of(range));
    vstd::set_lib::lemma_len_subset(ids.to_set(), range);
}

/// Every node on a child path that starts at a live slot is live.
proof fn lemma_path_live(s: Seq<Option<NodeView>>, path: Seq<NodeId>, i: int)
    requires
        links_agree(s),
        is_child_path(s, path),
        slot_live(s, path[0]),
        0 <= i < path.len(),
    ensures
        slot_live(s, path[i]),
{
    if i > 0 {
        assert(kids(s, path[i - 1]).contains(path[i]));
        let k = choose|k: int| 0 <= k < kids(s, path[i - 1]).len() && #[trigger] kids(s, path[i - 1])[k] == path[i];
        assert(slot_live(s, kids(s, path[i - 1])[k]));
    }
}

/// In a forest, if `c` reaches `p` along child links and `c != p`, the walk up
/// the parent links from `p` finds `c`.
pub proof fn lemma_walk_finds(s: Seq<Option<NodeView>>, c: NodeId, p: NodeId)
    requires
        is_forest(s),
        slot_live(s, c),
        reaches(s, c, p),
        c != p,
        s.len() <= u32::MAX,
    ensures
        ancestor_walk(s, c, p, Set::empty(), (s.len() + 1) as nat) == Some(true),
{
    let rank = choose|rank: spec_fn(NodeId) -> nat| ranked_closed(s, Set::full(), rank);
    let path = choose|path: Seq<NodeId>| #[trigger] is_child_path(s, path) && path[0] == c && path.last() == p;
    lemma_path_len_bound(s, rank, path);
    assert(path.len() >= 2) by {
        if path.len() == 1 {
            assert(path[0] == path.last());
        }
    }
    lemma_walk_up(s, rank, path, path.len() - 1, Set::empty(), (s.len() + 1) as nat);
}

/// Dropping an id keeps a sequence free of duplicates, and keeps every other
/// element.
pub proof fn lemma_drop_id_keeps(cs: Seq<NodeId>, c: NodeId)
    ensures
        cs.no_duplicates() ==> drop_id(cs, c).no_duplicates(),
        forall|y: NodeId| cs.contains(y) && y != c ==> #[trigger] drop_id(cs, c).contains(y),
        forall|y: NodeId| #[trigger] drop_id(cs, c).contains(y) ==> cs.contains(y) && y != c,
    decreases cs.len(),
{
    reveal(Seq::filter);
    lemma_drop_id_from(cs, c);
    if cs.len() > 0 {
        let init = cs.drop_last();
        lemma_drop_id_keeps(init, c);
        let d = drop_id(cs, c);
        let di = drop_id(init, c);
        assert forall|y: NodeId| cs.contains(y) && y != c implies #[trigger] d.contains(y) by {
            let i = choose|i: int| 0 <= i < cs.len() && cs[i] == y;
            if i == cs.len() - 1 {
                assert(d[d.len() - 1] == y);
            } else {
                assert(init[i] == y);
                assert(di.contains(y));
                let m = choose|m: int| 0 <= m < di.len() && di[m] == y;
                assert(d[m] == y);
            }
        }
        assert forall|y: NodeId| #[trigger] d.contains(y) implies cs.contains(y) && y != c by {
            let m = choose|m: int| 0 <= m < d.len() && d[m] == y;
        }
        if cs.no_duplicates() {
            assert(init.no_duplicates()) by {
                assert forall|a: int, b: int| 0 <= a < init.len() && 0 <= b < init.len() && a != b implies init[a] != init[b] by {
                    assert(init[a] == cs[a] && init[b] == cs[b]);
                }
            }
            if cs.last() != c {
                assert(!di.contains(cs.last())) by {
                    if di.contains(cs.last()) {
                        assert(init.contains(cs.last()));
                        let i = choose|i: int| 0 <= i < init.len() && init[i] == cs.last();
                        assert(cs[i] == cs[cs.len() - 1]);
                    }
                }
                assert(d =~= di.push(cs.last()));
                assert forall|a: int, b: int| 0 <= a < d.len() && 0 <= b < d.len() && a != b implies d[a] != d[b] by {
                    if a == d.len() - 1 {
                        assert(di.contains(d[b]));
                    } else if b == d.len() - 1 {
                        assert(di.contains(d[a]));
                    }
                }
            } else {
                assert(d =~= di);
            }
        }
    }
}

/// A node that reaches `p` through one of its children reaches `p` itself.
pub proof fn lemma_reaches_prepend(s: Seq<Option<NodeView>>, x: NodeId, k: int, p: NodeId)
    requires
        0 <= k < kids(s, x).len(),
        reaches(s, kids(s, x)[k], p),
    ensures
        reaches(s, x, p),
{
    let y = kids(s, x)[k];
    let path = choose|path: Seq<NodeId>| #[trigger] is_child_path(s, path) && path[0] == y && path.last() == p;
    let q = seq![x] + path;
    assert forall|j: int| 0 <= j < q.len() - 1 implies kids(s, #[trigger] q[j]).contains(q[j + 1]) by {
        if j == 0 {
            assert(q[1] == y);
        } else {
            assert(q[j] == path[j - 1] && q[j + 1] == path[j]);
        }
    }
    assert(is_child_path(s, q) && q[0] == x && q.last() == p);
}

/// Every node other than `from` that `from` reaches is a child of a node that
/// `from` reaches.
pub proof fn lemma_reaches_pred(s: Seq<Option<NodeView>>, from: NodeId, y: NodeId)
    requires
        reaches(s, from, y),
        y != from,
    ensures
        exists|z: NodeId| reaches(s, from, z) && #[trigger] kids(s, z).contains(y),
{
    let path = choose|path: Seq<NodeId>| #[trigger] is_child_path(s, path) && path[0] == from && path.last() == y;
    assert(path.len() >= 2) by {
        if path.len() == 1 {
            assert(path[0] == path.last());
        }
    }
    let n = path.len();
    let z = path[n - 2];
    let q = path.subrange(0, n - 1);
    assert forall|j: int| 0 <= j < q.len() - 1 implies kids(s, #[trigger] q[j]).contains(q[j + 1]) by {
        assert(q[j] == path[j] && q[j + 1] == path[j + 1]);
    }
    assert(is_child_path(s, q) && q[0] == from && q.last() == z);
    assert(kids(s, path[n - 2]).contains(path[n - 1]));
}

/// In a forest, a node other than `from` that `from` reaches is live and
/// has a recorded parent that `from` reaches.
pub proof fn lemma_forest_reach_parent(s: Seq<Option<NodeView>>, from: NodeId, y: NodeId)
    requires
        is_forest(s),
        reaches(s, from, y),
        y != from,
    ensures
        slot_live(s, y),
        parent_of(s, y) is Some,
        reaches(s, from, parent_of(s, y).unwrap()),
        kids(s, parent_of(s, y).unwrap()).contains(y),
{
    lemma_reaches_pred(s, from, y);
    let z = choose|z: NodeId| reaches(s, from, z) && #[trigger] kids(s, z).contains(y);
    let k = choose|k: int| 0 <= k < kids(s, z).len() && kids(s, z)[k] == y;
    assert(slot_live(s, kids(s, z)[k]) && parent_of(s, kids(s, z)[k]) == Some(z));
}

/// In a forest, two distinct children of one node reach no node in common.
pub proof fn lemma_siblings_disjoint(
    s: Seq<Option<NodeView>>,
    rank: spec_fn(NodeId) -> nat,
    p: NodeId,
    a: NodeId,
    b: NodeId,
    x: NodeId,
)
    requires
        is_forest(s),
        ranked_closed(s, Set::full(), rank),
        kids(s, p).contains(a),
        kids(s, p).contains(b),
        a != b,
        reaches(s, a, x),
    ensures
        !reaches(s, b, x),
    decreases rank(a) - rank(x),
{
    let ka = choose|k: int| 0 <= k < kids(s, p).len() && kids(s, p)[k] == a;
    let kb = choose|k: int| 0 <= k < kids(s, p).len() && kids(s, p)[k] == b;
    assert(parent_of(s, kids(s, p)[ka]) == Some(p));
    assert(parent_of(s, kids(s, p)[kb]) == Some(p));
    assert(Set::<NodeId>::full().contains(p));
    assert(rank(kids(s, p)[ka]) < rank(p));
    assert(rank(kids(s, p)[kb]) < rank(p));
    lemma_reach_rank_full(s, rank, a, x);
    if reaches(s, b, x) {
        if x == a {
            lemma_forest_reach_parent(s, b, a);
            lemma_reach_rank_full(s, rank, b, p);
        } else if x == b {
            lemma_forest_reach_parent(s, a, b);
            lemma_reach_rank_full(s, rank, a, p);
        } else {
            lemma_forest_reach_parent(s, a, x);
            lemma_forest_reach_parent(s, b, x);
            let q = parent_of(s, x).unwrap();
            let kq = choose|k: int| 0 <= k < kids(s, q).len() && kids(s, q)[k] == x;
            assert(Set::<NodeId>::full().contains(q));
            assert(rank(kids(s, q)[kq]) < rank(q));
            lemma_reach_rank_full(s, rank, a, q);
            lemma_siblings_disjoint(s, rank, p, a, b, q);
        }
    }
}

/// Along child links the rank never grows.
pub proof fn lemma_reach_rank_full(s: Seq<Option<NodeView>>, rank: spec_fn(NodeId) -> nat, a: NodeId, b: NodeId)
    requires
        ranked_closed(s, Set::full(), rank),
        reaches(s, a, b),
    ensures
        rank(b) <= rank(a),
{
    assert(Set::<NodeId>::full().contains(a));
    lemma_reach_rank(s, Set::full(), rank, a, b);
}

/// Adding a fresh node to an empty or new slot keeps a forest a forest.
pub proof fn lemma_forest_add_fresh(s: Seq<Option<NodeView>>, s2: Seq<Option<NodeView>>, id: NodeId, n: NodeView)
    requires
        is_forest(s),
        !slot_live(s, id),
        n.parent is None,
        n.children.len() == 0,
        (id.0 as int) <= s.len(),
        s2 == (if (id.0 as int) < s.len() { s.update(id.0 as int, Some(n)) } else { s.push(Some(n)) }),
    ensures
        is_forest(s2),
{
    let rank = choose|rank: spec_fn(NodeId) -> nat| ranked_closed(s, Set::full(), rank);
    assert forall|x: NodeId| x != id implies slot_live(s2, x) == slot_live(s, x) && #[trigger] kids(s2, x) == kids(s, x) by {}
    assert(kids(s2, id) =~= Seq::<NodeId>::empty());
    assert forall|x: NodeId| #[trigger] slot_live(s2, x) && parent_of(s2, x) is Some implies {
        &&& slot_live(s2, parent_of(s2, x).unwrap())
        &&& kids(s2, parent_of(s2, x).unwrap()).contains(x)
    } by {
        assert(x != id);
        assert(slot_live(s, x) && parent_of(s, x) == parent_of(s2, x));
        let q = parent_of(s, x).unwrap();
        assert(slot_live(s, q));
        assert(q != id);
    }
    assert forall|x: NodeId, k: int| 0 <= k < kids(s2, x).len() implies {
        &&& slot_live(s2, #[trigger] kids(s2, x)[k])
        &&& parent_of(s2, kids(s2, x)[k]) == Some(x)
    } by {
        assert(x != id);
        let y = kids(s, x)[k];
        assert(slot_live(s, y));
        assert(y != id);
    }
    assert forall|x: NodeId| #[trigger] kids(s2, x).no_duplicates() by {
        if x != id {
            assert(kids(s, x).no_duplicates());
        }
    }
    assert(ranked_closed(s2, Set::full(), rank)) by {
        assert forall|x: NodeId, k: int| Set::<NodeId>::full().contains(x) && 0 <= k < kids(s2, x).len() implies {
            &&& Set::<NodeId>::full().contains(#[trigger] kids(s2, x)[k])
            &&& rank(kids(s2, x)[k]) < rank(x)
        } by {
            assert(x != id);
            assert(kids(s2, x)[k] == kids(s, x)[k]);
        }
    }
}

/// Dropping a child whose recorded parent is the given parent (or none)
/// keeps a forest a forest.
pub proof fn lemma_forest_remove_child(s: Seq<Option<NodeView>>, p: NodeId, c: NodeId)
    requires
        is_forest(s),
        slot_live(s, p),
        slot_live(s, c),
        parent_of(s, c) is None || parent_of(s, c) == Some(p),
    ensures
        is_forest(with_parent(without_child(s, p, c), c, None)),
{
    let s2 = with_parent(without_child(s, p, c), c, None);
    let rank = choose|rank: spec_fn(NodeId) -> nat| ranked_closed(s, Set::full(), rank);
    lemma_drop_id_keeps(kids(s, p), c);
    assert forall|x: NodeId| slot_live(s2, x) == slot_live(s, x) && #[trigger] kids(s2, x) == (if x == p { drop_id(kids(s, p), c) } else { kids(s, x) }) by {}
    assert forall|x: NodeId| #[trigger] slot_live(s2, x) && parent_of(s2, x) is Some implies {
        &&& slot_live(s2, parent_of(s2, x).unwrap())
        &&& kids(s2, parent_of(s2, x).unwrap()).contains(x)
    } by {
        assert(x != c);
        assert(parent_of(s2, x) == parent_of(s, x));
        assert(slot_live(s, x));
        let q = parent_of(s, x).unwrap();
        assert(kids(s, q).contains(x));
        if q == p {
            assert(drop_id(kids(s, p), c).contains(x));
        }
    }
    assert forall|x: NodeId, k: int| 0 <= k < kids(s2, x).len() implies {
        &&& slot_live(s2, #[trigger] kids(s2, x)[k])
        &&& parent_of(s2, kids(s2, x)[k]) == Some(x)
    } by {
        let y = kids(s2, x)[k];
        assert(kids(s2, x).contains(y));
        assert(kids(s, x).contains(y));
        let m = choose|m: int| 0 <= m < kids(s, x).len() && kids(s, x)[m] == y;
        assert(slot_live(s, kids(s, x)[m]) && parent_of(s, kids(s, x)[m]) == Some(x));
        assert(y != c);
    }
    assert forall|x: NodeId| #[trigger] kids(s2, x).no_duplicates() by {
        assert(kids(s, x).no_duplicates());
    }
    assert(ranked_closed(s2, Set::full(), rank)) by {
        assert forall|x: NodeId, k: int| Set::<NodeId>::full().contains(x) && 0 <= k < kids(s2, x).len() implies {
            &&& Set::<NodeId>::full().contains(#[trigger] kids(s2, x)[k])
            &&& rank(kids(s2, x)[k]) < rank(x)
        } by {
            let y = kids(s2, x)[k];
            assert(kids(s2, x).contains(y));
            assert(kids(s, x).contains(y));
            let m = choose|m: int| 0 <= m < kids(s, x).len() && kids(s, x)[m] == y;
            assert(rank(kids(s, x)[m]) < rank(x));
        }
    }
}

/// Moving `c` under `p` keeps a forest a forest when `c` does not reach `p`.
pub proof fn lemma_forest_move(s: Seq<Option<NodeView>>, p: NodeId, c: NodeId)
    requires
        is_forest(s),
        slot_live(s, p),
        slot_live(s, c),
        p != c,
        !reaches(s, c, p),
    ensures
        is_forest(with_parent(with_child(detached(s, c), p, c), c, Some(p))),
{
    let s1 = detached(s, c);
    let s2 = with_child(s1, p, c);
    let s3 = with_parent(s2, c, Some(p));
    let rank = choose|rank: spec_fn(NodeId) -> nat| ranked_closed(s, Set::full(), rank);
    let has_op = parent_of(s, c) is Some && slot_live(s, parent_of(s, c).unwrap());
    let op = parent_of(s, c).unwrap();
    lemma_drop_id_keeps(kids(s, op), c);
    assert forall|x: NodeId| slot_live(s1, x) == slot_live(s, x) && #[trigger] kids(s1, x) == (if has_op && x == op { drop_id(kids(s, op), c) } else { kids(s, x) }) by {}
    assert forall|x: NodeId| slot_live(s3, x) == slot_live(s, x) && #[trigger] kids(s3, x) == (if x == p { kids(s1, p).push(c) } else { kids(s1, x) }) by {}
    // `c` is a child only of its recorded parent.
    assert forall|x: NodeId| #[trigger] kids(s1, x).contains(c) implies false by {
        if has_op && x == op {
        } else {
            assert(kids(s, x).contains(c));
            let m = choose|m: int| 0 <= m < kids(s, x).len() && kids(s, x)[m] == c;
            assert(parent_of(s, kids(s, x)[m]) == Some(x));
            assert(slot_live(s, kids(s, x)[m]));
        }
    }
    assert forall|x: NodeId, y: NodeId| #[trigger] kids(s1, x).contains(y) implies kids(s, x).contains(y) && y != c by {
        assert(!kids(s1, x).contains(c));
    }
    assert forall|x: NodeId| #[trigger] slot_live(s3, x) && parent_of(s3, x) is Some implies {
        &&& slot_live(s3, parent_of(s3, x).unwrap())
        &&& kids(s3, parent_of(s3, x).unwrap()).contains(x)
    } by {
        if x == c {
            assert(kids(s3, p)[kids(s3, p).len() - 1] == c);
        } else {
            assert(slot_live(s, x));
            let q = parent_of(s, x).unwrap();
            assert(parent_of(s3, x) == parent_of(s, x));
            assert(kids(s, q).contains(x));
            if has_op && q == op {
                assert(drop_id(kids(s, op), c).contains(x));
            }
            assert(kids(s1, q).contains(x));
            if q == p {
                let m = choose|m: int| 0 <= m < kids(s1, p).len() && kids(s1, p)[m] == x;
                assert(kids(s3, p)[m] == x);
            }
        }
    }
    assert forall|x: NodeId, k: int| 0 <= k < kids(s3, x).len() implies {
        &&& slot_live(s3, #[trigger] kids(s3, x)[k])
        &&& parent_of(s3, kids(s3, x)[k]) == Some(x)
    } by {
        let y = kids(s3, x)[k];
        if x == p && k == kids(s3, x).len() - 1 {
            assert(y == c);
        } else {
            assert(y == kids(s1, x)[k]);
            assert(kids(s1, x).contains(y));
            assert(kids(s, x).contains(y) && y != c);
            let m = choose|m: int| 0 <= m < kids(s, x).len() && kids(s, x)[m] == y;
            assert(slot_live(s, kids(s, x)[m]) && parent_of(s, kids(s, x)[m]) == Some(x));
        }
    }
    assert forall|x: NodeId| #[trigger] kids(s3, x).no_duplicates() by {
        assert(kids(s, x).no_duplicates());
        assert(kids(s1, x).no_duplicates());
        if x == p {
            let ks = kids(s3, p);
            assert forall|a: int, b: int| 0 <= a < ks.len() && 0 <= b < ks.len() && a != b implies ks[a] != ks[b] by {
                if a == ks.len() - 1 {
                    assert(ks[b] == kids(s1, p)[b]);
                    assert(kids(s1, p).contains(ks[b]));
                } else if b == ks.len() - 1 {
                    assert(ks[a] == kids(s1, p)[a]);
                    assert(kids(s1, p).contains(ks[a]));
                } else {
                    assert(ks[a] == kids(s1, p)[a] && ks[b] == kids(s1, p)[b]);
                }
            }
        }
    }
    let bump = rank(c) + 1;
    let rank3 = |x: NodeId| rank(x) + (if reaches(s, x, p) { bump } else { 0nat });
    lemma_reaches_self(s, p);
    assert(ranked_closed(s3, Set::full(), rank3)) by {
        assert forall|x: NodeId, k: int| Set::<NodeId>::full().contains(x) && 0 <= k < kids(s3, x).len() implies {
            &&& Set::<NodeId>::full().contains(#[trigger] kids(s3, x)[k])
            &&& rank3(kids(s3, x)[k]) < rank3(x)
        } by {
            let y = kids(s3, x)[k];
            if x == p && k == kids(s3, x).len() - 1 {
                assert(y == c);
            } else {
                assert(y == kids(s1, x)[k]);
                assert(kids(s1, x).contains(y));
                assert(kids(s, x).contains(y));
                let m = choose|m: int| 0 <= m < kids(s, x).len() && kids(s, x)[m] == y;
                assert(Set::<NodeId>::full().contains(x));
                assert(rank(kids(s, x)[m]) < rank(x));
                if reaches(s, y, p) {
                    lemma_reaches_prepend(s, x, m, p);
                }
            }
        }
    }
}

/// Emptying every slot that `id` reaches, after dropping `id` from its
/// parent's children, keeps a forest a forest.
pub proof fn lemma_forest_remove_subtree(s: Seq<Option<NodeView>>, f: Seq<Option<NodeView>>, id: NodeId)
    requires
        is_forest(s),
        f.len() == s.len(),
        s.len() <= u32::MAX,
        forall|x: int| 0 <= x < s.len() ==> #[trigger] f[x] == (if reaches(s, id, NodeId(x as u32)) {
            None
        } else {
            detached(s, id)[x]
        }),
    ensures
        is_forest(f),
{
    let d = detached(s, id);
    let rank = choose|rank: spec_fn(NodeId) -> nat| ranked_closed(s, Set::full(), rank);
    let has_op = slot_live(s, id) && parent_of(s, id) is Some && slot_live(s, parent_of(s, id).unwrap());
    let op = parent_of(s, id).unwrap();
    lemma_reaches_self(s, id);
    lemma_drop_id_keeps(kids(s, op), id);
    assert forall|x: NodeId| slot_live(f, x) == (slot_live(s, x) && !reaches(s, id, x)) && #[trigger] kids(f, x) == (if !slot_live(f, x) {
        Seq::<NodeId>::empty()
    } else if has_op && x == op {
        drop_id(kids(s, op), id)
    } else {
        kids(s, x)
    }) by {
        if (x.0 as int) < s.len() {
            assert(NodeId(x.0 as u32) == x);
            assert(f[x.0 as int] == (if reaches(s, id, x) { None } else { d[x.0 as int] }));
        }
    }
    assert forall|x: NodeId| #[trigger] slot_live(f, x) implies parent_of(f, x) == parent_of(s, x) by {
        assert(NodeId(x.0 as u32) == x);
    }
    assert forall|x: NodeId, y: NodeId| #[trigger] kids(f, x).contains(y) implies kids(s, x).contains(y) && slot_live(f, x) by {
        if has_op && x == op && slot_live(f, x) {
            assert(drop_id(kids(s, op), id).contains(y));
        }
    }
    assert forall|x: NodeId| #[trigger] slot_live(f, x) && parent_of(f, x) is Some implies {
        &&& slot_live(f, parent_of(f, x).unwrap())
        &&& kids(f, parent_of(f, x).unwrap()).contains(x)
    } by {
        assert(slot_live(s, x));
        let q = parent_of(s, x).unwrap();
        assert(kids(s, q).contains(x));
        if reaches(s, id, q) {
            let m = choose|m: int| 0 <= m < kids(s, q).len() && kids(s, q)[m] == x;
            lemma_reaches_child(s, id, q, m);
        }
        assert(slot_live(f, q));
        assert(x != id);
        if has_op && q == op {
            assert(drop_id(kids(s, op), id).contains(x));
        }
    }
    assert forall|x: NodeId, k: int| 0 <= k < kids(f, x).len() implies {
        &&& slot_live(f, #[trigger] kids(f, x)[k])
        &&& parent_of(f, kids(f, x)[k]) == Some(x)
    } by {
        let y = kids(f, x)[k];
        assert(kids(f, x).contains(y));
        assert(kids(s, x).contains(y) && slot_live(f, x));
        let m = choose|m: int| 0 <= m < kids(s, x).len() && kids(s, x)[m] == y;
        assert(slot_live(s, kids(s, x)[m]) && parent_of(s, kids(s, x)[m]) == Some(x));
        if y == id {
            assert(has_op && x == op);
            assert(!drop_id(kids(s, op), id).contains(id));
        }
        if reaches(s, id, y) && y != id {
            lemma_reaches_pred(s, id, y);
            let z = choose|z: NodeId| reaches(s, id, z) && #[trigger] kids(s, z).contains(y);
            let mz = choose|mz: int| 0 <= mz < kids(s, z).len() && kids(s, z)[mz] == y;
            assert(parent_of(s, kids(s, z)[mz]) == Some(z));
        }
        assert(slot_live(f, y));
    }
    assert forall|x: NodeId| #[trigger] kids(f, x).no_duplicates() by {
        assert(kids(s, x).no_duplicates());
    }
    assert(ranked_closed(f, Set::full(), rank)) by {
        assert forall|x: NodeId, k: int| Set::<NodeId>::full().contains(x) && 0 <= k < kids(f, x).len() implies {
            &&& Set::<NodeId>::full().contains(#[trigger] kids(f, x)[k])
            &&& rank(kids(f, x)[k]) < rank(x)
        } by {
            let y = kids(f, x)[k];
            assert(kids(f, x).contains(y));
            let m = choose|m: int| 0 <= m < kids(s, x).len() && kids(s, x)[m] == y;
            assert(rank(kids(s, x)[m]) < rank(x));
        }
    }
}

/// Whether `a` and `b` have the same live slots, children and parents.
pub open spec fn same_shape(a: Seq<Option<NodeView>>, b: Seq<Option<NodeView>>) -> bool {
    &&& forall|x: NodeId| #[trigger] slot_live(a, x) == slot_live(b, x)
    &&& forall|x: NodeId| #[trigger] kids(a, x) == kids(b, x)
    &&& forall|x: NodeId| slot_live(a, x) ==> #[trigger] parent_of(a, x) == parent_of(b, x)
}

/// The forest shape depends only on liveness, children and parents.
pub proof fn lemma_forest_same_shape(a: Seq<Option<NodeView>>, b: Seq<Option<NodeView>>)
    requires
        is_forest(a),
        same_shape(a, b),
    ensures
        is_forest(b),
{
    let rank = choose|rank: spec_fn(NodeId) -> nat| ranked_closed(a, Set::full(), rank);
    assert forall|x: NodeId| #[trigger] slot_live(b, x) && parent_of(b, x) is Some implies {
        &&& slot_live(b, parent_of(b, x).unwrap())
        &&& kids(b, parent_of(b, x).unwrap()).contains(x)
    } by {
        assert(slot_live(a, x));
        assert(parent_of(a, x) == parent_of(b, x));
        let q = parent_of(a, x).unwrap();
        assert(kids(a, q) == kids(b, q));
        assert(slot_live(a, q) == slot_live(b, q));
    }
    assert forall|x: NodeId, k: int| 0 <= k < kids(b, x).len() implies {
        &&& slot_live(b, #[trigger] kids(b, x)[k])
        &&& parent_of(b, kids(b, x)[k]) == Some(x)
    } by {
        assert(kids(a, x) == kids(b, x));
        let y = kids(a, x)[k];
        assert(slot_live(a, y) == slot_live(b, y));
        assert(parent_of(a, y) == parent_of(b, y));
    }
    assert forall|x: NodeId| #[trigger] kids(b, x).no_duplicates() by {
        assert(kids(a, x) == kids(b, x));
    }
    assert(ranked_closed(b, Set::full(), rank)) by {
        assert forall|x: NodeId, k: int| Set::<NodeId>::full().contains(x) && 0 <= k < kids(b, x).len() implies {
            &&& Set::<NodeId>::full().contains(#[trigger] kids(b, x)[k])
            &&& rank(kids(b, x)[k]) < rank(x)
        } by {
            assert(kids(a, x) == kids(b, x));
            assert(kids(a, x)[k] == kids(b, x)[k]);
        }
    }
}

/// Dropping an id that does not occur leaves a sequence unchanged.
pub proof fn lemma_drop_absent(cs: Seq<NodeId>, c: NodeId)
    requires
        !cs.contains(c),
    ensures
        drop_id(cs, c) == cs,
    decreases cs.len(),
{
    reveal(Seq::filter);
    if cs.len() > 0 {
        assert(!cs.drop_last().contains(c)) by {
            if cs.drop_last().contains(c) {
                let k = choose|k: int| 0 <= k < cs.drop_last().len() && cs.drop_last()[k] == c;
                assert(cs[k] == c);
            }
        }
        lemma_drop_absent(cs.drop_last(), c);
        assert(cs.last() != c) by {
            assert(cs[cs.len() - 1] == cs.last());
        }
        assert(drop_id(cs, c) =~= cs);
    }
}

/// Replacing a live node by one with the same parent and children keeps a
/// forest a forest.
pub proof fn lemma_forest_relabel(s: Seq<Option<NodeView>>, id: NodeId, n: NodeView)
    requires
        is_forest(s),
        slot_live(s, id),
        n.parent == s[id.0 as int].unwrap().parent,
        n.children == s[id.0 as int].unwrap().children,
    ensures
        is_forest(s.update(id.0 as int, Some(n))),
{
    let b = s.update(id.0 as int, Some(n));
    assert forall|x: NodeId| #[trigger] slot_live(s, x) == slot_live(b, x) by {}
    assert forall|x: NodeId| #[trigger] kids(s, x) == kids(b, x) by {}
    assert forall|x: NodeId| slot_live(s, x) implies #[trigger] parent_of(s, x) == parent_of(b, x) by {}
    lemma_forest_same_shape(s, b);
}

/// In a forest the walk up the parent links from `cur` never comes back to a
/// node it passed, and when it finds `anc`, `anc` reaches the walk's start.
pub proof fn lemma_walk_sound(
    s: Seq<Option<NodeView>>,
    rank: spec_fn(NodeId) -> nat,
    anc: NodeId,
    start: NodeId,
    cur: NodeId,
    visited: Set<u32>,
    fuel: nat,
)
    requires
        links_agree(s),
        ranked_closed(s, Set::full(), rank),
        s.len() <= u32::MAX,
        visited.finite(),
        forall|v: u32| visited.contains(v) ==> (v as int) < s.len() && rank(NodeId(v)) < rank(cur),
        fuel >= s.len() + 1 - visited.len(),
        reaches(s, cur, start),
    ensures
        ancestor_walk(s, anc, cur, visited, fuel) != None::<bool>,
        ancestor_walk(s, anc, cur, visited, fuel) == Some(true) ==> reaches(s, anc, start),
    decreases fuel,
{
    let range = Set::<u32>::range(0, s.len() as u32);
    vstd::set_lib::range_set_properties::<u32>(0, s.len() as u32);
    assert(visited.subset_of(range));
    vstd::set_lib::lemma_len_subset(visited, range);
    if slot_live(s, cur) {
        if visited.contains(cur.0) {
            assert(NodeId(cur.0) == cur);
        }
        match parent_of(s, cur) {
            None => {},
            Some(q) => {
                assert(slot_live(s, q) && kids(s, q).contains(cur));
                let m = choose|m: int| 0 <= m < kids(s, q).len() && kids(s, q)[m] == cur;
                assert(Set::<NodeId>::full().contains(q));
                assert(rank(kids(s, q)[m]) < rank(q));
                lemma_reaches_prepend(s, q, m, start);
                if q != anc {
                    let v2 = visited.insert(cur.0);
                    assert forall|v: u32| v2.contains(v) implies (v as int) < s.len() && rank(NodeId(v)) < rank(q) by {
                        if v == cur.0 {
                            assert(NodeId(v) == cur);
                        }
                    }
                    lemma_walk_sound(s, rank, anc, start, q, v2, (fuel - 1) as nat);
                }
            },
        }
    }
}

/// In a forest, with `c` and `p` live and distinct, the walk up from `p` finds
/// `c` exactly when `c` reaches `p`, and otherwise ends without finding it.
pub proof fn lemma_walk_decides(s: Seq<Option<NodeView>>, c: NodeId, p: NodeId)
    requires
        is_forest(s),
        slot_live(s, c),
        slot_live(s, p),
        c != p,
        s.len() <= u32::MAX,
    ensures
        ancestor_walk(s, c, p, Set::empty(), (s.len() + 1) as nat) == (if reaches(s, c, p) {
            Some(true)
        } else {
            Some(false)
        }),
{
    let rank = choose|rank: spec_fn(NodeId) -> nat| ranked_closed(s, Set::full(), rank);
    lemma_reaches_self(s, p);
    let e = Set::<u32>::empty();
    assert(e.len() == 0 && e.finite());
    lemma_walk_sound(s, rank, c, p, p, e, (s.len() + 1) as nat);
    let r = ancestor_walk(s, c, p, e, (s.len() + 1) as nat);
    if reaches(s, c, p) {
        lemma_walk_finds(s, c, p);
    } else {
        assert(r is Some);
        assert(r != Some(true));
    }
}

/// Undo law: in a forest, making a parentless node `c` a child of another
/// node `p` (as `add_child` does) and then removing it from `p` (as
/// `remove_child` does) gives back the slots as they were, but for `c`'s
/// transform being marked for an update.
pub proof fn lemma_add_then_remove_child(s: Seq<Option<NodeView>>, p: NodeId, c: NodeId)
    requires
        is_forest(s),
        slot_live(s, p),
        slot_live(s, c),
        p != c,
        parent_of(s, c) is None,
    ensures
        with_parent(without_child(with_parent(with_child(detached(s, c), p, c), c, Some(p)), p, c), c, None)
            == s.update(c.0 as int, Some(NodeView { transform_dirty: true, ..s[c.0 as int].unwrap() })),
{
    assert(!kids(s, p).contains(c)) by {
        if kids(s, p).contains(c) {
            let k = choose|k: int| 0 <= k < kids(s, p).len() && kids(s, p)[k] == c;
            assert(parent_of(s, kids(s, p)[k]) == Some(p));
        }
    }
    let cs = kids(s, p);
    lemma_drop_absent(cs, c);
    assert(drop_id(cs.push(c), c) == cs) by {
        reveal(Seq::filter);
        assert(cs.push(c).drop_last() =~= cs);
    }
    let a = with_parent(without_child(with_parent(with_child(detached(s, c), p, c), c, Some(p)), p, c), c, None);
    let b = s.update(c.0 as int, Some(NodeView { transform_dirty: true, ..s[c.0 as int].unwrap() }));
    assert(detached(s, c) == s);
    assert(a =~= b);
}

impl SceneGraph {
    /// Whether the graph is a forest (see `is_forest`).
    pub open spec fn forest(&self) -> bool {
        is_forest(self.slots())
    }

    /// A forest has no cycle below any node, so every walk over it ends.
    pub proof fn lemma_forest_walks_end(&self, id: NodeId)
        requires
            self.forest(),
        ensures
            acyclic_below(self.slots(), id),
    {
        lemma_acyclic_below(self.slots(), id);
    }
}

} // verus!
