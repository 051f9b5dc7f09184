//! Saving a scene and loading it back.
//!
//! A scene whose nodes all hang below the root and carry distinct names is
//! saved by `to_scene_file` and rebuilt by `from_scene_file` with the same
//! nodes, each under the parent of the same name and with its children in the
//! same order.

use vstd::prelude::*;
use super::{NodeId, NodeView, SceneGraph, distinct_names, unique_names};
use super::hierarchy::{detached, slot_live, with_child, with_parent};
use super::reach::{kids, ranked_closed, reaches};
use super::traverse::lemma_reach_rank;
use super::load::{attach, attach_all};
use super::graph::{drop_id, lemma_drop_id_from, live_ids, live_ids_upto};
use super::file::{NodeDataView, SceneFile, child_names, saved_ids, saved_node};
use super::load::{child_links, file_names, file_node, file_views, first_pass, loaded_slot, loads_as, is_linked, last_named, lemma_last_named, links_of, load_plan, slot_of, top_links};
use super::forest::{acyclic, is_forest, links_agree, parent_of, lemma_forest_reach_parent};

verus! {

/// The parent that the last request of `links` naming `x` as the child gives
/// it, if any.
pub open spec fn link_parent(links: Seq<(NodeId, NodeId)>, x: NodeId) -> Option<NodeId>
    decreases links.len(),
{
    if links.len() == 0 {
        None
    } else if links.last().1 == x {
        Some(links.last().0)
    } else {
        link_parent(links.drop_last(), x)
    }
}

/// The children that the requests of `links` naming `x` as the parent give it,
/// in request order.
pub open spec fn link_children(links: Seq<(NodeId, NodeId)>, x: NodeId) -> Seq<NodeId>
    decreases links.len(),
{
    if links.len() == 0 {
        Seq::empty()
    } else {
        let before = link_children(links.drop_last(), x);
        if links.last().0 == x {
            before.push(links.last().1)
        } else {
            before
        }
    }
}

/// `base` with every parent and child list given by `links`.
pub open spec fn linked_slots(base: Seq<Option<NodeView>>, links: Seq<(NodeId, NodeId)>) -> Seq<Option<NodeView>> {
    Seq::new(
        base.len(),
        |i: int|
            Some(
                NodeView {
                    parent: link_parent(links, NodeId(i as u32)),
                    children: link_children(links, NodeId(i as u32)),
                    ..base[i].unwrap()
                },
            ),
    )
}

/// No two requests of `links` name the same child.
pub open spec fn distinct_children(links: Seq<(NodeId, NodeId)>) -> bool {
    forall|a: int, b: int| 0 <= a < b < links.len() ==> (#[trigger] links[a]).1 != (#[trigger] links[b]).1
}

/// Every slot of `base` holds a detached node without children, marked for a
/// transform update.
pub open spec fn all_detached(base: Seq<Option<NodeView>>) -> bool {
    forall|i: int| 0 <= i < base.len() ==> {
        &&& (#[trigger] base[i]) is Some
        &&& base[i].unwrap().parent is None
        &&& base[i].unwrap().children.len() == 0
        &&& base[i].unwrap().transform_dirty
    }
}

/// Every request of `links` stays below `len` and goes from a parent to a
/// child of strictly smaller rank.
pub open spec fn ranked_links(links: Seq<(NodeId, NodeId)>, len: int, rank: spec_fn(NodeId) -> nat) -> bool {
    forall|m: int| 0 <= m < links.len() ==> {
        &&& ((#[trigger] links[m]).0.0 as int) < len
        &&& (links[m].1.0 as int) < len
        &&& rank(links[m].1) < rank(links[m].0)
    }
}

/// A parent given by `links` comes from one of its requests.
pub proof fn lemma_link_parent_from(links: Seq<(NodeId, NodeId)>, x: NodeId)
    ensures
        link_parent(links, x) matches Some(p) ==> exists|m: int| 0 <= m < links.len() && #[trigger] links[m] == (p, x),
        link_parent(links, x) is None ==> forall|m: int| 0 <= m < links.len() ==> (#[trigger] links[m]).1 != x,
    decreases links.len(),
{
    if links.len() > 0 {
        lemma_link_parent_from(links.drop_last(), x);
        if links.last().1 == x {
            assert(links[links.len() - 1] == (links.last().0, x));
        } else {
            if let Some(p) = link_parent(links, x) {
                let m = choose|m: int| 0 <= m < links.drop_last().len() && #[trigger] links.drop_last()[m] == (p, x);
                assert(links[m] == (p, x));
            } else {
                assert forall|m: int| 0 <= m < links.len() implies (#[trigger] links[m]).1 != x by {
                    if m < links.len() - 1 {
                        assert(links[m] == links.drop_last()[m]);
                    }
                }
            }
        }
    }
}

/// With no child named twice, a request names its child's parent.
pub proof fn lemma_link_parent_of(links: Seq<(NodeId, NodeId)>, m: int)
    requires
        distinct_children(links),
        0 <= m < links.len(),
    ensures
        link_parent(links, links[m].1) == Some(links[m].0),
    decreases links.len(),
{
    if m < links.len() - 1 {
        assert(links[m] == links.drop_last()[m]);
        assert(links[m].1 != links[links.len() - 1].1);
        lemma_link_parent_of(links.drop_last(), m);
    }
}

/// The children given by `links` come from its requests.
pub proof fn lemma_link_children_from(links: Seq<(NodeId, NodeId)>, x: NodeId)
    ensures
        forall|j: int| 0 <= j < link_children(links, x).len() ==> exists|m: int|
            0 <= m < links.len() && #[trigger] links[m] == (x, #[trigger] link_children(links, x)[j]),
    decreases links.len(),
{
    if links.len() > 0 {
        let before = link_children(links.drop_last(), x);
        lemma_link_children_from(links.drop_last(), x);
        assert forall|j: int| 0 <= j < link_children(links, x).len() implies exists|m: int|
            0 <= m < links.len() && #[trigger] links[m] == (x, #[trigger] link_children(links, x)[j]) by {
            if j < before.len() {
                assert(link_children(links, x)[j] == before[j]);
                let m = choose|m: int| 0 <= m < links.drop_last().len() && #[trigger] links.drop_last()[m] == (x, before[j]);
                assert(links[m] == (x, before[j]));
            } else {
                assert(links[links.len() - 1] == (x, link_children(links, x)[j]));
            }
        }
    }
}

/// Carrying out requests that name each child once, from parent to child of
/// smaller rank, on detached nodes succeeds and gives every node the parent
/// and the children that the requests name.
pub proof fn lemma_attach_all_linked(base: Seq<Option<NodeView>>, links: Seq<(NodeId, NodeId)>, rank: spec_fn(NodeId) -> nat)
    requires
        all_detached(base),
        base.len() <= u32::MAX,
        ranked_links(links, base.len() as int, rank),
        distinct_children(links),
    ensures
        attach_all(base, links) == Some(linked_slots(base, links)),
    decreases links.len(),
{
    if links.len() == 0 {
        assert forall|i: int| 0 <= i < base.len() implies linked_slots(base, links)[i] == base[i] by {
            assert(base[i].unwrap().children =~= Seq::<NodeId>::empty());
        }
        assert(linked_slots(base, links) =~= base);
    } else {
        let pre = links.drop_last();
        let (p, c) = links.last();
        assert(links[links.len() - 1] == (p, c));
        assert forall|m: int| 0 <= m < pre.len() implies {
            &&& ((#[trigger] pre[m]).0.0 as int) < base.len()
            &&& (pre[m].1.0 as int) < base.len()
            &&& rank(pre[m].1) < rank(pre[m].0)
        } by {
            assert(pre[m] == links[m]);
        }
        assert forall|a: int, b: int| 0 <= a < b < pre.len() implies (#[trigger] pre[a]).1 != (#[trigger] pre[b]).1 by {
            assert(pre[a] == links[a] && pre[b] == links[b]);
        }
        lemma_attach_all_linked(base, pre, rank);
        let t = linked_slots(base, pre);
        // Every child link of `t` is a request, so ranks fall along them.
        assert(ranked_closed(t, Set::full(), rank)) by {
            assert forall|x: NodeId, k: int| Set::<NodeId>::full().contains(x) && 0 <= k < kids(t, x).len() implies {
                &&& Set::<NodeId>::full().contains(#[trigger] kids(t, x)[k])
                &&& rank(kids(t, x)[k]) < rank(x)
            } by {
                assert(slot_live(t, x));
                assert(NodeId(x.0 as int as u32) == x);
                assert(kids(t, x) == link_children(pre, x));
                lemma_link_children_from(pre, x);
                let m = choose|m: int| 0 <= m < pre.len() && #[trigger] pre[m] == (x, #[trigger] link_children(pre, x)[k]);
                assert(pre[m] == links[m]);
            }
        }
        assert(rank(c) < rank(p));
        if reaches(t, c, p) {
            lemma_reach_rank(t, Set::full(), rank, c, p);
        }
        // The child has no parent yet, so nothing is detached.
        lemma_link_parent_from(pre, c);
        assert forall|m: int| 0 <= m < pre.len() implies (#[trigger] pre[m]).1 != c by {
            assert(pre[m] == links[m]);
            assert(links[m].1 != links[links.len() - 1].1);
        }
        assert(NodeId(c.0 as int as u32) == c);
        assert(NodeId(p.0 as int as u32) == p);
        assert(t[c.0 as int].unwrap().parent is None);
        assert(detached(t, c) == t);
        let got = with_parent(with_child(t, p, c), c, Some(p));
        assert(attach(t, p, c) == Some(got));
        let want = linked_slots(base, links);
        assert forall|i: int| 0 <= i < base.len() implies got[i] == want[i] by {
            let x = NodeId(i as u32);
            assert(x.0 as int == i);
            if i == c.0 as int {
                assert(x == c);
            } else if i == p.0 as int {
                assert(x == p);
            }
        }
        assert(got =~= want);
    }
}

/// The live slots below `n`, in increasing order.
proof fn lemma_live_ids_upto(s: Seq<Option<NodeView>>, n: nat)
    requires
        n <= s.len(),
        s.len() <= u32::MAX,
    ensures
        forall|j: int| 0 <= j < live_ids_upto(s, n).len() ==> {
            &&& ((#[trigger] live_ids_upto(s, n)[j]).0 as int) < n
            &&& s[live_ids_upto(s, n)[j].0 as int] is Some
        },
        forall|i: int, j: int| 0 <= i < j < live_ids_upto(s, n).len() ==> (#[trigger] live_ids_upto(s, n)[i]).0 < (#[trigger] live_ids_upto(s, n)[j]).0,
        forall|i: int| 0 <= i < n && (#[trigger] s[i]) is Some ==> live_ids_upto(s, n).contains(NodeId(i as u32)),
    decreases n,
{
    if n > 0 {
        let before = live_ids_upto(s, (n - 1) as nat);
        lemma_live_ids_upto(s, (n - 1) as nat);
        let l = live_ids_upto(s, n);
        assert forall|i: int| 0 <= i < n && (#[trigger] s[i]) is Some implies l.contains(NodeId(i as u32)) by {
            if i < n - 1 {
                let j = choose|j: int| 0 <= j < before.len() && before[j] == NodeId(i as u32);
                assert(l[j] == before[j]);
            } else {
                assert(l[l.len() - 1] == NodeId(i as u32));
            }
        }
    }
}

/// `s` without `x`, for `s` in increasing order: still increasing, and
/// holding every element of `s` but `x`.
proof fn lemma_drop_id_increasing(s: Seq<NodeId>, x: NodeId)
    requires
        forall|i: int, j: int| 0 <= i < j < s.len() ==> (#[trigger] s[i]).0 < (#[trigger] s[j]).0,
    ensures
        forall|i: int, j: int| 0 <= i < j < drop_id(s, x).len() ==> (#[trigger] drop_id(s, x)[i]).0 < (#[trigger] drop_id(s, x)[j]).0,
        forall|y: NodeId| s.contains(y) && y != x ==> drop_id(s, x).contains(y),
    decreases s.len(),
{
    reveal(Seq::filter);
    lemma_drop_id_from(s, x);
    if s.len() > 0 {
        let pre = s.drop_last();
        assert forall|i: int, j: int| 0 <= i < j < pre.len() implies (#[trigger] pre[i]).0 < (#[trigger] pre[j]).0 by {
            assert(pre[i] == s[i] && pre[j] == s[j]);
        }
        lemma_drop_id_increasing(pre, x);
        lemma_drop_id_from(pre, x);
        let d = drop_id(pre, x);
        assert(drop_id(s, x) == (if s.last() != x { d.push(s.last()) } else { d }));
        assert forall|i: int| 0 <= i < d.len() implies (#[trigger] d[i]).0 < s.last().0 by {
            let k = choose|k: int| 0 <= k < pre.len() && pre[k] == d[i];
            assert(s[k] == pre[k]);
            assert(s[s.len() - 1] == s.last());
        }
        assert forall|y: NodeId| s.contains(y) && y != x implies drop_id(s, x).contains(y) by {
            let k = choose|k: int| 0 <= k < s.len() && s[k] == y;
            if k < s.len() - 1 {
                assert(pre[k] == y);
                assert(pre.contains(y));
                assert(d.contains(y));
                let j = choose|j: int| 0 <= j < d.len() && d[j] == y;
                if s.last() != x {
                    assert(drop_id(s, x) == d.push(s.last()));
                    assert(drop_id(s, x)[j] == d[j]);
                } else {
                    assert(drop_id(s, x) == d);
                }
                assert(drop_id(s, x)[j] == y);
            } else {
                assert(drop_id(s, x)[drop_id(s, x).len() - 1] == y);
            }
        }
    }
}

/// The slots a scene saves are its live slots but the root's slot 0, in
/// increasing order.
pub proof fn lemma_saved_ids(s: Seq<Option<NodeView>>)
    requires
        s.len() <= u32::MAX,
    ensures
        forall|j: int| 0 <= j < saved_ids(s, NodeId(0)).len() ==> {
            &&& slot_live(s, #[trigger] saved_ids(s, NodeId(0))[j])
            &&& saved_ids(s, NodeId(0))[j] != NodeId(0)
        },
        forall|i: int, j: int| 0 <= i < j < saved_ids(s, NodeId(0)).len() ==> (#[trigger] saved_ids(s, NodeId(0))[i]).0 < (#[trigger] saved_ids(s, NodeId(0))[j]).0,
        forall|x: NodeId| slot_live(s, x) && x != NodeId(0) ==> saved_ids(s, NodeId(0)).contains(x),
{
    let l = live_ids(s);
    lemma_live_ids_upto(s, s.len());
    lemma_drop_id_increasing(l, NodeId(0));
    lemma_drop_id_from(l, NodeId(0));
    let ids = saved_ids(s, NodeId(0));
    assert forall|j: int| 0 <= j < ids.len() implies slot_live(s, #[trigger] ids[j]) && ids[j] != NodeId(0) by {
        let k = choose|k: int| 0 <= k < l.len() && l[k] == ids[j];
    }
    assert forall|x: NodeId| slot_live(s, x) && x != NodeId(0) implies ids.contains(x) by {
        let i = x.0 as int;
        assert(NodeId(i as u32) == x);
        assert(l.contains(x));
    }
}

/// Below an increasing sequence of slot numbers from 1, each position `j`
/// holds at least `j + 1`.
proof fn lemma_increasing_from_one(ids: Seq<NodeId>, j: int)
    requires
        forall|i: int, k: int| 0 <= i < k < ids.len() ==> (#[trigger] ids[i]).0 < (#[trigger] ids[k]).0,
        forall|i: int| 0 <= i < ids.len() ==> (#[trigger] ids[i]).0 >= 1,
        0 <= j < ids.len(),
    ensures
        ids[j].0 >= j + 1,
    decreases j,
{
    if j > 0 {
        lemma_increasing_from_one(ids, j - 1);
        assert(ids[j - 1].0 < ids[j].0);
    }
}

/// Whether a scene can be saved and loaded back as it is: a forest whose live
/// nodes all hang below the root in slot 0, whose nodes other than the root
/// carry distinct names, and whose nodes carry distinct tags.
#[verifier::opaque]
pub open spec fn saveable(s: Seq<Option<NodeView>>) -> bool {
    &&& s.len() <= u32::MAX
    &&& is_forest(s)
    &&& slot_live(s, NodeId(0))
    &&& forall|x: NodeId| #[trigger] slot_live(s, x) ==> reaches(s, NodeId(0), x)
    &&& forall|x: NodeId, y: NodeId|
        slot_live(s, x) && slot_live(s, y) && x != y && x != NodeId(0) && y != NodeId(0)
            ==> #[trigger] s[x.0 as int].unwrap().name != #[trigger] s[y.0 as int].unwrap().name
    &&& forall|x: NodeId| #[trigger] slot_live(s, x) ==> distinct_names(s[x.0 as int].unwrap().tags)
}

/// The position of `x` among `ids`.
pub open spec fn pos(ids: Seq<NodeId>, x: NodeId) -> int {
    choose|j: int| 0 <= j < ids.len() && ids[j] == x
}

/// Where slot `x` of a saved scene lands when the file is loaded: the root
/// stays in slot 0 and the `k`-th saved node goes to slot `k + 1`.
pub open spec fn saved_slot(ids: Seq<NodeId>, x: NodeId) -> NodeId {
    if x == NodeId(0) {
        NodeId(0)
    } else {
        slot_of(pos(ids, x))
    }
}

/// The saved nodes of `s`, in the order the file lists them.
pub open spec fn saved_views(s: Seq<Option<NodeView>>) -> Seq<NodeDataView> {
    Seq::new(saved_ids(s, NodeId(0)).len(), |k: int| saved_node(s, saved_ids(s, NodeId(0))[k]))
}

/// In a saveable scene the root has no parent and is nobody's child, every
/// other live node has a live parent that lists it, and a node's position
/// among the saved ids finds it.
proof fn lemma_saveable_shape(s: Seq<Option<NodeView>>)
    requires
        saveable(s),
    ensures
        s.len() <= u32::MAX,
        saved_ids(s, NodeId(0)).len() < s.len(),
        parent_of(s, NodeId(0)) is None,
        forall|x: NodeId| !(#[trigger] kids(s, x)).contains(NodeId(0)),
        forall|x: NodeId| #[trigger] slot_live(s, x) && x != NodeId(0) ==> {
            &&& parent_of(s, x) is Some
            &&& slot_live(s, parent_of(s, x).unwrap())
            &&& kids(s, parent_of(s, x).unwrap()).contains(x)
        },
        forall|x: NodeId| slot_live(s, x) && x != NodeId(0) ==> {
            &&& 0 <= #[trigger] pos(saved_ids(s, NodeId(0)), x) < saved_ids(s, NodeId(0)).len()
            &&& saved_ids(s, NodeId(0))[pos(saved_ids(s, NodeId(0)), x)] == x
        },
        forall|j: int| 0 <= j < saved_ids(s, NodeId(0)).len() ==> pos(saved_ids(s, NodeId(0)), #[trigger] saved_ids(s, NodeId(0))[j]) == j,
{
    reveal(saveable);
    lemma_saved_ids(s);
    let ids = saved_ids(s, NodeId(0));
    if ids.len() > 0 {
        assert forall|i: int| 0 <= i < ids.len() implies (#[trigger] ids[i]).0 >= 1 by {
            assert(ids[i] != NodeId(0));
        }
        lemma_increasing_from_one(ids, ids.len() - 1);
        assert(slot_live(s, ids[ids.len() - 1]));
    }
    let rank = choose|rank: spec_fn(NodeId) -> nat| ranked_closed(s, Set::full(), rank);
    if parent_of(s, NodeId(0)) is Some {
        let q = parent_of(s, NodeId(0)).unwrap();
        assert(slot_live(s, q) && kids(s, q).contains(NodeId(0)));
        assert(reaches(s, NodeId(0), q));
        lemma_reach_rank(s, Set::full(), rank, NodeId(0), q);
        let k = choose|k: int| 0 <= k < kids(s, q).len() && kids(s, q)[k] == NodeId(0);
        assert(Set::<NodeId>::full().contains(q));
    }
    assert forall|x: NodeId| !(#[trigger] kids(s, x)).contains(NodeId(0)) by {
        if kids(s, x).contains(NodeId(0)) {
            let k = choose|k: int| 0 <= k < kids(s, x).len() && kids(s, x)[k] == NodeId(0);
            assert(parent_of(s, kids(s, x)[k]) == Some(x));
        }
    }
    assert forall|x: NodeId| #[trigger] slot_live(s, x) && x != NodeId(0) implies {
        &&& parent_of(s, x) is Some
        &&& slot_live(s, parent_of(s, x).unwrap())
        &&& kids(s, parent_of(s, x).unwrap()).contains(x)
    } by {
        lemma_forest_reach_parent(s, NodeId(0), x);
        let q = parent_of(s, x).unwrap();
        let k = choose|k: int| 0 <= k < kids(s, q).len() && kids(s, q)[k] == x;
        assert(slot_live(s, kids(s, q)[k]));
        assert(slot_live(s, q));
    }
    assert forall|x: NodeId| slot_live(s, x) && x != NodeId(0) implies {
        &&& 0 <= #[trigger] pos(ids, x) < ids.len()
        &&& ids[pos(ids, x)] == x
    } by {
        assert(ids.contains(x));
    }
    assert forall|j: int| 0 <= j < ids.len() implies pos(ids, #[trigger] ids[j]) == j by {
        let x = ids[j];
        assert(ids.contains(x));
        let p = pos(ids, x);
        if p < j {
            assert(ids[p].0 < ids[j].0);
        } else if p > j {
            assert(ids[j].0 < ids[p].0);
        }
    }
}

/// In a saveable scene each saved node's name is last borne by that node.
proof fn lemma_saved_last_named(s: Seq<Option<NodeView>>, k: int)
    requires
        saveable(s),
        0 <= k < saved_ids(s, NodeId(0)).len(),
    ensures
        last_named(saved_views(s), saved_views(s)[k].name) == Some(k),
{
    reveal(saveable);
    lemma_saved_ids(s);
    let ids = saved_ids(s, NodeId(0));
    let fs = saved_views(s);
    lemma_last_named(fs, fs[k].name);
    if let Some(j) = last_named(fs, fs[k].name) {
        if j != k {
            assert(ids[j] != ids[k]) by {
                if j < k {
                    assert(ids[j].0 < ids[k].0);
                } else {
                    assert(ids[k].0 < ids[j].0);
                }
            }
            assert(s[ids[j].0 as int].unwrap().name != s[ids[k].0 as int].unwrap().name);
        }
    }
}

/// The names of live children, in order.
proof fn lemma_child_names_live(s: Seq<Option<NodeView>>, cs: Seq<NodeId>)
    requires
        forall|j: int| 0 <= j < cs.len() ==> slot_live(s, #[trigger] cs[j]),
    ensures
        child_names(s, cs).len() == cs.len(),
        forall|j: int| 0 <= j < cs.len() ==> #[trigger] child_names(s, cs)[j] == s[cs[j].0 as int].unwrap().name,
    decreases cs.len(),
{
    if cs.len() > 0 {
        let pre = cs.drop_last();
        assert forall|j: int| 0 <= j < pre.len() implies slot_live(s, #[trigger] pre[j]) by {
            assert(pre[j] == cs[j]);
        }
        lemma_child_names_live(s, pre);
        assert(slot_live(s, cs[cs.len() - 1]));
        assert forall|j: int| 0 <= j < cs.len() implies #[trigger] child_names(s, cs)[j] == s[cs[j].0 as int].unwrap().name by {
            if j < cs.len() - 1 {
                assert(pre[j] == cs[j]);
            }
        }
    }
}

/// The requests made by the first `m` child names of the `k`-th saved node:
/// from its slot to the slot of each child.
proof fn lemma_saved_links_of(s: Seq<Option<NodeView>>, k: int, m: nat)
    requires
        saveable(s),
        0 <= k < saved_ids(s, NodeId(0)).len(),
        m <= kids(s, saved_ids(s, NodeId(0))[k]).len(),
    ensures
        links_of(saved_views(s), k, m).len() == m,
        forall|j: int| 0 <= j < m ==> #[trigger] links_of(saved_views(s), k, m)[j] == (
            slot_of(k),
            slot_of(pos(saved_ids(s, NodeId(0)), kids(s, saved_ids(s, NodeId(0))[k])[j])),
        ),
    decreases m,
{
    reveal(saveable);
    if m > 0 {
        lemma_saved_links_of(s, k, (m - 1) as nat);
        lemma_saved_ids(s);
        lemma_saveable_shape(s);
        let ids = saved_ids(s, NodeId(0));
        let fs = saved_views(s);
        let x = ids[k];
        let cs = kids(s, x);
        assert(slot_live(s, x));
        assert forall|j: int| 0 <= j < cs.len() implies slot_live(s, #[trigger] cs[j]) by {
            assert(links_agree(s));
        }
        lemma_child_names_live(s, cs);
        let c = cs[m - 1];
        assert(slot_live(s, c));
        assert(c != NodeId(0)) by {
            assert(cs.contains(c));
        }
        let q = pos(ids, c);
        assert(fs[k] == saved_node(s, x));
        assert(fs[k].children[m - 1] == s[c.0 as int].unwrap().name);
        assert(fs[q] == saved_node(s, ids[q]));
        lemma_saved_last_named(s, q);
        lemma_saved_last_named(s, k);
    }
}

/// The slots that the children of the `k`-th saved node land in, in order.
pub open spec fn saved_kids(s: Seq<Option<NodeView>>, k: int) -> Seq<NodeId> {
    let ids = saved_ids(s, NodeId(0));
    kids(s, ids[k]).map_values(|c: NodeId| slot_of(pos(ids, c)))
}

/// Requests in sequence give a node the children of the first, then those of
/// the second.
proof fn lemma_link_children_concat(a: Seq<(NodeId, NodeId)>, b: Seq<(NodeId, NodeId)>, x: NodeId)
    ensures
        link_children(a + b, x) == link_children(a, x) + link_children(b, x),
    decreases b.len(),
{
    if b.len() == 0 {
        assert(a + b =~= a);
        assert(link_children(a, x) + link_children(b, x) =~= link_children(a, x));
    } else {
        assert((a + b).drop_last() =~= a + b.drop_last());
        assert((a + b).last() == b.last());
        lemma_link_children_concat(a, b.drop_last(), x);
        let l = link_children(a, x);
        let r = link_children(b.drop_last(), x);
        if b.last().0 == x {
            assert(l + r.push(b.last().1) =~= (l + r).push(b.last().1));
        }
    }
}

/// Requests that all come from `p` give `p` their children in order, and
/// give any other node none.
proof fn lemma_link_children_one_parent(links: Seq<(NodeId, NodeId)>, p: NodeId, x: NodeId)
    requires
        forall|m: int| 0 <= m < links.len() ==> (#[trigger] links[m]).0 == p,
    ensures
        x != p ==> link_children(links, x).len() == 0,
        x == p ==> link_children(links, x).len() == links.len(),
        x == p ==> forall|j: int| 0 <= j < links.len() ==> #[trigger] link_children(links, x)[j] == links[j].1,
    decreases links.len(),
{
    if links.len() > 0 {
        let pre = links.drop_last();
        assert forall|m: int| 0 <= m < pre.len() implies (#[trigger] pre[m]).0 == p by {
            assert(pre[m] == links[m]);
        }
        lemma_link_children_one_parent(pre, p, x);
        assert(links[links.len() - 1] == links.last());
        if x == p {
            assert forall|j: int| 0 <= j < links.len() implies #[trigger] link_children(links, x)[j] == links[j].1 by {
                if j < pre.len() {
                    assert(pre[j] == links[j]);
                }
            }
        }
    }
}

/// The child requests of the `k`-th saved node: one per child, in order, from
/// the node's slot to the child's slot.
proof fn lemma_saved_block(s: Seq<Option<NodeView>>, k: int)
    requires
        saveable(s),
        0 <= k < saved_ids(s, NodeId(0)).len(),
    ensures
        ({
            let ids = saved_ids(s, NodeId(0));
            let cs = kids(s, ids[k]);
            let b = links_of(saved_views(s), k, saved_views(s)[k].children.len());
            &&& saved_views(s)[k].children.len() == cs.len()
            &&& b.len() == cs.len()
            &&& forall|j: int| 0 <= j < cs.len() ==> #[trigger] b[j] == (slot_of(k), slot_of(pos(ids, cs[j])))
            &&& forall|j: int| 0 <= j < cs.len() ==> {
                &&& slot_live(s, #[trigger] cs[j])
                &&& cs[j] != NodeId(0)
                &&& parent_of(s, cs[j]) == Some(ids[k])
                &&& 0 <= pos(ids, cs[j]) < ids.len()
                &&& ids[pos(ids, cs[j])] == cs[j]
            }
        }),
{
    reveal(saveable);
    lemma_saved_ids(s);
    lemma_saveable_shape(s);
    let ids = saved_ids(s, NodeId(0));
    let fs = saved_views(s);
    let x0 = ids[k];
    let cs = kids(s, x0);
    assert(slot_live(s, x0));
    assert forall|j: int| 0 <= j < cs.len() implies {
        &&& slot_live(s, #[trigger] cs[j])
        &&& cs[j] != NodeId(0)
        &&& parent_of(s, cs[j]) == Some(ids[k])
        &&& 0 <= pos(ids, cs[j]) < ids.len()
        &&& ids[pos(ids, cs[j])] == cs[j]
    } by {
        assert(links_agree(s));
        assert(cs.contains(cs[j]));
    }
    lemma_child_names_live(s, cs);
    assert(fs[k] == saved_node(s, x0));
    lemma_saved_links_of(s, k, cs.len());
}

/// Each child request of the first `n` saved nodes goes from one of them to
/// the slot of one of its children.
proof fn lemma_saved_child_links_shape(s: Seq<Option<NodeView>>, n: nat)
    requires
        saveable(s),
        n <= saved_ids(s, NodeId(0)).len(),
    ensures
        forall|m: int| 0 <= m < child_links(saved_views(s), n).len() ==> {
            let l = #[trigger] child_links(saved_views(s), n)[m];
            &&& 1 <= l.0.0 <= n
            &&& 1 <= l.1.0 <= saved_ids(s, NodeId(0)).len()
            &&& kids(s, saved_ids(s, NodeId(0))[l.0.0 - 1]).contains(saved_ids(s, NodeId(0))[l.1.0 - 1])
        },
    decreases n,
{
    lemma_saveable_shape(s);
    lemma_saved_ids(s);
    if n > 0 {
        let ids = saved_ids(s, NodeId(0));
        let fs = saved_views(s);
        let k0 = n - 1;
        lemma_saved_child_links_shape(s, (n - 1) as nat);
        lemma_saved_block(s, k0);
        let a = child_links(fs, (n - 1) as nat);
        let b = links_of(fs, k0, fs[k0].children.len());
        let cl = child_links(fs, n);
        assert(cl == a + b);
        let cs = kids(s, ids[k0]);
        assert forall|m: int| 0 <= m < cl.len() implies {
            let l = #[trigger] cl[m];
            &&& 1 <= l.0.0 <= n
            &&& 1 <= l.1.0 <= ids.len()
            &&& kids(s, ids[l.0.0 - 1]).contains(ids[l.1.0 - 1])
        } by {
            if m < a.len() {
                assert(cl[m] == a[m]);
            } else {
                let j = m - a.len();
                assert(cl[m] == b[j]);
                assert(cs.contains(cs[j]));
            }
        }
    }
}

/// No child is requested twice among the child requests of saved nodes.
#[verifier::rlimit(40)]
proof fn lemma_saved_child_links_distinct(s: Seq<Option<NodeView>>, n: nat)
    requires
        saveable(s),
        n <= saved_ids(s, NodeId(0)).len(),
    ensures
        distinct_children(child_links(saved_views(s), n)),
    decreases n,
{
    lemma_saveable_shape(s);
    lemma_saved_ids(s);
    reveal(saveable);
    if n > 0 {
        lemma_saved_ids(s);
        let ids = saved_ids(s, NodeId(0));
        let fs = saved_views(s);
        let k0 = n - 1;
        lemma_saved_child_links_distinct(s, (n - 1) as nat);
        lemma_saved_child_links_shape(s, (n - 1) as nat);
        lemma_saved_block(s, k0);
        let a = child_links(fs, (n - 1) as nat);
        let b = links_of(fs, k0, fs[k0].children.len());
        let cl = child_links(fs, n);
        assert(cl == a + b);
        let x0 = ids[k0];
        let cs = kids(s, x0);
        assert forall|p: int, q: int| 0 <= p < q < cl.len() implies (#[trigger] cl[p]).1 != (#[trigger] cl[q]).1 by {
            if q < a.len() {
                assert(cl[p] == a[p] && cl[q] == a[q]);
            } else if p >= a.len() {
                let i = p - a.len();
                let j = q - a.len();
                assert(cl[p] == b[i] && cl[q] == b[j]);
                assert(kids(s, x0).no_duplicates());
            } else {
                let j = q - a.len();
                assert(cl[p] == a[p] && cl[q] == b[j]);
                let l = a[p];
                let c = cs[j];
                if l.1 == cl[q].1 {
                    assert(ids[l.1.0 - 1] == c);
                    let y = ids[l.0.0 - 1];
                    assert(kids(s, y).contains(c));
                    let i = choose|i: int| 0 <= i < kids(s, y).len() && kids(s, y)[i] == c;
                    assert(links_agree(s));
                    assert(parent_of(s, kids(s, y)[i]) == Some(y));
                    assert(ids[l.0.0 - 1].0 < ids[k0].0);
                }
            }
        }
    }
}

/// The child requests of the first `n` saved nodes give each of them its
/// children's slots in order, and the other saved nodes nothing.
proof fn lemma_saved_child_links_children(s: Seq<Option<NodeView>>, n: nat)
    requires
        saveable(s),
        n <= saved_ids(s, NodeId(0)).len(),
    ensures
        forall|k: int| 0 <= k < saved_ids(s, NodeId(0)).len() ==> #[trigger] link_children(child_links(saved_views(s), n), slot_of(k)) == (
            if k < n {
                saved_kids(s, k)
            } else {
                Seq::<NodeId>::empty()
            }),
    decreases n,
{
    lemma_saveable_shape(s);
    lemma_saved_ids(s);
    let ids = saved_ids(s, NodeId(0));
    let fs = saved_views(s);
    let cl = child_links(fs, n);
    if n == 0 {
        assert forall|k: int| 0 <= k < ids.len() implies #[trigger] link_children(cl, slot_of(k)) == Seq::<NodeId>::empty() by {
            assert(link_children(cl, slot_of(k)) =~= Seq::<NodeId>::empty());
        }
    } else {
        lemma_saved_ids(s);
        let k0 = n - 1;
        lemma_saved_child_links_children(s, (n - 1) as nat);
        lemma_saved_block(s, k0);
        let a = child_links(fs, (n - 1) as nat);
        let b = links_of(fs, k0, fs[k0].children.len());
        assert(cl == a + b);
        assert forall|k: int| 0 <= k < ids.len() implies #[trigger] link_children(cl, slot_of(k)) == (
            if k < n {
                saved_kids(s, k)
            } else {
                Seq::<NodeId>::empty()
            }) by {
            lemma_link_children_concat(a, b, slot_of(k));
            assert forall|m: int| 0 <= m < b.len() implies (#[trigger] b[m]).0 == slot_of(k0) by {}
            lemma_link_children_one_parent(b, slot_of(k0), slot_of(k));
            if k == k0 {
                assert(link_children(b, slot_of(k)) =~= saved_kids(s, k));
                assert(link_children(cl, slot_of(k)) =~= saved_kids(s, k));
            } else {
                assert(slot_of(k) != slot_of(k0));
                assert(link_children(cl, slot_of(k)) =~= link_children(a, slot_of(k)));
            }
        }
    }
}

/// Every saved node's request for each of its children is among the child
/// requests.
proof fn lemma_saved_child_links_contain(s: Seq<Option<NodeView>>, n: nat)
    requires
        saveable(s),
        n <= saved_ids(s, NodeId(0)).len(),
    ensures
        forall|k: int, j: int| 0 <= k < n && 0 <= j < kids(s, saved_ids(s, NodeId(0))[k]).len() ==> child_links(saved_views(s), n).contains(
            (slot_of(k), slot_of(pos(saved_ids(s, NodeId(0)), #[trigger] kids(s, saved_ids(s, NodeId(0))[k])[j]))),
        ),
    decreases n,
{
    if n > 0 {
        let ids = saved_ids(s, NodeId(0));
        let fs = saved_views(s);
        let k0 = n - 1;
        lemma_saved_child_links_contain(s, (n - 1) as nat);
        lemma_saved_block(s, k0);
        let a = child_links(fs, (n - 1) as nat);
        let b = links_of(fs, k0, fs[k0].children.len());
        let cl = child_links(fs, n);
        assert(cl == a + b);
        assert forall|k: int, j: int| 0 <= k < n && 0 <= j < kids(s, ids[k]).len() implies cl.contains(
            (slot_of(k), slot_of(pos(ids, #[trigger] kids(s, ids[k])[j]))),
        ) by {
            if k < k0 {
                let m = choose|m: int| 0 <= m < a.len() && a[m] == (slot_of(k), slot_of(pos(ids, kids(s, ids[k])[j])));
                assert(cl[m] == a[m]);
            } else {
                assert(cl[a.len() + j] == b[j]);
            }
        }
    }
}

/// The requests that attach saved nodes to the root: each goes from the root
/// to the slot of one of the first `n` saved nodes that no child request
/// names, in increasing slot order, and each such node has one.
proof fn lemma_saved_top_links(s: Seq<Option<NodeView>>, n: nat)
    requires
        saveable(s),
        n <= saved_ids(s, NodeId(0)).len(),
    ensures
        ({
            let fs = saved_views(s);
            let cl = child_links(fs, fs.len());
            let tl = top_links(fs, cl, n);
            &&& forall|m: int| 0 <= m < tl.len() ==> {
                &&& (#[trigger] tl[m]).0 == NodeId(0)
                &&& 1 <= tl[m].1.0 <= n
                &&& !is_linked(cl, tl[m].1)
            }
            &&& forall|a: int, b: int| 0 <= a < b < tl.len() ==> (#[trigger] tl[a]).1.0 < (#[trigger] tl[b]).1.0
            &&& forall|k: int| 0 <= k < n && !is_linked(cl, #[trigger] slot_of(k)) ==> tl.contains((NodeId(0), slot_of(k)))
        }),
    decreases n,
{
    lemma_saveable_shape(s);
    let fs = saved_views(s);
    let cl = child_links(fs, fs.len());
    let tl = top_links(fs, cl, n);
    if n > 0 {
        let k0 = n - 1;
        lemma_saved_top_links(s, (n - 1) as nat);
        lemma_saved_last_named(s, k0);
        let pre = top_links(fs, cl, (n - 1) as nat);
        assert(tl == (if !is_linked(cl, slot_of(k0)) { pre.push((NodeId(0), slot_of(k0))) } else { pre }));
        assert forall|m: int| 0 <= m < tl.len() implies {
            &&& (#[trigger] tl[m]).0 == NodeId(0)
            &&& 1 <= tl[m].1.0 <= n
            &&& !is_linked(cl, tl[m].1)
        } by {
            if m < pre.len() {
                assert(tl[m] == pre[m]);
            }
        }
        assert forall|a: int, b: int| 0 <= a < b < tl.len() implies (#[trigger] tl[a]).1.0 < (#[trigger] tl[b]).1.0 by {
            assert(tl[a] == pre[a]);
            if b < pre.len() {
                assert(tl[b] == pre[b]);
            }
        }
        assert forall|k: int| 0 <= k < n && !is_linked(cl, #[trigger] slot_of(k)) implies tl.contains((NodeId(0), slot_of(k))) by {
            if k < k0 {
                let m = choose|m: int| 0 <= m < pre.len() && pre[m] == (NodeId(0), slot_of(k));
                assert(tl[m] == pre[m]);
            } else {
                assert(tl[tl.len() - 1] == (NodeId(0), slot_of(k)));
            }
        }
    }
}

/// A saved node is named as a child by some child request exactly when its
/// parent is not the root.
proof fn lemma_saved_linked(s: Seq<Option<NodeView>>, k: int)
    requires
        saveable(s),
        0 <= k < saved_ids(s, NodeId(0)).len(),
    ensures
        is_linked(child_links(saved_views(s), saved_views(s).len()), slot_of(k)) <==> parent_of(s, saved_ids(s, NodeId(0))[k]) != Some(NodeId(0)),
{
    lemma_saveable_shape(s);
    lemma_saved_ids(s);
    let ids = saved_ids(s, NodeId(0));
    let fs = saved_views(s);
    let n = ids.len();
    let cl = child_links(fs, fs.len());
    lemma_saved_child_links_shape(s, n);
    lemma_saved_child_links_contain(s, n);
    let x = ids[k];
    assert(slot_live(s, x));
    let q = parent_of(s, x).unwrap();
    if is_linked(cl, slot_of(k)) {
        let m = choose|m: int| 0 <= m < cl.len() && (#[trigger] cl[m]).1 == slot_of(k);
        let l = cl[m];
        let y = ids[l.0.0 - 1];
        assert(ids[l.1.0 - 1] == x);
        assert(kids(s, y).contains(x));
        let i = choose|i: int| 0 <= i < kids(s, y).len() && kids(s, y)[i] == x;
        reveal(saveable);
        assert(links_agree(s));
        assert(parent_of(s, kids(s, y)[i]) == Some(y));
        assert(y != NodeId(0));
    }
    if q != NodeId(0) {
        assert(slot_live(s, q));
        let j = pos(ids, q);
        assert(ids[j] == q);
        assert(kids(s, q).contains(x));
        let i = choose|i: int| 0 <= i < kids(s, q).len() && kids(s, q)[i] == x;
        assert(pos(ids, x) == k);
        assert(cl.contains((slot_of(j), slot_of(pos(ids, kids(s, ids[j])[i])))));
        let m = choose|m: int| 0 <= m < cl.len() && cl[m] == (slot_of(j), slot_of(k));
        assert(cl[m].1 == slot_of(k));
    }
}

/// How a saveable scene's file is loaded: every request succeeds, and slot
/// `k + 1` holds the `k`-th saved node with the parent and children that the
/// scene gave it, moved to their new slots.
#[verifier::rlimit(30)]
pub proof fn lemma_saved_plan(s: Seq<Option<NodeView>>)
    requires
        saveable(s),
    ensures
        load_plan(saved_views(s)) is Some,
        load_plan(saved_views(s)).unwrap().len() == saved_ids(s, NodeId(0)).len() + 1,
        forall|k: int| 0 <= k < saved_ids(s, NodeId(0)).len() ==> #[trigger] load_plan(saved_views(s)).unwrap()[k + 1] == Some(
            NodeView {
                parent: Some(saved_slot(saved_ids(s, NodeId(0)), parent_of(s, saved_ids(s, NodeId(0))[k]).unwrap())),
                children: saved_kids(s, k),
                ..file_node(saved_views(s)[k])
            },
        ),
{
    lemma_saveable_shape(s);
    lemma_saved_ids(s);
    let ids = saved_ids(s, NodeId(0));
    let fs = saved_views(s);
    let n = ids.len();
    let cl = child_links(fs, fs.len());
    let tl = top_links(fs, cl, fs.len());
    let links = cl + tl;
    let base = first_pass(fs);
    lemma_saved_child_links_shape(s, n);
    lemma_saved_child_links_distinct(s, n);
    lemma_saved_child_links_children(s, n);
    lemma_saved_top_links(s, n);
    assert(all_detached(base)) by {
        assert forall|i: int| 0 <= i < base.len() implies {
            &&& (#[trigger] base[i]) is Some
            &&& base[i].unwrap().parent is None
            &&& base[i].unwrap().children.len() == 0
            &&& base[i].unwrap().transform_dirty
        } by {
            if i > 0 {
                assert(base[i] == Some(file_node(fs[i - 1])));
            }
        }
    }
    let rank = choose|rank: spec_fn(NodeId) -> nat| ranked_closed(s, Set::full(), rank);
    assert(ranked_closed(s, Set::full(), rank)) by {
        reveal(saveable);
        assert(acyclic(s));
    }
    let rank2 = |x: NodeId| if x.0 == 0 {
        rank(NodeId(0))
    } else if (x.0 as int) <= n {
        rank(ids[x.0 - 1])
    } else {
        0
    };
    assert(ranked_links(links, base.len() as int, rank2)) by {
        assert forall|m: int| 0 <= m < links.len() implies {
            &&& ((#[trigger] links[m]).0.0 as int) < base.len()
            &&& (links[m].1.0 as int) < base.len()
            &&& rank2(links[m].1) < rank2(links[m].0)
        } by {
            if m < cl.len() {
                let l = cl[m];
                assert(links[m] == l);
                let y = ids[l.0.0 - 1];
                let c = ids[l.1.0 - 1];
                assert(kids(s, y).contains(c));
                let i = choose|i: int| 0 <= i < kids(s, y).len() && kids(s, y)[i] == c;
                assert(Set::<NodeId>::full().contains(y));
                assert(rank(kids(s, y)[i]) < rank(y));
            } else {
                let l = tl[m - cl.len()];
                assert(links[m] == l);
                let k = l.1.0 - 1;
                assert(l.1 == slot_of(k));
                lemma_saved_linked(s, k);
                let x = ids[k];
                assert(slot_live(s, x));
                assert(kids(s, NodeId(0)).contains(x));
                let i = choose|i: int| 0 <= i < kids(s, NodeId(0)).len() && kids(s, NodeId(0))[i] == x;
                assert(Set::<NodeId>::full().contains(NodeId(0)));
                assert(rank(kids(s, NodeId(0))[i]) < rank(NodeId(0)));
            }
        }
    }
    assert(distinct_children(links)) by {
        assert forall|a: int, b: int| 0 <= a < b < links.len() implies (#[trigger] links[a]).1 != (#[trigger] links[b]).1 by {
            if b < cl.len() {
                assert(links[a] == cl[a] && links[b] == cl[b]);
            } else if a >= cl.len() {
                assert(links[a] == tl[a - cl.len()] && links[b] == tl[b - cl.len()]);
            } else {
                assert(links[a] == cl[a] && links[b] == tl[b - cl.len()]);
                assert(!is_linked(cl, tl[b - cl.len()].1));
            }
        }
    }
    lemma_attach_all_linked(base, links, rank2);
    assert(load_plan(fs) == attach_all(base, links));
    let plan = linked_slots(base, links);
    assert forall|k: int| 0 <= k < n implies #[trigger] plan[k + 1] == Some(
        NodeView {
            parent: Some(saved_slot(ids, parent_of(s, ids[k]).unwrap())),
            children: saved_kids(s, k),
            ..file_node(fs[k])
        },
    ) by {
        let x = ids[k];
        assert(slot_live(s, x));
        let q = parent_of(s, x).unwrap();
        assert(NodeId((k + 1) as u32) == slot_of(k));
        assert(base[k + 1] == Some(file_node(fs[k])));
        // The children come from the node's own child requests alone.
        lemma_link_children_concat(cl, tl, slot_of(k));
        lemma_link_children_from(tl, slot_of(k));
        assert(link_children(tl, slot_of(k)).len() == 0) by {
            if link_children(tl, slot_of(k)).len() > 0 {
                let m = choose|m: int| 0 <= m < tl.len() && #[trigger] tl[m] == (slot_of(k), #[trigger] link_children(tl, slot_of(k))[0]);
            }
        }
        assert(link_children(links, slot_of(k)) =~= saved_kids(s, k));
        // The parent comes from the one request that names the node.
        lemma_saved_linked(s, k);
        lemma_saved_child_links_contain(s, n);
        if q == NodeId(0) {
            assert(tl.contains((NodeId(0), slot_of(k))));
            let m = choose|m: int| 0 <= m < tl.len() && tl[m] == (NodeId(0), slot_of(k));
            assert(links[cl.len() + m] == tl[m]);
            lemma_link_parent_of(links, cl.len() + m);
        } else {
            let j = pos(ids, q);
            assert(ids[j] == q);
            assert(kids(s, q).contains(x));
            let i = choose|i: int| 0 <= i < kids(s, q).len() && kids(s, q)[i] == x;
            assert(pos(ids, x) == k);
            assert(cl.contains((slot_of(j), slot_of(pos(ids, kids(s, ids[j])[i])))));
            let m = choose|m: int| 0 <= m < cl.len() && cl[m] == (slot_of(j), slot_of(k));
            assert(links[m] == cl[m]);
            lemma_link_parent_of(links, m);
        }
    }
}

/// With no name borne twice, the name index after loading maps each
/// non-empty name to the slot of the node that bears it.
proof fn lemma_file_names_distinct(fs: Seq<NodeDataView>, n: nat)
    requires
        n <= fs.len(),
        fs.len() < u32::MAX,
        forall|i: int, j: int| 0 <= i < j < fs.len() ==> (#[trigger] fs[i]).name != (#[trigger] fs[j]).name,
    ensures
        forall|k: int| 0 <= k < n && (#[trigger] fs[k]).name.len() > 0 ==> {
            &&& file_names(fs, n).contains_key(fs[k].name)
            &&& file_names(fs, n)[fs[k].name] == (k + 1) as u32
        },
    decreases n,
{
    if n > 0 {
        lemma_file_names_distinct(fs, (n - 1) as nat);
        assert forall|k: int| 0 <= k < n && (#[trigger] fs[k]).name.len() > 0 implies {
            &&& file_names(fs, n).contains_key(fs[k].name)
            &&& file_names(fs, n)[fs[k].name] == (k + 1) as u32
        } by {
            if k < n - 1 {
                assert(fs[k].name != fs[n - 1].name);
            }
        }
    }
}

/// Keeping each name once changes nothing when no name is there twice.
proof fn lemma_unique_names_distinct(tags: Seq<Seq<char>>)
    requires
        distinct_names(tags),
    ensures
        unique_names(tags) == tags,
    decreases tags.len(),
{
    if tags.len() > 0 {
        let pre = tags.drop_last();
        assert(distinct_names(pre)) by {
            assert forall|i: int, j: int| 0 <= i < j < pre.len() implies pre[i] != pre[j] by {
                assert(pre[i] == tags[i] && pre[j] == tags[j]);
            }
        }
        lemma_unique_names_distinct(pre);
        assert(!pre.contains(tags.last())) by {
            if pre.contains(tags.last()) {
                let i = choose|i: int| 0 <= i < pre.len() && pre[i] == tags.last();
                assert(tags[i] == tags[tags.len() - 1]);
            }
        }
        assert(pre.push(tags.last()) =~= tags);
    }
}

/// Save-and-load law: a scene whose live nodes all hang below the root, whose
/// other nodes carry distinct names and whose nodes carry distinct tags, saved
/// by `to_scene_file` and loaded back by `from_scene_file`, is within the
/// loader's size limit and loads without error, and the loaded graph holds
/// the saved nodes alone, the `k`-th in slot `k + 1`, each with its name,
/// transform, tags and active flag, under the parent it had (the root for a
/// node right below the root), with its children in the same order, and with
/// its name, if it has one, indexed to its new slot.
pub proof fn lemma_save_load_round_trip(g: SceneGraph, f: SceneFile, g2: SceneGraph)
    requires
        g.wf(),
        saveable(g.slots()),
        f.nodes@.len() == saved_ids(g.slots(), g.root_spec()).len(),
        forall|k: int| 0 <= k < f.nodes@.len() ==> (#[trigger] f.nodes@[k])@ == saved_node(
            g.slots(),
            saved_ids(g.slots(), g.root_spec())[k],
        ),
    ensures
        f.nodes@.len() < u32::MAX,
        load_plan(file_views(f)) is Some,
        loads_as(f, g2) ==> {
            let s = g.slots();
            let ids = saved_ids(s, NodeId(0));
            &&& g2.slots().len() == ids.len() + 1
            &&& forall|k: int| 0 <= k < ids.len() ==> {
                let a = s[ids[k].0 as int].unwrap();
                let b = #[trigger] g2.node(slot_of(k));
                &&& g2.live(slot_of(k))
                &&& b.name == a.name
                &&& b.transform == a.transform
                &&& b.tags == a.tags
                &&& b.active == a.active
                &&& b.parent == Some(saved_slot(ids, a.parent.unwrap()))
                &&& b.children == saved_kids(s, k)
                &&& a.name.len() > 0 ==> g2.names().contains_key(a.name) && g2.names()[a.name] == slot_of(k).0
            }
        },
{
    let s = g.slots();
    g.lemma_wf_facts();
    lemma_saveable_shape(s);
    lemma_saved_ids(s);
    lemma_saved_plan(s);
    let ids = saved_ids(s, NodeId(0));
    assert(file_views(f) =~= saved_views(s)) by {
        assert forall|k: int| 0 <= k < ids.len() implies file_views(f)[k] == saved_views(s)[k] by {
            assert(f.nodes@[k]@ == saved_node(s, ids[k]));
        }
    }
    let fs = saved_views(s);
    assert forall|i: int, j: int| 0 <= i < j < fs.len() implies (#[trigger] fs[i]).name != (#[trigger] fs[j]).name by {
        assert(fs[i] == saved_node(s, ids[i]) && fs[j] == saved_node(s, ids[j]));
        assert(ids[i].0 < ids[j].0);
        assert(slot_live(s, ids[i]) && slot_live(s, ids[j]));
        reveal(saveable);
    }
    lemma_file_names_distinct(fs, fs.len());
    if loads_as(f, g2) {
        let plan = load_plan(saved_views(s)).unwrap();
        assert forall|k: int| 0 <= k < ids.len() implies {
            let a = s[ids[k].0 as int].unwrap();
            let b = #[trigger] g2.node(slot_of(k));
            &&& g2.live(slot_of(k))
            &&& b.name == a.name
            &&& b.transform == a.transform
            &&& b.tags == a.tags
            &&& b.active == a.active
            &&& b.parent == Some(saved_slot(ids, a.parent.unwrap()))
            &&& b.children == saved_kids(s, k)
            &&& a.name.len() > 0 ==> g2.names().contains_key(a.name) && g2.names()[a.name] == slot_of(k).0
        } by {
            let x = ids[k];
            assert(slot_live(s, x));
            assert(plan[k + 1] == Some(
                NodeView {
                    parent: Some(saved_slot(ids, parent_of(s, x).unwrap())),
                    children: saved_kids(s, k),
                    ..file_node(saved_views(s)[k])
                },
            ));
            assert(slot_of(k).0 as int == k + 1);
            assert(loaded_slot(plan[k + 1], g2.slots()[k + 1]));
            assert(saved_views(s)[k] == saved_node(s, x));
            reveal(saveable);
            lemma_unique_names_distinct(s[x.0 as int].unwrap().tags);
        }
    }
}

} // verus!
