//! Removing a node together with everything below it.

use vstd::prelude::*;
use super::{NodeId, NodeView, SceneError, SceneGraph, refs_in_range, opt_view};
use super::graph::{lemma_drop_id_from, without_id};
use super::hierarchy::{detached, slot_live};
use super::names::name_index_shift_remove;
use super::forest::lemma_forest_remove_subtree;
use super::reach::{acyclic_below, is_child_path, kids, lemma_closed_contains_reach, lemma_paths_unfold, lemma_pending_concat, lemma_pending_nonneg, lemma_pending_first, lemma_reaches_child, lemma_reaches_self, paths, pending, ranked_closed, reaches};

verus! {

/// The names that the removal of the nodes in `removed` drops from the name
/// index: the non-empty names of the live ones.
pub open spec fn names_of(s: Seq<Option<NodeView>>, removed: Set<NodeId>) -> Set<Seq<char>> {
    Set::new(|n: Seq<char>| n.len() > 0 && exists|x: NodeId| #[trigger] removed.contains(x) && slot_live(s, x) && s[x.0 as int].unwrap().name == n)
}

/// The slots reachable from `id` along child links.
pub open spec fn subtree(s: Seq<Option<NodeView>>, id: NodeId) -> Set<NodeId> {
    Set::new(|x: NodeId| reaches(s, id, x))
}

/// Every node is in its own subtree, and the subtree of a node without
/// children holds that node alone.
pub proof fn lemma_subtree_of_leaf(s: Seq<Option<NodeView>>, id: NodeId)
    ensures
        subtree(s, id).contains(id),
        kids(s, id).len() == 0 ==> subtree(s, id) == set![id],
{
    let single = seq![id];
    assert(is_child_path(s, single));
    assert(reaches(s, id, id));
    if kids(s, id).len() == 0 {
        assert forall|x: NodeId| subtree(s, id).contains(x) implies x == id by {
            let path = choose|path: Seq<NodeId>| #[trigger] is_child_path(s, path) && path[0] == id && path.last() == x;
            if path.len() > 1 {
                assert(kids(s, path[0]).contains(path[1]));
            }
        }
        assert(subtree(s, id) =~= set![id]);
    }
}

/// The breadth-first walk from the queue `q` whose first `i` entries are
/// visited: a visit appends the visited slot's children to the queue. The
/// walk stops when every entry is visited or after `fuel` visits.
pub open spec fn bfs_walk(s: Seq<Option<NodeView>>, q: Seq<NodeId>, i: nat, fuel: nat) -> Seq<NodeId>
    decreases fuel,
{
    if fuel == 0 || i >= q.len() {
        q
    } else {
        bfs_walk(s, q + kids(s, q[i as int]), i + 1, (fuel - 1) as nat)
    }
}

/// The slots below `id` in breadth-first order, a slot reached along several
/// paths once for each: the walk from `id`, with one visit for each child
/// path from `id`, which is as many as it takes.
pub open spec fn breadth_first(s: Seq<Option<NodeView>>, id: NodeId) -> Seq<NodeId> {
    let (set, rank) = choose|set: Set<NodeId>, rank: spec_fn(NodeId) -> nat| set.contains(id) && ranked_closed(s, set, rank);
    bfs_walk(s, seq![id], 0, paths(s, rank, id))
}

/// The live slots among `t`, each at its first appearance.
pub open spec fn first_live(s: Seq<Option<NodeView>>, t: Seq<NodeId>) -> Seq<NodeId>
    decreases t.len(),
{
    if t.len() == 0 {
        Seq::empty()
    } else {
        let before = first_live(s, t.drop_last());
        if slot_live(s, t.last()) && !t.drop_last().contains(t.last()) {
            before.push(t.last())
        } else {
            before
        }
    }
}

/// The ids of the first `j` entries of `t`.
spec fn listed(t: Seq<NodeId>, j: int) -> Set<NodeId> {
    Set::new(|x: NodeId| exists|m: int| 0 <= m < j && #[trigger] t[m] == x)
}

/// The ids of the first `j` entries of `t` are those of its first `j` entries
/// taken as a sequence.
proof fn lemma_listed_take(t: Seq<NodeId>, j: int)
    requires
        0 <= j <= t.len(),
    ensures
        forall|x: NodeId| #[trigger] listed(t, j).contains(x) == t.take(j).contains(x),
{
    assert forall|x: NodeId| #[trigger] listed(t, j).contains(x) == t.take(j).contains(x) by {
        if listed(t, j).contains(x) {
            let m = choose|m: int| 0 <= m < j && #[trigger] t[m] == x;
            assert(t.take(j)[m] == x);
        }
        if t.take(j).contains(x) {
            let m = choose|m: int| 0 <= m < t.take(j).len() && t.take(j)[m] == x;
            assert(t[m] == x);
        }
    }
}

impl SceneGraph {
    /// Removes the node in slot `id` and every node reachable from it along
    /// child links: the node is dropped from its parent's children, every
    /// reached slot is emptied, the names of the removed nodes leave the name
    /// index, and the emptied slots join the free list, `id` first. The root
    /// cannot be removed.
    pub fn remove_node(&mut self, id: NodeId) -> (r: Result<(), SceneError>)
        requires
            old(self).wf(),
            (id.0 as int) < old(self).slots().len(),
            id != old(self).root_spec() ==> acyclic_below(old(self).slots(), id),
        ensures
            final(self).wf(),
            id == old(self).root_spec() ==> r == Err::<(), SceneError>(SceneError::InvalidParent(id)) && *final(self) == *old(self),
            id != old(self).root_spec() ==> {
                let s = old(self).slots();
                let d = detached(s, id);
                let removed = subtree(s, id);
                let added = final(self).free().subrange(old(self).free().len() as int, final(self).free().len() as int);
                &&& r == Ok::<(), SceneError>(())
                &&& final(self).slots().len() == s.len()
                &&& forall|x: int| 0 <= x < s.len() ==> #[trigger] final(self).slots()[x] == (if removed.contains(NodeId(x as u32)) {
                    None
                } else {
                    d[x]
                })
                &&& final(self).names() == old(self).names().remove_keys(names_of(s, removed))
                &&& final(self).free().len() >= old(self).free().len()
                &&& final(self).free().subrange(0, old(self).free().len() as int) == old(self).free()
                &&& added.no_duplicates()
                &&& forall|x: NodeId| added.contains(x) <==> removed.contains(x) && slot_live(s, x)
                &&& slot_live(s, id) ==> added[0] == id
                &&& added == first_live(s, breadth_first(s, id))
                &&& final(self).next_id_spec() == old(self).next_id_spec()
                &&& final(self).root_spec() == old(self).root_spec()
            },
            old(self).forest() ==> final(self).forest(),
            id != old(self).root_spec() && old(self).live(id) && old(self).node(id).children.len() == 0
                ==> final(self).next_slot() == id,
    {
        if id == self.root {
            return Err(SceneError::InvalidParent(id));
        }
        let ghost s = self.slots();
        let ghost len = s.len();
        let ghost (set, rank) = choose|set: Set<NodeId>, rank: spec_fn(NodeId) -> nat| set.contains(id) && ranked_closed(s, set, rank);
        let ghost total = paths(s, rank, id);

        // Collect the node and everything below it, breadth first.
        let mut to_remove: Vec<NodeId> = Vec::new();
        to_remove.push(id);
        proof {
            lemma_reaches_self(s, id);
            assert(to_remove@.subrange(0, 1) =~= seq![id]);
            let one = seq![id];
            assert(one.drop_last() =~= Seq::<NodeId>::empty());
            assert(pending(s, rank, one) == pending(s, rank, one.drop_last()) + paths(s, rank, one.last()) - 1);
        }
        let mut i: usize = 0;
        while i < to_remove.len()
            invariant
                self.wf(),
                self.slots() == s,
                len == s.len(),
                ranked_closed(s, set, rank),
                total == paths(s, rank, id),
                to_remove@.len() >= 1,
                to_remove@[0] == id,
                i <= to_remove@.len(),
                forall|j: int| 0 <= j < to_remove@.len() ==> set.contains(#[trigger] to_remove@[j]) && reaches(s, id, to_remove@[j])
                    && (to_remove@[j].0 as int) < len,
                forall|j: int, k: int| #![trigger kids(s, to_remove@[j])[k]] 0 <= j < i && 0 <= k < kids(s, to_remove@[j]).len() ==> to_remove@.contains(kids(s, to_remove@[j])[k]),
                to_remove@.len() + pending(s, rank, to_remove@.subrange(i as int, to_remove@.len() as int)) == total,
                i <= total,
                bfs_walk(s, to_remove@, i as nat, (total - i) as nat) == breadth_first(s, id),
            decreases total - i,
        {
            let current = to_remove[i];
            let ghost before = to_remove@;
            proof {
                lemma_pending_nonneg(s, rank, before.subrange(i as int, before.len() as int));
                lemma_pending_first(s, rank, before.subrange(i as int, before.len() as int));
                assert(before.subrange(i as int, before.len() as int).subrange(1, before.len() - i) =~= before.subrange(i + 1, before.len() as int));
                lemma_paths_unfold(s, set, rank, current);
            }
            match &self.nodes[current.0 as usize] {
                Some(node) => {
                    proof {
                        assert(s[current.0 as int] == Some(node@));
                        assert(kids(s, current) == node.children@);
                        assert(refs_in_range(s[current.0 as int].unwrap(), len as int));
                    }
                    let mut k: usize = 0;
                    while k < node.children.len()
                        invariant
                            kids(s, current) == node.children@,
                            refs_in_range(s[current.0 as int].unwrap(), len as int),
                            s[current.0 as int].unwrap().children == node.children@,
                            k <= node.children@.len(),
                            to_remove@ == before + node.children@.take(k as int),
                        decreases node.children@.len() - k,
                    {
                        to_remove.push(node.children[k]);
                        k = k + 1;
                        proof {
                            assert(to_remove@ =~= before + node.children@.take(k as int));
                        }
                    }
                    proof {
                        assert(node.children@.take(k as int) =~= node.children@);
                    }
                },
                None => {
                    proof {
                        assert(kids(s, current) =~= Seq::<NodeId>::empty());
                        assert(to_remove@ =~= before + kids(s, current));
                    }
                },
            }
            proof {
                let ks = kids(s, current);
                assert(to_remove@ =~= before + ks);
                assert(before[i as int] == current);
                assert(bfs_walk(s, before, i as nat, (total - i) as nat) == bfs_walk(s, before + ks, (i + 1) as nat, (total - i - 1) as nat));
                assert(to_remove@.subrange(i + 1, to_remove@.len() as int) =~= before.subrange(i + 1, before.len() as int) + ks);
                lemma_pending_concat(s, rank, before.subrange(i + 1, before.len() as int), ks);
                assert forall|j: int| 0 <= j < to_remove@.len() implies set.contains(#[trigger] to_remove@[j]) && reaches(s, id, to_remove@[j])
                    && (to_remove@[j].0 as int) < len by {
                    if j >= before.len() {
                        let k = j - before.len();
                        assert(to_remove@[j] == ks[k]);
                        assert(set.contains(ks[k]));
                        lemma_reaches_child(s, id, current, k);
                        if slot_live(s, current) {
                            assert(refs_in_range(s[current.0 as int].unwrap(), len as int));
                        }
                    }
                }
                assert forall|j: int, k: int| #![trigger kids(s, to_remove@[j])[k]] 0 <= j < i + 1 && 0 <= k < kids(s, to_remove@[j]).len() implies to_remove@.contains(kids(s, to_remove@[j])[k]) by {
                    if j < i {
                        assert(before.contains(kids(s, before[j])[k]));
                        let m = choose|m: int| 0 <= m < before.len() && before[m] == kids(s, before[j])[k];
                        assert(to_remove@[m] == before[m]);
                    } else {
                        assert(to_remove@[before.len() + k] == ks[k]);
                    }
                }
            }
            i = i + 1;
        }
        let ghost t = to_remove@;
        proof {
            assert(t == breadth_first(s, id));
            assert forall|x: NodeId| reaches(s, id, x) implies t.contains(x) by {
                let tset = Set::new(|y: NodeId| t.contains(y));
                assert forall|y: NodeId, k: int| tset.contains(y) && 0 <= k < kids(s, y).len() implies tset.contains(#[trigger] kids(s, y)[k]) by {
                    let m = choose|m: int| 0 <= m < t.len() && t[m] == y;
                    assert(t.contains(kids(s, t[m])[k]));
                }
                assert(t[0] == id);
                assert(tset.contains(id));
                lemma_closed_contains_reach(s, tset, id, x);
            }
        }

        // Drop the node from its parent's children.
        let parent = match &self.nodes[id.0 as usize] {
            Some(node) => node.parent,
            None => None,
        };
        proof {
            if slot_live(s, id) {
                assert(s[id.0 as int] == Some(self.nodes@[id.0 as int].unwrap()@));
                assert(refs_in_range(s[id.0 as int].unwrap(), len as int));
            }
        }
        if let Some(p) = parent {
            if self.nodes[p.0 as usize].is_some() {
                match self.get_mut(p) {
                    Ok(pn) => {
                        let kept = without_id(&pn.children, id);
                        pn.children = kept;
                    },
                    Err(_) => {},
                }
                proof {
                    lemma_drop_id_from(s[p.0 as int].unwrap().children, id);
                    SceneGraph::lemma_wf_same_shape(*old(self), *self);
                }
            }
        }
        let ghost d = self.slots();
        proof {
            assert(d == detached(s, id));
        }

        // Empty the collected slots.
        proof {
            assert(listed(t, t.len() as int) =~= subtree(s, id)) by {
                assert forall|x: NodeId| listed(t, t.len() as int).contains(x) implies subtree(s, id).contains(x) by {
                    let m = choose|m: int| 0 <= m < t.len() && #[trigger] t[m] == x;
                }
                assert forall|x: NodeId| subtree(s, id).contains(x) implies listed(t, t.len() as int).contains(x) by {
                    assert(t.contains(x));
                    let m = choose|m: int| 0 <= m < t.len() && t[m] == x;
                }
            }
        }
        let ghost old_names = self.names();
        let ghost old_free = self.free();
        proof {
            assert(t.take(0) =~= Seq::<NodeId>::empty());
            assert(self.free().subrange(old_free.len() as int, self.free().len() as int) =~= Seq::<NodeId>::empty());
        }
        let mut j: usize = 0;
        while j < to_remove.len()
            invariant
                to_remove@ == t,
                len == s.len(),
                listed(t, t.len() as int) == subtree(s, id),
                j <= t.len(),
                t[0] == id,
                forall|m: int| 0 <= m < t.len() ==> (#[trigger] t[m].0 as int) < len,
                self.slots().len() == len,
                forall|x: int| 0 <= x < len ==> #[trigger] self.slots()[x] == (if listed(t, j as int).contains(NodeId(x as u32)) { None } else { d[x] }),
                forall|x: int| 0 <= x < len ==> (#[trigger] d[x]) is Some == s[x] is Some,
                forall|x: int| 0 <= x < len && (#[trigger] d[x]) is Some ==> d[x].unwrap().name == s[x].unwrap().name
                    && refs_in_range(d[x].unwrap(), len as int),
                self.names() == old_names.remove_keys(names_of(s, listed(t, j as int))),
                self.free().len() >= old_free.len(),
                self.free().subrange(0, old_free.len() as int) == old_free,
                self.free().subrange(old_free.len() as int, self.free().len() as int).no_duplicates(),
                forall|x: NodeId|
                    #![trigger self.free().subrange(old_free.len() as int, self.free().len() as int).contains(x)]
                    #![trigger listed(t, j as int).contains(x)]
                    self.free().subrange(old_free.len() as int, self.free().len() as int).contains(x)
                    <==> listed(t, j as int).contains(x) && slot_live(s, x),
                j >= 1 && slot_live(s, id) ==> self.free()[old_free.len() as int] == id,
                self.free().subrange(old_free.len() as int, self.free().len() as int) == first_live(s, t.take(j as int)),
                self.next_id_spec() == old(self).next_id_spec(),
                self.root_spec() == old(self).root_spec(),
                self.next_id_spec() as int == len,
                self.root_spec() == NodeId(0),
                forall|k: int| 0 <= k < old_free.len() ==> (#[trigger] old_free[k]).0 < len && d[old_free[k].0 as int] is None,
                forall|k: int, l: int| 0 <= k < l < old_free.len() ==> old_free[k] != old_free[l],
            decreases t.len() - j,
        {
            let rid = to_remove[j];
            proof {
                assert((t[j as int].0 as int) < len);
            }
            let ghost pre = *self;
            let ghost listed_now = listed(t, j as int);
            let ghost listed_next = listed(t, j as int + 1);
            proof {
                assert(listed_next =~= listed_now.insert(rid));
                lemma_listed_take(t, j as int);
                assert(t.take(j as int + 1).drop_last() =~= t.take(j as int));
                assert(t.take(j as int + 1).last() == rid);
            }
            let taken = self.nodes[rid.0 as usize].take();
            proof {
                assert(self.slots() =~= pre.slots().update(rid.0 as int, None));
                assert(pre.slots()[rid.0 as int] == opt_view(taken));
            }
            match taken {
                Some(node) => {
                    proof {
                        assert(!listed_now.contains(rid));
                        assert(d[rid.0 as int] == Some(node@));
                        assert(d[rid.0 as int] is Some);
                        assert(slot_live(s, rid));
                    }
                    if !node.name.as_str().is_empty() {
                        name_index_shift_remove(&mut self.name_map, node.name.as_str());
                        proof {
                            assert(names_of(s, listed_next) =~= names_of(s, listed_now).insert(node@.name)) by {
                                assert forall|n: Seq<char>| names_of(s, listed_next).contains(n) implies names_of(s, listed_now).insert(node@.name).contains(n) by {
                                    let x = choose|x: NodeId| #[trigger] listed_next.contains(x) && slot_live(s, x) && s[x.0 as int].unwrap().name == n;
                                    if x != rid {
                                        assert(listed_now.contains(x));
                                    }
                                }
                                assert forall|n: Seq<char>| names_of(s, listed_now).insert(node@.name).contains(n) implies names_of(s, listed_next).contains(n) by {
                                    if n == node@.name {
                                        assert(listed_next.contains(rid));
                                    } else {
                                        let x = choose|x: NodeId| #[trigger] listed_now.contains(x) && slot_live(s, x) && s[x.0 as int].unwrap().name == n;
                                        assert(listed_next.contains(x));
                                    }
                                }
                            }
                            assert(old_names.remove_keys(names_of(s, listed_next)) =~= old_names.remove_keys(names_of(s, listed_now)).remove(node@.name));
                        }
                    } else {
                        proof {
                            assert(names_of(s, listed_next) =~= names_of(s, listed_now)) by {
                                assert forall|n: Seq<char>| names_of(s, listed_next).contains(n) implies names_of(s, listed_now).contains(n) by {
                                    let x = choose|x: NodeId| #[trigger] listed_next.contains(x) && slot_live(s, x) && s[x.0 as int].unwrap().name == n;
                                    if x != rid {
                                        assert(listed_now.contains(x));
                                    }
                                }
                                assert forall|n: Seq<char>| names_of(s, listed_now).contains(n) implies names_of(s, listed_next).contains(n) by {
                                    let x = choose|x: NodeId| #[trigger] listed_now.contains(x) && slot_live(s, x) && s[x.0 as int].unwrap().name == n;
                                    assert(listed_next.contains(x));
                                }
                            }
                        }
                    }
                    self.free_list.push(rid);
                    proof {
                        let suffix = self.free().subrange(old_free.len() as int, self.free().len() as int);
                        let pre_suffix = pre.free().subrange(old_free.len() as int, pre.free().len() as int);
                        assert(suffix =~= pre_suffix.push(rid));
                        assert(!t.take(j as int).contains(rid));
                        assert(self.free().subrange(0, old_free.len() as int) =~= pre.free().subrange(0, old_free.len() as int));
                        assert(!pre_suffix.contains(rid));
                        assert forall|x: NodeId| suffix.contains(x) <==> listed_next.contains(x) && slot_live(s, x) by {
                            if suffix.contains(x) && x != rid {
                                let m = choose|m: int| 0 <= m < suffix.len() && suffix[m] == x;
                                assert(pre_suffix[m] == x);
                                assert(pre_suffix.contains(x));
                                assert(listed_now.contains(x) && slot_live(s, x));
                                assert(listed_next.contains(x));
                            }
                            if listed_next.contains(x) && slot_live(s, x) && x != rid {
                                assert(pre_suffix.contains(x));
                                let m = choose|m: int| 0 <= m < pre_suffix.len() && pre_suffix[m] == x;
                                assert(suffix[m] == x);
                            }
                            if x == rid {
                                assert(suffix[suffix.len() - 1] == rid);
                            }
                        }
                        assert(suffix.no_duplicates());
                        if j == 0 && slot_live(s, id) {
                            assert(pre_suffix.len() == 0) by {
                                if pre_suffix.len() > 0 {
                                    assert(pre_suffix.contains(pre_suffix[0]));
                                }
                            }
                            assert(rid == id);
                            assert(self.free()[old_free.len() as int] == suffix[0]);
                        }
                        if j >= 1 && slot_live(s, id) {
                            assert(self.free()[old_free.len() as int] == pre.free()[old_free.len() as int]);
                        }
                    }
                },
                None => {
                    proof {
                        assert(listed_now.contains(rid) || !slot_live(s, rid));
                        assert(first_live(s, t.take(j as int + 1)) == first_live(s, t.take(j as int)));
                        assert(names_of(s, listed_next) =~= names_of(s, listed_now)) by {
                            assert forall|n: Seq<char>| names_of(s, listed_next).contains(n) implies names_of(s, listed_now).contains(n) by {
                                let x = choose|x: NodeId| #[trigger] listed_next.contains(x) && slot_live(s, x) && s[x.0 as int].unwrap().name == n;
                                if x != rid {
                                    assert(listed_now.contains(x));
                                }
                            }
                            assert forall|n: Seq<char>| names_of(s, listed_now).contains(n) implies names_of(s, listed_next).contains(n) by {
                                let x = choose|x: NodeId| #[trigger] listed_now.contains(x) && slot_live(s, x) && s[x.0 as int].unwrap().name == n;
                                assert(listed_next.contains(x));
                            }
                        }
                        let suffix = self.free().subrange(old_free.len() as int, self.free().len() as int);
                        if j == 0 {
                            assert(!listed_now.contains(rid));
                        }
                        if slot_live(s, rid) {
                            assert(s[rid.0 as int] is Some);
                            assert(d[rid.0 as int] is Some);
                            assert(listed_now.contains(rid));
                        }
                        assert forall|x: NodeId| suffix.contains(x) <==> listed_next.contains(x) && slot_live(s, x) by {
                            if x != rid {
                                assert(listed_next.contains(x) == listed_now.contains(x));
                            }
                            if suffix.contains(x) {
                                assert(listed_now.contains(x) && slot_live(s, x));
                                assert(listed_next.contains(x));
                            }
                        }
                    }
                },
            }
            proof {
                assert forall|x: int| 0 <= x < len implies #[trigger] self.slots()[x] == (if listed_next.contains(NodeId(x as u32)) { None } else { d[x] }) by {
                    if x != rid.0 {
                        assert(NodeId(x as u32) != rid);
                        assert(listed_next.contains(NodeId(x as u32)) == listed_now.contains(NodeId(x as u32)));
                    }
                }
            }
            j = j + 1;
        }
        proof {
            assert(t.take(t.len() as int) =~= t);
            let fin = self.slots();
            assert forall|k: int| 0 <= k < self.free_list@.len() implies {
                &&& (#[trigger] self.free_list@[k]).0 < fin.len()
                &&& fin[self.free_list@[k].0 as int] is None
            } by {
                let x = self.free_list@[k];
                if k < old_free.len() {
                    assert(self.free().subrange(0, old_free.len() as int)[k] == x);
                    assert(old_free[k] == x);
                } else {
                    let suffix = self.free().subrange(old_free.len() as int, self.free().len() as int);
                    assert(suffix[k - old_free.len()] == x);
                    assert(suffix.contains(x));
                    assert(listed(t, t.len() as int).contains(x) && slot_live(s, x));
                    assert(subtree(s, id).contains(x) && slot_live(s, x));
                }
            }
            assert forall|k: int, l: int| 0 <= k < l < self.free_list@.len() implies self.free_list@[k] != self.free_list@[l] by {
                let suffix = self.free().subrange(old_free.len() as int, self.free().len() as int);
                let pfx = self.free().subrange(0, old_free.len() as int);
                if l < old_free.len() {
                    assert(pfx[k] == old_free[k] && pfx[l] == old_free[l]);
                } else if k >= old_free.len() {
                    assert(suffix[k - old_free.len()] == self.free_list@[k]);
                    assert(suffix[l - old_free.len()] == self.free_list@[l]);
                } else {
                    assert(pfx[k] == old_free[k]);
                    assert(suffix[l - old_free.len()] == self.free_list@[l]);
                    assert(suffix.contains(self.free_list@[l]));
                    let x = self.free_list@[l];
                    assert(slot_live(s, x));
                    assert(d[x.0 as int] is Some);
                }
            }
            assert forall|i: int| 0 <= i < fin.len() && (#[trigger] fin[i]) is Some implies refs_in_range(fin[i].unwrap(), fin.len() as int) by {
                assert(d[i] is Some);
            }
            if slot_live(s, id) && s[id.0 as int].unwrap().children.len() == 0 {
                let added = self.free().subrange(old_free.len() as int, self.free().len() as int);
                assert forall|x: NodeId| reaches(s, id, x) implies x == id by {
                    let p = choose|p: Seq<NodeId>| #[trigger] is_child_path(s, p) && p[0] == id && p.last() == x;
                    if p.len() > 1 {
                        assert(kids(s, p[0]).contains(p[1]));
                    }
                }
                assert(added.contains(id));
                assert forall|k: int| 0 <= k < added.len() implies added[k] == id by {
                    assert(added.contains(added[k]));
                }
                assert(added.len() == 1) by {
                    if added.len() > 1 {
                        assert(added[0] == added[1]);
                    }
                }
                assert(self.free().last() == added[0]);
            }
            if old(self).forest() {
                assert forall|x: int| 0 <= x < s.len() implies #[trigger] fin[x] == (if reaches(s, id, NodeId(x as u32)) {
                    None
                } else {
                    detached(s, id)[x]
                }) by {
                    assert(subtree(s, id).contains(NodeId(x as u32)) == reaches(s, id, NodeId(x as u32)));
                }
                lemma_forest_remove_subtree(s, fin, id);
            }
        }
        Ok(())
    }
}

} // verus!
