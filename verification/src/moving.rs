//! Moving an entry: giving it a new name where it is, or putting it into
//! another directory.

use vstd::prelude::*;
use crate::node::{NodeKind, NodeView};
use crate::store::{MyGraph, node_weight};
use crate::links::{
    GraphView, view_of, sound, sources, kind_of, link, unlink, rename_node, node_total,
    edge_total,
};
use crate::text::views;
use crate::paths::components;
use crate::graph::{find_parent, resolve};
use crate::tree::{
    links_typed, indexed, no_orphans, tree_wf, one_parent, acyclic, ranked, siblings_distinct,
    child_named, resolve_spec, components_spec, content_of, lemma_child_named,
    lemma_child_named_is_child, lemma_resolve_step,
};
use crate::prune::{below, reaches, lemma_reach_down, lemma_reach_depth};

verus! {

/// What became of a move.
#[derive(Debug, Clone, Copy, PartialEq, Eq, Structural)]
pub enum MoveOutcome {
    /// The entry stayed in its directory and has the new name.
    Renamed,
    /// The entry went into another directory, under the name it had.
    Reparented,
    /// Nothing was done.
    Dropped,
}

/// The directory that `x` is in, taken from a graph in which every entry is
/// in one directory at most.
pub open spec fn parent_spec(v: GraphView, x: u32) -> Option<u32> {
    if exists|p: u32| v.child_of(p, x) {
        Some(choose|p: u32| v.child_of(p, x))
    } else {
        None
    }
}

/// The move of `e` to the place that `names` gives can be made: `e` is an
/// entry other than the root; the names before the last lead to a directory
/// that does not lie inside `e`; and in that directory the name that `e` is
/// to have there is free. Where the directory is the one that `e` is in, that
/// name is the last of `names`; where it is another, it is the name that `e`
/// has.
pub open spec fn movable(v: GraphView, root: u32, e: u32, names: Seq<Seq<char>>) -> bool {
    let q = resolve_spec(v, root, names.drop_last());
    &&& v.is_entry(e)
    &&& e != root
    &&& names.len() >= 2
    &&& q is Some
    &&& v.is_dir(q->0)
    &&& if v.child_of(q->0, e) {
        child_named(v, q->0, names.last()) is None || child_named(v, q->0, names.last()) == Some(
            e,
        )
    } else {
        !below(v, e, q->0) && child_named(v, q->0, v.nodes[e].name) is None
    }
}

/// The directory that `x` is in, if it is in one.
pub fn parent_of(graph: &MyGraph, x: u32) -> (r: Option<u32>)
    requires
        sound(graph),
    ensures
        match r {
            Some(p) => view_of(graph).child_of(p, x),
            None => forall|p: u32| !view_of(graph).child_of(p, x),
        },
{
    let ghost v = view_of(graph);
    match kind_of(graph, x) {
        Some(NodeKind::File) | Some(NodeKind::Directory) => {},
        _ => {
            return None;
        },
    }
    let neighbors = sources(graph, x);
    let mut i: usize = 0;
    while i < neighbors.len()
        invariant
            i <= neighbors@.len(),
            v == view_of(graph),
            v.is_entry(x),
            forall|a: u32| neighbors@.contains(a) <==> v.links.contains((a, x)),
            forall|j: int| 0 <= j < i ==> !v.is_dir(#[trigger] neighbors@[j]),
        decreases neighbors@.len() - i,
    {
        let neighbor = neighbors[i];
        proof {
            assert(neighbors@.contains(neighbor));
        }
        if kind_of(graph, neighbor) == Some(NodeKind::Directory) {
            return Some(neighbor);
        }
        i += 1;
    }
    proof {
        assert forall|p: u32| !v.child_of(p, x) by {
            if v.child_of(p, x) {
                assert(neighbors@.contains(p));
                let j = choose|j: int| 0 <= j < neighbors@.len() && neighbors@[j] == p;
                assert(!v.is_dir(neighbors@[j]));
            }
        }
    }
    None
}

/// Whether `x` is `e` or lies inside `e`.
pub fn is_inside(graph: &MyGraph, root_index: u32, e: u32, x: u32) -> (r: bool)
    requires
        sound(graph),
        tree_wf(view_of(graph), root_index),
    ensures
        r == below(view_of(graph), e, x),
{
    let ghost v = view_of(graph);
    let ghost depth = choose|depth: spec_fn(u32) -> nat| ranked(v, depth);
    let mut cur = x;
    proof {
        assert(reaches(v, x, x, 0));
    }
    loop
        invariant
            v == view_of(graph),
            sound(graph),
            tree_wf(v, root_index),
            ranked(v, depth),
            below(v, e, x) <==> below(v, e, cur),
        decreases depth(cur),
    {
        if cur == e {
            proof {
                assert(reaches(v, e, cur, 0));
            }
            return true;
        }
        match parent_of(graph, cur) {
            Some(p) => {
                proof {
                    if below(v, e, cur) {
                        let k = choose|k: nat| reaches(v, e, cur, k);
                        let up = choose|up: u32| #[trigger]
                            v.child_of(up, cur) && reaches(v, e, up, (k - 1) as nat);
                        assert(v.child_of(up, cur) && v.child_of(p, cur));
                        assert(below(v, e, p));
                    }
                    if below(v, e, p) {
                        let k = choose|k: nat| reaches(v, e, p, k);
                        lemma_reach_down(v, e, p, cur, k);
                    }
                }
                cur = p;
            },
            None => {
                proof {
                    if below(v, e, cur) {
                        let k = choose|k: nat| reaches(v, e, cur, k);
                        let up = choose|up: u32| #[trigger]
                            v.child_of(up, cur) && reaches(v, e, up, (k - 1) as nat);
                    }
                }
                return false;
            },
        }
    }
}

/// Names that lead to an entry outside of `e` lead to it in every graph that
/// differs only in `e`: in its name, or in the directory that it is in.
pub proof fn lemma_resolve_outside(
    v: GraphView,
    w: GraphView,
    root: u32,
    e: u32,
    names: Seq<Seq<char>>,
)
    requires
        tree_wf(v, root),
        siblings_distinct(w),
        e != root,
        w.nodes[root] == v.nodes[root],
        forall|p: u32, c: u32| c != e && #[trigger] v.child_of(p, c) ==> w.child_of(p, c)
            && w.nodes[c].name == v.nodes[c].name,
        resolve_spec(v, root, names) is Some,
        !below(v, e, resolve_spec(v, root, names)->0),
    ensures
        resolve_spec(w, root, names) == resolve_spec(v, root, names),
    decreases names.len(),
{
    lemma_resolve_step(v, root, names);
    let x = resolve_spec(v, root, names)->0;
    if names.len() > 1 {
        let p = resolve_spec(v, root, names.drop_last())->0;
        assert(v.child_of(p, x));
        assert(x != e) by {
            assert(reaches(v, e, e, 0));
        }
        assert(!below(v, e, p)) by {
            if below(v, e, p) {
                let k = choose|k: nat| reaches(v, e, p, k);
                lemma_reach_down(v, e, p, x, k);
            }
        }
        lemma_resolve_outside(v, w, root, e, names.drop_last());
        assert(w.child_of(p, x));
        lemma_child_named(w, p, x);
    }
}

/// Giving the entry `e` a name that is free in its directory keeps the tree
/// a tree and all tags where they are.
pub proof fn lemma_rename(v: GraphView, w: GraphView, root: u32, p: u32, e: u32, name: Seq<char>)
    requires
        links_typed(v),
        tree_wf(v, root),
        e != root,
        v.child_of(p, e),
        child_named(v, p, name) is None || child_named(v, p, name) == Some(e),
        w.nodes == v.nodes.insert(e, NodeView { name: name, kind: v.nodes[e].kind }),
        w.links == v.links,
    ensures
        links_typed(w),
        tree_wf(w, root),
        forall|idx: Map<Seq<char>, u32>| indexed(v, idx) ==> indexed(w, idx),
        no_orphans(v) ==> no_orphans(w),
        content_of(w).labels == content_of(v).labels,
        content_of(w).children == content_of(v).children,
        child_named(w, p, name) == Some(e),
        forall|q: u32, c: u32| #[trigger] v.child_of(q, c) <==> w.child_of(q, c),
{
    assert forall|a: u32| (v.is_tag(a) <==> w.is_tag(a)) && (v.is_dir(a) <==> w.is_dir(a)) && (
    v.is_entry(a) <==> w.is_entry(a)) by {}
    assert forall|q: u32, c: u32| #[trigger] v.child_of(q, c) <==> w.child_of(q, c) by {}
    assert(links_typed(w)) by {
        assert forall|a: u32, b: u32| #[trigger] w.links.contains((a, b)) implies w.is_entry(b)
            && (w.is_tag(a) || w.is_dir(a)) by {
            assert(v.links.contains((a, b)));
        }
    }
    assert(one_parent(w, root)) by {
        assert forall|c: u32| #[trigger] w.is_entry(c) && c != root implies exists|q: u32|
            w.child_of(q, c) by {
            assert(v.is_entry(c));
            let q = choose|q: u32| v.child_of(q, c);
            assert(w.child_of(q, c));
        }
        assert forall|q1: u32, q2: u32, c: u32| #[trigger]
            w.child_of(q1, c) && #[trigger] w.child_of(q2, c) implies q1 == q2 by {
            assert(v.child_of(q1, c) && v.child_of(q2, c));
        }
        assert forall|q: u32| !#[trigger] w.child_of(q, root) by {
            assert(!v.child_of(q, root));
        }
    }
    assert(acyclic(w)) by {
        let depth = choose|depth: spec_fn(u32) -> nat| ranked(v, depth);
        assert(ranked(w, depth)) by {
            assert forall|q: u32, c: u32| #[trigger] w.child_of(q, c) implies depth(c) == depth(
                q,
            ) + 1 by {
                assert(v.child_of(q, c));
            }
        }
    }
    assert(siblings_distinct(w)) by {
        assert forall|q: u32, c: u32, d: u32| #[trigger]
            w.child_of(q, c) && #[trigger] w.child_of(q, d) && w.nodes[c].name
                == w.nodes[d].name implies c == d by {
            assert(v.child_of(q, c) && v.child_of(q, d));
            lemma_child_named_is_child(v, p, name);
            if c == e && d != e {
                assert(v.child_of(q, e) && v.child_of(p, e));
                assert(v.child_of(p, d));
                lemma_child_named(v, p, d);
            }
            if d == e && c != e {
                assert(v.child_of(q, e) && v.child_of(p, e));
                assert(v.child_of(p, c));
                lemma_child_named(v, p, c);
            }
        }
    }
    assert(w.child_of(p, e));
    lemma_child_named(w, p, e);
    assert forall|idx: Map<Seq<char>, u32>| indexed(v, idx) implies indexed(w, idx) by {
        assert forall|n: Seq<char>| #[trigger] idx.contains_key(n) implies w.is_tag(idx[n])
            && w.nodes[idx[n]].name == n by {
            assert(v.is_tag(idx[n]));
        }
        assert forall|t: u32| #[trigger] w.is_tag(t) implies idx.contains_key(w.nodes[t].name)
            && idx[w.nodes[t].name] == t by {
            assert(v.is_tag(t));
        }
    }
    if no_orphans(v) {
        assert forall|t: u32| #[trigger] w.is_tag(t) implies exists|y: u32|
            w.links.contains((t, y)) by {
            assert(v.is_tag(t));
        }
    }
    assert forall|a: u32, n: Seq<char>| #[trigger]
        w.tags_of(a).contains(n) <==> v.tags_of(a).contains(n) by {
        if w.tags_of(a).contains(n) {
            let t = choose|t: u32| #[trigger] w.tagged(t, a) && w.nodes[t].name == n;
            assert(v.tagged(t, a));
        }
        if v.tags_of(a).contains(n) {
            let t = choose|t: u32| #[trigger] v.tagged(t, a) && v.nodes[t].name == n;
            assert(w.tagged(t, a));
        }
    }
    assert(content_of(w).labels =~= content_of(v).labels);
    assert(content_of(w).children =~= content_of(v).children);
}

/// Putting the entry `e` from the directory `p` into the directory `q`,
/// which does not lie inside `e` and has no entry of `e`'s name, keeps the
/// tree a tree and all tags where they are.
pub proof fn lemma_reparent(v: GraphView, w: GraphView, root: u32, p: u32, q: u32, e: u32)
    requires
        links_typed(v),
        tree_wf(v, root),
        e != root,
        v.child_of(p, e),
        v.is_dir(q),
        p != q,
        !below(v, e, q),
        child_named(v, q, v.nodes[e].name) is None,
        w.nodes == v.nodes,
        w.links == v.links.remove((p, e)).insert((q, e)),
    ensures
        links_typed(w),
        tree_wf(w, root),
        forall|idx: Map<Seq<char>, u32>| indexed(v, idx) ==> indexed(w, idx),
        no_orphans(v) ==> no_orphans(w),
        content_of(w).labels == content_of(v).labels,
        content_of(w).entries == content_of(v).entries,
        content_of(w).children == content_of(v).children.remove((p, e)).insert((q, e)),
        child_named(w, q, v.nodes[e].name) == Some(e),
        forall|a: u32, c: u32| c != e ==> (#[trigger] v.child_of(a, c) <==> w.child_of(a, c)),
{
    assert forall|a: u32, c: u32| #[trigger] w.child_of(a, c) <==> (a == q && c == e) || (
    v.child_of(a, c) && c != e) by {
        if v.child_of(a, c) && c == e {
            assert(v.child_of(a, e) && v.child_of(p, e));
        }
        if w.child_of(a, c) && !(a == q && c == e) {
            assert(v.links.contains((a, c)));
        }
    }
    assert(links_typed(w)) by {
        assert forall|a: u32, b: u32| #[trigger] w.links.contains((a, b)) implies w.is_entry(b)
            && (w.is_tag(a) || w.is_dir(a)) by {
            if (a, b) != (q, e) {
                assert(v.links.contains((a, b)));
            }
        }
    }
    assert(one_parent(w, root)) by {
        assert forall|c: u32| #[trigger] w.is_entry(c) && c != root implies exists|a: u32|
            w.child_of(a, c) by {
            if c == e {
                assert(w.child_of(q, e));
            } else {
                assert(v.is_entry(c));
                let a = choose|a: u32| v.child_of(a, c);
                assert(w.child_of(a, c));
            }
        }
        assert forall|a1: u32, a2: u32, c: u32| #[trigger]
            w.child_of(a1, c) && #[trigger] w.child_of(a2, c) implies a1 == a2 by {
            if c != e {
                assert(v.child_of(a1, c) && v.child_of(a2, c));
            }
        }
        assert forall|a: u32| !#[trigger] w.child_of(a, root) by {
            assert(!v.child_of(a, root));
        }
    }
    assert(acyclic(w)) by {
        let depth = choose|depth: spec_fn(u32) -> nat| ranked(v, depth);
        let shifted = |x: u32|
            if below(v, e, x) {
                ((depth(x) - depth(e)) + depth(q) + 1) as nat
            } else {
                depth(x)
            };
        assert(ranked(w, shifted)) by {
            assert forall|a: u32, c: u32| #[trigger] w.child_of(a, c) implies shifted(c)
                == shifted(a) + 1 by {
                if a == q && c == e {
                    assert(reaches(v, e, e, 0));
                } else {
                    assert(v.child_of(a, c) && c != e);
                    if below(v, e, c) {
                        let k = choose|k: nat| reaches(v, e, c, k);
                        lemma_reach_depth(v, depth, e, c, k);
                        let a2 = choose|a2: u32| #[trigger]
                            v.child_of(a2, c) && reaches(v, e, a2, (k - 1) as nat);
                        assert(v.child_of(a2, c) && v.child_of(a, c));
                        lemma_reach_depth(v, depth, e, a, (k - 1) as nat);
                        assert(below(v, e, a));
                    } else {
                        if below(v, e, a) {
                            let k = choose|k: nat| reaches(v, e, a, k);
                            lemma_reach_down(v, e, a, c, k);
                        }
                    }
                }
            }
        }
    }
    assert(siblings_distinct(w)) by {
        assert forall|a: u32, c: u32, d: u32| #[trigger]
            w.child_of(a, c) && #[trigger] w.child_of(a, d) && w.nodes[c].name
                == w.nodes[d].name implies c == d by {
            lemma_child_named_is_child(v, q, v.nodes[e].name);
            if c == e && d != e {
                assert(v.child_of(q, d));
            }
            if d == e && c != e {
                assert(v.child_of(q, c));
            }
            if c != e && d != e {
                assert(v.child_of(a, c) && v.child_of(a, d));
            }
        }
    }
    assert(w.child_of(q, e));
    lemma_child_named(w, q, e);
    assert forall|idx: Map<Seq<char>, u32>| indexed(v, idx) implies indexed(w, idx) by {
        assert forall|n: Seq<char>| #[trigger] idx.contains_key(n) implies w.is_tag(idx[n])
            && w.nodes[idx[n]].name == n by {
            assert(v.is_tag(idx[n]));
        }
        assert forall|t: u32| #[trigger] w.is_tag(t) implies idx.contains_key(w.nodes[t].name)
            && idx[w.nodes[t].name] == t by {
            assert(v.is_tag(t));
        }
    }
    assert forall|a: u32, b: u32| v.is_tag(a) implies (#[trigger] w.links.contains((a, b))
        <==> v.links.contains((a, b))) by {}
    if no_orphans(v) {
        assert forall|t: u32| #[trigger] w.is_tag(t) implies exists|y: u32|
            w.links.contains((t, y)) by {
            assert(v.is_tag(t));
            let y = choose|y: u32| v.links.contains((t, y));
            assert(w.links.contains((t, y)));
        }
    }
    assert forall|a: u32, n: Seq<char>| #[trigger]
        w.tags_of(a).contains(n) <==> v.tags_of(a).contains(n) by {
        if w.tags_of(a).contains(n) {
            let t = choose|t: u32| #[trigger] w.tagged(t, a) && w.nodes[t].name == n;
            assert(w.links.contains((t, a)));
            assert(v.tagged(t, a));
        }
        if v.tags_of(a).contains(n) {
            let t = choose|t: u32| #[trigger] v.tagged(t, a) && v.nodes[t].name == n;
            assert(w.links.contains((t, a)));
            assert(w.tagged(t, a));
        }
    }
    assert(content_of(w).labels =~= content_of(v).labels);
    assert(content_of(w).entries =~= content_of(v).entries);
    assert(content_of(w).children =~= content_of(v).children.remove((p, e)).insert((q, e)));
}

/// What the move of `entry` to the place that `names` gives does.
///
/// Something is done if and only if the move can be made. The entry is
/// renamed where the names before the last lead to the directory that it is
/// in, and reparented where they lead to another. Afterwards those names,
/// and then the name that the entry has, lead to the entry; so the whole of
/// `names` leads to it where it was renamed, and where it was reparented
/// and had the last name already. No tag is touched: a renaming leaves
/// every link as it is, and a reparenting changes the one link from the
/// directory to the entry.
pub open spec fn moved(
    g0: &MyGraph,
    g1: &MyGraph,
    root: u32,
    entry: u32,
    names: Seq<Seq<char>>,
    r: MoveOutcome,
) -> bool {
    let v = view_of(g0);
    let w = view_of(g1);
    let q = resolve_spec(v, root, names.drop_last())->0;
    &&& forall|idx: Map<Seq<char>, u32>| indexed(v, idx) ==> indexed(w, idx)
    &&& no_orphans(v) ==> no_orphans(w)
    &&& content_of(w).labels == content_of(v).labels
    &&& r != MoveOutcome::Dropped <==> movable(v, root, entry, names)
    &&& r == MoveOutcome::Renamed <==> movable(v, root, entry, names) && v.child_of(q, entry)
    &&& r == MoveOutcome::Dropped ==> w == v
    &&& r == MoveOutcome::Renamed ==> w.links == v.links && w.nodes == v.nodes.insert(
        entry,
        NodeView { name: names.last(), kind: v.nodes[entry].kind },
    )
    &&& r == MoveOutcome::Reparented ==> w.nodes == v.nodes && w.links == v.links.remove(
        (parent_spec(v, entry)->0, entry),
    ).insert((q, entry)) && content_of(w).children == content_of(v).children.remove(
        (parent_spec(v, entry)->0, entry),
    ).insert((q, entry))
    &&& r != MoveOutcome::Dropped ==> resolve_spec(
        w,
        root,
        names.drop_last().push(w.nodes[entry].name),
    ) == Some(entry)
    &&& r == MoveOutcome::Renamed || (r == MoveOutcome::Reparented && v.nodes[entry].name
        == names.last()) ==> resolve_spec(w, root, names) == Some(entry)
    &&& node_total(g1) == node_total(g0)
    &&& edge_total(g1) == edge_total(g0)
}

/// Moves the entry `entry_index` to the place that `new_path` gives.
///
/// The names of `new_path` before the last must lead to a directory. Where
/// that is the directory that the entry is in, the entry gets the last name
/// of `new_path`. Where it is another, the entry is taken out of its
/// directory and put into that one, under the name it has. The tags of the
/// entry, and all that lies inside it, move with it.
///
/// Nothing is done when the move cannot be made (`movable`): when the
/// directory is not in the graph, when it lies inside the entry, or when it
/// has another entry of that name already.
pub fn move_entry(
    root_index: u32,
    entry_index: u32,
    graph: &mut MyGraph,
    new_path: String,
) -> (r: MoveOutcome)
    requires
        sound(old(graph)),
        links_typed(view_of(old(graph))),
        tree_wf(view_of(old(graph)), root_index),
    ensures
        sound(final(graph)),
        links_typed(view_of(final(graph))),
        tree_wf(view_of(final(graph)), root_index),
        moved(old(graph), final(graph), root_index, entry_index, components_spec(new_path@), r),
{
    let ghost v = view_of(graph);
    let ghost all = components_spec(new_path@);
    match kind_of(graph, entry_index) {
        Some(NodeKind::File) | Some(NodeKind::Directory) => {},
        _ => {
            return MoveOutcome::Dropped;
        },
    }
    if entry_index == root_index {
        return MoveOutcome::Dropped;
    }
    let mut names = components(new_path.as_str());
    if names.len() < 2 {
        return MoveOutcome::Dropped;
    }
    let new_name = names.pop().unwrap();
    proof {
        assert(views(names@) =~= all.drop_last());
        assert(new_name@ == all.last());
    }
    let new_parent_index = match resolve(root_index, graph, &names) {
        Some(q) => q,
        None => {
            return MoveOutcome::Dropped;
        },
    };
    if kind_of(graph, new_parent_index) != Some(NodeKind::Directory) {
        return MoveOutcome::Dropped;
    }
    let parent_index = match parent_of(graph, entry_index) {
        Some(p) => p,
        None => {
            return MoveOutcome::Dropped;
        },
    };
    proof {
        assert(v.child_of(parent_index, entry_index));
        assert(parent_spec(v, entry_index) == Some(parent_index)) by {
            let up = choose|up: u32| v.child_of(up, entry_index);
            assert(v.child_of(up, entry_index) && v.child_of(parent_index, entry_index));
        }
        if v.child_of(new_parent_index, entry_index) {
            assert(v.child_of(new_parent_index, entry_index) && v.child_of(
                parent_index,
                entry_index,
            ));
        }
    }
    if parent_index == new_parent_index {
        let mut found = false;
        let other = find_parent(graph, new_parent_index, &new_name, &mut found);
        if found && other != entry_index {
            return MoveOutcome::Dropped;
        }
        rename_node(graph, entry_index, new_name);
        proof {
            let w = view_of(graph);
            lemma_rename(v, w, root_index, parent_index, entry_index, all.last());
            assert(!below(v, entry_index, parent_index)) by {
                if below(v, entry_index, parent_index) {
                    let depth = choose|depth: spec_fn(u32) -> nat| ranked(v, depth);
                    let k = choose|k: nat| reaches(v, entry_index, parent_index, k);
                    lemma_reach_depth(v, depth, entry_index, parent_index, k);
                }
            }
            lemma_resolve_outside(v, w, root_index, entry_index, all.drop_last());
            assert(all.drop_last().push(all.last()).drop_last() =~= all.drop_last());
            assert(all.drop_last().push(all.last()) =~= all);
        }
        MoveOutcome::Renamed
    } else {
        if is_inside(graph, root_index, entry_index, new_parent_index) {
            return MoveOutcome::Dropped;
        }
        let name = match node_weight(graph, entry_index) {
            Some(node) => node.name.clone(),
            None => {
                return MoveOutcome::Dropped;
            },
        };
        let mut found = false;
        find_parent(graph, new_parent_index, &name, &mut found);
        if found {
            return MoveOutcome::Dropped;
        }
        unlink(graph, parent_index, entry_index);
        proof {
            assert(!view_of(graph).links.contains((new_parent_index, entry_index))) by {
                if v.links.contains((new_parent_index, entry_index)) {
                    assert(v.child_of(new_parent_index, entry_index));
                }
            }
        }
        link(graph, new_parent_index, entry_index);
        proof {
            let w = view_of(graph);
            lemma_reparent(v, w, root_index, parent_index, new_parent_index, entry_index);
            lemma_resolve_outside(v, w, root_index, entry_index, all.drop_last());
            assert(all.drop_last().push(v.nodes[entry_index].name).drop_last() =~= all.drop_last());
            assert(all.drop_last().push(all.last()) =~= all);
        }
        MoveOutcome::Reparented
    }
}

} // verus!
