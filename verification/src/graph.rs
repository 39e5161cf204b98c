//! The graph of entries and tags, and the operations that keep it in step
//! with the filesystem.

use vstd::prelude::*;
pub use crate::node::{Nil, Node, NodeKind};
pub use crate::store::MyGraph;
pub use crate::paths::local_path;
pub use crate::moving::move_entry;
pub use crate::prune::{entries_to_remove, remove_entries};
pub use crate::tags::{add_tags, get_tags, remove_tags, update_tags};
use crate::node::NodeView;
use crate::store::node_weight;
use crate::links::{
    GraphView,
    view_of,
    sound,
    targets,
    kind_of,
    fresh_node,
    link,
    room_for,
    has_room,
    node_total,
    edge_total,
    empty_graph,
};
use crate::index::TagIndex;
use crate::text::views;
use crate::paths::components;
use crate::tree::{
    tree_wf,
    links_typed,
    indexed,
    no_orphans,
    siblings_distinct,
    child_named,
    resolve_spec,
    components_spec,
    lemma_child_named,
    well_formed,
    tags_wf,
    content_of,
    lemma_same_tree,
    lemma_same_tree_wf,
    lemma_same_tree_child_named,
    lemma_child_named_is_child,
    ranked,
};
use crate::grow::{grown, lemma_grow_leaf, lemma_grown_resolve, lemma_grown_trans};
use crate::tags::{refresh, fresh_names, labels_for};

verus! {

/// Looks in the directory `index` for an entry named `entry`. Returns the
/// entry and sets `found` if there is one; returns `index` itself and clears
/// `found` if there is none, or if `index` is no directory.
pub fn find_parent(graph: &MyGraph, index: u32, entry: &String, found: &mut bool) -> (r: u32)
    requires
        sound(graph),
        siblings_distinct(view_of(graph)),
    ensures
        match child_named(view_of(graph), index, entry@) {
            Some(c) => *final(found) && r == c,
            None => !*final(found) && r == index,
        },
{
    let ghost v = view_of(graph);
    if kind_of(graph, index) != Some(NodeKind::Directory) {
        *found = false;
        return index;
    }
    let neighbors = targets(graph, index);
    let mut i: usize = 0;
    while i < neighbors.len()
        invariant
            i <= neighbors@.len(),
            v == view_of(graph),
            v.is_dir(index),
            siblings_distinct(v),
            forall|b: u32| neighbors@.contains(b) <==> v.links.contains((index, b)),
            forall|j: int| 0 <= j < i ==> !(#[trigger] v.child_of(index, neighbors@[j]) && v.nodes[neighbors@[j]].name == entry@),
        decreases neighbors@.len() - i,
    {
        let neighbor = neighbors[i];
        proof {
            assert(neighbors@.contains(neighbor));
        }
        match node_weight(graph, neighbor) {
            Some(data) => {
                if data.kind != NodeKind::Tag && data.name == *entry {
                    proof {
                        assert(v.child_of(index, neighbor));
                        lemma_child_named(v, index, neighbor);
                    }
                    *found = true;
                    return neighbor;
                }
            },
            None => {},
        }
        i += 1;
    }
    proof {
        assert forall|c: u32| #[trigger] v.child_of(index, c) implies v.nodes[c].name != entry@ by {
            assert(neighbors@.contains(c));
            let j = choose|j: int| 0 <= j < neighbors@.len() && neighbors@[j] == c;
            assert(!(v.child_of(index, neighbors@[j]) && v.nodes[neighbors@[j]].name == entry@));
        }
    }
    *found = false;
    index
}

/// The entry that `path` leads to, if it leads to one. The first name in the
/// path must be the name of the root; each further name is looked up in the
/// directory reached so far, and the search ends with `None` at the first
/// name that is not found.
pub fn get_node_index(root_index: u32, graph: &MyGraph, path: String) -> (r: Option<u32>)
    requires
        sound(graph),
        tree_wf(view_of(graph), root_index),
    ensures
        r == resolve_spec(view_of(graph), root_index, components_spec(path@)),
{
    let names = components(path.as_str());
    resolve(root_index, graph, &names)
}

/// The entry that a list of names leads to from the root.
pub fn resolve(root_index: u32, graph: &MyGraph, names: &Vec<String>) -> (r: Option<u32>)
    requires
        sound(graph),
        tree_wf(view_of(graph), root_index),
    ensures
        r == resolve_spec(view_of(graph), root_index, views(names@)),
{
    let ghost v = view_of(graph);
    let ghost all = views(names@);
    if names.len() == 0 {
        return None;
    }
    let root_node = node_weight(graph, root_index).unwrap();
    proof {
        assert(all.take(1) =~= seq![all[0]]);
    }
    if root_node.name != names[0] {
        proof {
            lemma_resolve_prefix_none(v, root_index, all, 1);
        }
        return None;
    }
    let mut cur = root_index;
    let mut i: usize = 1;
    while i < names.len()
        invariant
            1 <= i <= names@.len(),
            all == views(names@),
            v == view_of(graph),
            sound(graph),
            tree_wf(v, root_index),
            resolve_spec(v, root_index, all.take(i as int)) == Some(cur),
        decreases names@.len() - i,
    {
        let mut found = false;
        let next = find_parent(graph, cur, &names[i], &mut found);
        proof {
            assert(all.take(i + 1).drop_last() =~= all.take(i as int));
            assert(all.take(i + 1).last() == names@[i as int]@);
        }
        if !found {
            proof {
                lemma_resolve_prefix_none(v, root_index, all, i + 1);
            }
            return None;
        }
        cur = next;
        i += 1;
    }
    proof {
        assert(all.take(i as int) =~= all);
    }
    Some(cur)
}

/// Where a first part of the names leads nowhere, the whole list leads
/// nowhere.
pub proof fn lemma_resolve_prefix_none(v: GraphView, root: u32, names: Seq<Seq<char>>, k: int)
    requires
        1 <= k <= names.len(),
        resolve_spec(v, root, names.take(k)) is None,
    ensures
        resolve_spec(v, root, names) is None,
    decreases names.len() - k,
{
    if k == names.len() {
        assert(names.take(k) =~= names);
    } else {
        assert(names.take(k + 1).drop_last() =~= names.take(k));
        lemma_resolve_prefix_none(v, root, names, k + 1);
    }
}

/// What the filesystem says of one path: whether it is a directory, and the
/// tags that the tag reader reports for it (`None` where it reports no tag
/// attribute).
#[derive(Debug)]
pub struct Probe {
    pub directory: bool,
    pub tags: Option<Vec<String>>,
}

/// The kind of node that stands for a probed path.
pub open spec fn probe_kind(p: Probe) -> NodeKind {
    if p.directory {
        NodeKind::Directory
    } else {
        NodeKind::File
    }
}

/// There is a probe for the name at position `i`.
pub open spec fn probed(probes: Seq<Option<Probe>>, i: int) -> bool {
    0 <= i < probes.len() && probes[i] is Some
}

/// How many of the first names lead somewhere: the length of the longest
/// first part of `names` that leads to an entry.
pub open spec fn known_prefix(v: GraphView, root: u32, names: Seq<Seq<char>>) -> nat
    decreases names.len(),
{
    if names.len() == 0 {
        0
    } else if resolve_spec(v, root, names) is Some {
        names.len()
    } else {
        known_prefix(v, root, names.drop_last())
    }
}

/// The room that the entries for the names from `from` up to `to` take: one
/// node and one link for each, and as many again as it has tags.
pub open spec fn weight(probes: Seq<Option<Probe>>, from: int, to: int) -> nat
    decreases to - from,
{
    if from >= to {
        0
    } else {
        weight(probes, from, to - 1) + 1 + fresh_names(probes[to - 1]->0.tags).len()
    }
}

/// The path can be completed: its first name is the root's, what is there of
/// it ends in a directory, there is a probe for each name that is missing,
/// and each of those but the last is probed as a directory.
pub open spec fn addable(
    v: GraphView,
    root: u32,
    names: Seq<Seq<char>>,
    probes: Seq<Option<Probe>>,
) -> bool {
    let k = known_prefix(v, root, names) as int;
    &&& k >= 1
    &&& k < names.len() ==> v.is_dir(resolve_spec(v, root, names.take(k))->0)
    &&& forall|i: int| k <= i < names.len() ==> probed(probes, i)
    &&& forall|i: int| k <= i < names.len() - 1 ==> (#[trigger] probes[i])->0.directory
}

/// The name at position `m` leads to an entry that is as the probe for it
/// says: of that name and kind, with those tags.
pub open spec fn as_probed(
    w: GraphView,
    root: u32,
    names: Seq<Seq<char>>,
    probes: Seq<Option<Probe>>,
    m: int,
) -> bool {
    let a = resolve_spec(w, root, names.take(m + 1));
    &&& a is Some
    &&& w.nodes[a->0] == (NodeView { name: names[m], kind: probe_kind(probes[m]->0) })
    &&& w.tags_of(a->0) == fresh_names(probes[m]->0.tags).to_set()
}

/// What adding the path with the names `names` does.
///
/// The result is the entry that the names lead to afterwards. There is one
/// if and only if the path can be completed and the graph has the room for
/// what is missing of it. Then each name that led nowhere before leads to
/// an entry that is as its probe says, and the graph has grown by those
/// entries and by nothing else, taking no more room than the weight of what
/// was missing. Where there is no result, and where the path was there
/// already, nothing changes.
pub open spec fn added(
    g0: &MyGraph,
    g1: &MyGraph,
    idx0: Map<Seq<char>, u32>,
    idx1: Map<Seq<char>, u32>,
    root: u32,
    names: Seq<Seq<char>>,
    probes: Seq<Option<Probe>>,
    r: Option<u32>,
) -> bool {
    let v = view_of(g0);
    let w = view_of(g1);
    let k = known_prefix(v, root, names) as int;
    &&& grown(v, w)
    &&& r == resolve_spec(w, root, names)
    &&& r is Some <==> addable(v, root, names, probes) && (k == names.len() || has_room(
        g0,
        weight(probes, k, names.len() as int),
    ))
    &&& r is None || resolve_spec(v, root, names) is Some ==> w == v && idx1 == idx0
        && node_total(g1) == node_total(g0) && edge_total(g1) == edge_total(g0)
    &&& node_total(g1) <= node_total(g0) + weight(probes, k, names.len() as int)
    &&& edge_total(g1) <= edge_total(g0) + weight(probes, k, names.len() as int)
    &&& r is Some ==> forall|m: int| k <= m < names.len() ==> as_probed(w, root, names, probes, m)
    &&& forall|a: u32|
        w.is_entry(a) && !v.is_entry(a) ==> exists|m: int|
            0 <= m < names.len() && #[trigger] resolve_spec(w, root, names.take(m + 1)) == Some(a)
}

/// The longest first part of the names that leads somewhere is the one
/// after which the next name finds nothing.
pub proof fn lemma_known_prefix(v: GraphView, root: u32, names: Seq<Seq<char>>, j: int)
    requires
        0 <= j <= names.len(),
        j >= 1 ==> resolve_spec(v, root, names.take(j)) is Some,
        j < names.len() ==> resolve_spec(v, root, names.take(j + 1)) is None,
    ensures
        known_prefix(v, root, names) == j,
    decreases names.len(),
{
    if names.len() == 0 {
    } else if j == names.len() {
        assert(names.take(j) =~= names);
    } else {
        lemma_resolve_prefix_none(v, root, names, j + 1);
        let shorter = names.drop_last();
        assert(shorter.take(j) =~= names.take(j));
        if j < shorter.len() {
            assert(shorter.take(j + 1) =~= names.take(j + 1));
        }
        lemma_known_prefix(v, root, shorter, j);
    }
}

proof fn lemma_weight_split(probes: Seq<Option<Probe>>, from: int, to: int)
    requires
        from < to,
    ensures
        weight(probes, from, to) == 1 + fresh_names(probes[from]->0.tags).len() + weight(
            probes,
            from + 1,
            to,
        ),
    decreases to - from,
{
    if from + 1 < to {
        lemma_weight_split(probes, from, to - 1);
    } else {
        assert(weight(probes, from, to - 1) == 0);
        assert(weight(probes, from + 1, to) == 0);
    }
}

/// Walks down from the root along the names for as long as they are found.
/// Returns where the walk ended and how many names led there; `(root, 0)`
/// when not even the first name, which must be the root's, fits.
fn walk_known(root_index: u32, graph: &MyGraph, names: &Vec<String>) -> (r: (u32, usize))
    requires
        sound(graph),
        tree_wf(view_of(graph), root_index),
    ensures
        r.1 == known_prefix(view_of(graph), root_index, views(names@)),
        r.1 <= names@.len(),
        r.1 >= 1 ==> resolve_spec(view_of(graph), root_index, views(names@).take(r.1 as int))
            == Some(r.0),
        1 <= r.1 < names@.len() ==> child_named(
            view_of(graph),
            r.0,
            views(names@)[r.1 as int],
        ) is None,
{
    let ghost v = view_of(graph);
    let ghost all = views(names@);
    if names.len() == 0 {
        return (root_index, 0);
    }
    let root_node = node_weight(graph, root_index).unwrap();
    proof {
        assert(all.take(1) =~= seq![all[0]]);
    }
    if root_node.name != names[0] {
        proof {
            lemma_known_prefix(v, root_index, all, 0);
        }
        return (root_index, 0);
    }
    let mut cur = root_index;
    let mut i: usize = 1;
    while i < names.len()
        invariant
            1 <= i <= names@.len(),
            all == views(names@),
            v == view_of(graph),
            sound(graph),
            tree_wf(v, root_index),
            resolve_spec(v, root_index, all.take(i as int)) == Some(cur),
        decreases names@.len() - i,
    {
        let mut found = false;
        let next = find_parent(graph, cur, &names[i], &mut found);
        proof {
            assert(all.take(i + 1).drop_last() =~= all.take(i as int));
            assert(all.take(i + 1).last() == names@[i as int]@);
        }
        if !found {
            proof {
                lemma_known_prefix(v, root_index, all, i as int);
            }
            return (cur, i);
        }
        cur = next;
        i += 1;
    }
    proof {
        lemma_known_prefix(v, root_index, all, i as int);
    }
    (cur, i)
}

/// Whether there is what it takes to add the names from `from` on, and the
/// room that this asks for; `None` where a probe is missing, where one that
/// must be a directory is none, or where the room cannot be counted.
fn count_need(probes: &Vec<Option<Probe>>, from: usize, to: usize) -> (r: Option<usize>)
    requires
        from <= to,
    ensures
        r is Some ==> r->0 == weight(probes@, from as int, to as int),
        r is Some ==> forall|i: int| from <= i < to ==> probed(probes@, i),
        r is Some ==> forall|i: int| from <= i < to - 1 ==> (#[trigger] probes@[i])->0.directory,
        r is None ==> !(forall|i: int| from <= i < to ==> probed(probes@, i)) || !(forall|i: int|
            from <= i < to - 1 ==> (#[trigger] probes@[i])->0.directory) || weight(
            probes@,
            from as int,
            to as int,
        ) > usize::MAX,
{
    let mut need: usize = 0;
    let mut i: usize = from;
    while i < to
        invariant
            from <= i <= to,
            need == weight(probes@, from as int, i as int),
            forall|m: int| from <= m < i ==> probed(probes@, m),
            forall|m: int| from <= m < i && m < to - 1 ==> (#[trigger] probes@[m])->0.directory,
        decreases to - i,
    {
        if i >= probes.len() {
            proof {
                assert(!probed(probes@, i as int));
            }
            return None;
        }
        match &probes[i] {
            None => {
                proof {
                    assert(!probed(probes@, i as int));
                }
                return None;
            },
            Some(probe) => {
                if i + 1 < to && !probe.directory {
                    proof {
                        assert(!(probes@[i as int])->0.directory);
                    }
                    return None;
                }
                let tags: usize = match &probe.tags {
                    Some(t) => t.len(),
                    None => 0,
                };
                proof {
                    assert(weight(probes@, from as int, i + 1) == need + 1 + tags);
                    lemma_weight_grows(probes@, from as int, i + 1, to as int);
                }
                if tags == usize::MAX || need > usize::MAX - 1 - tags {
                    return None;
                }
                need = need + 1 + tags;
            },
        }
        i += 1;
    }
    Some(need)
}

proof fn lemma_weight_grows(probes: Seq<Option<Probe>>, from: int, mid: int, to: int)
    requires
        from <= mid <= to,
    ensures
        weight(probes, from, mid) <= weight(probes, from, to),
    decreases to - mid,
{
    if mid < to {
        lemma_weight_grows(probes, from, mid, to - 1);
    }
}

/// Adds to the graph what is missing of the path `local_path`.
///
/// The names of the path are looked up from the root down. Those that are
/// found are left as they are. From the first that is not found on, each
/// name gets a new entry in the entry before it, of the kind and with the
/// tags that its probe gives: `probes[i]` is what the filesystem says of the
/// path up to and with its name at position `i`, the root's name being at
/// position 0.
///
/// Returns the entry that the path then leads to. Returns `None`, and
/// changes nothing, when the path cannot be completed (`addable`) or the
/// graph has not the room for what is missing.
pub fn make_subgraph(
    root_index: u32,
    tags_index: &mut TagIndex,
    graph: &mut MyGraph,
    local_path: String,
    probes: &Vec<Option<Probe>>,
) -> (r: Option<u32>)
    requires
        well_formed(old(graph), old(tags_index), root_index),
    ensures
        well_formed(final(graph), final(tags_index), root_index),
        added(
            old(graph),
            final(graph),
            old(tags_index)@,
            final(tags_index)@,
            root_index,
            components_spec(local_path@),
            probes@,
            r,
        ),
{
    let ghost v = view_of(graph);
    let ghost idx = tags_index@;
    let names = components(local_path.as_str());
    let ghost all = views(names@);
    let (start, known) = walk_known(root_index, graph, &names);
    proof {
        assert(grown(v, v));
    }
    if known == 0 {
        proof {
            lemma_known_none(v, root_index, all);
        }
        return None;
    }
    if known == names.len() {
        proof {
            assert(all.take(known as int) =~= all);
        }
        return Some(start);
    }
    proof {
        lemma_resolve_prefix_none_from_child(v, root_index, all, known as int, start);
    }
    if kind_of(graph, start) != Some(NodeKind::Directory) {
        return None;
    }
    let need = match count_need(probes, known, names.len()) {
        Some(need) => need,
        None => {
            proof {
                if weight(probes@, known as int, names@.len() as int) > usize::MAX {
                    assert(!has_room(graph, weight(probes@, known as int, names@.len() as int)));
                }
            }
            return None;
        },
    };
    if !room_for(graph, need) {
        return None;
    }
    let mut cur = start;
    let mut i: usize = known;
    while i < names.len()
        invariant
            1 <= known <= i <= names@.len(),
            all == views(names@),
            tags_wf(graph, tags_index),
            tree_wf(view_of(graph), root_index),
            tree_wf(v, root_index),
            grown(v, view_of(graph)),
            resolve_spec(view_of(graph), root_index, all.take(i as int)) == Some(cur),
            i < names@.len() ==> view_of(graph).is_dir(cur) && child_named(
                view_of(graph),
                cur,
                all[i as int],
            ) is None,
            forall|m: int| known <= m < names@.len() ==> probed(probes@, m),
            forall|m: int| known <= m < names@.len() - 1 ==> (#[trigger] probes@[m])->0.directory,
            node_total(graph) + weight(probes@, i as int, names@.len() as int) < u32::MAX,
            edge_total(graph) + weight(probes@, i as int, names@.len() as int) < u32::MAX,
            node_total(graph) + weight(probes@, i as int, names@.len() as int) <= node_total(
                old(graph),
            ) + weight(probes@, known as int, names@.len() as int),
            edge_total(graph) + weight(probes@, i as int, names@.len() as int) <= edge_total(
                old(graph),
            ) + weight(probes@, known as int, names@.len() as int),
            forall|m: int| known <= m < i ==> as_probed(view_of(graph), root_index, all, probes@, m),
            forall|a: u32|
                view_of(graph).is_entry(a) && !v.is_entry(a) ==> exists|m: int|
                    0 <= m < i && #[trigger] resolve_spec(
                        view_of(graph),
                        root_index,
                        all.take(m + 1),
                    ) == Some(a),
        decreases names@.len() - i,
    {
        let ghost w0 = view_of(graph);
        let ghost idx0 = tags_index@;
        proof {
            lemma_weight_split(probes@, i as int, names@.len() as int);
            assert(probed(probes@, i as int));
        }
        let probe = match &probes[i] {
            Some(probe) => probe,
            None => {
                return None;
            },
        };
        let kind = if probe.directory {
            NodeKind::Directory
        } else {
            NodeKind::File
        };
        let node = fresh_node(graph, Node::new(names[i].clone(), kind));
        link_new(graph, cur, node);
        let ghost w1 = view_of(graph);
        proof {
            assert(!w0.links.contains((cur, node))) by {
                if w0.links.contains((cur, node)) {
                    assert(w0.is_entry(node));
                }
            }
            lemma_grow_leaf(
                w0,
                w1,
                idx0,
                root_index,
                cur,
                node,
                NodeView { name: all[i as int], kind: kind },
            );
        }
        let done = match &probe.tags {
            Some(tags) => refresh(tags, tags_index, graph, node),
            None => {
                let none: Vec<String> = Vec::new();
                proof {
                    assert(views(none@) =~= fresh_names(probe.tags));
                }
                refresh(&none, tags_index, graph, node)
            },
        };
        let ghost w2 = view_of(graph);
        proof {
            assert(done);
            lemma_same_tree(w1, w2);
            lemma_same_tree_wf(w1, w2, root_index);
            assert(grown(w0, w2)) by {
                assert forall|a: u32, n: Seq<char>| w0.is_entry(a) implies (#[trigger] w2.tags_of(
                    a,
                ).contains(n) <==> w0.tags_of(a).contains(n)) by {
                    assert(a != node);
                    assert(content_of(w2).labels.contains((a, n)) <==> content_of(
                        w1,
                    ).labels.contains((a, n)));
                    assert(content_of(w1).labels.contains((a, n)) <==> content_of(
                        w0,
                    ).labels.contains((a, n)));
                }
                assert forall|p: u32, c: u32| #[trigger]
                    w2.child_of(p, c) && w0.is_entry(c) implies w0.child_of(p, c) by {
                    assert(w1.child_of(p, c));
                }
            }
            lemma_grown_trans(v, w0, w2);
            lemma_grown_resolve(w0, w2, root_index, all.take(i as int));
            assert(all.take(i + 1).drop_last() =~= all.take(i as int));
            lemma_same_tree_child_named(w1, w2, root_index, cur, all[i as int]);
            assert(resolve_spec(w2, root_index, all.take(i + 1)) == Some(node));
            assert forall|m: int| known <= m < i + 1 implies as_probed(
                w2,
                root_index,
                all,
                probes@,
                m,
            ) by {
                if m < i {
                    assert(as_probed(w0, root_index, all, probes@, m));
                    lemma_grown_resolve(w0, w2, root_index, all.take(m + 1));
                    let a = resolve_spec(w0, root_index, all.take(m + 1))->0;
                    crate::tree::lemma_resolve_step(w0, root_index, all.take(m + 1));
                    assert(w0.is_entry(a));
                    assert(w2.tags_of(a) =~= w0.tags_of(a));
                } else {
                    assert(w2.nodes[node] == w1.nodes[node]);
                }
            }
            assert forall|a: u32| w2.is_entry(a) && !v.is_entry(a) implies exists|m: int|
                0 <= m < i + 1 && #[trigger] resolve_spec(w2, root_index, all.take(m + 1))
                    == Some(a) by {
                if a == node {
                    assert(resolve_spec(w2, root_index, all.take(i + 1)) == Some(a));
                } else {
                    assert(w1.is_entry(a));
                    assert(w0.is_entry(a));
                    let m = choose|m: int|
                        0 <= m < i && #[trigger] resolve_spec(w0, root_index, all.take(m + 1))
                            == Some(a);
                    lemma_grown_resolve(w0, w2, root_index, all.take(m + 1));
                    assert(resolve_spec(w2, root_index, all.take(m + 1)) == Some(a));
                }
            }
            if i + 1 < names@.len() {
                assert(probes@[i as int]->0.directory);
                assert(w2.is_dir(node));
                lemma_child_named_is_child(w2, node, all[i + 1]);
                if child_named(w2, node, all[i + 1]) is Some {
                    let c = child_named(w2, node, all[i + 1])->0;
                    assert(w1.child_of(node, c));
                }
            }
        }
        cur = node;
        i += 1;
    }
    proof {
        assert(all.take(i as int) =~= all);
    }
    Some(cur)
}

/// Links a directory to an entry that was just made.
fn link_new(graph: &mut MyGraph, parent: u32, node: u32)
    requires
        sound(old(graph)),
        view_of(old(graph)).nodes.contains_key(parent),
        view_of(old(graph)).nodes.contains_key(node),
        !view_of(old(graph)).links.contains((parent, node)),
        edge_total(old(graph)) < u32::MAX,
    ensures
        sound(final(graph)),
        view_of(final(graph)).nodes == view_of(old(graph)).nodes,
        view_of(final(graph)).links == view_of(old(graph)).links.insert((parent, node)),
        node_total(final(graph)) == node_total(old(graph)),
        edge_total(final(graph)) == edge_total(old(graph)) + 1,
{
    link(graph, parent, node);
}

/// Where not even the first name fits the root, no first part of the names
/// leads anywhere.
proof fn lemma_known_none(v: GraphView, root: u32, names: Seq<Seq<char>>)
    requires
        known_prefix(v, root, names) == 0,
    ensures
        resolve_spec(v, root, names) is None,
{
}

/// Where the name after the known part finds nothing, the whole list leads
/// nowhere.
proof fn lemma_resolve_prefix_none_from_child(
    v: GraphView,
    root: u32,
    names: Seq<Seq<char>>,
    k: int,
    at: u32,
)
    requires
        1 <= k < names.len(),
        resolve_spec(v, root, names.take(k)) == Some(at),
        child_named(v, at, names[k]) is None,
    ensures
        resolve_spec(v, root, names) is None,
{
    assert(names.take(k + 1).drop_last() =~= names.take(k));
    lemma_resolve_prefix_none(v, root, names, k + 1);
}

/// One path that the walk over the watched tree came upon: its path from the
/// watched root down, and its probes as `make_subgraph` takes them.
#[derive(Debug)]
pub struct ScanEntry {
    pub path: String,
    pub probes: Vec<Option<Probe>>,
}

/// The graph and the index at one moment of the bootstrap.
pub struct Stage {
    pub graph: MyGraph,
    pub index: Map<Seq<char>, u32>,
}

/// From stage `i` to the next, the path of the scan entry at position `i`
/// was added.
pub open spec fn stage_added(trail: Seq<Stage>, root: u32, entries: Seq<ScanEntry>, i: int) -> bool {
    exists|r: Option<u32>| #[trigger]
        added(
            &trail[i].graph,
            &trail[i + 1].graph,
            trail[i].index,
            trail[i + 1].index,
            root,
            components_spec(entries[i].path@),
            entries[i].probes@,
            r,
        )
}

/// The first stage: the root alone, a directory of the given name, with the
/// given tags if the graph has the room for them; it has no more nodes than
/// the root and a node for each tag, and no more edges than tags.
pub open spec fn stage_first(
    stage: Stage,
    root: u32,
    name: Seq<char>,
    tags: Seq<Seq<char>>,
) -> bool {
    let v = view_of(&stage.graph);
    &&& content_of(v).entries == Map::<u32, NodeView>::empty().insert(
        root,
        NodeView { name: name, kind: NodeKind::Directory },
    )
    &&& content_of(v).children == Set::<(u32, u32)>::empty()
    &&& content_of(v).labels == (if tags.len() + 1 < u32::MAX {
        labels_for(root, tags)
    } else {
        Set::<(u32, Seq<char>)>::empty()
    })
    &&& node_total(&stage.graph) <= 1 + tags.len()
    &&& edge_total(&stage.graph) <= tags.len()
}

/// The graph and the index of a stage are as they are kept between any two
/// operations.
pub open spec fn stage_wf(stage: Stage, root: u32) -> bool {
    let v = view_of(&stage.graph);
    &&& sound(&stage.graph)
    &&& links_typed(v)
    &&& indexed(v, stage.index)
    &&& no_orphans(v)
    &&& tree_wf(v, root)
}

/// The stages of a bootstrap: the first is the root alone, each scan entry
/// leads from one stage to the next, and every stage is well formed.
pub open spec fn scanned(
    trail: Seq<Stage>,
    root: u32,
    name: Seq<char>,
    tags: Seq<Seq<char>>,
    entries: Seq<ScanEntry>,
) -> bool {
    &&& trail.len() == entries.len() + 1
    &&& stage_first(trail[0], root, name, tags)
    &&& forall|i: int| 0 <= i < trail.len() ==> stage_wf(#[trigger] trail[i], root)
    &&& forall|i: int| 0 <= i < entries.len() ==> #[trigger] stage_added(trail, root, entries, i)
}

/// Builds the graph of a watched tree from what a walk over it found.
///
/// The root is the directory named by what `path_root` has beyond
/// `base_path`, with the tags `root_tags`. The paths of `entries` are then
/// added one after the other, as `make_subgraph` adds them; one that cannot
/// be added is passed over. Every entry of the graph but the root then lies
/// on the path of a scan entry.
///
/// Returns the graph, the index and the handle of the root.
pub fn make_graph(
    path_root: String,
    base_path: String,
    root_tags: Option<Vec<String>>,
    entries: Vec<ScanEntry>,
) -> (r: (MyGraph, TagIndex, u32))
    requires
        base_path@.is_prefix_of(path_root@),
    ensures
        well_formed(&r.0, &r.1, r.2),
        view_of(&r.0).nodes[r.2].name == path_root@.skip(base_path@.len() as int),
        view_of(&r.0).tags_of(r.2) == (if fresh_names(root_tags).len() + 1 < u32::MAX {
            fresh_names(root_tags).to_set()
        } else {
            Set::<Seq<char>>::empty()
        }),
        forall|a: u32|
            view_of(&r.0).is_entry(a) && a != r.2 ==> exists|j: int, m: int|
                0 <= j < entries@.len() && 0 <= m && #[trigger] resolve_spec(
                    view_of(&r.0),
                    r.2,
                    components_spec(entries@[j].path@).take(m + 1),
                ) == Some(a),
        exists|trail: Seq<Stage>| #[trigger]
            scanned(
                trail,
                r.2,
                path_root@.skip(base_path@.len() as int),
                fresh_names(root_tags),
                entries@,
            ) && trail.last().graph == r.0 && trail.last().index == r.1@,
{
    let mut graph = empty_graph();
    let mut tags_index = TagIndex::new();
    let mut absolute = path_root;
    let local_root = local_path(&mut absolute, base_path);
    let ghost name = local_root@;
    let ghost tags = fresh_names(root_tags);
    let root_index = fresh_node(&mut graph, Node::new(local_root, NodeKind::Directory));
    let ghost v0 = view_of(&graph);
    proof {
        assert(v0.nodes =~= Map::<u32, NodeView>::empty().insert(
            root_index,
            NodeView { name: name, kind: NodeKind::Directory },
        ));
        assert forall|p: u32, c: u32| !#[trigger] v0.child_of(p, c) by {}
        assert(ranked(v0, |x: u32| 0nat));
        assert(well_formed(&graph, &tags_index, root_index));
        assert forall|a: u32, n: Seq<char>| !#[trigger] v0.tags_of(a).contains(n) by {
            if v0.tags_of(a).contains(n) {
                let t = choose|t: u32| #[trigger] v0.tagged(t, a) && v0.nodes[t].name == n;
            }
        }
        assert(content_of(v0).labels =~= Set::<(u32, Seq<char>)>::empty());
        assert(content_of(v0).entries =~= Map::<u32, NodeView>::empty().insert(
            root_index,
            NodeView { name: name, kind: NodeKind::Directory },
        ));
        assert(content_of(v0).children =~= Set::<(u32, u32)>::empty());
    }
    let done = update_tags(root_tags, &mut tags_index, &mut graph, root_index);
    let ghost mut trail: Seq<Stage> = Seq::empty();
    let ghost top = if tags.len() + 1 < u32::MAX {
        tags.to_set()
    } else {
        Set::<Seq<char>>::empty()
    };
    proof {
        let v1 = view_of(&graph);
        lemma_same_tree_wf(v0, v1, root_index);
        lemma_same_tree(v0, v1);
        if done {
            assert(content_of(v1).labels =~= labels_for(root_index, tags));
        } else {
            assert(v1.tags_of(root_index) =~= Set::<Seq<char>>::empty());
        }
        assert(forall|a: u32| v1.is_entry(a) ==> a == root_index);
        trail = trail.push(Stage { graph: graph, index: tags_index@ });
    }
    let mut i: usize = 0;
    while i < entries.len()
        invariant
            i <= entries@.len(),
            well_formed(&graph, &tags_index, root_index),
            view_of(&graph).nodes[root_index].name == name,
            trail.len() == i + 1,
            stage_first(trail[0], root_index, name, tags),
            forall|j: int| 0 <= j < trail.len() ==> stage_wf(#[trigger] trail[j], root_index),
            forall|j: int| 0 <= j < i ==> #[trigger] stage_added(trail, root_index, entries@, j),
            trail.last().graph == graph,
            trail.last().index == tags_index@,
            view_of(&graph).tags_of(root_index) == top,
            forall|a: u32|
                view_of(&graph).is_entry(a) && a != root_index ==> exists|j: int, m: int|
                    0 <= j < i && 0 <= m && #[trigger] resolve_spec(
                        view_of(&graph),
                        root_index,
                        components_spec(entries@[j].path@).take(m + 1),
                    ) == Some(a),
        decreases entries@.len() - i,
    {
        let ghost before = trail;
        let ghost g0 = graph;
        let ghost idx0 = tags_index@;
        let path = entries[i].path.clone();
        let r = make_subgraph(root_index, &mut tags_index, &mut graph, path, &entries[i].probes);
        proof {
            trail = trail.push(Stage { graph: graph, index: tags_index@ });
            assert(added(
                &trail[i as int].graph,
                &trail[i + 1].graph,
                trail[i as int].index,
                trail[i + 1].index,
                root_index,
                components_spec(entries@[i as int].path@),
                entries@[i as int].probes@,
                r,
            ));
            assert(stage_added(trail, root_index, entries@, i as int));
            assert forall|j: int| 0 <= j < trail.len() implies stage_wf(
                #[trigger] trail[j],
                root_index,
            ) by {
                if j < before.len() {
                    assert(trail[j] == before[j]);
                }
            }
            assert forall|j: int| 0 <= j < i + 1 implies #[trigger] stage_added(
                trail,
                root_index,
                entries@,
                j,
            ) by {
                if j < i {
                    assert(stage_added(before, root_index, entries@, j));
                    assert(before[j] == trail[j] && before[j + 1] == trail[j + 1]);
                }
            }
            let v = view_of(&g0);
            let w = view_of(&graph);
            assert(v.is_entry(root_index));
            assert(w.tags_of(root_index) =~= v.tags_of(root_index)) by {
                assert forall|n: Seq<char>| w.tags_of(root_index).contains(n) <==> v.tags_of(
                    root_index,
                ).contains(n) by {}
            }
            assert forall|a: u32| w.is_entry(a) && a != root_index implies exists|j: int, m: int|
                0 <= j < i + 1 && 0 <= m && #[trigger] resolve_spec(
                    w,
                    root_index,
                    components_spec(entries@[j].path@).take(m + 1),
                ) == Some(a) by {
                if v.is_entry(a) {
                    let (j, m) = choose|j: int, m: int|
                        0 <= j < i && 0 <= m && #[trigger] resolve_spec(
                            v,
                            root_index,
                            components_spec(entries@[j].path@).take(m + 1),
                        ) == Some(a);
                    lemma_grown_resolve(
                        v,
                        w,
                        root_index,
                        components_spec(entries@[j].path@).take(m + 1),
                    );
                } else {
                    let m = choose|m: int|
                        0 <= m < components_spec(entries@[i as int].path@).len()
                            && #[trigger] resolve_spec(
                            w,
                            root_index,
                            components_spec(entries@[i as int].path@).take(m + 1),
                        ) == Some(a);
                    assert(0 <= i < i + 1 && resolve_spec(
                        w,
                        root_index,
                        components_spec(entries@[i as int].path@).take(m + 1),
                    ) == Some(a));
                }
            }
        }
        i += 1;
    }
    proof {
        assert(scanned(trail, root_index, name, tags, entries@));
    }
    (graph, tags_index, root_index)
}

} // verus!
