//! Keeping the tags of an entry in step with what the filesystem says.
//!
//! A tag is a node of its own, linked to each entry that it is on and listed
//! in the index under its name. A tag node comes into being with its first
//! link and goes with its last.

use vstd::prelude::*;
use crate::node::{Node, NodeKind, NodeView};
use crate::store::{MyGraph, node_weight};
use crate::links::{
    GraphView,
    view_of,
    sound,
    targets,
    sources,
    kind_of,
    link,
    linked,
    unlink,
    drop_node,
    fresh_node,
    room_for,
    has_room,
    node_total,
    edge_total,
    links_clear_of,
};
use crate::index::TagIndex;
use crate::text::views;
use crate::tree::{
    links_typed,
    indexed,
    no_orphans,
    tags_wf,
    same_tree,
    content_of,
    lemma_same_tree_by,
    lemma_same_tree,
};

verus! {

/// The tags of a list, each put on the entry `e`.
pub open spec fn labels_for(e: u32, names: Seq<Seq<char>>) -> Set<(u32, Seq<char>)> {
    Set::new(|l: (u32, Seq<char>)| l.0 == e && names.contains(l.1))
}

/// All that is said of the entry `e`.
pub open spec fn labels_on(e: u32) -> Set<(u32, Seq<char>)> {
    Set::new(|l: (u32, Seq<char>)| l.0 == e)
}

/// The tags that the filesystem reports: none where it reports no tag
/// attribute at all.
pub open spec fn fresh_names(fresh: Option<Vec<String>>) -> Seq<Seq<char>> {
    match fresh {
        Some(tags) => views(tags@),
        None => Seq::<Seq<char>>::empty(),
    }
}

/// What a refresh of the tags of `entry` with the list `fresh` does.
///
/// It is done if and only if `entry` is an entry of the graph and the graph
/// has the room for as many new nodes and links as there are fresh tags.
/// When it is done, the tags on `entry` are those of `fresh`, and what is
/// said of the other entries is as before: no link to another entry comes or
/// goes, and a tag that stays, being on another entry or on `entry` and
/// among `fresh`, keeps its node, its handle and its place in the index.
/// When it is not done, nothing changes. Either way the entries are where
/// they were.
pub open spec fn refreshed(
    g0: &MyGraph,
    g1: &MyGraph,
    idx0: Map<Seq<char>, u32>,
    idx1: Map<Seq<char>, u32>,
    entry: u32,
    fresh: Seq<Seq<char>>,
    done: bool,
) -> bool {
    &&& same_tree(view_of(g0), view_of(g1))
    &&& done <==> view_of(g0).is_entry(entry) && has_room(g0, fresh.len())
    &&& done ==> view_of(g1).tags_of(entry) == fresh.to_set()
    &&& done ==> content_of(view_of(g1)).labels == content_of(view_of(g0)).labels.difference(
        labels_on(entry),
    ).union(labels_for(entry, fresh))
    &&& done ==> forall|a: u32, b: u32|
        #![trigger view_of(g1).links.contains((a, b))]
        #![trigger view_of(g0).links.contains((a, b))]
        b != entry ==> (view_of(g1).links.contains((a, b)) <==> view_of(g0).links.contains((a, b)))
    &&& done ==> forall|t: u32| #[trigger]
        view_of(g0).is_tag(t) && tag_stays(view_of(g0), t, entry, fresh) ==> {
            &&& view_of(g1).nodes.contains_key(t)
            &&& view_of(g1).nodes[t] == view_of(g0).nodes[t]
            &&& idx1.contains_key(view_of(g0).nodes[t].name)
            &&& idx1[view_of(g0).nodes[t].name] == t
            &&& view_of(g1).links.contains((t, entry)) <==> fresh.contains(view_of(g0).nodes[t].name)
        }
    &&& !done ==> view_of(g1) == view_of(g0) && idx1 == idx0
    &&& node_total(g1) <= node_total(g0) + fresh.len()
    &&& edge_total(g1) <= edge_total(g0) + fresh.len()
}

/// What taking the tags `names` off `entry` leaves of the nodes, the links
/// and the index: nothing comes, and nothing goes but links from those tags
/// to `entry`, and with its last link the node of such a tag and its place
/// in the index. What stays keeps its handle.
pub open spec fn taken_off(
    v: GraphView,
    w: GraphView,
    idx0: Map<Seq<char>, u32>,
    idx1: Map<Seq<char>, u32>,
    entry: u32,
    names: Seq<Seq<char>>,
) -> bool {
    &&& forall|t: u32| #[trigger]
        w.nodes.contains_key(t) ==> v.nodes.contains_key(t) && w.nodes[t] == v.nodes[t]
    &&& forall|t: u32| #[trigger]
        v.nodes.contains_key(t) && !(v.is_tag(t) && names.contains(v.nodes[t].name))
            ==> w.nodes.contains_key(t)
    &&& forall|a: u32, b: u32| #[trigger] w.links.contains((a, b)) ==> v.links.contains((a, b))
    &&& forall|a: u32, b: u32| #[trigger]
        v.links.contains((a, b)) && !(b == entry && v.is_tag(a) && names.contains(
            v.nodes[a].name,
        )) ==> w.links.contains((a, b))
    &&& forall|k: Seq<char>| #[trigger]
        idx1.contains_key(k) ==> idx0.contains_key(k) && idx1[k] == idx0[k]
    &&& forall|k: Seq<char>| #[trigger]
        idx0.contains_key(k) && !names.contains(k) ==> idx1.contains_key(k)
}

/// What putting tags on `entry` leaves of the nodes, the links and the
/// index: nothing goes, and nothing comes but links to `entry`, with the
/// nodes and the places in the index of the tags that are new. What was
/// there keeps its handle.
pub open spec fn put_on(
    v: GraphView,
    w: GraphView,
    idx0: Map<Seq<char>, u32>,
    idx1: Map<Seq<char>, u32>,
    entry: u32,
) -> bool {
    &&& forall|t: u32| #[trigger]
        v.nodes.contains_key(t) ==> w.nodes.contains_key(t) && w.nodes[t] == v.nodes[t]
    &&& forall|a: u32, b: u32| #[trigger] v.links.contains((a, b)) ==> w.links.contains((a, b))
    &&& forall|a: u32, b: u32| #[trigger]
        w.links.contains((a, b)) && b != entry ==> v.links.contains((a, b))
    &&& forall|k: Seq<char>| #[trigger]
        idx0.contains_key(k) ==> idx1.contains_key(k) && idx1[k] == idx0[k]
}

/// The tag node `t` stays through a refresh of `entry` with the tags
/// `fresh`: it is on another entry, or it is on `entry` and among `fresh`.
pub open spec fn tag_stays(v: GraphView, t: u32, entry: u32, fresh: Seq<Seq<char>>) -> bool {
    ||| exists|b: u32| b != entry && #[trigger] v.links.contains((t, b))
    ||| v.links.contains((t, entry)) && fresh.contains(v.nodes[t].name)
}

/// Taking more tags off adds up.
proof fn lemma_taken_off_more(
    v: GraphView,
    m: GraphView,
    w: GraphView,
    idx0: Map<Seq<char>, u32>,
    idxm: Map<Seq<char>, u32>,
    idx1: Map<Seq<char>, u32>,
    entry: u32,
    names: Seq<Seq<char>>,
    name: Seq<char>,
)
    requires
        taken_off(v, m, idx0, idxm, entry, names),
        taken_off(m, w, idxm, idx1, entry, seq![name]),
    ensures
        taken_off(v, w, idx0, idx1, entry, names.push(name)),
{
    let all = names.push(name);
    assert forall|k: Seq<char>| all.contains(k) <==> names.contains(k) || k == name by {
        vstd::seq_lib::lemma_seq_contains_after_push(names, name, k);
    }
    assert forall|k: Seq<char>| seq![name].contains(k) <==> k == name by {
        if k == name {
            assert(seq![name][0] == k);
        }
    }
    assert forall|t: u32| #[trigger] w.nodes.contains_key(t) implies v.nodes.contains_key(t)
        && w.nodes[t] == v.nodes[t] by {
        assert(m.nodes.contains_key(t));
    }
    assert forall|t: u32| #[trigger]
        v.nodes.contains_key(t) && !(v.is_tag(t) && all.contains(
            v.nodes[t].name,
        )) implies w.nodes.contains_key(t) by {
        assert(m.nodes.contains_key(t));
    }
    assert forall|a: u32, b: u32| #[trigger] w.links.contains((a, b)) implies v.links.contains(
        (a, b),
    ) by {
        assert(m.links.contains((a, b)));
    }
    assert forall|a: u32, b: u32| #[trigger]
        v.links.contains((a, b)) && !(b == entry && v.is_tag(a) && all.contains(
            v.nodes[a].name,
        )) implies w.links.contains((a, b)) by {
        assert(m.links.contains((a, b)));
        if m.is_tag(a) {
            assert(m.nodes.contains_key(a));
        }
    }
    assert forall|k: Seq<char>| #[trigger] idx1.contains_key(k) implies idx0.contains_key(k)
        && idx1[k] == idx0[k] by {
        assert(idxm.contains_key(k));
    }
    assert forall|k: Seq<char>| #[trigger]
        idx0.contains_key(k) && !all.contains(k) implies idx1.contains_key(k) by {
        assert(idxm.contains_key(k));
    }
}

proof fn lemma_attach(v: GraphView, w: GraphView, idx: Map<Seq<char>, u32>, e: u32, n: Seq<char>)
    requires
        links_typed(v),
        indexed(v, idx),
        no_orphans(v),
        v.is_entry(e),
        idx.contains_key(n),
        w.nodes == v.nodes,
        w.links == v.links.insert((idx[n], e)),
    ensures
        links_typed(w),
        indexed(w, idx),
        no_orphans(w),
        same_tree(v, w),
        content_of(w).labels == content_of(v).labels.insert((e, n)),
{
    let t = idx[n];
    assert(v.is_tag(t));
    assert(links_typed(w)) by {
        assert forall|a: u32, b: u32| #[trigger] w.links.contains((a, b)) implies w.is_entry(b)
            && (w.is_tag(a) || w.is_dir(a)) by {
            if (a, b) != (t, e) {
                assert(v.links.contains((a, b)));
            }
        }
    }
    assert(no_orphans(w)) by {
        assert forall|x: u32| #[trigger] w.is_tag(x) implies exists|y: u32|
            w.links.contains((x, y)) by {
            assert(v.is_tag(x));
            let y = choose|y: u32| v.links.contains((x, y));
            assert(w.links.contains((x, y)));
        }
    }
    lemma_same_tree_by(v, w);
    assert(content_of(w).labels =~= content_of(v).labels.insert((e, n))) by {
        assert forall|l: (u32, Seq<char>)| w.tags_of(l.0).contains(l.1) implies v.tags_of(
            l.0,
        ).contains(l.1) || l == (e, n) by {
            let x = choose|x: u32| #[trigger] w.tagged(x, l.0) && w.nodes[x].name == l.1;
            if (x, l.0) != (t, e) {
                assert(v.tagged(x, l.0));
            }
        }
        assert forall|l: (u32, Seq<char>)| v.tags_of(l.0).contains(l.1) || l == (
            e,
            n,
        ) implies w.tags_of(l.0).contains(l.1) by {
            if l == (e, n) {
                assert(w.tagged(t, e));
            } else {
                let x = choose|x: u32| #[trigger] v.tagged(x, l.0) && v.nodes[x].name == l.1;
                assert(w.tagged(x, l.0));
            }
        }
    }
}

proof fn lemma_attach_fresh(
    v: GraphView,
    w: GraphView,
    idx: Map<Seq<char>, u32>,
    e: u32,
    n: Seq<char>,
    t: u32,
)
    requires
        links_typed(v),
        indexed(v, idx),
        no_orphans(v),
        v.is_entry(e),
        !idx.contains_key(n),
        !v.nodes.contains_key(t),
        w.nodes == v.nodes.insert(t, NodeView { name: n, kind: NodeKind::Tag }),
        w.links == v.links.insert((t, e)),
    ensures
        links_typed(w),
        indexed(w, idx.insert(n, t)),
        no_orphans(w),
        same_tree(v, w),
        content_of(w).labels == content_of(v).labels.insert((e, n)),
{
    let idx2 = idx.insert(n, t);
    assert(links_typed(w)) by {
        assert forall|a: u32, b: u32| #[trigger] w.links.contains((a, b)) implies w.is_entry(b)
            && (w.is_tag(a) || w.is_dir(a)) by {
            if (a, b) != (t, e) {
                assert(v.links.contains((a, b)));
            }
        }
    }
    assert(indexed(w, idx2)) by {
        assert forall|k: Seq<char>| #[trigger] idx2.contains_key(k) implies w.is_tag(idx2[k])
            && w.nodes[idx2[k]].name == k by {
            if k != n {
                assert(idx.contains_key(k));
                assert(v.is_tag(idx[k]));
            }
        }
        assert forall|x: u32| #[trigger] w.is_tag(x) implies idx2.contains_key(w.nodes[x].name)
            && idx2[w.nodes[x].name] == x by {
            if x != t {
                assert(v.is_tag(x));
            }
        }
    }
    assert(no_orphans(w)) by {
        assert forall|x: u32| #[trigger] w.is_tag(x) implies exists|y: u32|
            w.links.contains((x, y)) by {
            if x == t {
                assert(w.links.contains((t, e)));
            } else {
                assert(v.is_tag(x));
                let y = choose|y: u32| v.links.contains((x, y));
                assert(w.links.contains((x, y)));
            }
        }
    }
    assert forall|p: u32, c: u32|
        v.links.contains((p, c)) && v.is_dir(p) <==> w.links.contains((p, c)) && w.is_dir(
            p,
        ) by {
        if v.links.contains((p, c)) {
            assert(v.is_tag(p) || v.is_dir(p));
        }
    }
    lemma_same_tree_by(v, w);
    assert(content_of(w).labels =~= content_of(v).labels.insert((e, n))) by {
        assert forall|l: (u32, Seq<char>)| w.tags_of(l.0).contains(l.1) implies v.tags_of(
            l.0,
        ).contains(l.1) || l == (e, n) by {
            let x = choose|x: u32| #[trigger] w.tagged(x, l.0) && w.nodes[x].name == l.1;
            if x != t {
                assert(v.tagged(x, l.0));
            } else {
                if l.0 != e {
                    assert(v.links.contains((t, l.0)));
                    assert(v.is_tag(t) || v.is_dir(t));
                }
            }
        }
        assert forall|l: (u32, Seq<char>)| v.tags_of(l.0).contains(l.1) || l == (
            e,
            n,
        ) implies w.tags_of(l.0).contains(l.1) by {
            if v.tags_of(l.0).contains(l.1) {
                let x = choose|x: u32| #[trigger] v.tagged(x, l.0) && v.nodes[x].name == l.1;
                assert(w.tagged(x, l.0));
            } else {
                assert(w.tagged(t, e));
            }
        }
    }
}

proof fn lemma_detach_keep(
    v: GraphView,
    w: GraphView,
    idx: Map<Seq<char>, u32>,
    e: u32,
    n: Seq<char>,
)
    requires
        links_typed(v),
        indexed(v, idx),
        no_orphans(v),
        idx.contains_key(n),
        w.nodes == v.nodes,
        w.links == v.links.remove((idx[n], e)),
        exists|x: u32| w.links.contains((idx[n], x)),
    ensures
        links_typed(w),
        indexed(w, idx),
        no_orphans(w),
        same_tree(v, w),
        content_of(w).labels == content_of(v).labels.remove((e, n)),
{
    let t = idx[n];
    assert(v.is_tag(t));
    assert(links_typed(w)) by {
        assert forall|a: u32, b: u32| #[trigger] w.links.contains((a, b)) implies w.is_entry(b)
            && (w.is_tag(a) || w.is_dir(a)) by {
            assert(v.links.contains((a, b)));
        }
    }
    assert(no_orphans(w)) by {
        assert forall|x: u32| #[trigger] w.is_tag(x) implies exists|y: u32|
            w.links.contains((x, y)) by {
            if x != t {
                assert(v.is_tag(x));
                let y = choose|y: u32| v.links.contains((x, y));
                assert(w.links.contains((x, y)));
            }
        }
    }
    lemma_same_tree_by(v, w);
    assert(content_of(w).labels =~= content_of(v).labels.remove((e, n))) by {
        assert forall|l: (u32, Seq<char>)| w.tags_of(l.0).contains(l.1) implies v.tags_of(
            l.0,
        ).contains(l.1) && l != (e, n) by {
            let x = choose|x: u32| #[trigger] w.tagged(x, l.0) && w.nodes[x].name == l.1;
            assert(v.tagged(x, l.0));
            if l == (e, n) {
                assert(v.is_tag(x));
                assert(idx[v.nodes[x].name] == x);
            }
        }
        assert forall|l: (u32, Seq<char>)| v.tags_of(l.0).contains(l.1) && l != (
            e,
            n,
        ) implies w.tags_of(l.0).contains(l.1) by {
            let x = choose|x: u32| #[trigger] v.tagged(x, l.0) && v.nodes[x].name == l.1;
            assert(w.tagged(x, l.0));
        }
    }
}

proof fn lemma_detach_drop(
    v: GraphView,
    w: GraphView,
    idx: Map<Seq<char>, u32>,
    e: u32,
    n: Seq<char>,
)
    requires
        links_typed(v),
        indexed(v, idx),
        no_orphans(v),
        idx.contains_key(n),
        forall|x: u32| !v.links.remove((idx[n], e)).contains((idx[n], x)),
        w.nodes == v.nodes.remove(idx[n]),
        w.links == links_clear_of(v.links.remove((idx[n], e)), idx[n]),
    ensures
        links_typed(w),
        indexed(w, idx.remove(n)),
        no_orphans(w),
        same_tree(v, w),
        content_of(w).labels == content_of(v).labels.remove((e, n)),
{
    let t = idx[n];
    let idx2 = idx.remove(n);
    assert(v.is_tag(t));
    assert(links_typed(w)) by {
        assert forall|a: u32, b: u32| #[trigger] w.links.contains((a, b)) implies w.is_entry(b)
            && (w.is_tag(a) || w.is_dir(a)) by {
            assert(v.links.contains((a, b)));
        }
    }
    assert(indexed(w, idx2)) by {
        assert forall|k: Seq<char>| #[trigger] idx2.contains_key(k) implies w.is_tag(idx2[k])
            && w.nodes[idx2[k]].name == k by {
            assert(idx.contains_key(k));
            assert(v.is_tag(idx[k]));
        }
        assert forall|x: u32| #[trigger] w.is_tag(x) implies idx2.contains_key(w.nodes[x].name)
            && idx2[w.nodes[x].name] == x by {
            assert(v.is_tag(x));
        }
    }
    assert(no_orphans(w)) by {
        assert forall|x: u32| #[trigger] w.is_tag(x) implies exists|y: u32|
            w.links.contains((x, y)) by {
            assert(v.is_tag(x));
            let y = choose|y: u32| v.links.contains((x, y));
            assert(v.is_entry(y));
            assert(w.links.contains((x, y)));
        }
    }
    assert forall|p: u32, c: u32|
        v.links.contains((p, c)) && v.is_dir(p) <==> w.links.contains((p, c)) && w.is_dir(
            p,
        ) by {
        if v.links.contains((p, c)) && v.is_dir(p) {
            assert(v.is_entry(c));
        }
    }
    lemma_same_tree_by(v, w);
    assert(content_of(w).labels =~= content_of(v).labels.remove((e, n))) by {
        assert forall|l: (u32, Seq<char>)| w.tags_of(l.0).contains(l.1) implies v.tags_of(
            l.0,
        ).contains(l.1) && l != (e, n) by {
            let x = choose|x: u32| #[trigger] w.tagged(x, l.0) && w.nodes[x].name == l.1;
            assert(v.tagged(x, l.0));
            if l.1 == n {
                assert(v.is_tag(x));
                assert(idx[v.nodes[x].name] == x);
            }
        }
        assert forall|l: (u32, Seq<char>)| v.tags_of(l.0).contains(l.1) && l != (
            e,
            n,
        ) implies w.tags_of(l.0).contains(l.1) by {
            let x = choose|x: u32| #[trigger] v.tagged(x, l.0) && v.nodes[x].name == l.1;
            if x == t {
                assert(v.links.remove((t, e)).contains((t, l.0)));
            }
            assert(w.tagged(x, l.0));
        }
    }
}

/// Puts the tag `name` on `entry`, making the tag's node if the tag is new.
fn attach(tags_index: &mut TagIndex, graph: &mut MyGraph, entry: u32, name: &String)
    requires
        tags_wf(old(graph), old(tags_index)),
        view_of(old(graph)).is_entry(entry),
        has_room(old(graph), 1),
    ensures
        tags_wf(final(graph), final(tags_index)),
        same_tree(view_of(old(graph)), view_of(final(graph))),
        content_of(view_of(final(graph))).labels == content_of(view_of(old(graph))).labels.insert(
            (entry, name@),
        ),
        put_on(
            view_of(old(graph)),
            view_of(final(graph)),
            old(tags_index)@,
            final(tags_index)@,
            entry,
        ),
        node_total(final(graph)) <= node_total(old(graph)) + 1,
        edge_total(final(graph)) <= edge_total(old(graph)) + 1,
{
    let ghost v = view_of(graph);
    let ghost idx = tags_index@;
    match tags_index.get(name) {
        Some(tag) => {
            if !linked(graph, tag, entry) {
                link(graph, tag, entry);
            }
            proof {
                assert(view_of(graph).links =~= v.links.insert((tag, entry)));
                lemma_attach(v, view_of(graph), idx, entry, name@);
            }
        },
        None => {
            let tag = fresh_node(graph, Node::new(name.clone(), NodeKind::Tag));
            tags_index.insert(name.clone(), tag);
            proof {
                assert(!v.links.contains((tag, entry))) by {
                    if v.links.contains((tag, entry)) {
                        assert(v.is_tag(tag) || v.is_dir(tag));
                    }
                }
            }
            link(graph, tag, entry);
            proof {
                lemma_attach_fresh(v, view_of(graph), idx, entry, name@, tag);
            }
        },
    }
}

/// Takes the tag `name` off `entry`; the tag's node goes with its last link.
fn detach(tags_index: &mut TagIndex, graph: &mut MyGraph, entry: u32, name: &String)
    requires
        tags_wf(old(graph), old(tags_index)),
    ensures
        tags_wf(final(graph), final(tags_index)),
        same_tree(view_of(old(graph)), view_of(final(graph))),
        content_of(view_of(final(graph))).labels == content_of(view_of(old(graph))).labels.remove(
            (entry, name@),
        ),
        taken_off(
            view_of(old(graph)),
            view_of(final(graph)),
            old(tags_index)@,
            final(tags_index)@,
            entry,
            seq![name@],
        ),
        node_total(final(graph)) <= node_total(old(graph)),
        edge_total(final(graph)) <= edge_total(old(graph)),
{
    let ghost v = view_of(graph);
    let ghost idx = tags_index@;
    proof {
        assert forall|k: Seq<char>| seq![name@].contains(k) <==> k == name@ by {
            if k == name@ {
                assert(seq![name@][0] == k);
            }
        }
    }
    match tags_index.get(name) {
        Some(tag) => {
            unlink(graph, tag, entry);
            let rest = targets(graph, tag);
            if rest.len() == 0 {
                proof {
                    assert forall|x: u32| !v.links.remove((tag, entry)).contains((tag, x)) by {
                        if v.links.remove((tag, entry)).contains((tag, x)) {
                            assert(rest@.contains(x));
                        }
                    }
                }
                tags_index.remove(name);
                drop_node(graph, tag);
                proof {
                    lemma_detach_drop(v, view_of(graph), idx, entry, name@);
                }
            } else {
                proof {
                    let x = rest@[0];
                    assert(rest@.contains(x));
                    assert(view_of(graph).links.contains((tag, x)));
                    lemma_detach_keep(v, view_of(graph), idx, entry, name@);
                }
            }
        },
        None => {
            proof {
                assert(content_of(v).labels =~= content_of(v).labels.remove((entry, name@))) by {
                    if v.tags_of(entry).contains(name@) {
                        let x = choose|x: u32| #[trigger]
                            v.tagged(x, entry) && v.nodes[x].name == name@;
                        assert(v.is_tag(x));
                    }
                }
            }
        },
    }
}

/// Whether `list` holds `name`.
pub fn contains_name(list: &Vec<String>, name: &String) -> (r: bool)
    ensures
        r == views(list@).contains(name@),
{
    let mut i: usize = 0;
    while i < list.len()
        invariant
            i <= list@.len(),
            forall|j: int| 0 <= j < i ==> views(list@)[j] != name@,
        decreases list@.len() - i,
    {
        if list[i] == *name {
            proof {
                assert(views(list@)[i as int] == name@);
            }
            return true;
        }
        i += 1;
    }
    false
}

/// The strings of `a` that `b` does not hold.
pub fn difference(a: &Vec<String>, b: &Vec<String>) -> (r: Vec<String>)
    ensures
        r@.len() <= a@.len(),
        forall|n: Seq<char>|
            views(r@).contains(n) <==> views(a@).contains(n) && !views(b@).contains(n),
{
    let mut r: Vec<String> = Vec::new();
    let mut i: usize = 0;
    while i < a.len()
        invariant
            i <= a@.len(),
            r@.len() <= i,
            forall|n: Seq<char>|
                views(r@).contains(n) <==> views(a@).take(i as int).contains(n) && !views(
                    b@,
                ).contains(n),
        decreases a@.len() - i,
    {
        let ghost before = views(r@);
        proof {
            assert(views(a@).take(i + 1) =~= views(a@).take(i as int).push(a@[i as int]@));
        }
        if !contains_name(b, &a[i]) {
            r.push(a[i].clone());
            proof {
                assert(views(r@) =~= before.push(a@[i as int]@));
            }
        }
        proof {
            let now = views(r@);
            let part = views(a@).take(i + 1);
            let last = a@[i as int]@;
            assert forall|n: Seq<char>|
                now.contains(n) <==> part.contains(n) && !views(b@).contains(n) by {
                vstd::seq_lib::lemma_seq_contains_after_push(views(a@).take(i as int), last, n);
                vstd::seq_lib::lemma_seq_contains_after_push(before, last, n);
            }
        }
        i += 1;
    }
    proof {
        assert(views(a@).take(i as int) =~= views(a@));
    }
    r
}

/// The names of the tags that are on `entry_index`.
pub fn get_tags(graph: &MyGraph, entry_index: u32) -> (tags: Vec<String>)
    requires
        sound(graph),
    ensures
        views(tags@).to_set() == view_of(graph).tags_of(entry_index),
{
    let ghost v = view_of(graph);
    let mut tags: Vec<String> = Vec::new();
    match kind_of(graph, entry_index) {
        Some(NodeKind::File) | Some(NodeKind::Directory) => {},
        _ => {
            proof {
                assert(views(tags@).to_set() =~= v.tags_of(entry_index));
            }
            return tags;
        },
    }
    let neighbors = sources(graph, entry_index);
    let mut i: usize = 0;
    while i < neighbors.len()
        invariant
            i <= neighbors@.len(),
            v == view_of(graph),
            v.is_entry(entry_index),
            forall|a: u32| neighbors@.contains(a) <==> v.links.contains((a, entry_index)),
            forall|n: Seq<char>|
                views(tags@).contains(n) <==> exists|j: int|
                    0 <= j < i && v.is_tag(#[trigger] neighbors@[j]) && v.nodes[neighbors@[j]].name
                        == n,
        decreases neighbors@.len() - i,
    {
        let ghost before = views(tags@);
        let neighbor = neighbors[i];
        let mut pushed = false;
        match node_weight(graph, neighbor) {
            Some(data) => {
                if data.kind == NodeKind::Tag {
                    tags.push(data.name.clone());
                    pushed = true;
                    proof {
                        assert(views(tags@) =~= before.push(v.nodes[neighbor].name));
                    }
                }
            },
            None => {},
        }
        proof {
            let now = views(tags@);
            assert forall|n: Seq<char>|
                now.contains(n) <==> exists|j: int|
                    0 <= j < i + 1 && v.is_tag(#[trigger] neighbors@[j])
                        && v.nodes[neighbors@[j]].name == n by {
                if pushed {
                    vstd::seq_lib::lemma_seq_contains_after_push(
                        before,
                        v.nodes[neighbor].name,
                        n,
                    );
                }
                if now.contains(n) {
                    if before.contains(n) {
                        let j = choose|j: int|
                            0 <= j < i && v.is_tag(#[trigger] neighbors@[j])
                                && v.nodes[neighbors@[j]].name == n;
                        assert(0 <= j < i + 1);
                    } else {
                        assert(v.is_tag(neighbors@[i as int]));
                    }
                }
                if exists|j: int|
                    0 <= j < i + 1 && v.is_tag(#[trigger] neighbors@[j])
                        && v.nodes[neighbors@[j]].name == n {
                    let j = choose|j: int|
                        0 <= j < i + 1 && v.is_tag(#[trigger] neighbors@[j])
                            && v.nodes[neighbors@[j]].name == n;
                    if j < i {
                        assert(before.contains(n));
                    }
                }
            }
        }
        i += 1;
    }
    proof {
        assert forall|n: Seq<char>| views(tags@).to_set().contains(n) <==> v.tags_of(
            entry_index,
        ).contains(n) by {
            if views(tags@).contains(n) {
                let j = choose|j: int|
                    0 <= j < i && v.is_tag(#[trigger] neighbors@[j]) && v.nodes[neighbors@[j]].name
                        == n;
                assert(neighbors@.contains(neighbors@[j]));
                assert(v.tagged(neighbors@[j], entry_index));
            }
            if v.tags_of(entry_index).contains(n) {
                let t = choose|t: u32| #[trigger] v.tagged(t, entry_index) && v.nodes[t].name == n;
                assert(neighbors@.contains(t));
                let j = choose|j: int| 0 <= j < neighbors@.len() && neighbors@[j] == t;
                assert(v.is_tag(neighbors@[j]));
            }
        }
        assert(views(tags@).to_set() =~= v.tags_of(entry_index));
    }
    tags
}

/// Puts each of the tags on `entry_index`. A tag that is new to the graph
/// gets a node and a place in the index.
pub fn add_tags(
    tags_to_add: &Vec<String>,
    tags_index: &mut TagIndex,
    graph: &mut MyGraph,
    entry_index: u32,
)
    requires
        tags_wf(old(graph), old(tags_index)),
        view_of(old(graph)).is_entry(entry_index),
        has_room(old(graph), tags_to_add@.len()),
    ensures
        tags_wf(final(graph), final(tags_index)),
        same_tree(view_of(old(graph)), view_of(final(graph))),
        content_of(view_of(final(graph))).labels == content_of(view_of(old(graph))).labels.union(
            labels_for(entry_index, views(tags_to_add@)),
        ),
        put_on(
            view_of(old(graph)),
            view_of(final(graph)),
            old(tags_index)@,
            final(tags_index)@,
            entry_index,
        ),
        node_total(final(graph)) <= node_total(old(graph)) + tags_to_add@.len(),
        edge_total(final(graph)) <= edge_total(old(graph)) + tags_to_add@.len(),
{
    let ghost v = view_of(graph);
    let ghost idx = tags_index@;
    let ghost names = views(tags_to_add@);
    let ghost nodes0 = node_total(graph);
    let ghost edges0 = edge_total(graph);
    let mut i: usize = 0;
    proof {
        assert(content_of(v).labels =~= content_of(v).labels.union(
            labels_for(entry_index, names.take(0)),
        ));
    }
    while i < tags_to_add.len()
        invariant
            i <= tags_to_add@.len(),
            names == views(tags_to_add@),
            tags_wf(graph, tags_index),
            view_of(graph).is_entry(entry_index),
            same_tree(v, view_of(graph)),
            put_on(v, view_of(graph), idx, tags_index@, entry_index),
            content_of(view_of(graph)).labels == content_of(v).labels.union(
                labels_for(entry_index, names.take(i as int)),
            ),
            node_total(graph) <= nodes0 + i,
            edge_total(graph) <= edges0 + i,
            nodes0 + tags_to_add@.len() < u32::MAX,
            edges0 + tags_to_add@.len() < u32::MAX,
        decreases tags_to_add@.len() - i,
    {
        let ghost w = view_of(graph);
        let ghost idw = tags_index@;
        attach(tags_index, graph, entry_index, &tags_to_add[i]);
        proof {
            let x = view_of(graph);
            assert(put_on(v, x, idx, tags_index@, entry_index)) by {
                assert forall|t: u32| #[trigger] v.nodes.contains_key(t) implies x.nodes.contains_key(
                    t,
                ) && x.nodes[t] == v.nodes[t] by {
                    assert(w.nodes.contains_key(t));
                }
                assert forall|a: u32, b: u32| #[trigger] v.links.contains((a, b)) implies x.links.contains(
                    (a, b),
                ) by {
                    assert(w.links.contains((a, b)));
                }
                assert forall|a: u32, b: u32| #[trigger]
                    x.links.contains((a, b)) && b != entry_index implies v.links.contains((a, b)) by {
                    assert(w.links.contains((a, b)));
                }
                assert forall|k: Seq<char>| #[trigger] idx.contains_key(k) implies tags_index@.contains_key(
                    k,
                ) && tags_index@[k] == idx[k] by {
                    assert(idw.contains_key(k));
                }
            }
            lemma_same_tree(w, x);
            assert(names.take(i + 1) =~= names.take(i as int).push(names[i as int]));
            assert(labels_for(entry_index, names.take(i + 1)) =~= labels_for(
                entry_index,
                names.take(i as int),
            ).insert((entry_index, names[i as int]))) by {
                assert forall|l: (u32, Seq<char>)|
                    labels_for(entry_index, names.take(i + 1)).contains(l) <==> labels_for(
                        entry_index,
                        names.take(i as int),
                    ).insert((entry_index, names[i as int])).contains(l) by {
                    vstd::seq_lib::lemma_seq_contains_after_push(
                        names.take(i as int),
                        names[i as int],
                        l.1,
                    );
                }
            }
            assert(content_of(x).labels =~= content_of(v).labels.union(
                labels_for(entry_index, names.take(i + 1)),
            ));
        }
        i += 1;
    }
    proof {
        assert(names.take(i as int) =~= names);
    }
}

/// Takes each of the tags off `entry_index`. A tag that is then on no entry
/// loses its node and its place in the index.
pub fn remove_tags(
    tags_to_remove: &Vec<String>,
    tags_index: &mut TagIndex,
    graph: &mut MyGraph,
    entry_index: u32,
)
    requires
        tags_wf(old(graph), old(tags_index)),
    ensures
        tags_wf(final(graph), final(tags_index)),
        same_tree(view_of(old(graph)), view_of(final(graph))),
        content_of(view_of(final(graph))).labels == content_of(
            view_of(old(graph)),
        ).labels.difference(labels_for(entry_index, views(tags_to_remove@))),
        taken_off(
            view_of(old(graph)),
            view_of(final(graph)),
            old(tags_index)@,
            final(tags_index)@,
            entry_index,
            views(tags_to_remove@),
        ),
        node_total(final(graph)) <= node_total(old(graph)),
        edge_total(final(graph)) <= edge_total(old(graph)),
{
    let ghost v = view_of(graph);
    let ghost idx = tags_index@;
    let ghost names = views(tags_to_remove@);
    let ghost nodes0 = node_total(graph);
    let ghost edges0 = edge_total(graph);
    let mut i: usize = 0;
    proof {
        assert(content_of(v).labels =~= content_of(v).labels.difference(
            labels_for(entry_index, names.take(0)),
        ));
    }
    while i < tags_to_remove.len()
        invariant
            i <= tags_to_remove@.len(),
            names == views(tags_to_remove@),
            tags_wf(graph, tags_index),
            same_tree(v, view_of(graph)),
            taken_off(v, view_of(graph), idx, tags_index@, entry_index, names.take(i as int)),
            content_of(view_of(graph)).labels == content_of(v).labels.difference(
                labels_for(entry_index, names.take(i as int)),
            ),
            node_total(graph) <= nodes0,
            edge_total(graph) <= edges0,
        decreases tags_to_remove@.len() - i,
    {
        let ghost w = view_of(graph);
        let ghost idw = tags_index@;
        detach(tags_index, graph, entry_index, &tags_to_remove[i]);
        proof {
            let x = view_of(graph);
            lemma_taken_off_more(
                v,
                w,
                x,
                idx,
                idw,
                tags_index@,
                entry_index,
                names.take(i as int),
                names[i as int],
            );
            assert(names.take(i + 1) =~= names.take(i as int).push(names[i as int]));
            assert(labels_for(entry_index, names.take(i + 1)) =~= labels_for(
                entry_index,
                names.take(i as int),
            ).insert((entry_index, names[i as int]))) by {
                assert forall|l: (u32, Seq<char>)|
                    labels_for(entry_index, names.take(i + 1)).contains(l) <==> labels_for(
                        entry_index,
                        names.take(i as int),
                    ).insert((entry_index, names[i as int])).contains(l) by {
                    vstd::seq_lib::lemma_seq_contains_after_push(
                        names.take(i as int),
                        names[i as int],
                        l.1,
                    );
                }
            }
            assert(content_of(x).labels =~= content_of(v).labels.difference(
                labels_for(entry_index, names.take(i + 1)),
            ));
        }
        i += 1;
    }
    proof {
        assert(names.take(i as int) =~= names);
    }
}

/// Brings the tags of `entry_index` in step with `fresh`, the tags that the
/// filesystem reports for it: the tags that it no longer has are taken off,
/// those that it has newly are put on, the others are left alone.
///
/// Returns whether that was done. It is not done, and nothing changes, when
/// `entry_index` is no entry of the graph, or when the graph has not the room
/// for as many new nodes and links as there are fresh tags.
pub fn update_tags(
    fresh: Option<Vec<String>>,
    tags_index: &mut TagIndex,
    graph: &mut MyGraph,
    entry_index: u32,
) -> (done: bool)
    requires
        tags_wf(old(graph), old(tags_index)),
    ensures
        tags_wf(final(graph), final(tags_index)),
        refreshed(
            old(graph),
            final(graph),
            old(tags_index)@,
            final(tags_index)@,
            entry_index,
            fresh_names(fresh),
            done,
        ),
{
    let tags = match fresh {
        Some(tags) => tags,
        None => Vec::new(),
    };
    proof {
        assert(views(tags@) =~= fresh_names(fresh));
    }
    refresh(&tags, tags_index, graph, entry_index)
}

/// `update_tags` for a list of tags that is there.
pub fn refresh(
    fresh: &Vec<String>,
    tags_index: &mut TagIndex,
    graph: &mut MyGraph,
    entry_index: u32,
) -> (done: bool)
    requires
        tags_wf(old(graph), old(tags_index)),
    ensures
        tags_wf(final(graph), final(tags_index)),
        refreshed(
            old(graph),
            final(graph),
            old(tags_index)@,
            final(tags_index)@,
            entry_index,
            views(fresh@),
            done,
        ),
{
    let ghost v = view_of(graph);
    let ghost idx = tags_index@;
    match kind_of(graph, entry_index) {
        Some(NodeKind::File) | Some(NodeKind::Directory) => {},
        _ => {
            return false;
        },
    }
    if !room_for(graph, fresh.len()) {
        return false;
    }
    let existent_tags = get_tags(graph, entry_index);
    let tags_to_remove = difference(&existent_tags, fresh);
    let tags_to_add = difference(fresh, &existent_tags);
    remove_tags(&tags_to_remove, tags_index, graph, entry_index);
    let ghost w = view_of(graph);
    let ghost idw = tags_index@;
    proof {
        lemma_same_tree(v, w);
    }
    add_tags(&tags_to_add, tags_index, graph, entry_index);
    proof {
        let x = view_of(graph);
        let old_labels = content_of(v).labels;
        let new_labels = content_of(x).labels;
        let want = old_labels.difference(labels_on(entry_index)).union(
            labels_for(entry_index, views(fresh@)),
        );
        assert forall|l: (u32, Seq<char>)| new_labels.contains(l) <==> want.contains(l) by {
            if l.0 == entry_index {
                assert(views(existent_tags@).to_set().contains(l.1) <==> v.tags_of(
                    entry_index,
                ).contains(l.1));
                assert(old_labels.contains(l) <==> views(existent_tags@).contains(l.1));
            }
        }
        assert(new_labels =~= want);
        assert forall|n: Seq<char>| x.tags_of(entry_index).contains(n) <==> views(
            fresh@,
        ).to_set().contains(n) by {
            assert(new_labels.contains((entry_index, n)) <==> x.tags_of(entry_index).contains(n));
        }
        assert(x.tags_of(entry_index) =~= views(fresh@).to_set());
        lemma_same_tree(w, x);
        assert(same_tree(v, x));
        let names = views(fresh@);
        let gone = views(tags_to_remove@);
        let idx1 = tags_index@;
        assert forall|a: u32, b: u32| b != entry_index implies (x.links.contains((a, b))
            <==> v.links.contains((a, b))) by {
            if x.links.contains((a, b)) {
                assert(w.links.contains((a, b)));
            }
            if v.links.contains((a, b)) {
                assert(w.links.contains((a, b)));
            }
        }
        assert forall|t: u32| #[trigger] v.is_tag(t) && tag_stays(v, t, entry_index, names) implies {
            &&& x.nodes.contains_key(t)
            &&& x.nodes[t] == v.nodes[t]
            &&& idx1.contains_key(v.nodes[t].name)
            &&& idx1[v.nodes[t].name] == t
            &&& x.links.contains((t, entry_index)) <==> names.contains(v.nodes[t].name)
        } by {
            let n = v.nodes[t].name;
            let b = if exists|b: u32| b != entry_index && #[trigger] v.links.contains((t, b)) {
                choose|b: u32| b != entry_index && #[trigger] v.links.contains((t, b))
            } else {
                entry_index
            };
            assert(v.links.contains((t, b)));
            if b == entry_index {
                assert(names.contains(n));
                assert(!gone.contains(n));
            }
            assert(w.links.contains((t, b)));
            assert(w.is_tag(t) || w.is_dir(t));
            assert(w.nodes.contains_key(t));
            assert(w.nodes[t] == v.nodes[t]);
            assert(x.nodes.contains_key(t));
            assert(x.is_tag(t));
            assert(idx1.contains_key(x.nodes[t].name) && idx1[x.nodes[t].name] == t);
            if x.links.contains((t, entry_index)) {
                assert(x.tagged(t, entry_index));
                assert(x.tags_of(entry_index).contains(n));
                assert(names.to_set().contains(n));
            }
            if names.contains(n) {
                assert(names.to_set().contains(n));
                assert(x.tags_of(entry_index).contains(n));
                let u = choose|u: u32| #[trigger] x.tagged(u, entry_index) && x.nodes[u].name == n;
                assert(x.is_tag(u));
                assert(idx1[x.nodes[u].name] == u);
            }
        }
    }
    true
}

} // verus!
