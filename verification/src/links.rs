//! The graph as the rest of the engine sees it: live nodes, and which node is
//! linked to which. The operations here are the only ones that touch the
//! container; each says what it does to that picture and is proved from what
//! the container's methods are taken to do.

use vstd::prelude::*;
use crate::node::{Nil, Node, NodeKind, NodeView};
use crate::store::{
    MyGraph,
    graph_nodes,
    graph_edges,
    edges_between,
    graph_new,
    node_count,
    edge_count,
    add_node,
    add_edge,
    remove_node,
    remove_edge,
    find_edge,
    node_weight,
    node_weight_mut,
    neighbors_out,
    neighbors_in,
};

verus! {

/// The picture of a graph: its live nodes by handle, and the set of links. A
/// link `(a, b)` says that an edge leads from `a` to `b`.
pub struct GraphView {
    pub nodes: Map<u32, NodeView>,
    pub links: Set<(u32, u32)>,
}

/// The pairs that some live edge joins.
pub open spec fn links_of(edges: Map<u32, (u32, u32)>) -> Set<(u32, u32)> {
    Set::new(|l: (u32, u32)| exists|e: u32| #[trigger] edges.contains_key(e) && edges[e] == l)
}

/// No two live edges join the same pair of nodes in the same direction.
pub open spec fn no_parallel(edges: Map<u32, (u32, u32)>) -> bool {
    forall|e1: u32, e2: u32|
        #![trigger edges.contains_key(e1), edges.contains_key(e2)]
        edges.contains_key(e1) && edges.contains_key(e2) && edges[e1] == edges[e2] ==> e1 == e2
}

/// The picture of the graph `g`.
pub open spec fn view_of(g: &MyGraph) -> GraphView {
    GraphView { nodes: graph_nodes(*g), links: links_of(graph_edges(*g)) }
}

/// The number of live nodes.
pub open spec fn node_total(g: &MyGraph) -> nat {
    graph_nodes(*g).dom().len()
}

/// The number of live edges.
pub open spec fn edge_total(g: &MyGraph) -> nat {
    graph_edges(*g).dom().len()
}

/// The container can take `need` more nodes and `need` more edges.
pub open spec fn has_room(g: &MyGraph, need: nat) -> bool {
    node_total(g) + need < u32::MAX && edge_total(g) + need < u32::MAX
}

/// What the engine keeps true of the container itself: finitely many nodes
/// and edges, no more of either than the container can number, and never two
/// edges for one link.
pub open spec fn sound(g: &MyGraph) -> bool {
    &&& graph_nodes(*g).dom().finite()
    &&& graph_edges(*g).dom().finite()
    &&& node_total(g) <= u32::MAX
    &&& edge_total(g) <= u32::MAX
    &&& no_parallel(graph_edges(*g))
}

/// With never two edges for one link, the edges from `a` to `b` are one or
/// none.
pub proof fn lemma_between(edges: Map<u32, (u32, u32)>, a: u32, b: u32)
    requires
        edges.dom().finite(),
        no_parallel(edges),
    ensures
        edges_between(edges, a, b).finite(),
        edges_between(edges, a, b).len() <= 1,
        edges_between(edges, a, b).len() == 1 <==> links_of(edges).contains((a, b)),
        edges_between(edges, a, b) == Set::<u32>::empty() <==> !links_of(edges).contains((a, b)),
{
    let s = edges_between(edges, a, b);
    vstd::set_lib::lemma_set_subset_finite(edges.dom(), s);
    if links_of(edges).contains((a, b)) {
        let e = choose|e: u32| #[trigger] edges.contains_key(e) && edges[e] == (a, b);
        assert(s.contains(e));
        assert(s =~= set![e]) by {
            assert forall|x: u32| s.contains(x) implies x == e by {
                assert(edges.contains_key(x) && edges.contains_key(e));
            }
        }
        assert(s.is_singleton());
        s.lemma_singleton_size();
    } else {
        assert(s =~= Set::<u32>::empty()) by {
            assert forall|x: u32| !s.contains(x) by {
                if s.contains(x) {
                    assert(edges.contains_key(x) && edges[x] == (a, b));
                }
            }
        }
    }
}

/// A graph with nothing in it.
pub fn empty_graph() -> (g: MyGraph)
    ensures
        sound(&g),
        view_of(&g).nodes == Map::<u32, NodeView>::empty(),
        view_of(&g).links == Set::<(u32, u32)>::empty(),
        node_total(&g) == 0,
        edge_total(&g) == 0,
{
    let g = graph_new();
    proof {
        assert(graph_nodes(g) =~= Map::<u32, NodeView>::empty());
        assert(graph_edges(g) =~= Map::<u32, (u32, u32)>::empty());
        assert(view_of(&g).links =~= Set::<(u32, u32)>::empty());
    }
    g
}

/// Whether the container can take `need` more nodes and `need` more edges.
pub fn room_for(g: &MyGraph, need: usize) -> (r: bool)
    ensures
        r == has_room(g, need as nat),
{
    let n = node_count(g);
    let e = edge_count(g);
    let limit: usize = 0xffff_ffff;
    if need >= limit || n >= limit || e >= limit {
        return false;
    }
    n < limit - need && e < limit - need
}

/// Adds a node and returns its handle, which was not in use before.
pub(crate) fn fresh_node(g: &mut MyGraph, node: Node) -> (a: u32)
    requires
        sound(old(g)),
        node_total(old(g)) < u32::MAX,
    ensures
        sound(final(g)),
        !view_of(old(g)).nodes.contains_key(a),
        view_of(final(g)).nodes == view_of(old(g)).nodes.insert(a, node@),
        view_of(final(g)).links == view_of(old(g)).links,
        node_total(final(g)) == node_total(old(g)) + 1,
        edge_total(final(g)) == edge_total(old(g)),
{
    add_node(g, node)
}

/// Links `a` to `b`, which were not linked.
pub(crate) fn link(g: &mut MyGraph, a: u32, b: u32)
    requires
        sound(old(g)),
        view_of(old(g)).nodes.contains_key(a),
        view_of(old(g)).nodes.contains_key(b),
        !view_of(old(g)).links.contains((a, b)),
        edge_total(old(g)) < u32::MAX,
    ensures
        sound(final(g)),
        view_of(final(g)).nodes == view_of(old(g)).nodes,
        view_of(final(g)).links == view_of(old(g)).links.insert((a, b)),
        node_total(final(g)) == node_total(old(g)),
        edge_total(final(g)) == edge_total(old(g)) + 1,
{
    let ghost before = graph_edges(*g);
    let e = add_edge(g, a, b, Nil::new());
    proof {
        let after = graph_edges(*g);
        assert(no_parallel(after)) by {
            assert forall|e1: u32, e2: u32|
                after.contains_key(e1) && after.contains_key(e2) && after[e1] == after[e2]
                implies e1 == e2 by {
                if e1 == e && e2 != e {
                    assert(before.contains_key(e2));
                    assert(links_of(before).contains((a, b)));
                }
                if e2 == e && e1 != e {
                    assert(before.contains_key(e1));
                    assert(links_of(before).contains((a, b)));
                }
                if e1 != e && e2 != e {
                    assert(before.contains_key(e1) && before.contains_key(e2));
                }
            }
        }
        assert(links_of(after) =~= links_of(before).insert((a, b))) by {
            assert forall|l: (u32, u32)| links_of(after).contains(l) implies links_of(
                before,
            ).insert((a, b)).contains(l) by {
                let x = choose|x: u32| #[trigger] after.contains_key(x) && after[x] == l;
                if x != e {
                    assert(before.contains_key(x));
                }
            }
            assert forall|l: (u32, u32)| links_of(before).insert((a, b)).contains(
                l,
            ) implies links_of(after).contains(l) by {
                if l == (a, b) {
                    assert(after.contains_key(e));
                } else {
                    let x = choose|x: u32| #[trigger] before.contains_key(x) && before[x] == l;
                    assert(after.contains_key(x));
                }
            }
        }
    }
}

/// Whether `a` is linked to `b`.
pub fn linked(g: &MyGraph, a: u32, b: u32) -> (r: bool)
    requires
        sound(g),
    ensures
        r == view_of(g).links.contains((a, b)),
{
    proof {
        lemma_between(graph_edges(*g), a, b);
    }
    find_edge(g, a, b).is_some()
}

/// Takes the link from `a` to `b` away, if there is one; says whether there
/// was.
pub(crate) fn unlink(g: &mut MyGraph, a: u32, b: u32) -> (r: bool)
    requires
        sound(old(g)),
    ensures
        sound(final(g)),
        r == view_of(old(g)).links.contains((a, b)),
        view_of(final(g)).nodes == view_of(old(g)).nodes,
        view_of(final(g)).links == view_of(old(g)).links.remove((a, b)),
        node_total(final(g)) == node_total(old(g)),
        edge_total(final(g)) == edge_total(old(g)) - (if r { 1int } else { 0int }),
{
    let ghost before = graph_edges(*g);
    proof {
        lemma_between(before, a, b);
    }
    match find_edge(g, a, b) {
        Some(e) => {
            remove_edge(g, e);
            proof {
                let after = graph_edges(*g);
                assert(before.contains_key(e) && before[e] == (a, b));
                assert(no_parallel(after)) by {
                    assert forall|e1: u32, e2: u32|
                        after.contains_key(e1) && after.contains_key(e2) && after[e1]
                            == after[e2] implies e1 == e2 by {
                        assert(before.contains_key(e1) && before.contains_key(e2));
                    }
                }
                assert(links_of(after) =~= links_of(before).remove((a, b))) by {
                    assert forall|l: (u32, u32)| links_of(after).contains(l) implies links_of(
                        before,
                    ).remove((a, b)).contains(l) by {
                        let x = choose|x: u32| #[trigger] after.contains_key(x) && after[x] == l;
                        assert(before.contains_key(x) && before.contains_key(e));
                    }
                    assert forall|l: (u32, u32)| links_of(before).remove((a, b)).contains(
                        l,
                    ) implies links_of(after).contains(l) by {
                        let x = choose|x: u32| #[trigger] before.contains_key(x) && before[x] == l;
                        assert(after.contains_key(x));
                    }
                }
            }
            true
        },
        None => {
            proof {
                assert(links_of(before) =~= links_of(before).remove((a, b)));
            }
            false
        },
    }
}

/// The links that are left when every link from or to `a` is taken away.
pub open spec fn links_clear_of(links: Set<(u32, u32)>, a: u32) -> Set<(u32, u32)> {
    links.filter(|l: (u32, u32)| l.0 != a && l.1 != a)
}

/// Takes the node `a` out, with every link from or to it. Returns the node,
/// or `None` when `a` was not live; the graph is then as it was.
pub(crate) fn drop_node(g: &mut MyGraph, a: u32) -> (r: Option<Node>)
    requires
        sound(old(g)),
    ensures
        sound(final(g)),
        match r {
            Some(n) => view_of(old(g)).nodes.contains_key(a) && view_of(old(g)).nodes[a] == n@
                && view_of(final(g)).links == links_clear_of(view_of(old(g)).links, a),
            None => !view_of(old(g)).nodes.contains_key(a) && view_of(final(g)).links == view_of(
                old(g),
            ).links,
        },
        view_of(final(g)).nodes == view_of(old(g)).nodes.remove(a),
        node_total(final(g)) <= node_total(old(g)),
        edge_total(final(g)) <= edge_total(old(g)),
{
    let ghost before = graph_edges(*g);
    let r = remove_node(g, a);
    proof {
        let after = graph_edges(*g);
        vstd::set_lib::lemma_len_subset(graph_nodes(*g).dom(), graph_nodes(*old(g)).dom());
        if r is Some {
            assert(after.dom().subset_of(before.dom()));
            vstd::set_lib::lemma_len_subset(after.dom(), before.dom());
            assert(no_parallel(after)) by {
                assert forall|e1: u32, e2: u32|
                    after.contains_key(e1) && after.contains_key(e2) && after[e1] == after[e2]
                    implies e1 == e2 by {
                    assert(before.contains_key(e1) && before.contains_key(e2));
                }
            }
            assert(links_of(after) =~= links_clear_of(links_of(before), a)) by {
                assert forall|l: (u32, u32)| links_of(after).contains(l) implies links_clear_of(
                    links_of(before),
                    a,
                ).contains(l) by {
                    let x = choose|x: u32| #[trigger] after.contains_key(x) && after[x] == l;
                    assert(before.contains_key(x));
                }
                assert forall|l: (u32, u32)| links_clear_of(links_of(before), a).contains(
                    l,
                ) implies links_of(after).contains(l) by {
                    let x = choose|x: u32| #[trigger] before.contains_key(x) && before[x] == l;
                    assert(after.contains_key(x));
                }
            }
        }
    }
    r
}

/// The nodes that `a` is linked to, each once.
pub fn targets(g: &MyGraph, a: u32) -> (r: Vec<u32>)
    requires
        sound(g),
    ensures
        r@.no_duplicates(),
        forall|b: u32| r@.contains(b) <==> view_of(g).links.contains((a, b)),
{
    let r = neighbors_out(g, a);
    proof {
        r@.to_multiset_ensures();
        assert forall|b: u32| r@.contains(b) <==> view_of(g).links.contains((a, b)) by {
            lemma_between(graph_edges(*g), a, b);
            assert(r@.to_multiset().count(b) == edges_between(graph_edges(*g), a, b).len());
        }
        assert forall|x: u32| r@.to_multiset().contains(x) implies r@.to_multiset().count(x)
            == 1 by {
            lemma_between(graph_edges(*g), a, x);
        }
        r@.lemma_multiset_has_no_duplicates_conv();
    }
    r
}

/// The nodes that are linked to `b`, each once.
pub fn sources(g: &MyGraph, b: u32) -> (r: Vec<u32>)
    requires
        sound(g),
    ensures
        r@.no_duplicates(),
        forall|a: u32| r@.contains(a) <==> view_of(g).links.contains((a, b)),
{
    let r = neighbors_in(g, b);
    proof {
        r@.to_multiset_ensures();
        assert forall|a: u32| r@.contains(a) <==> view_of(g).links.contains((a, b)) by {
            lemma_between(graph_edges(*g), a, b);
            assert(r@.to_multiset().count(a) == edges_between(graph_edges(*g), a, b).len());
        }
        assert forall|x: u32| r@.to_multiset().contains(x) implies r@.to_multiset().count(x)
            == 1 by {
            lemma_between(graph_edges(*g), x, b);
        }
        r@.lemma_multiset_has_no_duplicates_conv();
    }
    r
}

/// The kind of the node `a`, if `a` is live.
pub fn kind_of(g: &MyGraph, a: u32) -> (r: Option<NodeKind>)
    ensures
        r == (if view_of(g).nodes.contains_key(a) {
            Some(view_of(g).nodes[a].kind)
        } else {
            None
        }),
{
    match node_weight(g, a) {
        Some(n) => Some(n.kind),
        None => None,
    }
}

/// Gives the node `a` a new name; does nothing when `a` is not live.
pub(crate) fn rename_node(g: &mut MyGraph, a: u32, name: String)
    requires
        sound(old(g)),
    ensures
        sound(final(g)),
        view_of(final(g)).links == view_of(old(g)).links,
        view_of(final(g)).nodes == (if view_of(old(g)).nodes.contains_key(a) {
            view_of(old(g)).nodes.insert(
                a,
                NodeView { name: name@, kind: view_of(old(g)).nodes[a].kind },
            )
        } else {
            view_of(old(g)).nodes
        }),
        node_total(final(g)) == node_total(old(g)),
        edge_total(final(g)) == edge_total(old(g)),
{
    match node_weight_mut(g, a) {
        Some(n) => {
            n.set_name(name);
        },
        None => {},
    }
    proof {
        assert(graph_nodes(*g).dom() =~= graph_nodes(*old(g)).dom());
    }
}

} // verus!
