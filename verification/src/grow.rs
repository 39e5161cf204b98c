//! How the tree grows: what adding an entry to a directory keeps true, and
//! what it keeps of the paths that were there.

use vstd::prelude::*;
use crate::node::{NodeKind, NodeView};
use crate::links::GraphView;
use crate::tree::{
    links_typed,
    indexed,
    no_orphans,
    tree_wf,
    one_parent,
    acyclic,
    ranked,
    siblings_distinct,
    child_named,
    resolve_spec,
    content_of,
    lemma_child_named,
    lemma_child_named_is_child,
    lemma_resolve_step,
};

verus! {

/// `w` holds all of `v`: each entry of `v`, in the directory where `v` has
/// it and with the tags that `v` gives it. What `w` has beyond `v` are new
/// entries.
pub open spec fn grown(v: GraphView, w: GraphView) -> bool {
    &&& forall|a: u32| #[trigger] v.is_entry(a) ==> w.is_entry(a) && w.nodes[a] == v.nodes[a]
    &&& forall|p: u32, c: u32| #[trigger] v.child_of(p, c) ==> w.child_of(p, c)
    &&& forall|p: u32, c: u32| #[trigger] w.child_of(p, c) && v.is_entry(c) ==> v.child_of(p, c)
    &&& forall|a: u32, n: Seq<char>|
        v.is_entry(a) ==> (#[trigger] w.tags_of(a).contains(n) <==> v.tags_of(a).contains(n))
}

/// Growth adds up.
pub proof fn lemma_grown_trans(u: GraphView, v: GraphView, w: GraphView)
    requires
        grown(u, v),
        grown(v, w),
    ensures
        grown(u, w),
{
    assert forall|p: u32, c: u32| #[trigger] w.child_of(p, c) && u.is_entry(c) implies u.child_of(
        p,
        c,
    ) by {
        assert(v.is_entry(c));
        assert(v.child_of(p, c));
    }
    assert forall|a: u32, n: Seq<char>| u.is_entry(a) implies (#[trigger] w.tags_of(a).contains(n)
        <==> u.tags_of(a).contains(n)) by {
        assert(v.is_entry(a));
        assert(v.tags_of(a).contains(n) <==> u.tags_of(a).contains(n));
    }
}

/// Names that lead to an entry still lead to it after the graph has grown.
pub proof fn lemma_grown_resolve(v: GraphView, w: GraphView, root: u32, names: Seq<Seq<char>>)
    requires
        grown(v, w),
        tree_wf(v, root),
        tree_wf(w, root),
        resolve_spec(v, root, names) is Some,
    ensures
        resolve_spec(w, root, names) == resolve_spec(v, root, names),
    decreases names.len(),
{
    lemma_resolve_step(v, root, names);
    assert(v.is_entry(root));
    if names.len() > 1 {
        lemma_grown_resolve(v, w, root, names.drop_last());
        let p = resolve_spec(v, root, names.drop_last())->0;
        let c = resolve_spec(v, root, names)->0;
        assert(v.child_of(p, c));
        assert(w.child_of(p, c));
        assert(v.is_entry(c));
        lemma_child_named(w, p, c);
    }
}

/// Adding a file or a directory `c` with a name that is free in the
/// directory `p` keeps the tree a tree and the tags as they are; `c` is then
/// what its name leads to from `p`.
pub proof fn lemma_grow_leaf(
    v: GraphView,
    w: GraphView,
    idx: Map<Seq<char>, u32>,
    root: u32,
    p: u32,
    c: u32,
    node: NodeView,
)
    requires
        links_typed(v),
        indexed(v, idx),
        no_orphans(v),
        tree_wf(v, root),
        v.is_dir(p),
        !v.nodes.contains_key(c),
        node.kind != NodeKind::Tag,
        child_named(v, p, node.name) is None,
        w.nodes == v.nodes.insert(c, node),
        w.links == v.links.insert((p, c)),
    ensures
        links_typed(w),
        indexed(w, idx),
        no_orphans(w),
        tree_wf(w, root),
        grown(v, w),
        w.child_of(p, c),
        child_named(w, p, node.name) == Some(c),
        content_of(w).labels == content_of(v).labels,
        forall|x: u32| w.is_entry(x) <==> v.is_entry(x) || x == c,
        forall|x: u32| !#[trigger] w.child_of(c, x),
        forall|n: Seq<char>| !w.tags_of(c).contains(n),
{
    assert forall|a: u32, b: u32| #[trigger] w.links.contains((a, b)) && (a, b) != (
        p,
        c,
    ) implies v.links.contains((a, b)) && a != c && b != c by {
        assert(v.links.contains((a, b)));
        assert(v.is_entry(b) && (v.is_tag(a) || v.is_dir(a)));
    }
    assert(links_typed(w)) by {
        assert forall|a: u32, b: u32| #[trigger] w.links.contains((a, b)) implies w.is_entry(b)
            && (w.is_tag(a) || w.is_dir(a)) by {
            if (a, b) != (p, c) {
                assert(v.links.contains((a, b)) && a != c && b != c);
            }
        }
    }
    assert(indexed(w, idx)) by {
        assert forall|k: Seq<char>| #[trigger] idx.contains_key(k) implies w.is_tag(idx[k])
            && w.nodes[idx[k]].name == k by {
            assert(v.is_tag(idx[k]));
        }
        assert forall|x: u32| #[trigger] w.is_tag(x) implies idx.contains_key(w.nodes[x].name)
            && idx[w.nodes[x].name] == x by {
            assert(v.is_tag(x));
        }
    }
    assert(no_orphans(w)) by {
        assert forall|x: u32| #[trigger] w.is_tag(x) implies exists|y: u32|
            w.links.contains((x, y)) by {
            assert(v.is_tag(x));
            let y = choose|y: u32| v.links.contains((x, y));
            assert(w.links.contains((x, y)));
        }
    }
    assert forall|q: u32, x: u32| #[trigger] w.child_of(q, x) implies (q == p && x == c) || (
    v.child_of(q, x) && x != c && q != c) by {
        if (q, x) != (p, c) {
            assert(w.links.contains((q, x)));
            assert(v.links.contains((q, x)) && q != c && x != c);
        }
    }
    assert(w.child_of(p, c));
    assert(one_parent(w, root)) by {
        assert forall|x: u32| #[trigger] w.is_entry(x) && x != root implies exists|q: u32|
            w.child_of(q, x) by {
            if x != c {
                assert(v.is_entry(x));
                let q = choose|q: u32| v.child_of(q, x);
                assert(w.child_of(q, x));
            }
        }
        assert forall|q1: u32, q2: u32, x: u32| #[trigger]
            w.child_of(q1, x) && #[trigger] w.child_of(q2, x) implies q1 == q2 by {
            if x != c {
                assert(v.child_of(q1, x) && v.child_of(q2, x));
            }
        }
        assert forall|q: u32| !#[trigger] w.child_of(q, root) by {
            if w.child_of(q, root) {
                assert(v.child_of(q, root));
            }
        }
    }
    assert(acyclic(w)) by {
        let depth = choose|depth: spec_fn(u32) -> nat| ranked(v, depth);
        let deeper = |x: u32| if x == c { depth(p) + 1 } else { depth(x) };
        assert(ranked(w, deeper)) by {
            assert forall|q: u32, x: u32| #[trigger] w.child_of(q, x) implies deeper(x)
                == deeper(q) + 1 by {
                if x != c {
                    assert(v.child_of(q, x));
                }
            }
        }
    }
    assert(siblings_distinct(w)) by {
        assert forall|q: u32, x: u32, y: u32| #[trigger]
            w.child_of(q, x) && #[trigger] w.child_of(q, y) && w.nodes[x].name
                == w.nodes[y].name implies x == y by {
            lemma_child_named_is_child(v, p, node.name);
            if x == c && y != c {
                assert(v.child_of(p, y));
            }
            if y == c && x != c {
                assert(v.child_of(p, x));
            }
            if x != c && y != c {
                assert(v.child_of(q, x) && v.child_of(q, y));
            }
        }
    }
    lemma_child_named(w, p, c);
    assert forall|a: u32, n: Seq<char>| #[trigger]
        w.tags_of(a).contains(n) <==> v.tags_of(a).contains(n) by {
        if w.tags_of(a).contains(n) {
            let t = choose|t: u32| #[trigger] w.tagged(t, a) && w.nodes[t].name == n;
            assert(w.links.contains((t, a)));
            assert((t, a) != (p, c));
            assert(v.tagged(t, a));
        }
        if v.tags_of(a).contains(n) {
            let t = choose|t: u32| #[trigger] v.tagged(t, a) && v.nodes[t].name == n;
            assert(w.tagged(t, a));
        }
    }
    assert(content_of(w).labels =~= content_of(v).labels);
    assert forall|n: Seq<char>| !w.tags_of(c).contains(n) by {
        if w.tags_of(c).contains(n) {
            assert(v.tags_of(c).contains(n));
            let t = choose|t: u32| #[trigger] v.tagged(t, c) && v.nodes[t].name == n;
            assert(v.is_entry(c));
        }
    }
}

} // verus!
