//! What the engine keeps true of its graph, and how a path leads to an entry.
//!
//! Files and directories are *entries*. A link from a directory to an entry
//! makes the entry a child of the directory; a link from a tag to an entry
//! puts the tag on the entry. There are no other links.

use vstd::prelude::*;
use crate::node::{NodeKind, NodeView};
use crate::links::{GraphView, view_of, sound};
use crate::store::MyGraph;
use crate::index::TagIndex;
use crate::text::split_spec;

verus! {

impl GraphView {
    /// A tag node.
    pub open spec fn is_tag(self, a: u32) -> bool {
        self.nodes.contains_key(a) && self.nodes[a].kind == NodeKind::Tag
    }

    /// A directory.
    pub open spec fn is_dir(self, a: u32) -> bool {
        self.nodes.contains_key(a) && self.nodes[a].kind == NodeKind::Directory
    }

    /// A file or a directory.
    pub open spec fn is_entry(self, a: u32) -> bool {
        self.nodes.contains_key(a) && self.nodes[a].kind != NodeKind::Tag
    }

    /// `c` is an entry in the directory `p`.
    pub open spec fn child_of(self, p: u32, c: u32) -> bool {
        self.is_dir(p) && self.is_entry(c) && self.links.contains((p, c))
    }

    /// The tag node `t` is on the entry `e`.
    pub open spec fn tagged(self, t: u32, e: u32) -> bool {
        self.is_tag(t) && self.is_entry(e) && self.links.contains((t, e))
    }

    /// The names of the tags that are on `e`.
    pub open spec fn tags_of(self, e: u32) -> Set<Seq<char>> {
        Set::new(|n: Seq<char>| exists|t: u32| #[trigger] self.tagged(t, e) && self.nodes[t].name == n)
    }
}

/// Every link leads to an entry, and comes from a directory or from a tag.
pub open spec fn links_typed(v: GraphView) -> bool {
    forall|a: u32, b: u32| #[trigger]
        v.links.contains((a, b)) ==> v.is_entry(b) && (v.is_tag(a) || v.is_dir(a))
}

/// Every entry but the root is in exactly one directory; the root is in none.
pub open spec fn one_parent(v: GraphView, root: u32) -> bool {
    &&& forall|c: u32| #[trigger] v.is_entry(c) && c != root ==> exists|p: u32| v.child_of(p, c)
    &&& forall|p: u32, q: u32, c: u32| #[trigger]
        v.child_of(p, c) && #[trigger] v.child_of(q, c) ==> p == q
    &&& forall|p: u32| !#[trigger] v.child_of(p, root)
}

/// `depth` grows by one from each directory to its children.
pub open spec fn ranked(v: GraphView, depth: spec_fn(u32) -> nat) -> bool {
    forall|p: u32, c: u32| #[trigger] v.child_of(p, c) ==> depth(c) == depth(p) + 1
}

/// No directory is, by way of its children, inside itself.
pub open spec fn acyclic(v: GraphView) -> bool {
    exists|depth: spec_fn(u32) -> nat| ranked(v, depth)
}

/// No two entries of one directory have the same name.
pub open spec fn siblings_distinct(v: GraphView) -> bool {
    forall|p: u32, c: u32, d: u32| #[trigger]
        v.child_of(p, c) && #[trigger] v.child_of(p, d) && v.nodes[c].name == v.nodes[d].name
            ==> c == d
}

/// The entries form a tree under the directory `root`.
pub open spec fn tree_wf(v: GraphView, root: u32) -> bool {
    &&& v.is_dir(root)
    &&& one_parent(v, root)
    &&& acyclic(v)
    &&& siblings_distinct(v)
}

/// The index holds exactly the names of the tag nodes, each with the handle
/// of its node; so no two tag nodes have the same name.
pub open spec fn indexed(v: GraphView, idx: Map<Seq<char>, u32>) -> bool {
    &&& forall|n: Seq<char>| #[trigger]
        idx.contains_key(n) ==> v.is_tag(idx[n]) && v.nodes[idx[n]].name == n
    &&& forall|t: u32| #[trigger]
        v.is_tag(t) ==> idx.contains_key(v.nodes[t].name) && idx[v.nodes[t].name] == t
}

/// Every tag node is on at least one entry.
pub open spec fn no_orphans(v: GraphView) -> bool {
    forall|t: u32| #[trigger] v.is_tag(t) ==> exists|e: u32| v.links.contains((t, e))
}

/// What holds of the tags, whatever the shape of the tree.
pub open spec fn tags_wf(g: &MyGraph, idx: &TagIndex) -> bool {
    &&& sound(g)
    &&& idx.wf()
    &&& links_typed(view_of(g))
    &&& indexed(view_of(g), idx@)
    &&& no_orphans(view_of(g))
}

/// What holds of the graph and the index between any two operations.
pub open spec fn well_formed(g: &MyGraph, idx: &TagIndex, root: u32) -> bool {
    &&& tags_wf(g, idx)
    &&& tree_wf(view_of(g), root)
}

/// The entry named `name` in the directory `p`, if there is one.
pub open spec fn child_named(v: GraphView, p: u32, name: Seq<char>) -> Option<u32> {
    if exists|c: u32| #[trigger] v.child_of(p, c) && v.nodes[c].name == name {
        Some(choose|c: u32| #[trigger] v.child_of(p, c) && v.nodes[c].name == name)
    } else {
        None
    }
}

/// The entry that a list of names leads to: the first names the root, each
/// further one an entry in the directory that the names before it lead to.
/// `None` as soon as a name finds nothing.
pub open spec fn resolve_spec(v: GraphView, root: u32, names: Seq<Seq<char>>) -> Option<u32>
    decreases names.len(),
{
    if names.len() == 0 {
        None
    } else if names.len() == 1 {
        if names[0] == v.nodes[root].name {
            Some(root)
        } else {
            None
        }
    } else {
        match resolve_spec(v, root, names.drop_last()) {
            Some(p) => child_named(v, p, names.last()),
            None => None,
        }
    }
}

/// The names in a path: its pieces between the slashes, without the empty
/// piece before a leading slash.
pub open spec fn components_spec(path: Seq<char>) -> Seq<Seq<char>> {
    let parts = split_spec(path, '/');
    if parts.len() > 0 && parts[0].len() == 0 {
        parts.drop_first()
    } else {
        parts
    }
}

/// In a directory without two entries of one name, an entry with the name
/// sought is the one that `child_named` gives.
pub proof fn lemma_child_named(v: GraphView, p: u32, c: u32)
    requires
        siblings_distinct(v),
        v.child_of(p, c),
    ensures
        child_named(v, p, v.nodes[c].name) == Some(c),
{
    let name = v.nodes[c].name;
    let d = choose|d: u32| #[trigger] v.child_of(p, d) && v.nodes[d].name == name;
    assert(v.child_of(p, d) && v.child_of(p, c));
}

/// What `child_named` gives is an entry of the directory, with the name
/// sought.
pub proof fn lemma_child_named_is_child(v: GraphView, p: u32, name: Seq<char>)
    ensures
        match child_named(v, p, name) {
            Some(c) => v.child_of(p, c) && v.nodes[c].name == name,
            None => forall|c: u32| #[trigger] v.child_of(p, c) ==> v.nodes[c].name != name,
        },
{
}

/// What a list of names leads to is an entry; with more than one name, it is
/// in the directory that the names before the last lead to, and has the last
/// name.
pub proof fn lemma_resolve_step(v: GraphView, root: u32, names: Seq<Seq<char>>)
    requires
        v.is_dir(root),
        resolve_spec(v, root, names) is Some,
    ensures
        names.len() >= 1,
        v.is_entry(resolve_spec(v, root, names)->0),
        v.nodes[resolve_spec(v, root, names)->0].name == names.last(),
        names.len() == 1 ==> resolve_spec(v, root, names) == Some(root),
        names.len() > 1 ==> resolve_spec(v, root, names.drop_last()) is Some && v.child_of(
            resolve_spec(v, root, names.drop_last())->0,
            resolve_spec(v, root, names)->0,
        ),
{
    if names.len() > 1 {
        let p = resolve_spec(v, root, names.drop_last())->0;
        lemma_child_named_is_child(v, p, names.last());
    }
}

/// Two lists of names that lead to the same entry are the same list.
pub proof fn lemma_resolve_injective(
    v: GraphView,
    root: u32,
    a: Seq<Seq<char>>,
    b: Seq<Seq<char>>,
)
    requires
        tree_wf(v, root),
        resolve_spec(v, root, a) is Some,
        resolve_spec(v, root, a) == resolve_spec(v, root, b),
    ensures
        a == b,
    decreases a.len(),
{
    lemma_resolve_step(v, root, a);
    lemma_resolve_step(v, root, b);
    let e = resolve_spec(v, root, a)->0;
    if a.len() == 1 {
        if b.len() > 1 {
            assert(v.child_of(resolve_spec(v, root, b.drop_last())->0, root));
        }
        assert(a =~= b);
    } else {
        if b.len() == 1 {
            assert(v.child_of(resolve_spec(v, root, a.drop_last())->0, root));
        }
        let p = resolve_spec(v, root, a.drop_last())->0;
        let q = resolve_spec(v, root, b.drop_last())->0;
        assert(v.child_of(p, e) && v.child_of(q, e));
        lemma_resolve_injective(v, root, a.drop_last(), b.drop_last());
        assert(a =~= a.drop_last().push(a.last()));
        assert(b =~= b.drop_last().push(b.last()));
    }
}

/// What the graph says, apart from the handles of the tag nodes: the
/// entries, which entry is in which directory, and which tag is on which
/// entry.
pub struct Content {
    pub entries: Map<u32, NodeView>,
    pub children: Set<(u32, u32)>,
    pub labels: Set<(u32, Seq<char>)>,
}

/// What the graph `v` says.
pub open spec fn content_of(v: GraphView) -> Content {
    Content {
        entries: Map::new(|a: u32| v.is_entry(a), |a: u32| v.nodes[a]),
        children: Set::new(|l: (u32, u32)| v.child_of(l.0, l.1)),
        labels: Set::new(|l: (u32, Seq<char>)| v.tags_of(l.0).contains(l.1)),
    }
}

/// The two graphs have the same entries in the same directories.
pub open spec fn same_tree(v: GraphView, w: GraphView) -> bool {
    content_of(v).entries == content_of(w).entries && content_of(v).children == content_of(
        w,
    ).children
}

/// What `same_tree` says, entry by entry.
pub proof fn lemma_same_tree(v: GraphView, w: GraphView)
    requires
        same_tree(v, w),
    ensures
        forall|a: u32| v.is_entry(a) <==> w.is_entry(a),
        forall|a: u32| v.is_entry(a) ==> v.nodes[a] == w.nodes[a],
        forall|a: u32| v.is_dir(a) <==> w.is_dir(a),
        forall|p: u32, c: u32| v.child_of(p, c) <==> w.child_of(p, c),
{
    let cv = content_of(v);
    let cw = content_of(w);
    assert forall|a: u32| v.is_entry(a) <==> w.is_entry(a) by {
        assert(cv.entries.contains_key(a) <==> v.is_entry(a));
        assert(cw.entries.contains_key(a) <==> w.is_entry(a));
    }
    assert forall|a: u32| v.is_entry(a) implies v.nodes[a] == w.nodes[a] by {
        assert(cv.entries.contains_key(a));
        assert(cv.entries[a] == v.nodes[a]);
        assert(cw.entries[a] == w.nodes[a]);
    }
    assert forall|a: u32| v.is_dir(a) <==> w.is_dir(a) by {
        assert(v.is_entry(a) <==> w.is_entry(a));
        if v.is_entry(a) {
            assert(v.nodes[a] == w.nodes[a]);
        }
    }
    assert forall|p: u32, c: u32| v.child_of(p, c) <==> w.child_of(p, c) by {
        assert(cv.children.contains((p, c)) <==> v.child_of(p, c));
        assert(cw.children.contains((p, c)) <==> w.child_of(p, c));
    }
}

/// Graphs that agree entry by entry have the same tree.
pub proof fn lemma_same_tree_by(v: GraphView, w: GraphView)
    requires
        forall|a: u32| v.is_entry(a) <==> w.is_entry(a),
        forall|a: u32| v.is_entry(a) ==> v.nodes[a] == w.nodes[a],
        forall|p: u32, c: u32| v.links.contains((p, c)) && v.is_dir(p) <==> w.links.contains((p, c)) && w.is_dir(p),
    ensures
        same_tree(v, w),
{
    assert(content_of(v).entries =~= content_of(w).entries);
    assert(content_of(v).children =~= content_of(w).children) by {
        assert forall|l: (u32, u32)| v.child_of(l.0, l.1) <==> w.child_of(l.0, l.1) by {
            if v.child_of(l.0, l.1) {
                assert(v.is_entry(l.0) && v.is_entry(l.1));
                assert(w.links.contains((l.0, l.1)) && w.is_dir(l.0));
            }
            if w.child_of(l.0, l.1) {
                assert(w.is_entry(l.0) && w.is_entry(l.1));
                assert(v.links.contains((l.0, l.1)) && v.is_dir(l.0));
            }
        }
    }
}

/// A graph with the same tree as a graph whose entries form a tree has its
/// entries form that tree.
pub proof fn lemma_same_tree_wf(v: GraphView, w: GraphView, root: u32)
    requires
        same_tree(v, w),
        tree_wf(v, root),
    ensures
        tree_wf(w, root),
{
    lemma_same_tree(v, w);
    assert(one_parent(w, root)) by {
        assert forall|c: u32| #[trigger] w.is_entry(c) && c != root implies exists|p: u32|
            w.child_of(p, c) by {
            assert(v.is_entry(c));
            let p = choose|p: u32| v.child_of(p, c);
            assert(w.child_of(p, c));
        }
        assert forall|p: u32, q: u32, c: u32| #[trigger]
            w.child_of(p, c) && #[trigger] w.child_of(q, c) implies p == q by {
            assert(v.child_of(p, c) && v.child_of(q, c));
        }
        assert forall|p: u32| !#[trigger] w.child_of(p, root) by {
            assert(!v.child_of(p, root));
        }
    }
    assert(acyclic(w)) by {
        let depth = choose|depth: spec_fn(u32) -> nat| ranked(v, depth);
        assert(ranked(w, depth)) by {
            assert forall|p: u32, c: u32| #[trigger] w.child_of(p, c) implies depth(c) == depth(
                p,
            ) + 1 by {
                assert(v.child_of(p, c));
            }
        }
    }
    assert(siblings_distinct(w)) by {
        assert forall|p: u32, c: u32, d: u32| #[trigger]
            w.child_of(p, c) && #[trigger] w.child_of(p, d) && w.nodes[c].name
                == w.nodes[d].name implies c == d by {
            assert(v.child_of(p, c) && v.child_of(p, d));
        }
    }
}

/// In graphs with the same tree the same names lead to the same entries.
pub proof fn lemma_same_tree_resolve(v: GraphView, w: GraphView, root: u32, names: Seq<Seq<char>>)
    requires
        same_tree(v, w),
        tree_wf(v, root),
    ensures
        resolve_spec(w, root, names) == resolve_spec(v, root, names),
    decreases names.len(),
{
    lemma_same_tree(v, w);
    assert(v.is_entry(root));
    assert(v.nodes[root] == w.nodes[root]);
    if names.len() > 1 {
        lemma_same_tree_resolve(v, w, root, names.drop_last());
        match resolve_spec(v, root, names.drop_last()) {
            Some(p) => {
                lemma_same_tree_child_named(v, w, root, p, names.last());
            },
            None => {},
        }
    }
}

/// In graphs with the same tree a directory holds the same entry under a
/// name.
pub proof fn lemma_same_tree_child_named(
    v: GraphView,
    w: GraphView,
    root: u32,
    p: u32,
    name: Seq<char>,
)
    requires
        same_tree(v, w),
        tree_wf(v, root),
    ensures
        child_named(w, p, name) == child_named(v, p, name),
{
    lemma_same_tree(v, w);
    lemma_same_tree_wf(v, w, root);
    lemma_child_named_is_child(v, p, name);
    match child_named(v, p, name) {
        Some(c) => {
            assert(v.is_entry(c));
            assert(w.child_of(p, c));
            lemma_child_named(w, p, c);
        },
        None => {
            if child_named(w, p, name) is Some {
                lemma_child_named_is_child(w, p, name);
                let d = child_named(w, p, name)->0;
                assert(v.child_of(p, d));
                assert(v.is_entry(d));
            }
        },
    }
}

} // verus!
