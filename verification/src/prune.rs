//! Taking a subtree out of the graph: the entry, all that lies inside it, and
//! the tags that are then on no entry.

use vstd::prelude::*;
use crate::node::NodeKind;
use crate::store::{MyGraph, node_weight};
use crate::links::{
    GraphView,
    view_of,
    sound,
    targets,
    sources,
    kind_of,
    drop_node,
    node_total,
    edge_total,
    links_clear_of,
};
use crate::index::TagIndex;
use crate::tree::{
    links_typed,
    indexed,
    no_orphans,
    well_formed,
    tree_wf,
    one_parent,
    acyclic,
    ranked,
    siblings_distinct,
    content_of,
    same_tree,
    lemma_same_tree_by,
    lemma_same_tree_wf,
};

verus! {

/// `x` is reached from `a` by going `k` times from a directory to one of its
/// entries.
pub open spec fn reaches(v: GraphView, a: u32, x: u32, k: nat) -> bool
    decreases k,
{
    if k == 0 {
        a == x
    } else {
        exists|p: u32| #[trigger] v.child_of(p, x) && reaches(v, a, p, (k - 1) as nat)
    }
}

/// `x` is `a` or lies inside `a`, at whatever depth.
pub open spec fn below(v: GraphView, a: u32, x: u32) -> bool {
    exists|k: nat| reaches(v, a, x, k)
}

/// The subtree of `a`: `a` and all that lies inside it.
pub open spec fn subtree(v: GraphView, a: u32) -> Set<u32> {
    Set::new(|x: u32| below(v, a, x))
}

/// Some position from `from` on holds `y`.
pub open spec fn has_from(s: Seq<u32>, from: int, y: u32) -> bool {
    exists|i: int| from <= i < s.len() && s[i] == y
}

/// `t` is a tag node on an entry of the subtree of `a`.
pub open spec fn tags_into(v: GraphView, a: u32, t: u32) -> bool {
    v.is_tag(t) && exists|y: u32| below(v, a, y) && #[trigger] v.links.contains((t, y))
}

/// What is left of a graph when the nodes in `gone` are taken out with
/// their links.
pub open spec fn without(v: GraphView, gone: Set<u32>) -> GraphView {
    GraphView {
        nodes: v.nodes.remove_keys(gone),
        links: v.links.filter(|l: (u32, u32)| !gone.contains(l.0) && !gone.contains(l.1)),
    }
}

/// `k` steps from `a` and then one step down are `k + 1` steps from `a`.
pub proof fn lemma_reach_down(v: GraphView, a: u32, x: u32, c: u32, k: nat)
    requires
        reaches(v, a, x, k),
        v.child_of(x, c),
    ensures
        reaches(v, a, c, k + 1),
        below(v, a, c),
{
    assert(reaches(v, a, x, ((k + 1) - 1) as nat));
}

/// One step down from `a` and then `k` steps are `k + 1` steps from `a`.
pub proof fn lemma_reach_extend(v: GraphView, a: u32, c: u32, y: u32, k: nat)
    requires
        v.child_of(a, c),
        reaches(v, c, y, k),
    ensures
        reaches(v, a, y, k + 1),
    decreases k,
{
    if k == 0 {
        assert(reaches(v, a, a, 0));
        assert(v.child_of(a, y) && reaches(v, a, a, ((k + 1) - 1) as nat));
    } else {
        let p = choose|p: u32| #[trigger] v.child_of(p, y) && reaches(v, c, p, (k - 1) as nat);
        lemma_reach_extend(v, a, c, p, (k - 1) as nat);
        assert(v.child_of(p, y) && reaches(v, a, p, ((k + 1) - 1) as nat));
    }
}

/// More than no steps from `a` start with a step to an entry of `a`.
pub proof fn lemma_reach_peel(v: GraphView, a: u32, y: u32, k: nat) -> (c: u32)
    requires
        k > 0,
        reaches(v, a, y, k),
    ensures
        v.child_of(a, c),
        reaches(v, c, y, (k - 1) as nat),
    decreases k,
{
    let p = choose|p: u32| #[trigger] v.child_of(p, y) && reaches(v, a, p, (k - 1) as nat);
    if k == 1 {
        assert(p == a);
        assert(reaches(v, y, y, 0));
        y
    } else {
        let c = lemma_reach_peel(v, a, p, (k - 1) as nat);
        assert(v.child_of(p, y) && reaches(v, c, p, ((k - 1) - 1) as nat));
        c
    }
}

/// Each step down adds one to the depth.
pub proof fn lemma_reach_depth(v: GraphView, depth: spec_fn(u32) -> nat, a: u32, y: u32, k: nat)
    requires
        ranked(v, depth),
        reaches(v, a, y, k),
    ensures
        depth(y) == depth(a) + k,
    decreases k,
{
    if k > 0 {
        let p = choose|p: u32| #[trigger] v.child_of(p, y) && reaches(v, a, p, (k - 1) as nat);
        lemma_reach_depth(v, depth, a, p, (k - 1) as nat);
    }
}

/// What lies below an entry is an entry.
pub proof fn lemma_below_entry(v: GraphView, a: u32, y: u32)
    requires
        v.is_entry(a),
        below(v, a, y),
    ensures
        v.is_entry(y),
{
    let k = choose|k: nat| reaches(v, a, y, k);
    if k > 0 {
        let p = choose|p: u32| #[trigger] v.child_of(p, y) && reaches(v, a, p, (k - 1) as nat);
    }
}

/// The subtree of an entry of a directory is smaller than the directory's.
pub proof fn lemma_subtree_smaller(v: GraphView, a: u32, c: u32)
    requires
        v.nodes.dom().finite(),
        acyclic(v),
        v.child_of(a, c),
    ensures
        subtree(v, a).finite(),
        subtree(v, c).len() < subtree(v, a).len(),
{
    let big = subtree(v, a);
    let small = subtree(v, c);
    assert(big.subset_of(v.nodes.dom())) by {
        assert forall|y: u32| big.contains(y) implies v.nodes.dom().contains(y) by {
            lemma_below_entry(v, a, y);
        }
    }
    vstd::set_lib::lemma_set_subset_finite(v.nodes.dom(), big);
    assert(small.subset_of(big)) by {
        assert forall|y: u32| small.contains(y) implies big.contains(y) by {
            let k = choose|k: nat| reaches(v, c, y, k);
            lemma_reach_extend(v, a, c, y, k);
        }
    }
    assert(reaches(v, a, a, 0));
    assert(big.contains(a));
    assert(!small.contains(a)) by {
        if small.contains(a) {
            let depth = choose|depth: spec_fn(u32) -> nat| ranked(v, depth);
            let k = choose|k: nat| reaches(v, c, a, k);
            lemma_reach_depth(v, depth, c, a, k);
        }
    }
    small.lemma_subset_not_in_lt(big, a);
}

/// The subtree of a directory is the directory and the subtrees of its
/// entries.
pub proof fn lemma_subtree_split(v: GraphView, a: u32, y: u32)
    ensures
        below(v, a, y) <==> y == a || exists|c: u32| #[trigger] v.child_of(a, c) && below(v, c, y),
{
    if below(v, a, y) && y != a {
        let k = choose|k: nat| reaches(v, a, y, k);
        let c = lemma_reach_peel(v, a, y, k);
        assert(v.child_of(a, c) && below(v, c, y));
    }
    if y == a {
        assert(reaches(v, a, a, 0));
    }
    if exists|c: u32| #[trigger] v.child_of(a, c) && below(v, c, y) {
        let c = choose|c: u32| #[trigger] v.child_of(a, c) && below(v, c, y);
        let k = choose|k: nat| reaches(v, c, y, k);
        lemma_reach_extend(v, a, c, y, k);
    }
}

/// Lists the subtree of `entry_index`: appends to `entries_index` the entry
/// and all that lies inside it, and to `check_tags_index` the tag nodes that
/// are on any of them. A tag node that is on several of them is listed more
/// than once.
pub fn entries_to_remove(
    entry_index: u32,
    graph: &MyGraph,
    entries_index: &mut Vec<u32>,
    check_tags_index: &mut Vec<u32>,
)
    requires
        sound(graph),
        links_typed(view_of(graph)),
        acyclic(view_of(graph)),
        view_of(graph).is_entry(entry_index),
    ensures
        final(entries_index)@.len() >= old(entries_index)@.len(),
        final(entries_index)@.take(old(entries_index)@.len() as int) == old(entries_index)@,
        forall|y: u32|
            #![trigger has_from(final(entries_index)@, old(entries_index)@.len() as int, y)]
            #![trigger below(view_of(graph), entry_index, y)]
            has_from(final(entries_index)@, old(entries_index)@.len() as int, y) <==> below(
                view_of(graph),
                entry_index,
                y,
            ),
        final(check_tags_index)@.len() >= old(check_tags_index)@.len(),
        final(check_tags_index)@.take(old(check_tags_index)@.len() as int) == old(check_tags_index)@,
        forall|t: u32|
            #![trigger has_from(final(check_tags_index)@, old(check_tags_index)@.len() as int, t)]
            #![trigger tags_into(view_of(graph), entry_index, t)]
            has_from(final(check_tags_index)@, old(check_tags_index)@.len() as int, t)
                <==> tags_into(view_of(graph), entry_index, t),
    decreases subtree(view_of(graph), entry_index).len(),
{
    let ghost v = view_of(graph);
    let ghost e0 = entries_index@;
    let ghost t0 = check_tags_index@;
    entries_index.push(entry_index);
    let tags = sources(graph, entry_index);
    let mut j: usize = 0;
    while j < tags.len()
        invariant
            j <= tags@.len(),
            v == view_of(graph),
            check_tags_index@.len() >= t0.len(),
            check_tags_index@.take(t0.len() as int) == t0,
            forall|t: u32|
                #![trigger has_from(check_tags_index@, t0.len() as int, t)]
                has_from(check_tags_index@, t0.len() as int, t) <==> v.is_tag(t) && exists|m: int|
                    0 <= m < j && #[trigger] tags@[m] == t,
        decreases tags@.len() - j,
    {
        let ghost before = check_tags_index@;
        let s = tags[j];
        let pushed = kind_of(graph, s) == Some(NodeKind::Tag);
        if pushed {
            check_tags_index.push(s);
        }
        proof {
            let now = check_tags_index@;
            assert(now.take(t0.len() as int) =~= before.take(t0.len() as int));
            assert forall|t: u32|
                has_from(now, t0.len() as int, t) <==> v.is_tag(t) && exists|m: int|
                    0 <= m < j + 1 && #[trigger] tags@[m] == t by {
                if has_from(now, t0.len() as int, t) {
                    let i = choose|i: int| t0.len() <= i < now.len() && now[i] == t;
                    if i < before.len() {
                        assert(has_from(before, t0.len() as int, t));
                        let m = choose|m: int| 0 <= m < j && #[trigger] tags@[m] == t;
                        assert(0 <= m < j + 1 && tags@[m] == t);
                    } else {
                        assert(tags@[j as int] == t);
                    }
                }
                if v.is_tag(t) && exists|m: int| 0 <= m < j + 1 && #[trigger] tags@[m] == t {
                    let m = choose|m: int| 0 <= m < j + 1 && #[trigger] tags@[m] == t;
                    if m < j {
                        assert(has_from(before, t0.len() as int, t));
                        let i = choose|i: int| t0.len() <= i < before.len() && before[i] == t;
                        assert(now[i] == t);
                    } else {
                        assert(now[now.len() - 1] == t);
                    }
                }
            }
        }
        j += 1;
    }
    let ghost t1 = check_tags_index@;
    proof {
        assert(reaches(v, entry_index, entry_index, 0));
        assert forall|t: u32| has_from(t1, t0.len() as int, t) <==> v.is_tag(t) && v.links.contains(
            (t, entry_index),
        ) by {
            if has_from(t1, t0.len() as int, t) {
                let m = choose|m: int| 0 <= m < j && #[trigger] tags@[m] == t;
                assert(tags@.contains(t));
            }
            if v.is_tag(t) && v.links.contains((t, entry_index)) {
                assert(tags@.contains(t));
                let m = choose|m: int| 0 <= m < tags@.len() && tags@[m] == t;
                assert(0 <= m < j && tags@[m] == t);
            }
        }
    }
    let kids = targets(graph, entry_index);
    let mut i: usize = 0;
    proof {
        assert(entries_index@ =~= e0.push(entry_index));
        assert forall|y: u32| has_from(entries_index@, e0.len() as int, y) <==> y
            == entry_index by {
            if y == entry_index {
                assert(entries_index@[e0.len() as int] == y);
            }
        }
    }
    while i < kids.len()
        invariant
            i <= kids@.len(),
            v == view_of(graph),
            sound(graph),
            links_typed(v),
            acyclic(v),
            v.is_entry(entry_index),
            forall|b: u32| kids@.contains(b) <==> v.links.contains((entry_index, b)),
            entries_index@.len() > e0.len(),
            entries_index@.take(e0.len() as int) == e0,
            forall|y: u32|
                #![trigger has_from(entries_index@, e0.len() as int, y)]
                has_from(entries_index@, e0.len() as int, y) <==> y == entry_index || exists|
                    m: int,
                | 0 <= m < i && below(v, #[trigger] kids@[m], y),
            check_tags_index@.len() >= t0.len(),
            check_tags_index@.take(t0.len() as int) == t0,
            forall|t: u32|
                #![trigger has_from(check_tags_index@, t0.len() as int, t)]
                has_from(check_tags_index@, t0.len() as int, t) <==> (v.is_tag(t)
                    && v.links.contains((t, entry_index))) || exists|m: int|
                    0 <= m < i && tags_into(v, #[trigger] kids@[m], t),
        decreases kids@.len() - i,
    {
        let kid = kids[i];
        let ghost e1 = entries_index@;
        let ghost c1 = check_tags_index@;
        proof {
            assert(kids@.contains(kid));
            assert(v.links.contains((entry_index, kid)));
            assert(v.child_of(entry_index, kid));
            lemma_subtree_smaller(v, entry_index, kid);
        }
        entries_to_remove(kid, graph, entries_index, check_tags_index);
        proof {
            let e2 = entries_index@;
            let c2 = check_tags_index@;
            assert(e2.take(e0.len() as int) =~= e1.take(e0.len() as int)) by {
                assert(e2.take(e1.len() as int) == e1);
                assert forall|k: int| 0 <= k < e0.len() implies e2[k] == e1[k] by {
                    assert(e2.take(e1.len() as int)[k] == e2[k]);
                }
            }
            assert(c2.take(t0.len() as int) =~= c1.take(t0.len() as int)) by {
                assert(c2.take(c1.len() as int) == c1);
                assert forall|k: int| 0 <= k < t0.len() implies c2[k] == c1[k] by {
                    assert(c2.take(c1.len() as int)[k] == c2[k]);
                }
            }
            assert forall|y: u32|
                #![trigger has_from(e2, e0.len() as int, y)]
                has_from(e2, e0.len() as int, y) <==> y == entry_index || exists|m: int|
                    0 <= m < i + 1 && below(v, #[trigger] kids@[m], y) by {
                lemma_has_from_split(e1, e2, e0.len() as int, y);
                if has_from(e1, e0.len() as int, y) && y != entry_index {
                    let m = choose|m: int| 0 <= m < i && below(v, #[trigger] kids@[m], y);
                    assert(0 <= m < i + 1 && below(v, kids@[m], y));
                }
                if has_from(e2, e1.len() as int, y) {
                    assert(below(v, kids@[i as int], y));
                }
                if exists|m: int| 0 <= m < i + 1 && below(v, #[trigger] kids@[m], y) {
                    let m = choose|m: int| 0 <= m < i + 1 && below(v, #[trigger] kids@[m], y);
                    if m < i {
                        assert(has_from(e1, e0.len() as int, y));
                    } else {
                        assert(has_from(e2, e1.len() as int, y));
                    }
                }
            }
            assert forall|t: u32|
                #![trigger has_from(c2, t0.len() as int, t)]
                has_from(c2, t0.len() as int, t) <==> (v.is_tag(t) && v.links.contains(
                    (t, entry_index),
                )) || exists|m: int| 0 <= m < i + 1 && tags_into(v, #[trigger] kids@[m], t) by {
                lemma_has_from_split(c1, c2, t0.len() as int, t);
                if has_from(c1, t0.len() as int, t) && !(v.is_tag(t) && v.links.contains(
                    (t, entry_index),
                )) {
                    let m = choose|m: int| 0 <= m < i && tags_into(v, #[trigger] kids@[m], t);
                    assert(0 <= m < i + 1 && tags_into(v, kids@[m], t));
                }
                if has_from(c2, c1.len() as int, t) {
                    assert(tags_into(v, kids@[i as int], t));
                }
                if exists|m: int| 0 <= m < i + 1 && tags_into(v, #[trigger] kids@[m], t) {
                    let m = choose|m: int| 0 <= m < i + 1 && tags_into(v, #[trigger] kids@[m], t);
                    if m < i {
                        assert(has_from(c1, t0.len() as int, t));
                    } else {
                        assert(has_from(c2, c1.len() as int, t));
                    }
                }
            }
        }
        i += 1;
    }
    proof {
        let e2 = entries_index@;
        let c2 = check_tags_index@;
        assert forall|y: u32| has_from(e2, e0.len() as int, y) <==> below(v, entry_index, y) by {
            lemma_subtree_split(v, entry_index, y);
            if has_from(e2, e0.len() as int, y) && y != entry_index {
                let m = choose|m: int| 0 <= m < i && below(v, #[trigger] kids@[m], y);
                assert(kids@.contains(kids@[m]));
                assert(v.child_of(entry_index, kids@[m]));
            }
            if below(v, entry_index, y) && y != entry_index {
                let c = choose|c: u32| #[trigger] v.child_of(entry_index, c) && below(v, c, y);
                assert(kids@.contains(c));
                let m = choose|m: int| 0 <= m < kids@.len() && kids@[m] == c;
                assert(0 <= m < i && below(v, kids@[m], y));
            }
        }
        assert forall|t: u32| has_from(c2, t0.len() as int, t) <==> tags_into(
            v,
            entry_index,
            t,
        ) by {
            if has_from(c2, t0.len() as int, t) {
                if v.is_tag(t) && v.links.contains((t, entry_index)) {
                    assert(below(v, entry_index, entry_index));
                } else {
                    let m = choose|m: int| 0 <= m < i && tags_into(v, #[trigger] kids@[m], t);
                    let y = choose|y: u32|
                        below(v, kids@[m], y) && #[trigger] v.links.contains((t, y));
                    assert(kids@.contains(kids@[m]));
                    assert(v.child_of(entry_index, kids@[m]));
                    lemma_subtree_split(v, entry_index, y);
                    assert(below(v, entry_index, y) && v.links.contains((t, y)));
                }
            }
            if tags_into(v, entry_index, t) {
                let y = choose|y: u32| below(v, entry_index, y) && #[trigger] v.links.contains(
                    (t, y),
                );
                lemma_subtree_split(v, entry_index, y);
                if y != entry_index {
                    let c = choose|c: u32| #[trigger] v.child_of(entry_index, c) && below(v, c, y);
                    assert(kids@.contains(c));
                    let m = choose|m: int| 0 <= m < kids@.len() && kids@[m] == c;
                    assert(below(v, kids@[m], y) && v.links.contains((t, y)));
                    assert(0 <= m < i && tags_into(v, kids@[m], t));
                }
            }
        }
    }
}

/// What a list holds from a position on is what it held there before it
/// was extended and what the extension holds.
pub proof fn lemma_has_from_split(a: Seq<u32>, b: Seq<u32>, from: int, y: u32)
    requires
        0 <= from <= a.len() <= b.len(),
        b.take(a.len() as int) == a,
    ensures
        has_from(b, from, y) <==> has_from(a, from, y) || has_from(b, a.len() as int, y),
{
    if has_from(b, from, y) {
        let i = choose|i: int| from <= i < b.len() && b[i] == y;
        if i < a.len() {
            assert(b.take(a.len() as int)[i] == b[i]);
            assert(from <= i < a.len() && a[i] == y);
        } else {
            assert(a.len() <= i < b.len() && b[i] == y);
        }
    }
    if has_from(a, from, y) {
        let i = choose|i: int| from <= i < a.len() && a[i] == y;
        assert(b.take(a.len() as int)[i] == b[i]);
        assert(from <= i < b.len() && b[i] == y);
    }
    if has_from(b, a.len() as int, y) {
        let i = choose|i: int| a.len() <= i < b.len() && b[i] == y;
        assert(from <= i < b.len() && b[i] == y);
    }
}

/// The nodes that a list holds from a position on.
pub open spec fn held_from(s: Seq<u32>, from: int) -> Set<u32> {
    Set::new(|y: u32| has_from(s, from, y))
}

/// Taking the subtree of an entry other than the root out of the graph
/// leaves a tree under the same root, with the entries that are left where
/// they were and tagged as they were. A tag node may be left without an
/// entry; it was then on an entry of the subtree.
pub proof fn lemma_prune(
    v: GraphView,
    u: GraphView,
    idx: Map<Seq<char>, u32>,
    root: u32,
    e: u32,
)
    requires
        links_typed(v),
        indexed(v, idx),
        no_orphans(v),
        tree_wf(v, root),
        v.is_entry(e),
        e != root,
        u.nodes == without(v, subtree(v, e)).nodes,
        u.links == without(v, subtree(v, e)).links,
    ensures
        links_typed(u),
        indexed(u, idx),
        tree_wf(u, root),
        forall|t: u32| #[trigger]
            u.is_tag(t) ==> (exists|y: u32| u.links.contains((t, y))) || tags_into(v, e, t),
        forall|x: u32| subtree(v, e).contains(x) ==> v.is_entry(x) && !u.nodes.contains_key(x),
        content_of(u).entries == content_of(v).entries.remove_keys(subtree(v, e)),
        content_of(u).children == content_of(v).children.filter(
            |l: (u32, u32)| !subtree(v, e).contains(l.1),
        ),
        content_of(u).labels == content_of(v).labels.filter(
            |l: (u32, Seq<char>)| !subtree(v, e).contains(l.0),
        ),
{
    let gone = subtree(v, e);
    assert forall|x: u32| gone.contains(x) implies v.is_entry(x) && !u.nodes.contains_key(x) by {
        lemma_below_entry(v, e, x);
    }
    assert(!gone.contains(root)) by {
        if gone.contains(root) {
            let k = choose|k: nat| reaches(v, e, root, k);
            if k > 0 {
                let p = choose|p: u32| #[trigger]
                    v.child_of(p, root) && reaches(v, e, p, (k - 1) as nat);
            }
        }
    }
    assert forall|p: u32, c: u32| gone.contains(p) && #[trigger] v.child_of(p, c) implies gone.contains(
        c,
    ) by {
        let k = choose|k: nat| reaches(v, e, p, k);
        lemma_reach_down(v, e, p, c, k);
    }
    assert forall|a: u32| u.is_tag(a) <==> v.is_tag(a) by {
        if v.is_tag(a) && gone.contains(a) {
            lemma_below_entry(v, e, a);
        }
    }
    assert forall|a: u32| u.is_entry(a) <==> v.is_entry(a) && !gone.contains(a) by {}
    assert forall|a: u32| u.is_dir(a) <==> v.is_dir(a) && !gone.contains(a) by {}
    assert forall|p: u32, c: u32| #[trigger] u.child_of(p, c) <==> v.child_of(p, c)
        && !gone.contains(c) by {
        if v.child_of(p, c) && !gone.contains(c) {
            assert(!gone.contains(p));
            assert(u.links.contains((p, c)));
        }
    }
    assert(links_typed(u)) by {
        assert forall|a: u32, b: u32| #[trigger] u.links.contains((a, b)) implies u.is_entry(b)
            && (u.is_tag(a) || u.is_dir(a)) by {
            assert(v.links.contains((a, b)));
        }
    }
    assert(indexed(u, idx)) by {
        assert forall|n: Seq<char>| #[trigger] idx.contains_key(n) implies u.is_tag(idx[n])
            && u.nodes[idx[n]].name == n by {
            assert(v.is_tag(idx[n]));
        }
        assert forall|t: u32| #[trigger] u.is_tag(t) implies idx.contains_key(u.nodes[t].name)
            && idx[u.nodes[t].name] == t by {
            assert(v.is_tag(t));
        }
    }
    assert(one_parent(u, root)) by {
        assert forall|c: u32| #[trigger] u.is_entry(c) && c != root implies exists|p: u32|
            u.child_of(p, c) by {
            assert(v.is_entry(c));
            let p = choose|p: u32| v.child_of(p, c);
            assert(u.child_of(p, c));
        }
        assert forall|p: u32, q: u32, c: u32| #[trigger]
            u.child_of(p, c) && #[trigger] u.child_of(q, c) implies p == q by {
            assert(v.child_of(p, c) && v.child_of(q, c));
        }
        assert forall|p: u32| !#[trigger] u.child_of(p, root) by {
            assert(!v.child_of(p, root));
        }
    }
    assert(acyclic(u)) by {
        let depth = choose|depth: spec_fn(u32) -> nat| ranked(v, depth);
        assert(ranked(u, depth)) by {
            assert forall|p: u32, c: u32| #[trigger] u.child_of(p, c) implies depth(c) == depth(
                p,
            ) + 1 by {
                assert(v.child_of(p, c));
            }
        }
    }
    assert(siblings_distinct(u)) by {
        assert forall|p: u32, c: u32, d: u32| #[trigger]
            u.child_of(p, c) && #[trigger] u.child_of(p, d) && u.nodes[c].name
                == u.nodes[d].name implies c == d by {
            assert(v.child_of(p, c) && v.child_of(p, d));
        }
    }
    assert forall|t: u32| #[trigger] u.is_tag(t) implies (exists|y: u32|
        u.links.contains((t, y))) || tags_into(v, e, t) by {
        assert(v.is_tag(t));
        let y = choose|y: u32| v.links.contains((t, y));
        if gone.contains(y) {
            assert(below(v, e, y) && v.links.contains((t, y)));
        } else {
            assert(u.links.contains((t, y)));
        }
    }
    assert(content_of(u).entries =~= content_of(v).entries.remove_keys(gone));
    assert(content_of(u).children =~= content_of(v).children.filter(
        |l: (u32, u32)| !gone.contains(l.1),
    ));
    assert forall|a: u32, n: Seq<char>| #[trigger]
        u.tags_of(a).contains(n) <==> v.tags_of(a).contains(n) && !gone.contains(a) by {
        if u.tags_of(a).contains(n) {
            let t = choose|t: u32| #[trigger] u.tagged(t, a) && u.nodes[t].name == n;
            assert(v.tagged(t, a));
        }
        if v.tags_of(a).contains(n) && !gone.contains(a) {
            let t = choose|t: u32| #[trigger] v.tagged(t, a) && v.nodes[t].name == n;
            assert(u.is_tag(t));
            assert(u.tagged(t, a));
        }
    }
    assert(content_of(u).labels =~= content_of(v).labels.filter(
        |l: (u32, Seq<char>)| !gone.contains(l.0),
    ));
}

/// Taking out a tag node that is on no entry keeps the tree and the tags of
/// the entries as they are.
pub proof fn lemma_drop_orphan(
    v: GraphView,
    w: GraphView,
    idx: Map<Seq<char>, u32>,
    t: u32,
)
    requires
        links_typed(v),
        indexed(v, idx),
        v.is_tag(t),
        forall|y: u32| !v.links.contains((t, y)),
        w.nodes == v.nodes.remove(t),
        w.links == links_clear_of(v.links, t),
    ensures
        links_typed(w),
        indexed(w, idx.remove(v.nodes[t].name)),
        same_tree(v, w),
        content_of(w).labels == content_of(v).labels,
        forall|x: u32| #[trigger] w.is_tag(x) <==> v.is_tag(x) && x != t,
        forall|x: u32, y: u32| x != t ==> (w.links.contains((x, y)) <==> v.links.contains((x, y))),
        w.links == v.links,
{
    let idx2 = idx.remove(v.nodes[t].name);
    assert(w.links =~= v.links) by {
        assert forall|l: (u32, u32)| w.links.contains(l) <==> v.links.contains(l) by {
            if v.links.contains(l) {
                assert(v.links.contains((l.0, l.1)));
                assert(v.is_entry(l.1));
            }
        }
    }
    assert forall|x: u32, y: u32| x != t implies (w.links.contains((x, y)) <==> v.links.contains(
        (x, y),
    )) by {
        if v.links.contains((x, y)) {
            assert(v.is_entry(y));
        }
    }
    assert(links_typed(w)) by {
        assert forall|a: u32, b: u32| #[trigger] w.links.contains((a, b)) implies w.is_entry(b)
            && (w.is_tag(a) || w.is_dir(a)) by {
            assert(v.links.contains((a, b)));
        }
    }
    assert(indexed(w, idx2)) by {
        assert forall|n: Seq<char>| #[trigger] idx2.contains_key(n) implies w.is_tag(idx2[n])
            && w.nodes[idx2[n]].name == n by {
            assert(idx.contains_key(n));
            assert(v.is_tag(idx[n]));
        }
        assert forall|x: u32| #[trigger] w.is_tag(x) implies idx2.contains_key(w.nodes[x].name)
            && idx2[w.nodes[x].name] == x by {
            assert(v.is_tag(x));
        }
    }
    assert forall|p: u32, c: u32|
        v.links.contains((p, c)) && v.is_dir(p) <==> w.links.contains((p, c)) && w.is_dir(
            p,
        ) by {}
    lemma_same_tree_by(v, w);
    assert forall|a: u32, n: Seq<char>| #[trigger]
        w.tags_of(a).contains(n) <==> v.tags_of(a).contains(n) by {
        if w.tags_of(a).contains(n) {
            let x = choose|x: u32| #[trigger] w.tagged(x, a) && w.nodes[x].name == n;
            assert(v.tagged(x, a));
        }
        if v.tags_of(a).contains(n) {
            let x = choose|x: u32| #[trigger] v.tagged(x, a) && v.nodes[x].name == n;
            assert(x != t);
            assert(w.tagged(x, a));
        }
    }
    assert(content_of(w).labels =~= content_of(v).labels);
}

/// The tag node `t` goes with the nodes in `gone`: it is on no entry but
/// those.
pub open spec fn tag_goes(v: GraphView, gone: Set<u32>, t: u32) -> bool {
    v.is_tag(t) && forall|b: u32| #[trigger] v.links.contains((t, b)) ==> gone.contains(b)
}

/// What taking the subtree of `entry` out does.
///
/// It is done if and only if `entry` is an entry of the graph other than
/// the root. When it is done, no node of the subtree is left; the other
/// entries are where they were and tagged as they were. The nodes that go
/// are those of the subtree and the tags that were on no other entry, the
/// links that go are those from or to a node of the subtree, and every node
/// and every tag name that stays keeps its handle. When it is not done,
/// nothing changes.
pub open spec fn pruned(
    g0: &MyGraph,
    g1: &MyGraph,
    idx0: Map<Seq<char>, u32>,
    idx1: Map<Seq<char>, u32>,
    root: u32,
    entry: u32,
    done: bool,
) -> bool {
    let v = view_of(g0);
    let w = view_of(g1);
    let gone = subtree(v, entry);
    &&& done <==> v.is_entry(entry) && entry != root
    &&& !done ==> w == v && idx1 == idx0
    &&& done ==> forall|x: u32| below(v, entry, x) ==> !w.nodes.contains_key(x)
    &&& done ==> content_of(w).entries == content_of(v).entries.remove_keys(gone)
    &&& done ==> content_of(w).children == content_of(v).children.filter(
        |l: (u32, u32)| !gone.contains(l.1),
    )
    &&& done ==> content_of(w).labels == content_of(v).labels.filter(
        |l: (u32, Seq<char>)| !gone.contains(l.0),
    )
    &&& done ==> w.links == without(v, gone).links
    &&& done ==> forall|t: u32|
        #![trigger w.nodes.contains_key(t)]
        #![trigger v.nodes.contains_key(t)]
        w.nodes.contains_key(t) <==> v.nodes.contains_key(t) && !gone.contains(t) && !tag_goes(
            v,
            gone,
            t,
        )
    &&& done ==> forall|t: u32| #[trigger] w.nodes.contains_key(t) ==> w.nodes[t] == v.nodes[t]
    &&& done ==> forall|n: Seq<char>|
        #![trigger idx1.contains_key(n)]
        #![trigger idx0.contains_key(n)]
        idx1.contains_key(n) <==> idx0.contains_key(n) && w.nodes.contains_key(idx0[n])
    &&& done ==> forall|n: Seq<char>| #[trigger] idx1.contains_key(n) ==> idx1[n] == idx0[n]
    &&& node_total(g1) <= node_total(g0)
    &&& edge_total(g1) <= edge_total(g0)
}

/// Takes the entry `entry_index` out of the graph, with all that lies inside
/// it. A tag that was only on entries of that subtree goes with them, from
/// the graph and from the index.
///
/// Returns whether that was done. It is not done, and nothing changes, when
/// `entry_index` is no entry of the graph or is the root.
pub fn remove_entries(
    root_index: u32,
    entry_index: u32,
    graph: &mut MyGraph,
    tags_index: &mut TagIndex,
) -> (done: bool)
    requires
        well_formed(old(graph), old(tags_index), root_index),
    ensures
        well_formed(final(graph), final(tags_index), root_index),
        pruned(
            old(graph),
            final(graph),
            old(tags_index)@,
            final(tags_index)@,
            root_index,
            entry_index,
            done,
        ),
{
    let ghost v = view_of(graph);
    let ghost idx = tags_index@;
    match kind_of(graph, entry_index) {
        Some(NodeKind::File) | Some(NodeKind::Directory) => {},
        _ => {
            return false;
        },
    }
    if entry_index == root_index {
        return false;
    }
    let mut entries_index: Vec<u32> = Vec::new();
    let mut check_tags_index: Vec<u32> = Vec::new();
    entries_to_remove(entry_index, graph, &mut entries_index, &mut check_tags_index);
    let mut k: usize = entries_index.len();
    proof {
        assert forall|j: int| 0 <= j < entries_index@.len() implies v.is_entry(
            #[trigger] entries_index@[j],
        ) by {
            assert(has_from(entries_index@, 0, entries_index@[j]));
            lemma_below_entry(v, entry_index, entries_index@[j]);
        }
        assert(without(v, held_from(entries_index@, k as int)).nodes =~= v.nodes);
        assert(without(v, held_from(entries_index@, k as int)).links =~= v.links);
    }
    while k > 0
        invariant
            k <= entries_index@.len(),
            sound(graph),
            view_of(graph).nodes == without(v, held_from(entries_index@, k as int)).nodes,
            view_of(graph).links == without(v, held_from(entries_index@, k as int)).links,
            links_typed(v),
            forall|j: int| 0 <= j < entries_index@.len() ==> v.is_entry(#[trigger] entries_index@[j]),
            node_total(graph) <= node_total(old(graph)),
            edge_total(graph) <= edge_total(old(graph)),
        decreases k,
    {
        let ghost before = view_of(graph);
        let ghost gone = held_from(entries_index@, k as int);
        k -= 1;
        let x = entries_index[k];
        drop_node(graph, x);
        proof {
            let now = view_of(graph);
            let gone2 = held_from(entries_index@, k as int);
            assert forall|y: u32| gone2.contains(y) <==> gone.contains(y) || y == x by {
                if gone2.contains(y) {
                    let i = choose|i: int| k <= i < entries_index@.len() && entries_index@[i] == y;
                    if i > k {
                        assert(k + 1 <= i < entries_index@.len() && entries_index@[i] == y);
                    }
                }
                if gone.contains(y) {
                    let i = choose|i: int|
                        k + 1 <= i < entries_index@.len() && entries_index@[i] == y;
                    assert(k <= i < entries_index@.len() && entries_index@[i] == y);
                }
                if y == x {
                    assert(k <= k < entries_index@.len() && entries_index@[k as int] == y);
                }
            }
            assert(v.is_entry(entries_index@[k as int]));
            assert(now.nodes =~= without(v, gone2).nodes);
            assert forall|l: (u32, u32)| now.links.contains(l) <==> without(v, gone2).links.contains(
                l,
            ) by {
                if v.links.contains(l) {
                    assert(v.links.contains((l.0, l.1)));
                    assert(v.is_entry(l.1) && (v.is_tag(l.0) || v.is_dir(l.0)));
                }
            }
            assert(now.links =~= without(v, gone2).links);
        }
    }
    let ghost u = view_of(graph);
    proof {
        assert(held_from(entries_index@, 0) =~= subtree(v, entry_index));
        lemma_prune(v, u, idx, root_index, entry_index);
    }
    let mut i: usize = 0;
    while i < check_tags_index.len()
        invariant
            i <= check_tags_index@.len(),
            sound(graph),
            tags_index.wf(),
            links_typed(view_of(graph)),
            indexed(view_of(graph), tags_index@),
            same_tree(u, view_of(graph)),
            content_of(view_of(graph)).labels == content_of(u).labels,
            view_of(graph).nodes.dom().subset_of(u.nodes.dom()),
            view_of(graph).links == u.links,
            forall|t: u32| #[trigger]
                view_of(graph).nodes.contains_key(t) ==> view_of(graph).nodes[t] == u.nodes[t],
            forall|t: u32| #[trigger]
                u.nodes.contains_key(t) && !view_of(graph).nodes.contains_key(t) ==> u.is_tag(t)
                    && forall|b: u32| !u.links.contains((t, b)),
            forall|n: Seq<char>| #[trigger]
                tags_index@.contains_key(n) ==> idx.contains_key(n) && tags_index@[n] == idx[n],
            forall|t: u32| #[trigger]
                view_of(graph).is_tag(t) ==> (exists|y: u32| view_of(graph).links.contains((t, y)))
                    || has_from(check_tags_index@, i as int, t),
            node_total(graph) <= node_total(old(graph)),
            edge_total(graph) <= edge_total(old(graph)),
        decreases check_tags_index@.len() - i,
    {
        let ghost w = view_of(graph);
        let ghost idx1 = tags_index@;
        let tag_index = check_tags_index[i];
        let mut orphan: Option<String> = None;
        match node_weight(graph, tag_index) {
            Some(node) => {
                if node.kind == NodeKind::Tag {
                    orphan = Some(node.name.clone());
                }
            },
            None => {},
        }
        let mut dropped = false;
        match orphan {
            Some(name) => {
                let rest = targets(graph, tag_index);
                if rest.len() == 0 {
                    proof {
                        assert forall|y: u32| !w.links.contains((tag_index, y)) by {
                            if w.links.contains((tag_index, y)) {
                                assert(rest@.contains(y));
                            }
                        }
                    }
                    tags_index.remove(&name);
                    drop_node(graph, tag_index);
                    dropped = true;
                    proof {
                        lemma_drop_orphan(w, view_of(graph), idx1, tag_index);
                    }
                } else {
                    proof {
                        assert(rest@.contains(rest@[0]));
                        assert(w.links.contains((tag_index, rest@[0])));
                    }
                }
            },
            None => {},
        }
        proof {
            let now = view_of(graph);
            assert forall|t: u32| #[trigger] now.is_tag(t) implies (exists|y: u32|
                now.links.contains((t, y))) || has_from(check_tags_index@, i + 1, t) by {
                assert(w.is_tag(t));
                if exists|y: u32| w.links.contains((t, y)) {
                    let y = choose|y: u32| w.links.contains((t, y));
                    assert(now.links.contains((t, y)));
                } else {
                    assert(has_from(check_tags_index@, i as int, t));
                    let j = choose|j: int|
                        i <= j < check_tags_index@.len() && check_tags_index@[j] == t;
                    if j == i {
                        assert(t == tag_index);
                        assert(dropped);
                    } else {
                        assert(i + 1 <= j < check_tags_index@.len() && check_tags_index@[j] == t);
                    }
                }
            }
        }
        i += 1;
    }
    proof {
        let w = view_of(graph);
        assert(no_orphans(w)) by {
            assert forall|t: u32| #[trigger] w.is_tag(t) implies exists|y: u32|
                w.links.contains((t, y)) by {
                if has_from(check_tags_index@, i as int, t) {
                    let j = choose|j: int|
                        i <= j < check_tags_index@.len() && check_tags_index@[j] == t;
                }
            }
        }
        lemma_same_tree_wf(u, w, root_index);
        assert forall|x: u32| below(v, entry_index, x) implies !w.nodes.contains_key(x) by {
            assert(subtree(v, entry_index).contains(x));
            assert(!u.nodes.dom().contains(x));
        }
        let gone = subtree(v, entry_index);
        let idx1 = tags_index@;
        assert(w.links =~= without(v, gone).links);
        assert forall|t: u32| w.nodes.contains_key(t) implies w.nodes[t] == v.nodes[t] by {
            assert(u.nodes.contains_key(t));
        }
        assert forall|t: u32|
            w.nodes.contains_key(t) <==> v.nodes.contains_key(t) && !gone.contains(t) && !tag_goes(
                v,
                gone,
                t,
            ) by {
            if w.nodes.contains_key(t) {
                assert(u.nodes.dom().contains(t));
                assert(w.nodes[t] == u.nodes[t]);
                if tag_goes(v, gone, t) {
                    assert(w.is_tag(t));
                    let y = choose|y: u32| w.links.contains((t, y));
                    assert(u.links.contains((t, y)));
                    assert(v.links.contains((t, y)));
                }
            }
            if v.nodes.contains_key(t) && !gone.contains(t) && !tag_goes(v, gone, t) {
                assert(u.nodes.contains_key(t));
                if !w.nodes.contains_key(t) {
                    assert(u.is_tag(t));
                    assert(v.is_tag(t));
                    let b = choose|b: u32| #[trigger] v.links.contains((t, b)) && !gone.contains(b);
                    assert(u.links.contains((t, b)));
                }
            }
        }
        assert forall|n: Seq<char>|
            idx1.contains_key(n) <==> idx.contains_key(n) && w.nodes.contains_key(idx[n]) by {
            if idx1.contains_key(n) {
                assert(w.is_tag(idx1[n]));
            }
            if idx.contains_key(n) && w.nodes.contains_key(idx[n]) {
                let t = idx[n];
                assert(v.is_tag(t) && v.nodes[t].name == n);
                assert(w.nodes[t] == v.nodes[t]);
                assert(w.is_tag(t));
            }
        }
    }
    true
}

} // verus!
