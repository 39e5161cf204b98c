//! The query evaluator: from a tag expression to the sorted list of the
//! paths of the entries that it selects.

use vstd::prelude::*;
use std::collections::HashSet;
use vstd::std_specs::iter::IteratorSpec;
use crate::store::{MyGraph, node_weight};
use crate::links::{GraphView, view_of, sound, targets};
use crate::index::TagIndex;
use crate::text::{views, join, join_spec, sort_strings, sorted};
use crate::parse::{Arg, Operator, Token, arg_views, infix_to_postfix, postfix_spec, tokens_spec};
use crate::moving::parent_of;
use crate::tree::{
    tree_wf,
    well_formed,
    links_typed,
    ranked,
    resolve_spec,
    lemma_child_named,
    lemma_resolve_injective,
};
use vstd::string::StringExecFns;

verus! {

broadcast use vstd::std_specs::hash::group_hash_axioms;

/// For each tag name, the entries that the tag is on.
pub open spec fn tag_table(v: GraphView, idx: Map<Seq<char>, u32>) -> Map<Seq<char>, Set<u32>> {
    Map::new(
        |t: Seq<char>| idx.contains_key(t),
        |t: Seq<char>| Set::new(|e: u32| v.links.contains((idx[t], e))),
    )
}

/// The entries that a tag name selects: none, if the name is not known.
pub open spec fn selected(table: Map<Seq<char>, Set<u32>>, t: Seq<char>) -> Set<u32> {
    if table.contains_key(t) {
        table[t]
    } else {
        Set::<u32>::empty()
    }
}

/// One step of the evaluation: a tag name puts the entries that it selects
/// on the stack; an operator takes the two sets on top and puts back what
/// they have in common (`AND`) or what either has (`OR`). An operator that
/// does not find two sets makes the evaluation fail.
pub open spec fn eval_step(table: Map<Seq<char>, Set<u32>>, stack: Seq<Set<u32>>, item: Token) -> Option<
    Seq<Set<u32>>,
> {
    match item {
        Token::Operand(t) => Some(stack.push(selected(table, t))),
        Token::Operator(op) => if stack.len() >= 2 {
            let b = stack[stack.len() - 1];
            let a = stack[stack.len() - 2];
            Some(
                stack.take(stack.len() - 2).push(
                    match op {
                        Operator::AND => a.intersect(b),
                        Operator::OR => a.union(b),
                    },
                ),
            )
        } else {
            None
        },
    }
}

/// The stack after the items were taken in, from the left; `None` where a
/// step failed.
pub open spec fn eval_run(table: Map<Seq<char>, Set<u32>>, items: Seq<Token>) -> Option<
    Seq<Set<u32>>,
>
    decreases items.len(),
{
    if items.len() == 0 {
        Some(Seq::<Set<u32>>::empty())
    } else {
        match eval_run(table, items.drop_last()) {
            Some(stack) => eval_step(table, stack, items.last()),
            None => None,
        }
    }
}

/// What a postfix expression selects: the one set that is left on the
/// stack. It selects nothing where the evaluation failed, and where it did
/// not end with exactly one set.
pub open spec fn eval_spec(table: Map<Seq<char>, Set<u32>>, items: Seq<Token>) -> Set<u32> {
    match eval_run(table, items) {
        Some(stack) => if stack.len() == 1 {
            stack[0]
        } else {
            Set::<u32>::empty()
        },
        None => Set::<u32>::empty(),
    }
}

/// Once the evaluation has failed, it has failed for good.
pub proof fn lemma_eval_failed(table: Map<Seq<char>, Set<u32>>, items: Seq<Token>, k: int)
    requires
        0 <= k <= items.len(),
        eval_run(table, items.take(k)) is None,
    ensures
        eval_run(table, items) is None,
    decreases items.len() - k,
{
    if k == items.len() {
        assert(items.take(k) =~= items);
    } else {
        assert(items.take(k + 1).drop_last() =~= items.take(k));
        lemma_eval_failed(table, items, k + 1);
    }
}

/// The names that lead from the root to the entry `e`.
pub open spec fn path_names(v: GraphView, root: u32, e: u32) -> Seq<Seq<char>> {
    choose|names: Seq<Seq<char>>| resolve_spec(v, root, names) == Some(e)
}

/// The full path of the entry `e`: the base, then the names from the root
/// down to `e`, with slashes between them.
pub open spec fn full_path(v: GraphView, root: u32, base: Seq<char>, e: u32) -> Seq<char> {
    base + join_spec(path_names(v, root, e), '/')
}

/// The sets on a stack.
pub open spec fn stack_sets(stack: Seq<HashSet<u32>>) -> Seq<Set<u32>> {
    stack.map_values(|s: HashSet<u32>| s@)
}

/// Appends to `path_vec` the names on the way from `entry` up to the root:
/// first the entry's own, last the root's.
pub fn make_path_vec(root_index: u32, graph: &MyGraph, entry: u32, path_vec: &mut Vec<String>)
    requires
        sound(graph),
        tree_wf(view_of(graph), root_index),
        view_of(graph).is_entry(entry),
    ensures
        resolve_spec(
            view_of(graph),
            root_index,
            path_names(view_of(graph), root_index, entry),
        ) == Some(entry),
        views(final(path_vec)@) == views(old(path_vec)@) + path_names(
            view_of(graph),
            root_index,
            entry,
        ).reverse(),
{
    let ghost v = view_of(graph);
    let ghost depth = choose|depth: spec_fn(u32) -> nat| ranked(v, depth);
    let ghost before = views(path_vec@);
    let ghost mut above: Seq<Seq<char>> = Seq::empty();
    let mut cur = entry;
    proof {
        assert(views(path_vec@) =~= before + above);
    }
    loop
        invariant
            v == view_of(graph),
            sound(graph),
            tree_wf(v, root_index),
            ranked(v, depth),
            v.is_entry(cur),
            before == views(old(path_vec)@),
            views(path_vec@) == before + above,
            forall|names: Seq<Seq<char>>|
                resolve_spec(v, root_index, names) == Some(cur) ==> #[trigger] resolve_spec(
                    v,
                    root_index,
                    names + above.reverse(),
                ) == Some(entry),
        decreases depth(cur),
    {
        let ghost seen = views(path_vec@);
        let node = node_weight(graph, cur).unwrap();
        path_vec.push(node.name.clone());
        let ghost name = v.nodes[cur].name;
        proof {
            assert(views(path_vec@) =~= seen.push(name));
        }
        match parent_of(graph, cur) {
            Some(p) => {
                proof {
                    let longer = above.push(name);
                    assert forall|names: Seq<Seq<char>>|
                        resolve_spec(v, root_index, names) == Some(
                            p,
                        ) implies #[trigger] resolve_spec(
                        v,
                        root_index,
                        names + longer.reverse(),
                    ) == Some(entry) by {
                        let step = names.push(name);
                        assert(step.drop_last() =~= names);
                        lemma_child_named(v, p, cur);
                        assert(resolve_spec(v, root_index, step) == Some(cur));
                        assert(resolve_spec(v, root_index, step + above.reverse()) == Some(entry));
                        assert(step + above.reverse() =~= names + longer.reverse());
                    }
                    above = longer;
                    assert(views(path_vec@) =~= before + above);
                }
                cur = p;
            },
            None => {
                proof {
                    assert(cur == root_index) by {
                        if cur != root_index {
                            let p = choose|p: u32| v.child_of(p, cur);
                            assert(v.child_of(p, cur));
                        }
                    }
                    let longer = above.push(name);
                    let top = seq![name];
                    assert(resolve_spec(v, root_index, top) == Some(root_index));
                    assert(resolve_spec(v, root_index, top + above.reverse()) == Some(entry));
                    assert(top + above.reverse() =~= longer.reverse());
                    assert(resolve_spec(v, root_index, longer.reverse()) == Some(entry));
                    assert(resolve_spec(v, root_index, path_names(v, root_index, entry)) == Some(
                        entry,
                    ));
                    lemma_resolve_injective(
                        v,
                        root_index,
                        longer.reverse(),
                        path_names(v, root_index, entry),
                    );
                    assert(longer.reverse().reverse() =~= longer);
                    assert(path_names(v, root_index, entry).reverse() == longer);
                    assert(views(path_vec@) =~= before + longer);
                }
                return ;
            },
        }
    }
}

/// The full path of `entry`: the base, then the names from the root down to
/// the entry, with slashes between them.
pub fn make_path(root_index: u32, graph: &MyGraph, entry: u32, base_path: &String) -> (path: String)
    requires
        sound(graph),
        tree_wf(view_of(graph), root_index),
        view_of(graph).is_entry(entry),
    ensures
        path@ == full_path(view_of(graph), root_index, base_path@, entry),
        resolve_spec(
            view_of(graph),
            root_index,
            path_names(view_of(graph), root_index, entry),
        ) == Some(entry),
{
    let ghost names = path_names(view_of(graph), root_index, entry);
    let mut path_vec: Vec<String> = Vec::new();
    make_path_vec(root_index, graph, entry, &mut path_vec);
    proof {
        assert(views(path_vec@) =~= names.reverse());
    }
    let mut down: Vec<String> = Vec::new();
    let mut i: usize = path_vec.len();
    while i > 0
        invariant
            i <= path_vec@.len(),
            down@.len() == path_vec@.len() - i,
            forall|j: int| 0 <= j < down@.len() ==> down@[j]@ == path_vec@[path_vec@.len() - 1 - j]@,
        decreases i,
    {
        i -= 1;
        down.push(path_vec[i].clone());
    }
    proof {
        assert(views(down@) =~= views(path_vec@).reverse());
        assert(names.reverse().reverse() =~= names);
    }
    let mut path = base_path.clone();
    let local = join(&down, '/');
    path.append(local.as_str());
    path
}

/// The first `i + 1` elements hold what the first `i` hold, and the one
/// after them.
proof fn lemma_take_set(s: Seq<u32>, i: int)
    requires
        0 <= i < s.len(),
    ensures
        s.take(i + 1).to_set() == s.take(i).to_set().insert(s[i]),
{
    assert(s.take(i + 1) =~= s.take(i).push(s[i]));
    assert forall|x: u32| s.take(i + 1).to_set().contains(x) <==> s.take(i).to_set().insert(
        s[i],
    ).contains(x) by {
        vstd::seq_lib::lemma_seq_contains_after_push(s.take(i), s[i], x);
    }
    assert(s.take(i + 1).to_set() =~= s.take(i).to_set().insert(s[i]));
}

/// The set of the handles in a list.
pub fn set_of(list: &Vec<u32>) -> (r: HashSet<u32>)
    ensures
        r@ == list@.to_set(),
{
    let mut r: HashSet<u32> = HashSet::new();
    let mut i: usize = 0;
    proof {
        assert(list@.take(0).to_set() =~= Set::<u32>::empty());
    }
    while i < list.len()
        invariant
            i <= list@.len(),
            r@ == list@.take(i as int).to_set(),
        decreases list@.len() - i,
    {
        r.insert(list[i]);
        proof {
            lemma_take_set(list@, i as int);
        }
        i += 1;
    }
    proof {
        assert(list@.take(i as int) =~= list@);
    }
    r
}

/// The handles of a set, each once, in no particular order.
pub fn list_of(set: &HashSet<u32>) -> (r: Vec<u32>)
    ensures
        r@.no_duplicates(),
        r@.to_set() == set@,
{
    let mut r: Vec<u32> = Vec::new();
    let iter = set.iter();
    let ghost all = iter.remaining().unref();
    proof {
        assert forall|i: int, j: int| 0 <= i < j < all.len() implies all[i] != all[j] by {
            assert(iter.remaining()[i] != iter.remaining()[j]);
        }
    }
    for x in it: iter
        invariant
            it.seq().unref() == all,
            r@ == all.take(it.index()),
    {
        r.push(*x);
        proof {
            assert(all.take(it.index() + 1) =~= all.take(it.index()).push(*x));
        }
    }
    proof {
        assert(all.take(all.len() as int) =~= all);
    }
    r
}

/// What the two sets have in common.
pub fn intersection(a: &HashSet<u32>, b: &HashSet<u32>) -> (r: HashSet<u32>)
    ensures
        r@ == a@.intersect(b@),
{
    let mut r: HashSet<u32> = HashSet::new();
    let iter = a.iter();
    let ghost all = iter.remaining().unref();
    proof {
        assert(all.take(0).to_set().intersect(b@) =~= Set::<u32>::empty());
    }
    for x in it: iter
        invariant
            it.seq().unref() == all,
            all.to_set() == a@,
            r@ == all.take(it.index()).to_set().intersect(b@),
    {
        proof {
            lemma_take_set(all, it.index());
        }
        if b.contains(x) {
            r.insert(*x);
        }
        proof {
            assert(r@ =~= all.take(it.index() + 1).to_set().intersect(b@));
        }
    }
    proof {
        assert(all.take(all.len() as int) =~= all);
    }
    r
}

/// What either of the two sets holds.
pub fn union(a: &HashSet<u32>, b: &HashSet<u32>) -> (r: HashSet<u32>)
    ensures
        r@ == a@.union(b@),
{
    let mut r: HashSet<u32> = HashSet::new();
    let first = a.iter();
    let ghost left = first.remaining().unref();
    proof {
        assert(left.take(0).to_set() =~= Set::<u32>::empty());
    }
    for x in it: first
        invariant
            it.seq().unref() == left,
            r@ == left.take(it.index()).to_set(),
    {
        proof {
            lemma_take_set(left, it.index());
        }
        r.insert(*x);
    }
    proof {
        assert(left.take(left.len() as int) =~= left);
    }
    let second = b.iter();
    let ghost right = second.remaining().unref();
    proof {
        assert(a@.union(right.take(0).to_set()) =~= a@);
    }
    for x in it: second
        invariant
            it.seq().unref() == right,
            r@ == a@.union(right.take(it.index()).to_set()),
    {
        proof {
            lemma_take_set(right, it.index());
        }
        r.insert(*x);
        proof {
            assert(r@ =~= a@.union(right.take(it.index() + 1).to_set()));
        }
    }
    proof {
        assert(right.take(right.len() as int) =~= right);
    }
    r
}

/// The full paths of the entries in `handles`, in ascending order.
pub fn paths_of(root_index: u32, graph: &MyGraph, handles: &Vec<u32>, base_path: &String) -> (r:
    Vec<String>)
    requires
        sound(graph),
        tree_wf(view_of(graph), root_index),
        forall|j: int| 0 <= j < handles@.len() ==> view_of(graph).is_entry(#[trigger] handles@[j]),
    ensures
        sorted(views(r@)),
        r@.len() == handles@.len(),
        forall|p: Seq<char>|
            views(r@).contains(p) <==> exists|e: u32|
                handles@.contains(e) && #[trigger] full_path(
                    view_of(graph),
                    root_index,
                    base_path@,
                    e,
                ) == p,
{
    let ghost v = view_of(graph);
    let mut names: Vec<String> = Vec::new();
    let mut i: usize = 0;
    while i < handles.len()
        invariant
            i <= handles@.len(),
            v == view_of(graph),
            sound(graph),
            tree_wf(v, root_index),
            forall|j: int| 0 <= j < handles@.len() ==> v.is_entry(#[trigger] handles@[j]),
            names@.len() == i,
            forall|j: int|
                0 <= j < i ==> (#[trigger] names@[j])@ == full_path(
                    v,
                    root_index,
                    base_path@,
                    handles@[j],
                ),
        decreases handles@.len() - i,
    {
        let path = make_path(root_index, graph, handles[i], base_path);
        names.push(path);
        i += 1;
    }
    let ghost unsorted = views(names@);
    sort_strings(&mut names);
    proof {
        let now = views(names@);
        unsorted.to_multiset_ensures();
        now.to_multiset_ensures();
        assert forall|p: Seq<char>|
            now.contains(p) <==> exists|e: u32|
                handles@.contains(e) && #[trigger] full_path(v, root_index, base_path@, e)
                    == p by {
            assert(now.to_multiset().count(p) == unsorted.to_multiset().count(p));
            assert(now.contains(p) <==> now.to_multiset().count(p) > 0);
            assert(unsorted.contains(p) <==> unsorted.to_multiset().count(p) > 0);
            assert(now.contains(p) <==> unsorted.contains(p));
            if unsorted.contains(p) {
                let j = choose|j: int| 0 <= j < unsorted.len() && unsorted[j] == p;
                assert(handles@.contains(handles@[j]));
                assert(full_path(v, root_index, base_path@, handles@[j]) == p);
            }
            if exists|e: u32|
                handles@.contains(e) && #[trigger] full_path(v, root_index, base_path@, e) == p {
                let e = choose|e: u32|
                    handles@.contains(e) && #[trigger] full_path(v, root_index, base_path@, e)
                        == p;
                let j = choose|j: int| 0 <= j < handles@.len() && handles@[j] == e;
                assert(unsorted[j] == p);
            }
        }
    }
    names
}

/// The full paths of the entries that the tag node `tag_index` is on, in
/// ascending order.
pub fn entries(root_index: u32, graph: &MyGraph, tag_index: u32, base_path: &String) -> (r: Vec<
    String,
>)
    requires
        sound(graph),
        links_typed(view_of(graph)),
        tree_wf(view_of(graph), root_index),
    ensures
        sorted(views(r@)),
        r@.len() == Set::new(|e: u32| view_of(graph).links.contains((tag_index, e))).len(),
        forall|p: Seq<char>|
            views(r@).contains(p) <==> exists|e: u32|
                view_of(graph).links.contains((tag_index, e)) && #[trigger] full_path(
                    view_of(graph),
                    root_index,
                    base_path@,
                    e,
                ) == p,
{
    let ghost v = view_of(graph);
    let handles = targets(graph, tag_index);
    proof {
        assert forall|j: int| 0 <= j < handles@.len() implies v.is_entry(
            #[trigger] handles@[j],
        ) by {
            assert(handles@.contains(handles@[j]));
            assert(v.links.contains((tag_index, handles@[j])));
        }
        handles@.unique_seq_to_set();
        assert(handles@.to_set() =~= Set::new(|e: u32| v.links.contains((tag_index, e))));
    }
    let r = paths_of(root_index, graph, &handles, base_path);
    proof {
        assert forall|p: Seq<char>|
            views(r@).contains(p) <==> exists|e: u32|
                v.links.contains((tag_index, e)) && #[trigger] full_path(
                    v,
                    root_index,
                    base_path@,
                    e,
                ) == p by {
            if views(r@).contains(p) {
                let e = choose|e: u32|
                    handles@.contains(e) && #[trigger] full_path(v, root_index, base_path@, e)
                        == p;
                assert(v.links.contains((tag_index, e)));
            }
            if exists|e: u32|
                v.links.contains((tag_index, e)) && #[trigger] full_path(
                    v,
                    root_index,
                    base_path@,
                    e,
                ) == p {
                let e = choose|e: u32|
                    v.links.contains((tag_index, e)) && #[trigger] full_path(
                        v,
                        root_index,
                        base_path@,
                        e,
                    ) == p;
                assert(handles@.contains(e));
            }
        }
    }
    r
}

/// The full paths of the entries that the tag expression `request` selects,
/// in ascending order.
///
/// The expression is brought into postfix order and run on a stack of sets
/// of entries. A tag name stands for the entries that the tag is on, an
/// unknown one for none. Nothing is selected where an operator does not find
/// two sets to work on, and where the run does not end with exactly one set:
/// so for an empty expression and for every malformed one.
pub fn expression_to_entries(
    request: String,
    root_index: u32,
    graph: &MyGraph,
    tags_index: &TagIndex,
    base_path: String,
) -> (r: Vec<String>)
    requires
        well_formed(graph, tags_index, root_index),
    ensures
        sorted(views(r@)),
        r@.len() == eval_spec(
            tag_table(view_of(graph), tags_index@),
            postfix_spec(tokens_spec(request@)),
        ).len(),
        forall|p: Seq<char>|
            views(r@).contains(p) <==> exists|e: u32|
                eval_spec(
                    tag_table(view_of(graph), tags_index@),
                    postfix_spec(tokens_spec(request@)),
                ).contains(e) && #[trigger] full_path(view_of(graph), root_index, base_path@, e)
                    == p,
{
    let ghost v = view_of(graph);
    let ghost table = tag_table(v, tags_index@);
    let postfix = infix_to_postfix(request);
    let ghost items = arg_views(postfix@);
    let mut stack: Vec<HashSet<u32>> = Vec::new();
    let mut i: usize = 0;
    proof {
        assert(Some(stack_sets(stack@)) =~= eval_run(table, items.take(0)));
    }
    while i < postfix.len()
        invariant
            i <= postfix@.len(),
            items == arg_views(postfix@),
            items == postfix_spec(tokens_spec(request@)),
            v == view_of(graph),
            table == tag_table(v, tags_index@),
            well_formed(graph, tags_index, root_index),
            eval_run(table, items.take(i as int)) == Some(stack_sets(stack@)),
            forall|k: int, x: u32|
                0 <= k < stack@.len() && (#[trigger] stack@[k])@.contains(x) ==> #[trigger] v.is_entry(
                    x,
                ),
        decreases postfix@.len() - i,
    {
        let ghost before = stack@;
        let ghost sets = stack_sets(stack@);
        proof {
            assert(items.take(i + 1).drop_last() =~= items.take(i as int));
            assert(items.take(i + 1).last() == postfix@[i as int]@);
        }
        match &postfix[i] {
            Arg::Operand(tag) => {
                let found = match tags_index.get(tag) {
                    Some(tag_index) => {
                        let handles = targets(graph, tag_index);
                        let found = set_of(&handles);
                        proof {
                            assert(found@ =~= selected(table, tag@));
                            assert forall|x: u32| found@.contains(x) implies v.is_entry(x) by {
                                assert(handles@.contains(x));
                                assert(v.links.contains((tag_index, x)));
                            }
                        }
                        found
                    },
                    None => {
                        let found: HashSet<u32> = HashSet::new();
                        proof {
                            assert(found@ =~= selected(table, tag@));
                        }
                        found
                    },
                };
                stack.push(found);
                proof {
                    assert(stack_sets(stack@) =~= sets.push(selected(table, tag@)));
                }
            },
            Arg::Operator(op) => {
                if stack.len() < 2 {
                    proof {
                        assert(eval_run(table, items.take(i + 1)) is None);
                        lemma_eval_failed(table, items, i + 1);
                        assert(eval_spec(table, items) =~= Set::<u32>::empty());
                    }
                    let none: Vec<String> = Vec::new();
                    proof {
                        assert(views(none@) =~= Seq::<Seq<char>>::empty());
                    }
                    return none;
                } else {
                    let operand_two = stack.pop().unwrap();
                    let operand_one = stack.pop().unwrap();
                    let ghost rest = stack@;
                    proof {
                        assert(operand_two == before[before.len() - 1]);
                        assert(operand_one == before[before.len() - 2]);
                        assert(rest =~= before.take(before.len() - 2));
                        assert(sets[sets.len() - 1] == operand_two@);
                        assert(sets[sets.len() - 2] == operand_one@);
                    }
                    let joined = match op {
                        Operator::AND => intersection(&operand_one, &operand_two),
                        Operator::OR => union(&operand_one, &operand_two),
                    };
                    proof {
                        assert forall|x: u32| joined@.contains(x) implies v.is_entry(x) by {
                            assert(operand_one@.contains(x) || operand_two@.contains(x));
                        }
                    }
                    stack.push(joined);
                    proof {
                        assert(Some(stack_sets(stack@)) =~= eval_step(
                            table,
                            sets,
                            postfix@[i as int]@,
                        ));
                    }
                }
            },
        }
        i += 1;
    }
    proof {
        assert(items.take(i as int) =~= items);
    }
    if stack.len() == 1 {
        let chosen = stack.pop().unwrap();
        let handles = list_of(&chosen);
        proof {
            handles@.unique_seq_to_set();
            assert(stack_sets(seq![chosen])[0] == chosen@);
            assert forall|j: int| 0 <= j < handles@.len() implies v.is_entry(
                #[trigger] handles@[j],
            ) by {
                assert(handles@.contains(handles@[j]));
                assert(chosen@.contains(handles@[j]));
            }
        }
        let r = paths_of(root_index, graph, &handles, &base_path);
        proof {
            let picked = eval_spec(table, items);
            assert(picked == chosen@);
            assert forall|p: Seq<char>|
                views(r@).contains(p) <==> exists|e: u32|
                    picked.contains(e) && #[trigger] full_path(v, root_index, base_path@, e)
                        == p by {
                if views(r@).contains(p) {
                    let e = choose|e: u32|
                        handles@.contains(e) && #[trigger] full_path(v, root_index, base_path@, e)
                            == p;
                    assert(picked.contains(e));
                }
                if exists|e: u32|
                    picked.contains(e) && #[trigger] full_path(v, root_index, base_path@, e) == p {
                    let e = choose|e: u32|
                        picked.contains(e) && #[trigger] full_path(v, root_index, base_path@, e)
                            == p;
                    assert(handles@.contains(e));
                }
            }
        }
        r
    } else {
        let r: Vec<String> = Vec::new();
        proof {
            assert(views(r@) =~= Seq::<Seq<char>>::empty());
        }
        r
    }
}

} // verus!
