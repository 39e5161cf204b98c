//! What holds of the engine as a whole: of every graph that it builds, and
//! of its operations taken together.

use vstd::prelude::*;
use crate::store::{MyGraph, graph_edges};
use crate::links::{view_of, lemma_between};
use crate::index::TagIndex;
use crate::tree::{
    well_formed, tags_wf, tree_wf, resolve_spec, lemma_resolve_step, content_of,
    lemma_same_tree_resolve,
};
use crate::tags::refreshed;
use crate::parse::{
    Operator,
    Token,
    Yard,
    operator_of,
    postfix_spec,
    shunt_all,
    shunt,
    unwind,
    flush,
    tokens_spec,
};
use crate::query::{eval_run, eval_spec, eval_step, selected};
use crate::graph::{Probe, added};
use crate::prune::{pruned, below};
use crate::moving::{moved, MoveOutcome};
use crate::server::{renamed, Reply};
use crate::text::words_spec;

verus! {

/// The edges that come into `c` from a directory.
pub open spec fn parent_edges(g: &MyGraph, c: u32) -> Set<u32> {
    Set::new(
        |e: u32|
            graph_edges(*g).contains_key(e) && graph_edges(*g)[e].1 == c && view_of(g).is_dir(
                graph_edges(*g)[e].0,
            ),
    )
}

/// Every entry but the root has exactly one edge coming in from a
/// directory.
pub proof fn law_one_parent(g: &MyGraph, idx: &TagIndex, root: u32, c: u32)
    requires
        well_formed(g, idx, root),
        view_of(g).is_entry(c),
        c != root,
    ensures
        parent_edges(g, c).len() == 1,
        exists|p: u32| #[trigger]
            view_of(g).child_of(p, c) && forall|q: u32| #[trigger]
                view_of(g).child_of(q, c) ==> q == p,
{
    let v = view_of(g);
    let edges = graph_edges(*g);
    let p = choose|p: u32| v.child_of(p, c);
    assert(v.child_of(p, c));
    assert forall|q: u32| #[trigger] v.child_of(q, c) implies q == p by {
        assert(v.child_of(q, c) && v.child_of(p, c));
    }
    lemma_between(edges, p, c);
    let one = crate::store::edges_between(edges, p, c);
    assert(parent_edges(g, c) =~= one) by {
        assert forall|e: u32| parent_edges(g, c).contains(e) implies one.contains(e) by {
            let q = edges[e].0;
            assert(edges.contains_key(e));
            assert(v.links.contains((q, c)));
            assert(v.child_of(q, c));
        }
    }
}

/// The index holds a name if and only if a tag node of that name is on at
/// least one entry.
pub proof fn law_index_is_the_tags(g: &MyGraph, idx: &TagIndex, t: Seq<char>)
    requires
        tags_wf(g, idx),
    ensures
        idx@.contains_key(t) <==> exists|a: u32| #[trigger]
            view_of(g).is_tag(a) && view_of(g).nodes[a].name == t && exists|e: u32|
                view_of(g).links.contains((a, e)),
{
    let v = view_of(g);
    if idx@.contains_key(t) {
        let a = idx@[t];
        assert(v.is_tag(a));
    }
}

/// A refresh of tags leaves every path leading where it led.
pub proof fn law_refresh_keeps_paths(
    g0: &MyGraph,
    g1: &MyGraph,
    idx0: &TagIndex,
    idx1: &TagIndex,
    root: u32,
    entry: u32,
    fresh: Seq<Seq<char>>,
    done: bool,
    names: Seq<Seq<char>>,
)
    requires
        tree_wf(view_of(g0), root),
        refreshed(g0, g1, idx0@, idx1@, entry, fresh, done),
    ensures
        resolve_spec(view_of(g1), root, names) == resolve_spec(view_of(g0), root, names),
{
    lemma_same_tree_resolve(view_of(g0), view_of(g1), root, names);
}

/// After a subtree was taken out no path leads to anything that was in it,
/// and every tag that is left is on an entry.
pub proof fn law_removed_is_unreachable(
    g0: &MyGraph,
    g1: &MyGraph,
    idx0: &TagIndex,
    idx1: &TagIndex,
    root: u32,
    entry: u32,
    names: Seq<Seq<char>>,
)
    requires
        well_formed(g1, idx1, root),
        pruned(g0, g1, idx0@, idx1@, root, entry, true),
    ensures
        resolve_spec(view_of(g1), root, names) is Some ==> !below(
            view_of(g0),
            entry,
            resolve_spec(view_of(g1), root, names)->0,
        ),
        forall|t: u32| #[trigger]
            view_of(g1).is_tag(t) ==> exists|e: u32| view_of(g1).links.contains((t, e)),
{
    if resolve_spec(view_of(g1), root, names) is Some {
        lemma_resolve_step(view_of(g1), root, names);
    }
}

/// After a move that was made, under the name that the entry has, the
/// entry is where the new path leads, and has the tags that it had.
pub proof fn law_moved_is_reachable(
    g0: &MyGraph,
    g1: &MyGraph,
    root: u32,
    entry: u32,
    names: Seq<Seq<char>>,
    r: MoveOutcome,
)
    requires
        moved(g0, g1, root, entry, names, r),
        r == MoveOutcome::Renamed || (r == MoveOutcome::Reparented && view_of(
            g0,
        ).nodes[entry].name == names.last()),
    ensures
        resolve_spec(view_of(g1), root, names) == Some(entry),
        view_of(g1).tags_of(entry) == view_of(g0).tags_of(entry),
{
    let v = view_of(g0);
    let w = view_of(g1);
    assert forall|n: Seq<char>| w.tags_of(entry).contains(n) <==> v.tags_of(entry).contains(
        n,
    ) by {
        assert(content_of(w).labels.contains((entry, n)) <==> w.tags_of(entry).contains(n));
        assert(content_of(v).labels.contains((entry, n)) <==> v.tags_of(entry).contains(n));
    }
    assert(w.tags_of(entry) =~= v.tags_of(entry));
}

/// Adding a path a second time, with the filesystem as it was, changes
/// nothing and gives the same result.
pub proof fn law_add_twice(
    g0: &MyGraph,
    g1: &MyGraph,
    g2: &MyGraph,
    idx0: &TagIndex,
    idx1: &TagIndex,
    idx2: &TagIndex,
    root: u32,
    names: Seq<Seq<char>>,
    probes: Seq<Option<Probe>>,
    first: Option<u32>,
    second: Option<u32>,
)
    requires
        added(g0, g1, idx0@, idx1@, root, names, probes, first),
        added(g1, g2, idx1@, idx2@, root, names, probes, second),
    ensures
        second == first,
        view_of(g2) == view_of(g1),
        idx2@ == idx1@,
{
}

/// Giving a tag the name that it has changes nothing.
pub proof fn law_rename_to_same(
    g0: &MyGraph,
    g1: &MyGraph,
    idx0: &TagIndex,
    idx1: &TagIndex,
    root: u32,
    base: Seq<char>,
    request: Seq<char>,
    reply: Reply,
)
    requires
        well_formed(g0, idx0, root),
        renamed(g0, g1, idx0@, idx1@, root, base, request, reply),
        words_spec(request).len() == 2,
        words_spec(request)[0] == words_spec(request)[1],
    ensures
        view_of(g1) == view_of(g0),
        idx1@ == idx0@,
{
    let name = words_spec(request)[0];
    if reply.renaming is Some {
        let tag = idx0@[name];
        assert(view_of(g0).is_tag(tag));
        assert(view_of(g1).nodes =~= view_of(g0).nodes);
        assert(idx1@ =~= idx0@);
    }
}

/// The words of a well-formed expression: tag names with one operator
/// between each two of them.
pub open spec fn alternating(words: Seq<Seq<char>>) -> bool {
    &&& words.len() % 2 == 1
    &&& forall|i: int|
        0 <= i < words.len() ==> (i % 2 == 0 <==> operator_of(#[trigger] words[i]) is None)
}

/// What the last run of tag names joined by `AND` selects: the entries that
/// all of them select.
pub open spec fn last_product(table: Map<Seq<char>, Set<u32>>, words: Seq<Seq<char>>) -> Set<u32>
    decreases words.len(),
{
    if words.len() == 0 {
        Set::<u32>::empty()
    } else if words.len() < 3 {
        selected(table, words.last())
    } else if operator_of(words[words.len() - 2]) == Some(Operator::AND) {
        last_product(table, words.take(words.len() - 2)).intersect(selected(table, words.last()))
    } else {
        selected(table, words.last())
    }
}

/// What the runs before the last select: the entries that any of them
/// selects.
pub open spec fn sum_before(table: Map<Seq<char>, Set<u32>>, words: Seq<Seq<char>>) -> Set<u32>
    decreases words.len(),
{
    if words.len() < 3 {
        Set::<u32>::empty()
    } else if operator_of(words[words.len() - 2]) == Some(Operator::AND) {
        sum_before(table, words.take(words.len() - 2))
    } else {
        sum_before(table, words.take(words.len() - 2)).union(
            last_product(table, words.take(words.len() - 2)),
        )
    }
}

/// What a well-formed expression means: `OR` splits it into runs of tag
/// names joined by `AND`; an entry is selected when, for some run, every
/// tag of the run selects it.
pub open spec fn meaning(table: Map<Seq<char>, Set<u32>>, words: Seq<Seq<char>>) -> Set<u32> {
    sum_before(table, words).union(last_product(table, words))
}

/// The stack after the items were taken in, where no step failed.
spec fn stack_after(table: Map<Seq<char>, Set<u32>>, out: Seq<Token>) -> Seq<Set<u32>> {
    eval_run(table, out)->0
}

proof fn lemma_eval_push(table: Map<Seq<char>, Set<u32>>, out: Seq<Token>, item: Token)
    ensures
        eval_run(table, out.push(item)) == (match eval_run(table, out) {
            Some(stack) => eval_step(table, stack, item),
            None => None,
        }),
{
    assert(out.push(item).drop_last() =~= out);
}

/// How the output and the stack stand after a well-formed expression was
/// taken in.
spec fn standing(table: Map<Seq<char>, Set<u32>>, words: Seq<Seq<char>>, y: Yard) -> bool {
    let st = stack_after(table, y.out);
    let s = sum_before(table, words);
    let p = last_product(table, words);
    &&& eval_run(table, y.out) is Some
    &&& {
        ||| (y.ops == Seq::<Operator>::empty() && st == seq![p] && s == Set::<u32>::empty())
        ||| (y.ops == seq![Operator::AND] && st.len() == 2 && st[0].intersect(st[1]) == p && s
            == Set::<u32>::empty())
        ||| (y.ops == seq![Operator::OR] && st == seq![s, p])
        ||| (y.ops == seq![Operator::OR, Operator::AND] && st.len() == 3 && st[0] == s
            && st[1].intersect(st[2]) == p)
    }
}

proof fn lemma_unwind(y: Yard, op: Operator)
    requires
        y.ops.len() <= 2,
    ensures
        y.ops.len() == 0 ==> unwind(y, op) == y,
        y.ops == seq![Operator::AND] ==> unwind(y, op) == (Yard {
            out: y.out.push(Token::Operator(Operator::AND)),
            ops: Seq::<Operator>::empty(),
        }),
        y.ops == seq![Operator::OR] && op == Operator::AND ==> unwind(y, op) == y,
        y.ops == seq![Operator::OR] && op == Operator::OR ==> unwind(y, op) == (Yard {
            out: y.out.push(Token::Operator(Operator::OR)),
            ops: Seq::<Operator>::empty(),
        }),
        y.ops == seq![Operator::OR, Operator::AND] && op == Operator::AND ==> unwind(y, op) == (
        Yard { out: y.out.push(Token::Operator(Operator::AND)), ops: seq![Operator::OR] }),
        y.ops == seq![Operator::OR, Operator::AND] && op == Operator::OR ==> unwind(y, op) == (
        Yard {
            out: y.out.push(Token::Operator(Operator::AND)).push(Token::Operator(Operator::OR)),
            ops: Seq::<Operator>::empty(),
        }),
{
    reveal_with_fuel(unwind, 3);
    if y.ops == seq![Operator::AND] {
        assert(y.ops.drop_last() =~= Seq::<Operator>::empty());
    }
    if y.ops == seq![Operator::OR] {
        assert(y.ops.drop_last() =~= Seq::<Operator>::empty());
    }
    if y.ops == seq![Operator::OR, Operator::AND] {
        assert(y.ops.drop_last() =~= seq![Operator::OR]);
        assert(seq![Operator::OR].drop_last() =~= Seq::<Operator>::empty());
    }
}

proof fn lemma_standing(table: Map<Seq<char>, Set<u32>>, words: Seq<Seq<char>>)
    requires
        alternating(words),
    ensures
        standing(table, words, shunt_all(words)),
    decreases words.len(),
{
    if words.len() == 1 {
        assert(words.drop_last() =~= Seq::<Seq<char>>::empty());
        assert(operator_of(words[0]) is None);
        let y = shunt_all(words);
        assert(shunt_all(words.drop_last()) == (Yard {
            out: Seq::<Token>::empty(),
            ops: Seq::<Operator>::empty(),
        }));
        assert(words.last() == words[0]);
        assert(y == shunt(shunt_all(words.drop_last()), words.last()));
        assert(y.out =~= seq![Token::Operand(words[0])]);
        lemma_eval_push(table, Seq::<Token>::empty(), Token::Operand(words[0]));
        assert(Seq::<Token>::empty().push(Token::Operand(words[0])) =~= y.out);
        assert(eval_run(table, Seq::<Token>::empty()) == Some(Seq::<Set<u32>>::empty()));
        assert(stack_after(table, y.out) =~= seq![selected(table, words[0])]);
    } else {
        let n = words.len() as int;
        let before = words.take(n - 2);
        let link = words[n - 2];
        let name = words[n - 1];
        assert(alternating(before)) by {
            assert forall|i: int| 0 <= i < before.len() implies (i % 2 == 0 <==> operator_of(
                #[trigger] before[i],
            ) is None) by {
                assert(before[i] == words[i]);
            }
        }
        lemma_standing(table, before);
        assert(operator_of(link) is Some);
        assert(operator_of(name) is None);
        let op = operator_of(link)->0;
        let yard_a = shunt_all(before);
        assert(words.drop_last().drop_last() =~= before);
        assert(words.drop_last().last() == link);
        let yard_b = shunt(yard_a, link);
        assert(shunt_all(words.drop_last()) == yard_b);
        let yard_c = shunt(yard_b, name);
        assert(shunt_all(words) == yard_c);
        let u = unwind(yard_a, op);
        lemma_unwind(yard_a, op);
        let stack_a = stack_after(table, yard_a.out);
        let earlier = sum_before(table, before);
        let prior = last_product(table, before);
        let e = selected(table, name);
        let and = Token::Operator(Operator::AND);
        let or = Token::Operator(Operator::OR);
        lemma_eval_push(table, yard_a.out, and);
        lemma_eval_push(table, yard_a.out, or);
        lemma_eval_push(table, yard_a.out.push(and), or);
        lemma_eval_push(table, u.out, Token::Operand(name));
        let stack_c = stack_after(table, yard_c.out);
        assert(yard_c.out == u.out.push(Token::Operand(name)));
        assert(yard_c.ops == u.ops.push(op));
        if yard_a.ops == Seq::<Operator>::empty() {
            assert(stack_c =~= seq![prior, e]);
            if op == Operator::AND {
                assert(yard_c.ops =~= seq![Operator::AND]);
            } else {
                assert(yard_c.ops =~= seq![Operator::OR]);
                assert(earlier.union(prior) =~= prior);
            }
        } else if yard_a.ops == seq![Operator::AND] {
            assert(stack_a.take(0).push(stack_a[0].intersect(stack_a[1])) =~= seq![prior]);
            assert(stack_c =~= seq![prior, e]);
            if op == Operator::AND {
                assert(yard_c.ops =~= seq![Operator::AND]);
            } else {
                assert(yard_c.ops =~= seq![Operator::OR]);
                assert(earlier.union(prior) =~= prior);
            }
        } else if yard_a.ops == seq![Operator::OR] {
            if op == Operator::AND {
                assert(yard_c.ops =~= seq![Operator::OR, Operator::AND]);
                assert(stack_c =~= seq![earlier, prior, e]);
            } else {
                assert(yard_c.ops =~= seq![Operator::OR]);
                assert(stack_a.take(0).push(stack_a[0].union(stack_a[1])) =~= seq![earlier.union(prior)]);
                assert(stack_c =~= seq![earlier.union(prior), e]);
            }
        } else {
            let stack_b = stack_after(table, yard_a.out.push(and));
            assert(stack_b =~= seq![earlier, prior]) by {
                assert(stack_a.take(1).push(stack_a[1].intersect(stack_a[2])) =~= seq![earlier, prior]);
            }
            if op == Operator::AND {
                assert(yard_c.ops =~= seq![Operator::OR, Operator::AND]);
                assert(stack_c =~= seq![earlier, prior, e]);
            } else {
                assert(yard_c.ops =~= seq![Operator::OR]);
                assert(stack_b.take(0).push(stack_b[0].union(stack_b[1])) =~= seq![earlier.union(prior)]);
                assert(stack_c =~= seq![earlier.union(prior), e]);
            }
        }
    }
}

/// On a well-formed expression the compiler and the evaluator together give
/// what the expression means: `A AND B` the entries that both select,
/// `A OR B` those that either selects, with `AND` binding tighter than
/// `OR`.
pub proof fn law_expression_meaning(table: Map<Seq<char>, Set<u32>>, words: Seq<Seq<char>>)
    requires
        alternating(words),
    ensures
        eval_spec(table, postfix_spec(words)) == meaning(table, words),
{
    lemma_standing(table, words);
    let y = shunt_all(words);
    let st = stack_after(table, y.out);
    let s = sum_before(table, words);
    let p = last_product(table, words);
    let and = Token::Operator(Operator::AND);
    let or = Token::Operator(Operator::OR);
    reveal_with_fuel(flush, 3);
    lemma_eval_push(table, y.out, and);
    lemma_eval_push(table, y.out, or);
    lemma_eval_push(table, y.out.push(and), or);
    if y.ops == Seq::<Operator>::empty() && st == seq![p] && s == Set::<u32>::empty() {
        assert(s.union(p) =~= p);
    } else if y.ops == seq![Operator::AND] && st.len() == 2 && st[0].intersect(st[1]) == p && s
        == Set::<u32>::empty() {
        assert(y.ops.drop_last() =~= Seq::<Operator>::empty());
        assert(st.take(0).push(st[0].intersect(st[1])) =~= seq![p]);
        assert(s.union(p) =~= p);
    } else if y.ops == seq![Operator::OR] && st == seq![s, p] {
        assert(y.ops.drop_last() =~= Seq::<Operator>::empty());
        assert(st.take(0).push(st[0].union(st[1])) =~= seq![s.union(p)]);
    } else {
        assert(y.ops == seq![Operator::OR, Operator::AND] && st.len() == 3 && st[0] == s
            && st[1].intersect(st[2]) == p);
        assert(y.ops.drop_last() =~= seq![Operator::OR]);
        assert(seq![Operator::OR].drop_last() =~= Seq::<Operator>::empty());
        let stack_b = stack_after(table, y.out.push(and));
        assert(stack_b =~= seq![s, p]) by {
            assert(st.take(1).push(st[1].intersect(st[2])) =~= seq![s, p]);
        }
        assert(stack_b.take(0).push(stack_b[0].union(stack_b[1])) =~= seq![s.union(p)]);
    }
}

/// With two tag names, `AND` selects what both select and `OR` what either
/// selects; with three, `A OR B AND C` selects what `A` selects and what
/// both `B` and `C` select.
pub proof fn law_and_or(
    table: Map<Seq<char>, Set<u32>>,
    a: Seq<char>,
    b: Seq<char>,
    c: Seq<char>,
)
    requires
        operator_of(a) is None,
        operator_of(b) is None,
        operator_of(c) is None,
    ensures
        eval_spec(table, postfix_spec(seq![a, seq!['A', 'N', 'D'], b])) == selected(
            table,
            a,
        ).intersect(selected(table, b)),
        eval_spec(table, postfix_spec(seq![a, seq!['O', 'R'], b])) == selected(table, a).union(
            selected(table, b),
        ),
        eval_spec(table, postfix_spec(seq![a, seq!['O', 'R'], b, seq!['A', 'N', 'D'], c]))
            == selected(table, a).union(selected(table, b).intersect(selected(table, c))),
{
    let and = seq!['A', 'N', 'D'];
    let or = seq!['O', 'R'];
    assert(and != or) by {
        assert(and.len() != or.len());
    }
    let one = seq![a];
    let both = seq![a, and, b];
    let either = seq![a, or, b];
    let mixed = seq![a, or, b, and, c];
    assert(both.take(1) =~= one);
    assert(either.take(1) =~= one);
    assert(mixed.take(3) =~= either);
    law_expression_meaning(table, both);
    law_expression_meaning(table, either);
    law_expression_meaning(table, mixed);
    reveal_with_fuel(last_product, 3);
    reveal_with_fuel(sum_before, 3);
    let sa = selected(table, a);
    let sb = selected(table, b);
    let sc = selected(table, c);
    assert(meaning(table, both) =~= sa.intersect(sb));
    assert(meaning(table, either) =~= sa.union(sb));
    assert(meaning(table, mixed) =~= sa.union(sb.intersect(sc)));
}

/// An expression in which an operator lacks a tag name selects nothing:
/// so one that ends with an operator, and one with two operators in a row.
pub proof fn law_malformed(table: Map<Seq<char>, Set<u32>>, a: Seq<char>, b: Seq<char>)
    requires
        operator_of(a) is None,
        operator_of(b) is None,
    ensures
        eval_spec(table, postfix_spec(seq![a, seq!['A', 'N', 'D']])) == Set::<u32>::empty(),
        eval_spec(table, postfix_spec(seq![a, seq!['A', 'N', 'D'], seq!['O', 'R'], b]))
            == Set::<u32>::empty(),
        eval_spec(table, postfix_spec(seq![a, b])) == Set::<u32>::empty(),
{
    let and = seq!['A', 'N', 'D'];
    let or = seq!['O', 'R'];
    assert(and != or) by {
        assert(and.len() != or.len());
    }
    let op_and = Token::Operator(Operator::AND);
    let op_or = Token::Operator(Operator::OR);
    let none = Seq::<Token>::empty();
    let start = Yard { out: none, ops: Seq::<Operator>::empty() };
    assert(eval_run(table, none) == Some(Seq::<Set<u32>>::empty()));
    lemma_eval_push(table, none, Token::Operand(a));
    let first = none.push(Token::Operand(a));
    let after_a = Yard { out: first, ops: Seq::<Operator>::empty() };
    let after_and = Yard { out: first, ops: seq![Operator::AND] };
    lemma_unwind(after_a, Operator::AND);
    lemma_unwind(after_and, Operator::OR);
    reveal_with_fuel(flush, 3);
    reveal_with_fuel(shunt_all, 5);
    // `a AND`
    let one = seq![a, and];
    assert(one.drop_last() =~= seq![a]);
    assert(seq![a].drop_last() =~= Seq::<Seq<char>>::empty());
    assert(shunt_all(seq![a]) == after_a);
    assert(after_a.ops.push(Operator::AND) =~= seq![Operator::AND]);
    assert(shunt_all(one) == after_and);
    assert(seq![Operator::AND].drop_last() =~= Seq::<Operator>::empty());
    assert(postfix_spec(one) == first.push(op_and));
    lemma_eval_push(table, first, op_and);
    assert(eval_run(table, first.push(op_and)) is None);
    // `a AND OR b`
    let two = seq![a, and, or, b];
    assert(two.drop_last() =~= seq![a, and, or]);
    assert(seq![a, and, or].drop_last() =~= one);
    let popped = Yard { out: first.push(op_and), ops: Seq::<Operator>::empty() };
    assert(popped.ops.push(Operator::OR) =~= seq![Operator::OR]);
    let after_or = Yard { out: first.push(op_and), ops: seq![Operator::OR] };
    assert(shunt_all(seq![a, and, or]) == after_or);
    let after_b = Yard { out: first.push(op_and).push(Token::Operand(b)), ops: seq![Operator::OR] };
    assert(shunt_all(two) == after_b);
    assert(seq![Operator::OR].drop_last() =~= Seq::<Operator>::empty());
    assert(postfix_spec(two) == first.push(op_and).push(Token::Operand(b)).push(op_or));
    lemma_eval_push(table, first.push(op_and), Token::Operand(b));
    lemma_eval_push(table, first.push(op_and).push(Token::Operand(b)), op_or);
    // `a b`
    let pair = seq![a, b];
    assert(pair.drop_last() =~= seq![a]);
    assert(shunt_all(pair) == (Yard { out: first.push(Token::Operand(b)), ops: Seq::<Operator>::empty() }));
    lemma_eval_push(table, first, Token::Operand(b));
    assert(eval_run(table, first.push(Token::Operand(b)))->0.len() == 2);
}

/// An empty expression selects nothing.
pub proof fn law_empty_expression(table: Map<Seq<char>, Set<u32>>)
    ensures
        postfix_spec(tokens_spec(Seq::<char>::empty())) == Seq::<Token>::empty(),
        eval_spec(table, postfix_spec(tokens_spec(Seq::<char>::empty()))) == Set::<u32>::empty(),
{
}

/// A tag name that is not known selects nothing, alone and under `AND`.
pub proof fn law_unknown_tag(table: Map<Seq<char>, Set<u32>>, name: Seq<char>, other: Set<u32>)
    requires
        !table.contains_key(name),
    ensures
        selected(table, name) == Set::<u32>::empty(),
        other.intersect(selected(table, name)) == Set::<u32>::empty(),
        other.union(selected(table, name)) == other,
{
    assert(other.intersect(selected(table, name)) =~= Set::<u32>::empty());
    assert(other.union(selected(table, name)) =~= other);
}

} // verus!
