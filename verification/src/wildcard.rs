//! What the non-deterministic matcher answers where its one rule carries a
//! pattern `u*v` or `u*v$` with no `*` and no `$` in `u` and `v`. The pattern
//! `u*v` matches the paths that start with `u` and hold `v` somewhere behind
//! it. The pattern `u*v$` matches the paths that start with `u` and end with
//! `v` behind it: the matcher looks out for `v` from every byte on.

use crate::anchored::{
    at, lemma_advance, lemma_bare_follows, lemma_node_follows, lemma_single_children,
    lemma_single_table, lemma_visit_one,
};
use crate::literal::{lemma_heaviest_decides, literal};
use crate::nfa::{
    accept_of, active_after, add_child, advance, allows, automaton, bare, compiled,
    follows, heaviest, initial, lemma_settled_stays, settled, spread, steps, verdict, visit,
    without, Accept, Build, Item, NodeView,
};
use crate::rule::{ends_with, normal, Kind, RuleView, EOW_BYTE, WILDCARD_BYTE};
use crate::trie::{table, terminal};
use vstd::prelude::*;

verus! {

/// A pattern `u*v`, or, anchored, `u*v$`: what stands before the `*`, what
/// stands behind it, and whether a `$` ends the pattern.
pub struct Star {
    pub u: Seq<u8>,
    pub v: Seq<u8>,
    pub anchored: bool,
}

/// The bytes of the pattern.
pub open spec fn star_pattern(g: Star) -> Seq<u8> {
    g.u.push(WILDCARD_BYTE) + g.v + if g.anchored {
        seq![EOW_BYTE]
    } else {
        Seq::empty()
    }
}

/// The number of the last node of the pattern.
pub open spec fn star_total(g: Star) -> int {
    g.u.len() + 1 + g.v.len() + if g.anchored {
        1int
    } else {
        0int
    }
}

/// The one rule of the given kind over the pattern.
pub open spec fn star_rule(g: Star, kind: Kind) -> Seq<RuleView> {
    seq![RuleView { kind, pattern: star_pattern(g) }]
}

/// The verdict that the rule gives.
pub open spec fn given(kind: Kind) -> Accept {
    accept_of(Some(kind), Accept::Allow)
}

/// The state of the node `j` after `k` visits. The end of `u` gets, with its
/// visit, a wildcard edge to the state of the `*`, which loops; with the
/// visit of the `*` it gets the edge that the `*` gets, to the first byte of
/// `v`. The nodes along `v` fall back to the state of the `*`. The end of
/// `v` judges as the rule does; where the pattern ends in the `*`, the end
/// of `u` judges so too. Where a `$` ends the pattern, the end of `v` judges
/// as the rule does from its visit on, weighs as the whole pattern, and gets
/// a wildcard edge to the state behind the end.
pub open spec fn star_node(g: Star, kind: Kind, k: int, j: int) -> NodeView {
    let a = g.u.len() as int;
    let c = g.v.len() as int;
    let last = a + 1 + c;
    let pattern = star_pattern(g);
    NodeView {
        accept: if (j == last && (!g.anchored || k > last)) || (c == 0 && j == a && k > a + if g.anchored {
            1int
        } else {
            0int
        }) {
            given(kind)
        } else {
            Accept::Allow
        },
        weight: if g.anchored && c > 0 && j == last && k > last {
            (last + 1) as usize
        } else {
            j as usize
        },
        wildcards: if j < a {
            seq![1usize]
        } else if j == a {
            if k > a {
                seq![1usize, at(a + 1)]
            } else {
                seq![1usize]
            }
        } else if j == last && c > 0 {
            if !g.anchored {
                seq![(last + 2) as usize]
            } else if k > last {
                seq![at(a + 1), (last + 2) as usize]
            } else {
                seq![at(a + 1)]
            }
        } else {
            seq![at(a + 1)]
        },
        edges: if j == a {
            if c > 0 && k > a + 1 {
                seq![(g.v[0], at(a + 2))]
            } else {
                Seq::empty()
            }
        } else if j < last && k > j {
            seq![(pattern[j], at(j + 1))]
        } else {
            Seq::empty()
        },
    }
}

/// The number of states after `k` visits.
pub open spec fn star_len(g: Star, k: int) -> int {
    let last = g.u.len() as int + 1 + g.v.len();
    if k < last {
        k + 2
    } else if g.v.len() == 0 {
        last + 2
    } else if g.anchored {
        if k == last {
            last + 2
        } else {
            last + 3
        }
    } else if g.v.len() > 0 {
        last + 3
    } else {
        last + 2
    }
}

/// The states after `k` visits.
pub open spec fn star_states(g: Star, kind: Kind, k: int) -> Seq<NodeView> {
    let last = g.u.len() as int + 1 + g.v.len();
    Seq::new(
        star_len(g, k) as nat,
        |i: int|
            if i == 1 {
                bare(Accept::Allow, 0)
            } else if i == last + 2 {
                if g.anchored {
                    bare(Accept::Allow, last as usize)
                } else {
                    bare(given(kind), last as usize)
                }
            } else if i == 0 {
                star_node(g, kind, k, 0)
            } else {
                star_node(g, kind, k, i - 1)
            },
    )
}

/// The nodes that wait after `k` visits.
pub open spec fn star_queue(g: Star, k: int) -> Seq<Item> {
    let a = g.u.len() as int;
    if k <= star_total(g) {
        seq![
            Item {
                prefix: star_pattern(g).take(k),
                parent_state: if g.anchored && g.v.len() == 0 && k == a + 2 {
                    at(a + 1)
                } else {
                    at(k)
                },
                epsilon_state: if k == a + 1 {
                    Some(at(a))
                } else {
                    None
                },
            },
        ]
    } else {
        Seq::empty()
    }
}

/// The construction after `k` visits.
pub open spec fn star_build(g: Star, kind: Kind, k: int) -> Build {
    Build { states: star_states(g, kind, k), queue: star_queue(g, k) }
}

/// The patterns in reach: `u` and `v` are literal, and the states can be
/// counted.
pub open spec fn star_fits(g: Star) -> bool {
    &&& literal(g.u)
    &&& literal(g.v)
    &&& g.u.len() + g.v.len() + 5 <= usize::MAX
}

/// The patterns in reach in which a `$` ends the pattern only behind a `v`
/// that is not empty.
pub open spec fn star_ok(g: Star) -> bool {
    &&& star_fits(g)
    &&& g.anchored ==> g.v.len() > 0
}

/// What every step of the construction starts from.
proof fn lemma_star_setup(g: Star, kind: Kind, j: int)
    requires
        star_fits(g),
        0 <= j <= star_total(g),
    ensures
        table(star_rule(g, kind)).dom() =~= set![star_pattern(g)],
        table(star_rule(g, kind))[star_pattern(g)] == kind,
        star_pattern(g).len() == star_total(g),
        forall|i: int| 0 <= i < g.u.len() ==> star_pattern(g)[i] == g.u[i],
        star_pattern(g)[g.u.len() as int] == WILDCARD_BYTE,
        forall|i: int| 0 <= i < g.v.len() ==> star_pattern(g)[g.u.len() + 1 + i] == g.v[i],
        g.anchored ==> star_pattern(g)[g.u.len() as int + 1 + g.v.len()] == EOW_BYTE,
        star_build(g, kind, j).queue.len() == 1,
        star_build(g, kind, j).queue[0].prefix == star_pattern(g).take(j),
        j < star_total(g) ==> child_bytes_one(g, kind, j),
        ends_with(star_pattern(g).take(j), WILDCARD_BYTE) <==> j == g.u.len() + 1,
        j > g.u.len() ==> star_pattern(g).take(j).contains(WILDCARD_BYTE),
{
    let pattern = star_pattern(g);
    let t = table(star_rule(g, kind));
    if j > g.u.len() {
        assert(pattern.take(j)[g.u.len() as int] == WILDCARD_BYTE);
    }
    lemma_single_table(kind, pattern);
    lemma_single_children(t, pattern, j);
    if j < pattern.len() {
        lemma_single_children(t, pattern, j + 1);
        assert(pattern.take(j).push(pattern[j]) =~= pattern.take(j + 1));
    }
    if j > 0 {
        assert(pattern.take(j).last() == pattern[j - 1]);
    }
}

/// The node `j` has one child, under the pattern's next byte, at which the
/// rule ends exactly if the pattern does.
pub open spec fn child_bytes_one(g: Star, kind: Kind, j: int) -> bool {
    let pattern = star_pattern(g);
    let t = table(star_rule(g, kind));
    &&& crate::trie::child_bytes(t, pattern.take(j), 0) == seq![pattern[j]]
    &&& terminal(t, pattern.take(j).push(pattern[j])) == if j + 1 == pattern.len() {
        Some(kind)
    } else {
        None
    }
}

/// The states are those that the next closed form asks for.
proof fn lemma_same(got: Seq<NodeView>, goal: Seq<NodeView>)
    requires
        got.len() == goal.len(),
        forall|i: int| 0 <= i < goal.len() ==> #[trigger] got[i] =~~= goal[i],
    ensures
        got == goal,
{
    assert(got =~= goal);
}

/// The visit of a node before the end of `u` adds the next node.
proof fn lemma_star_before(g: Star, kind: Kind, j: int)
    requires
        star_fits(g),
        0 <= j < g.u.len(),
    ensures
        visit(table(star_rule(g, kind)), star_build(g, kind, j)) == star_build(
            g,
            kind,
            j + 1,
        ),
{
    let t = table(star_rule(g, kind));
    let pattern = star_pattern(g);
    lemma_star_setup(g, kind, j);
    let b = star_build(g, kind, j);
    let item = b.queue[0];
    let rest = Build { states: b.states, queue: Seq::empty() };
    let c = pattern[j];
    lemma_visit_one(t, b, c);
    let a = add_child(rest, item, c, None);
    let n = rest.states.len() as int;
    let parent = rest.states[at(j) as int];
    assert(parent == star_node(g, kind, j, j));
    assert(without(parent.wildcards, n as usize) =~= seq![1usize]) by {
        assert(parent.wildcards.drop_last() =~= Seq::<usize>::empty());
        assert(without(parent.wildcards.drop_last(), n as usize) =~= Seq::<usize>::empty());
    }
    let goal = star_states(g, kind, j + 1);
    assert(a.states.len() == goal.len());
    assert forall|i: int| 0 <= i < goal.len() implies #[trigger] a.states[i] =~~= goal[i] by {
        if i != n && i != at(j) {
            assert(a.states[i] == rest.states[i]);
        }
    }
    lemma_same(a.states, goal);
    assert(item.prefix.push(c) =~= pattern.take(j + 1));
    assert(a.queue =~= star_queue(g, j + 1));
}

/// The visit of the end of `u` adds the state of the `*`, which loops, and
/// leads the end of `u` to it under any byte.
proof fn lemma_star_at(g: Star, kind: Kind)
    requires
        star_fits(g),
    ensures
        visit(table(star_rule(g, kind)), star_build(g, kind, g.u.len() as int)) == star_build(
            g,
            kind,
            g.u.len() as int + 1,
        ),
{
    let j = g.u.len() as int;
    let t = table(star_rule(g, kind));
    let pattern = star_pattern(g);
    lemma_star_setup(g, kind, j);
    let b = star_build(g, kind, j);
    let item = b.queue[0];
    let rest = Build { states: b.states, queue: Seq::empty() };
    let c = pattern[j];
    assert(c == WILDCARD_BYTE);
    lemma_visit_one(t, b, c);
    let here = terminal(t, item.prefix.push(c));
    let a = add_child(rest, item, c, here);
    let n = rest.states.len() as int;
    let parent = rest.states[at(j) as int];
    assert(parent == star_node(g, kind, j, j));
    assert(parent.edges =~= Seq::<(u8, usize)>::empty());
    assert forall|s: Seq<NodeView>| #[trigger] spread(s, parent.edges, n as usize) == s by {}
    let goal = star_states(g, kind, j + 1);
    assert(n == j + 2);
    assert(item.parent_state == at(j));
    assert(item.epsilon_state is None);
    assert(here == if g.v.len() == 0 && !g.anchored {
        Some(kind)
    } else {
        None
    });
    assert(a.states.len() == goal.len());
    assert(a.states[n] =~~= goal[n]);
    assert(a.states[at(j) as int].wildcards =~= seq![1usize, at(j + 1)]);
    assert(a.states[at(j) as int].edges =~= Seq::<(u8, usize)>::empty());
    assert(a.states[at(j) as int] =~~= goal[at(j) as int]);
    assert forall|i: int| 0 <= i < goal.len() implies #[trigger] a.states[i] =~~= goal[i] by {
        if i != n && i != at(j) {
            assert(a.states[i] == rest.states[i]);
        }
    }
    lemma_same(a.states, goal);
    assert(item.prefix.push(c) =~= pattern.take(j + 1));
    assert(a.queue =~= star_queue(g, j + 1));
}

/// The visit of the `*` adds the node of the first byte of `v`, and leads
/// both the `*` and the end of `u` to it: the `*` may take no byte at all.
proof fn lemma_star_behind(g: Star, kind: Kind)
    requires
        star_fits(g),
        g.v.len() > 0,
    ensures
        visit(table(star_rule(g, kind)), star_build(g, kind, g.u.len() as int + 1))
            == star_build(g, kind, g.u.len() as int + 2),
{
    let j = g.u.len() as int + 1;
    let t = table(star_rule(g, kind));
    let pattern = star_pattern(g);
    lemma_star_setup(g, kind, j);
    let b = star_build(g, kind, j);
    let item = b.queue[0];
    let rest = Build { states: b.states, queue: Seq::empty() };
    let c = pattern[j];
    assert(c == g.v[0]);
    lemma_visit_one(t, b, c);
    let here = terminal(t, item.prefix.push(c));
    let a = add_child(rest, item, c, here);
    let n = rest.states.len() as int;
    let parent = rest.states[at(j) as int];
    assert(parent == star_node(g, kind, j, j));
    assert(without(parent.wildcards, n as usize) =~= seq![at(j)]) by {
        assert(parent.wildcards.drop_last() =~= Seq::<usize>::empty());
        assert(without(parent.wildcards.drop_last(), n as usize) =~= Seq::<usize>::empty());
    }
    let goal = star_states(g, kind, j + 1);
    assert(a.states.len() == goal.len());
    assert forall|i: int| 0 <= i < goal.len() implies #[trigger] a.states[i] =~~= goal[i] by {
        if i != n && i != n + 1 && i != at(j) && i != at(j - 1) {
            assert(a.states[i] == rest.states[i]);
        }
    }
    lemma_same(a.states, goal);
    assert(item.prefix.push(c) =~= pattern.take(j + 1));
    assert(a.queue =~= star_queue(g, j + 1));
}

/// The visit of a node along `v` adds the next node; the last of them
/// judges as the rule does and leads on to a state that keeps the verdict.
proof fn lemma_star_along(g: Star, kind: Kind, j: int)
    requires
        star_fits(g),
        g.u.len() + 1 < j < g.u.len() + 1 + g.v.len(),
    ensures
        visit(table(star_rule(g, kind)), star_build(g, kind, j)) == star_build(
            g,
            kind,
            j + 1,
        ),
{
    let t = table(star_rule(g, kind));
    let pattern = star_pattern(g);
    lemma_star_setup(g, kind, j);
    let b = star_build(g, kind, j);
    let item = b.queue[0];
    let rest = Build { states: b.states, queue: Seq::empty() };
    let c = pattern[j];
    assert(c == g.v[j - g.u.len() - 1]);
    assert(c != EOW_BYTE && c != WILDCARD_BYTE);
    lemma_visit_one(t, b, c);
    let here = terminal(t, item.prefix.push(c));
    let a = add_child(rest, item, c, here);
    let n = rest.states.len() as int;
    let parent = rest.states[at(j) as int];
    assert(parent == star_node(g, kind, j, j));
    assert(item.parent_state == at(j));
    assert(item.epsilon_state is None);
    assert(without(parent.wildcards, n as usize) =~= seq![at(g.u.len() as int + 1)]) by {
        assert(parent.wildcards.drop_last() =~= Seq::<usize>::empty());
        assert(without(parent.wildcards.drop_last(), n as usize) =~= Seq::<usize>::empty());
    }
    let goal = star_states(g, kind, j + 1);
    assert(a.states.len() == goal.len());
    assert forall|i: int| 0 <= i < goal.len() implies #[trigger] a.states[i] =~~= goal[i] by {
        if i != n && i != n + 1 && i != at(j) {
            assert(a.states[i] == rest.states[i]);
        }
    }
    lemma_same(a.states, goal);
    assert(item.prefix.push(c) =~= pattern.take(j + 1));
    assert(a.queue =~= star_queue(g, j + 1));
}

/// The visit of the end of `v` where a `$` follows: the state behind the end
/// is added, and the end of `v` takes the verdict of the rule and the weight
/// of the whole pattern.
proof fn lemma_star_anchor(g: Star, kind: Kind)
    requires
        star_ok(g),
        g.anchored,
        g.v.len() > 0,
    ensures
        visit(table(star_rule(g, kind)), star_build(g, kind, star_total(g) - 1)) == star_build(
            g,
            kind,
            star_total(g),
        ),
{
    let j = star_total(g) - 1;
    let t = table(star_rule(g, kind));
    let pattern = star_pattern(g);
    lemma_star_setup(g, kind, j);
    let b = star_build(g, kind, j);
    let item = b.queue[0];
    let rest = Build { states: b.states, queue: Seq::empty() };
    let c = pattern[j];
    assert(c == EOW_BYTE);
    lemma_visit_one(t, b, c);
    let here = terminal(t, item.prefix.push(c));
    assert(here == Some(kind));
    let a = add_child(rest, item, c, here);
    let n = rest.states.len() as int;
    assert(n == j + 2);
    let parent = rest.states[at(j) as int];
    assert(parent == star_node(g, kind, j, j));
    assert(item.parent_state == at(j));
    assert(item.epsilon_state is None);
    assert(crate::nfa::behind_weight(item.prefix) == j);
    let goal = star_states(g, kind, j + 1);
    assert(a.states.len() == goal.len());
    let changed = a.states[at(j) as int];
    assert(changed.wildcards =~= seq![at(g.u.len() as int + 1), (j + 2) as usize]);
    assert(changed.edges =~= Seq::<(u8, usize)>::empty());
    assert(changed =~~= goal[at(j) as int]);
    assert(a.states[n] =~~= goal[n]);
    assert forall|i: int| 0 <= i < goal.len() implies #[trigger] a.states[i] =~~= goal[i] by {
        if i != n && i != at(j) {
            assert(a.states[i] == rest.states[i]);
        }
    }
    lemma_same(a.states, goal);
    assert(item.prefix.push(c) =~= pattern.take(j + 1));
    assert(a.queue =~= star_queue(g, j + 1));
}

/// The visit of the `*` where a `$` follows it: no state is added, and the
/// `*` and the end of `u` take the verdict of the rule.
proof fn lemma_star_dollar(g: Star, kind: Kind)
    requires
        star_fits(g),
        g.anchored,
        g.v.len() == 0,
    ensures
        visit(table(star_rule(g, kind)), star_build(g, kind, star_total(g) - 1)) == star_build(
            g,
            kind,
            star_total(g),
        ),
{
    let j = star_total(g) - 1;
    let t = table(star_rule(g, kind));
    let pattern = star_pattern(g);
    lemma_star_setup(g, kind, j);
    let b = star_build(g, kind, j);
    let item = b.queue[0];
    let rest = Build { states: b.states, queue: Seq::empty() };
    let c = pattern[j];
    assert(c == EOW_BYTE);
    lemma_visit_one(t, b, c);
    let here = terminal(t, item.prefix.push(c));
    assert(here == Some(kind));
    let a = add_child(rest, item, c, here);
    assert(ends_with(item.prefix, WILDCARD_BYTE));
    assert(item.parent_state == at(j));
    assert(item.epsilon_state == Some(at(j - 1)));
    let goal = star_states(g, kind, j + 1);
    assert(a.states.len() == goal.len());
    assert forall|i: int| 0 <= i < goal.len() implies #[trigger] a.states[i] =~~= goal[i] by {
        if i != at(j) && i != at(j - 1) {
            assert(a.states[i] == rest.states[i]);
        }
    }
    lemma_same(a.states, goal);
    assert(item.prefix.push(c) =~= pattern.take(j + 1));
    assert(a.queue =~= star_queue(g, j + 1));
}

/// The visit of the pattern's end adds nothing.
proof fn lemma_star_end(g: Star, kind: Kind)
    requires
        star_fits(g),
    ensures
        visit(table(star_rule(g, kind)), star_build(g, kind, star_total(g))) == star_build(
            g,
            kind,
            star_total(g) + 1,
        ),
{
    let j = star_total(g);
    let t = table(star_rule(g, kind));
    let pattern = star_pattern(g);
    lemma_star_setup(g, kind, j);
    lemma_single_table(kind, pattern);
    lemma_single_children(t, pattern, j);
    let b = star_build(g, kind, j);
    let rest = Build { states: b.states, queue: b.queue.drop_first() };
    assert(rest.queue =~= Seq::<Item>::empty());
    assert(visit(t, b) == rest);
    let goal = star_states(g, kind, j + 1);
    assert forall|i: int| 0 <= i < goal.len() implies #[trigger] rest.states[i] =~~= goal[i] by {}
    lemma_same(rest.states, goal);
}

/// The construction for the one rule goes along the pattern, a node a visit.
pub proof fn lemma_star_chain(g: Star, kind: Kind, k: nat)
    requires
        star_fits(g),
        k <= star_total(g) + 1,
    ensures
        steps(table(star_rule(g, kind)), k) == star_build(g, kind, k as int),
    decreases k,
{
    let a = g.u.len() as int;
    let t = table(star_rule(g, kind));
    if k == 0 {
        assert(star_pattern(g).take(0) =~= Seq::<u8>::empty());
        let goal = star_states(g, kind, 0);
        assert forall|i: int| 0 <= i < goal.len() implies #[trigger] initial().states[i]
            =~~= goal[i] by {}
        lemma_same(initial().states, goal);
        assert(star_queue(g, 0) =~= initial().queue);
    } else {
        let j = (k - 1) as int;
        lemma_star_chain(g, kind, (k - 1) as nat);
        assert(steps(t, k) == visit(t, star_build(g, kind, j)));
        if j < a {
            lemma_star_before(g, kind, j);
        } else if j == a {
            lemma_star_at(g, kind);
        } else if j == star_total(g) {
            lemma_star_end(g, kind);
        } else if j == a + 1 + g.v.len() {
            if g.v.len() == 0 {
                lemma_star_dollar(g, kind);
            } else {
                lemma_star_anchor(g, kind);
            }
        } else if j == a + 1 {
            lemma_star_behind(g, kind);
        } else {
            lemma_star_along(g, kind, j);
        }
    }
}

/// The states of the matcher of the pattern.
pub open spec fn star_machine(g: Star, kind: Kind) -> Seq<NodeView> {
    star_states(g, kind, star_total(g) + 1)
}

/// The states that follow the state of the node `j` under the byte `b`.
pub open spec fn star_next(g: Star, j: int, b: u8, x: usize) -> bool {
    let a = g.u.len() as int;
    let c = g.v.len() as int;
    if j < a {
        (b == g.u[j] && x == at(j + 1)) || x == 1
    } else if j == a {
        (c > 0 && b == g.v[0] && x == at(a + 2)) || x == 1 || x == at(a + 1)
    } else if j < a + 1 + c {
        (b == g.v[j - a - 1] && x == at(j + 1)) || x == at(a + 1)
    } else if g.anchored {
        x == at(a + 1) || x == a + 3 + c
    } else if c > 0 {
        x == a + 3 + c
    } else {
        x == at(a + 1)
    }
}

/// The state of a node leads where its edge and its wildcard edges lead.
proof fn lemma_star_follows(g: Star, kind: Kind, j: int, b: u8, x: usize)
    requires
        star_ok(g),
        0 <= j <= g.u.len() + 1 + g.v.len(),
    ensures
        follows(star_machine(g, kind), at(j), b, x) <==> star_next(g, j, b, x),
{
    let a = g.u.len() as int;
    let c = g.v.len() as int;
    let last = a + 1 + c;
    let states = star_machine(g, kind);
    let node = states[at(j) as int];
    lemma_star_setup(g, kind, j);
    assert(node == star_node(g, kind, star_total(g) + 1, j));
    lemma_node_follows(states, at(j), b, x);
    if node.edges.contains((b, x)) {
        let i = choose|i: int| 0 <= i < node.edges.len() && node.edges[i] == (b, x);
    }
    if node.wildcards.contains(x) {
        let i = choose|i: int| 0 <= i < node.wildcards.len() && node.wildcards[i] == x;
    }
    if star_next(g, j, b, x) {
        if j < a {
            if x == 1 {
                assert(node.wildcards[0] == x);
            } else {
                assert(node.edges[0] == (b, x));
            }
        } else if j == a {
            if x == 1 {
                assert(node.wildcards[0] == x);
            } else if x == at(a + 1) {
                assert(node.wildcards[1] == x);
            } else {
                assert(node.edges[0] == (b, x));
            }
        } else if j < last {
            if x == at(a + 1) {
                assert(node.wildcards[0] == x);
            } else {
                assert(node.edges[0] == (b, x));
            }
        } else if g.anchored && x != at(a + 1) {
            assert(node.wildcards[1] == x);
        } else {
            assert(node.wildcards[0] == x);
        }
    }
}

/// The two states without edges stay.
proof fn lemma_star_stays(g: Star, kind: Kind, s: usize, b: u8, x: usize)
    requires
        star_ok(g),
        s == 1 || (g.v.len() > 0 && s == g.u.len() + 3 + g.v.len()),
    ensures
        follows(star_machine(g, kind), s, b, x) <==> x == s,
{
    lemma_bare_follows(star_machine(g, kind), s, b, x);
}

/// The last `j` bytes of `x` are the first `j` bytes of `v`.
pub open spec fn tail(x: Seq<u8>, v: Seq<u8>, j: int) -> bool {
    &&& 0 <= j <= x.len()
    &&& j <= v.len()
    &&& x.skip(x.len() - j) == v.take(j)
}

/// `v` stands in `x` and ends at `n`, before the end of `x`.
pub open spec fn seen(x: Seq<u8>, v: Seq<u8>, n: int) -> bool {
    &&& v.len() <= n < x.len()
    &&& x.subrange(n - v.len(), n) == v
}

/// The states that are active behind `u`, after the bytes `x`: the state
/// that allows, the state of the `*`, the states of the starts of `v` that
/// `x` ends with, and, once `v` has gone by, the state that keeps the verdict.
pub open spec fn star_behind(g: Star, x: Seq<u8>) -> Set<usize> {
    let a = g.u.len() as int;
    let c = g.v.len() as int;
    Set::new(
        |s: usize|
            s == 1 || s == at(a + 1) || (exists|j: int|
                1 <= j && #[trigger] tail(x, g.v, j) && s == at(a + 1 + j)) || (c > 0 && s == a + 3
                + c && exists|n: int| #[trigger] seen(x, g.v, n)),
    )
}

/// The states that are active after `p` in the matcher of the pattern `u*v`.
pub open spec fn star_active(g: Star, p: Seq<u8>) -> Set<usize> {
    let a = g.u.len() as int;
    if p.len() == 0 {
        set![0usize]
    } else if p.len() <= a {
        if p.is_prefix_of(g.u) {
            set![at(p.len() as int), 1usize]
        } else {
            set![1usize]
        }
    } else if g.u.is_prefix_of(p) {
        star_behind(g, p.skip(a))
    } else {
        set![1usize]
    }
}

/// What one more byte does to the ends of a path.
proof fn lemma_tail_push(xq: Seq<u8>, v: Seq<u8>, b: u8, j: int)
    requires
        1 <= j <= v.len(),
    ensures
        tail(xq.push(b), v, j) <==> b == v[j - 1] && tail(xq, v, j - 1),
{
    let x = xq.push(b);
    if tail(x, v, j) {
        assert(x.skip(x.len() - j)[j - 1] == v.take(j)[j - 1]);
        let short = xq.skip(xq.len() - (j - 1));
        let start = v.take(j - 1);
        assert(short =~= start) by {
            assert forall|i: int| 0 <= i < j - 1 implies #[trigger] short[i] == start[i] by {
                assert(x.skip(x.len() - j)[i] == v.take(j)[i]);
            }
        }
    }
    if b == v[j - 1] && tail(xq, v, j - 1) {
        let long = x.skip(x.len() - j);
        let start = v.take(j);
        assert(long =~= start) by {
            assert forall|i: int| 0 <= i < j implies #[trigger] long[i] == start[i] by {
                if i < j - 1 {
                    assert(xq.skip(xq.len() - (j - 1))[i] == v.take(j - 1)[i]);
                }
            }
        }
    }
}

/// What one more byte does to where `v` has gone by.
proof fn lemma_seen_push(xq: Seq<u8>, v: Seq<u8>, b: u8, n: int)
    ensures
        seen(xq.push(b), v, n) <==> seen(xq, v, n) || (n == xq.len() && tail(xq, v, v.len() as int)),
{
    let x = xq.push(b);
    let c = v.len() as int;
    if seen(x, v, n) {
        if n < xq.len() {
            assert(xq.subrange(n - c, n) =~= x.subrange(n - c, n));
        } else {
            assert(xq.skip(xq.len() - c) =~= x.subrange(n - c, n));
            assert(v.take(c) =~= v);
        }
    }
    if seen(xq, v, n) {
        assert(xq.subrange(n - c, n) =~= x.subrange(n - c, n));
    }
    if n == xq.len() && tail(xq, v, c) {
        assert(xq.skip(xq.len() - c) =~= x.subrange(n - c, n));
        assert(v.take(c) =~= v);
    }
}

/// One more byte on the way along `u`.
proof fn lemma_star_step_within(g: Star, kind: Kind, q: Seq<u8>, b: u8)
    requires
        star_ok(g),
        q.len() < g.u.len(),
    ensures
        advance(star_machine(g, kind), star_active(g, q), b) == star_active(g, q.push(b)),
{
    let states = star_machine(g, kind);
    let p = q.push(b);
    let j = q.len() as int;
    let before = star_active(g, q);
    let after = star_active(g, p);
    assert forall|x: usize| #![auto] follows(states, 1, b, x) <==> x == 1 by {
        lemma_star_stays(g, kind, 1, b, x);
    }
    let on_way = q.is_prefix_of(g.u);
    if on_way {
        assert forall|i: int| 0 <= i < j implies q[i] == g.u[i] by {
            assert(g.u.subrange(0, j)[i] == q[i]);
        }
        if b == g.u[j] {
            assert(p =~= g.u.subrange(0, j + 1));
        }
    }
    if p.is_prefix_of(g.u) {
        assert forall|i: int| 0 <= i < j + 1 implies p[i] == g.u[i] by {
            assert(g.u.subrange(0, j + 1)[i] == p[i]);
        }
        assert(q =~= g.u.subrange(0, j));
    }
    assert forall|x: usize| #![auto] follows(states, at(j), b, x) <==> star_next(g, j, b, x) by {
        lemma_star_follows(g, kind, j, b, x);
    }
    assert forall|x: usize|
        after.contains(x) <==> exists|r: usize|
            #![trigger before.contains(r)]
            before.contains(r) && follows(states, r, b, x) by {
        lemma_star_follows(g, kind, j, b, x);
        lemma_star_stays(g, kind, 1, b, x);
        if after.contains(x) {
            if on_way {
                assert(before.contains(at(j)));
                assert(p.len() == j + 1);
                assert(after == if p.is_prefix_of(g.u) {
                    set![at(j + 1), 1usize]
                } else {
                    set![1usize]
                });
                if x != 1 {
                    assert(p.is_prefix_of(g.u));
                    assert(x == at(j + 1));
                    assert(p[j] == g.u[j]);
                    assert(b == g.u[j]);
                }
                assert(star_next(g, j, b, x));
                assert(follows(states, at(j), b, x));
            } else {
                assert(before.contains(1usize));
                assert(follows(states, 1, b, x));
            }
        }
        if exists|r: usize|
            #![trigger before.contains(r)]
            before.contains(r) && follows(states, r, b, x) {
            let r = choose|r: usize|
                #![trigger before.contains(r)]
                before.contains(r) && follows(states, r, b, x);
            lemma_star_stays(g, kind, 1, b, x);
            if r != 1 {
                assert(r == at(j));
                assert(star_next(g, j, b, x));
            }
        }
    }
    lemma_advance(states, before, b, after);
}

/// The first byte behind `u`.
proof fn lemma_star_step_at(g: Star, kind: Kind, q: Seq<u8>, b: u8)
    requires
        star_ok(g),
        q.len() == g.u.len(),
    ensures
        advance(star_machine(g, kind), star_active(g, q), b) == star_active(g, q.push(b)),
{
    let states = star_machine(g, kind);
    let p = q.push(b);
    let a = g.u.len() as int;
    let c = g.v.len() as int;
    let before = star_active(g, q);
    let after = star_active(g, p);
    let x1 = p.skip(a);
    assert(x1 =~= seq![b]);
    assert forall|x: usize| #![auto] follows(states, 1, b, x) <==> x == 1 by {
        lemma_star_stays(g, kind, 1, b, x);
    }
    assert forall|x: usize| #![auto] follows(states, at(a), b, x) <==> star_next(g, a, b, x) by {
        lemma_star_follows(g, kind, a, b, x);
    }
    if q.is_prefix_of(g.u) {
        assert(q =~= g.u);
        assert(g.u =~= p.subrange(0, a));
    }
    if g.u.is_prefix_of(p) {
        assert(q =~= g.u) by {
            assert forall|i: int| 0 <= i < a implies q[i] == g.u[i] by {
                assert(p.subrange(0, a)[i] == g.u[i]);
            }
        }
    }
    assert forall|j: int| 1 <= j && #[trigger] tail(x1, g.v, j) implies j == 1 && c > 0 && b
        == g.v[0] by {
        assert(x1.skip(0)[0] == g.v.take(1)[0]);
    }
    if c > 0 && b == g.v[0] {
        assert(tail(x1, g.v, 1)) by {
            assert(x1.skip(0) =~= g.v.take(1));
        }
    }
    assert forall|n: int| !#[trigger] seen(x1, g.v, n) || c == 0 by {}
    assert forall|x: usize|
        after.contains(x) <==> exists|r: usize|
            #![trigger before.contains(r)]
            before.contains(r) && follows(states, r, b, x) by {
        lemma_star_follows(g, kind, a, b, x);
        lemma_star_stays(g, kind, 1, b, x);
        if after.contains(x) {
            if q =~= g.u {
                assert(before.contains(at(a)));
                if x != 1 && x != at(a + 1) {
                    let j = choose|j: int| 1 <= j && #[trigger] tail(x1, g.v, j) && x == at(a + 1 + j);
                }
                assert(star_next(g, a, b, x));
                assert(follows(states, at(a), b, x));
            } else {
                assert(before.contains(1usize));
                assert(follows(states, 1, b, x));
            }
        }
        if exists|r: usize|
            #![trigger before.contains(r)]
            before.contains(r) && follows(states, r, b, x) {
            let r = choose|r: usize|
                #![trigger before.contains(r)]
                before.contains(r) && follows(states, r, b, x);
            if q =~= g.u && r == at(a) && x != 1 && x != at(a + 1) {
                assert(star_next(g, a, b, x));
                assert(tail(x1, g.v, 1));
            }
        }
    }
    lemma_advance(states, before, b, after);
}

/// One more byte behind `u`.
proof fn lemma_star_step_behind(g: Star, kind: Kind, q: Seq<u8>, b: u8)
    requires
        star_ok(g),
        q.len() > g.u.len(),
    ensures
        advance(star_machine(g, kind), star_active(g, q), b) == star_active(g, q.push(b)),
{
    let states = star_machine(g, kind);
    let p = q.push(b);
    let a = g.u.len() as int;
    let c = g.v.len() as int;
    let last = a + 1 + c;
    let sink = (last + 2) as usize;
    let star = at(a + 1);
    let before = star_active(g, q);
    let after = star_active(g, p);
    let xq = q.skip(a);
    let xp = p.skip(a);
    assert(xp =~= xq.push(b));
    assert forall|x: usize| #![auto] follows(states, 1, b, x) <==> x == 1 by {
        lemma_star_stays(g, kind, 1, b, x);
    }
    assert(g.u.is_prefix_of(p) == g.u.is_prefix_of(q)) by {
        assert(p.subrange(0, a) =~= q.subrange(0, a));
    }
    if !g.u.is_prefix_of(q) {
        assert forall|x: usize|
            after.contains(x) <==> exists|r: usize|
                #![trigger before.contains(r)]
                before.contains(r) && follows(states, r, b, x) by {
            if after.contains(x) {
                assert(before.contains(1usize));
                assert(follows(states, 1, b, x));
            }
        }
    } else {
        assert forall|x: usize| after.contains(x) implies exists|r: usize|
            #![trigger before.contains(r)]
            before.contains(r) && follows(states, r, b, x) by {
            if x == 1 {
                assert(before.contains(1usize));
                assert(follows(states, 1, b, x));
            } else if x == star {
                assert(before.contains(star));
                lemma_star_follows(g, kind, a + 1, b, x);
                assert(follows(states, star, b, x));
            } else if exists|j: int| 1 <= j && #[trigger] tail(xp, g.v, j) && x == at(a + 1 + j) {
                let j = choose|j: int| 1 <= j && #[trigger] tail(xp, g.v, j) && x == at(a + 1 + j);
                lemma_tail_push(xq, g.v, b, j);
                let from = at(a + j);
                if j > 1 {
                    assert(tail(xq, g.v, j - 1));
                }
                assert(before.contains(from));
                lemma_star_follows(g, kind, a + j, b, x);
                assert(follows(states, from, b, x));
            } else {
                let n = choose|n: int| #[trigger] seen(xp, g.v, n);
                lemma_seen_push(xq, g.v, b, n);
                if seen(xq, g.v, n) {
                    assert(before.contains(sink));
                    lemma_star_stays(g, kind, sink, b, x);
                    assert(follows(states, sink, b, x));
                } else {
                    assert(tail(xq, g.v, c));
                    assert(before.contains(at(last)));
                    lemma_star_follows(g, kind, last, b, x);
                    assert(follows(states, at(last), b, x));
                }
            }
        }
        assert forall|x: usize|
            (exists|r: usize|
                #![trigger before.contains(r)]
                before.contains(r) && follows(states, r, b, x)) implies after.contains(x) by {
            let r = choose|r: usize|
                #![trigger before.contains(r)]
                before.contains(r) && follows(states, r, b, x);
            if r == 1 {
            } else if r == star {
                lemma_star_follows(g, kind, a + 1, b, x);
                if x != star {
                    if c > 0 {
                        lemma_tail_push(xq, g.v, b, 1);
                        assert(tail(xq, g.v, 0)) by {
                            assert(xq.skip(xq.len() - 0) =~= g.v.take(0));
                        }
                        assert(tail(xp, g.v, 1));
                    }
                }
            } else if exists|j: int| 1 <= j && #[trigger] tail(xq, g.v, j) && r == at(a + 1 + j) {
                let j = choose|j: int| 1 <= j && #[trigger] tail(xq, g.v, j) && r == at(a + 1 + j);
                lemma_star_follows(g, kind, a + 1 + j, b, x);
                if j < c {
                    if x != star {
                        lemma_tail_push(xq, g.v, b, j + 1);
                        assert(tail(xp, g.v, j + 1));
                    }
                } else {
                    lemma_seen_push(xq, g.v, b, xq.len() as int);
                    assert(seen(xp, g.v, xq.len() as int));
                }
            } else {
                let n = choose|n: int| #[trigger] seen(xq, g.v, n);
                lemma_seen_push(xq, g.v, b, n);
                assert(seen(xp, g.v, n));
                lemma_star_stays(g, kind, sink, b, x);
            }
        }
    }
    lemma_advance(states, before, b, after);
}

/// The matcher of the pattern `u*v` goes along `u`, and behind `u` looks
/// out for `v` from every byte on.
pub proof fn lemma_star_run(g: Star, kind: Kind, p: Seq<u8>)
    requires
        star_ok(g),
    ensures
        active_after(star_machine(g, kind), p) == star_active(g, p),
    decreases p.len(),
{
    if p.len() > 0 {
        let q = p.drop_last();
        let b = p.last();
        assert(q.push(b) =~= p);
        lemma_star_run(g, kind, q);
        if q.len() < g.u.len() {
            lemma_star_step_within(g, kind, q, b);
        } else if q.len() == g.u.len() {
            lemma_star_step_at(g, kind, q, b);
        } else {
            lemma_star_step_behind(g, kind, q, b);
        }
    }
}

/// The pattern matches the path. The path starts with `u`. Behind `u` it
/// holds `v`; where a `$` ends the pattern, it ends with `v`.
pub open spec fn star_matches(g: Star, p: Seq<u8>) -> bool {
    &&& g.u.is_prefix_of(p)
    &&& if g.anchored {
        ends_at(g, p, p.len() as int)
    } else {
        exists|n: int| #[trigger] ends_at(g, p, n)
    }
}

/// Behind `u`, `v` stands in `p` and ends at `n`.
pub open spec fn ends_at(g: Star, p: Seq<u8>, n: int) -> bool {
    &&& g.u.len() + g.v.len() <= n <= p.len()
    &&& p.subrange(n - g.v.len(), n) == g.v
}

/// Among active states of bounded weight one weighs most.
proof fn lemma_heaviest_exists(states: Seq<NodeView>, active: Set<usize>, s: usize, bound: int) -> (top:
    usize)
    requires
        active.contains(s),
        s < states.len(),
        forall|r: usize|
            #![trigger active.contains(r)]
            active.contains(r) && r < states.len() ==> states[r as int].normalized_weight() <= bound,
    ensures
        heaviest(states, active, top),
    decreases bound - states[s as int].normalized_weight(),
{
    if heaviest(states, active, s) {
        s
    } else {
        let r = choose|r: usize|
            #![trigger active.contains(r)]
            active.contains(r) && r < states.len() && states[r as int].normalized_weight()
                > states[s as int].normalized_weight();
        lemma_heaviest_exists(states, active, r, bound)
    }
}

/// Where every active state allows, the path is allowed.
proof fn lemma_all_allow(states: Seq<NodeView>, active: Set<usize>, s: usize, bound: int)
    requires
        active.contains(s),
        s < states.len(),
        forall|r: usize|
            #![trigger active.contains(r)]
            active.contains(r) && r < states.len() ==> states[r as int].normalized_weight() <= bound
                && states[r as int].allows(),
    ensures
        verdict(states, active),
{
    let top = lemma_heaviest_exists(states, active, s, bound);
    assert(active.contains(top));
    lemma_heaviest_decides(states, active, top);
}

/// What the states of the matcher weigh and judge.
proof fn lemma_star_weights(g: Star, kind: Kind, j: int)
    requires
        star_ok(g),
        0 <= j <= g.u.len() + 1 + g.v.len(),
    ensures
        at(j) < star_machine(g, kind).len(),
        star_machine(g, kind)[at(j) as int].weight == if g.anchored && j == g.u.len() + 1
            + g.v.len() {
            j + 1
        } else {
            j
        },
        star_machine(g, kind)[at(j) as int].accept == if j == g.u.len() + 1 + g.v.len() || (g.v.len()
            == 0 && j == g.u.len()) {
            given(kind)
        } else {
            Accept::Allow
        },
        star_machine(g, kind)[1] == bare(Accept::Allow, 0),
        g.v.len() > 0 ==> star_machine(g, kind)[g.u.len() as int + 3 + g.v.len()] == if g.anchored {
            bare(Accept::Allow, (g.u.len() + 1 + g.v.len()) as usize)
        } else {
            bare(given(kind), (g.u.len() + 1 + g.v.len()) as usize)
        },
        star_machine(g, kind).len() == if g.v.len() > 0 {
            g.u.len() + 4 + g.v.len()
        } else {
            g.u.len() + 3
        },
{
    let states = star_machine(g, kind);
    assert(states[at(j) as int] == star_node(g, kind, star_total(g) + 1, j));
}

/// Behind `u`, `v` ends where the path ends exactly if the rest of the path
/// ends with `v`, and ends before exactly if `v` has gone by in the rest.
proof fn lemma_star_hit(g: Star, p: Seq<u8>)
    requires
        g.u.is_prefix_of(p),
        p.len() > g.u.len(),
    ensures
        ends_at(g, p, p.len() as int) <==> tail(p.skip(g.u.len() as int), g.v, g.v.len() as int),
        (exists|n: int| #[trigger] ends_at(g, p, n) && n < p.len()) <==> exists|n: int|
            #[trigger] seen(p.skip(g.u.len() as int), g.v, n),
{
    let a = g.u.len() as int;
    let c = g.v.len() as int;
    let x = p.skip(a);
    assert(g.v.take(c) =~= g.v);
    if ends_at(g, p, p.len() as int) {
        assert(x.skip(x.len() - c) =~= p.subrange(p.len() - c, p.len() as int));
    }
    if exists|n: int| #[trigger] ends_at(g, p, n) && n < p.len() {
        let n = choose|n: int| #[trigger] ends_at(g, p, n) && n < p.len();
        assert(x.subrange(n - a - c, n - a) =~= p.subrange(n - c, n));
        assert(seen(x, g.v, n - a));
    }
    if tail(x, g.v, c) {
        assert(p.subrange(p.len() - c, p.len() as int) =~= x.skip(x.len() - c));
        assert(ends_at(g, p, p.len() as int));
    }
    if exists|n: int| #[trigger] seen(x, g.v, n) {
        let n = choose|n: int| #[trigger] seen(x, g.v, n);
        assert(p.subrange(n + a - c, n + a) =~= x.subrange(n - c, n));
        assert(ends_at(g, p, n + a));
    }
}

/// The verdict behind `u` where a `$` ends the pattern: where the path ends
/// with `v`, the end of `v` weighs most, and it judges as the rule does.
proof fn lemma_star_verdict_anchored(g: Star, kind: Kind, p: Seq<u8>)
    requires
        star_ok(g),
        g.anchored,
        g.u.is_prefix_of(p),
        p.len() > g.u.len(),
    ensures
        verdict(star_machine(g, kind), star_active(g, p)) == !(kind == Kind::Disallow
            && star_matches(g, p)),
{
    let a = g.u.len() as int;
    let c = g.v.len() as int;
    let last = a + 1 + c;
    let behind = (last + 2) as usize;
    let star = at(a + 1);
    let states = star_machine(g, kind);
    let active = star_active(g, p);
    let x = p.skip(a);
    lemma_star_hit(g, p);
    lemma_star_weights(g, kind, a + 1);
    lemma_star_weights(g, kind, last);
    let gone = exists|n: int| #[trigger] seen(x, g.v, n);
    assert forall|r: usize|
        #![trigger active.contains(r)]
        active.contains(r) implies r < states.len() && states[r as int].weight <= last + 1 && (
        (states[r as int].allows() && states[r as int].weight <= last) || (r == at(last) && tail(
            x,
            g.v,
            c,
        ))) by {
        if r == 1 {
            assert(states[1] == bare(Accept::Allow, 0));
        } else if r == star {
        } else if exists|j: int| 1 <= j && #[trigger] tail(x, g.v, j) && r == at(a + 1 + j) {
            let j = choose|j: int| 1 <= j && #[trigger] tail(x, g.v, j) && r == at(a + 1 + j);
            lemma_star_weights(g, kind, a + 1 + j);
        } else {
            assert(r == behind);
            assert(states[behind as int] == bare(Accept::Allow, last as usize));
        }
    }
    assert(active.contains(star));
    if tail(x, g.v, c) {
        let top = at(last);
        assert(active.contains(top));
        assert(heaviest(states, active, top));
        lemma_heaviest_decides(states, active, top);
    } else {
        lemma_all_allow(states, active, star, 2 * last + 3);
    }
}

/// The verdict behind `u` where no `$` ends the pattern.
proof fn lemma_star_verdict_behind(g: Star, kind: Kind, p: Seq<u8>)
    requires
        star_ok(g),
        !g.anchored,
        g.u.is_prefix_of(p),
        p.len() > g.u.len(),
    ensures
        verdict(star_machine(g, kind), star_active(g, p)) == !(kind == Kind::Disallow
            && star_matches(g, p)),
{
    let a = g.u.len() as int;
    let c = g.v.len() as int;
    let last = a + 1 + c;
    let sink = (last + 2) as usize;
    let star = at(a + 1);
    let states = star_machine(g, kind);
    let active = star_active(g, p);
    let x = p.skip(a);
    lemma_star_hit(g, p);
    lemma_star_weights(g, kind, a + 1);
    lemma_star_weights(g, kind, last);
    assert forall|r: usize|
        #![trigger active.contains(r)]
        active.contains(r) implies r < states.len() && states[r as int].weight <= last && (
        states[r as int].allows() || (states[r as int].weight == last && states[r as int].accept
            == given(kind) && (tail(x, g.v, c) || exists|n: int| #[trigger] seen(x, g.v, n)))) by {
        if r == 1 {
            assert(states[1] == bare(Accept::Allow, 0));
        } else if r == star {
            if c == 0 {
                assert(tail(x, g.v, 0)) by {
                    assert(x.skip(x.len() - 0) =~= g.v.take(0));
                }
            }
        } else if exists|j: int| 1 <= j && #[trigger] tail(x, g.v, j) && r == at(a + 1 + j) {
            let j = choose|j: int| 1 <= j && #[trigger] tail(x, g.v, j) && r == at(a + 1 + j);
            lemma_star_weights(g, kind, a + 1 + j);
        } else {
            assert(c > 0 && r == sink);
            assert(states[sink as int] == bare(given(kind), last as usize));
        }
    }
    assert(active.contains(star));
    if c == 0 {
        assert(tail(x, g.v, 0)) by {
            assert(x.skip(x.len() - 0) =~= g.v.take(0));
        }
        assert forall|r: usize|
            #![trigger active.contains(r)]
            active.contains(r) && r < states.len() implies states[r as int].normalized_weight()
            <= states[star as int].normalized_weight() by {
            if r != 1 && r != star {
                if exists|j: int| 1 <= j && #[trigger] tail(x, g.v, j) && r == at(a + 1 + j) {
                    let j = choose|j: int| 1 <= j && #[trigger] tail(x, g.v, j) && r == at(a + 1 + j);
                }
            }
        }
        assert(heaviest(states, active, star));
        lemma_heaviest_decides(states, active, star);
    } else if tail(x, g.v, c) {
        let top = at(last);
        assert(active.contains(top));
        assert(heaviest(states, active, top));
        lemma_heaviest_decides(states, active, top);
    } else if exists|n: int| #[trigger] seen(x, g.v, n) {
        assert(active.contains(sink));
        assert(heaviest(states, active, sink));
        lemma_heaviest_decides(states, active, sink);
        let n = choose|n: int| #[trigger] ends_at(g, p, n) && n < p.len();
    } else {
        lemma_all_allow(states, active, star, 2 * last + 1);
        if star_matches(g, p) {
            let n = choose|n: int| #[trigger] ends_at(g, p, n);
            if n < p.len() {
                assert(ends_at(g, p, n) && n < p.len());
            }
        }
    }
}

/// The verdict on the way along `u`.
proof fn lemma_star_verdict_within(g: Star, kind: Kind, p: Seq<u8>)
    requires
        star_ok(g),
        0 < p.len(),
        p.len() <= g.u.len() || !g.u.is_prefix_of(p),
    ensures
        verdict(star_machine(g, kind), star_active(g, p)) == !(kind == Kind::Disallow
            && star_matches(g, p)),
{
    let a = g.u.len() as int;
    let c = g.v.len() as int;
    let states = star_machine(g, kind);
    let active = star_active(g, p);
    lemma_star_weights(g, kind, 0);
    if p.len() <= a && p.is_prefix_of(g.u) {
        let here = at(p.len() as int);
        lemma_star_weights(g, kind, p.len() as int);
        assert(active.contains(here));
        assert(heaviest(states, active, here));
        lemma_heaviest_decides(states, active, here);
        if p.len() == a {
            assert(p =~= g.u);
            if c == 0 {
                assert(ends_at(g, p, a)) by {
                    assert(p.subrange(a, a) =~= g.v);
                }
            }
        } else {
            assert(!g.u.is_prefix_of(p));
        }
        if star_matches(g, p) && !g.anchored {
            let n = choose|n: int| #[trigger] ends_at(g, p, n);
        }
    } else {
        if p.len() <= a && g.u.is_prefix_of(p) {
            assert(p =~= g.u);
        }
        assert(active.contains(1usize));
        assert(heaviest(states, active, 1));
        lemma_heaviest_decides(states, active, 1);
    }
}

/// The automaton of the one rule over the pattern is what the visits along
/// the pattern leave.
proof fn lemma_star_compiled(g: Star, kind: Kind)
    requires
        star_fits(g),
    ensures
        compiled(star_rule(g, kind)) == star_machine(g, kind),
        settled(table(star_rule(g, kind)), (star_total(g) + 1) as nat),
{
    let t = table(star_rule(g, kind));
    let end = (star_total(g) + 1) as nat;
    lemma_single_table(kind, star_pattern(g));
    assert(compiled(star_rule(g, kind)) == automaton(t));
    lemma_star_chain(g, kind, end);
    assert(settled(t, end));
    let c = choose|c: nat| settled(t, c);
    if c <= end {
        lemma_settled_stays(t, c, end);
    } else {
        lemma_settled_stays(t, end, c);
    }
    assert(automaton(t) == star_machine(g, kind));
}

/// What the matcher of the pattern answers.
proof fn lemma_star_answer(g: Star, kind: Kind, path: Seq<u8>)
    requires
        star_ok(g),
    ensures
        allows(star_machine(g, kind), path) == !(kind == Kind::Disallow && star_matches(
            g,
            normal(path),
        )),
{
    let p = normal(path);
    lemma_star_run(g, kind, p);
    if p.len() > g.u.len() && g.u.is_prefix_of(p) {
        if g.anchored {
            lemma_star_verdict_anchored(g, kind, p);
        } else {
            lemma_star_verdict_behind(g, kind, p);
        }
    } else {
        lemma_star_verdict_within(g, kind, p);
    }
}

/// A pattern `u*v` matches the paths that start with `u` and hold `v`
/// behind it, and no others; whatever follows `v` in the path makes no
/// difference. A pattern `u*v$` matches the paths that start with `u` and
/// end with a `v` behind it, and no others; so a pattern `u*$` matches what
/// `u*` matches. The matcher of the one rule over the pattern allows every
/// path that the pattern does not match, and answers the paths that it
/// matches as the rule says. The empty path stands for `/`.
pub proof fn lemma_wildcard_pattern(g: Star, kind: Kind, path: Seq<u8>)
    requires
        literal(g.u),
        literal(g.v),
        g.u.len() + g.v.len() + 5 <= usize::MAX,
    ensures
        allows(compiled(star_rule(g, kind)), path) == !(kind == Kind::Disallow && star_matches(
            g,
            normal(path),
        )),
        settled(table(star_rule(g, kind)), (star_total(g) + 1) as nat),
{
    lemma_star_compiled(g, kind);
    if g.anchored && g.v.len() == 0 {
        let h = Star { anchored: false, ..g };
        let p = normal(path);
        let got = star_machine(g, kind);
        let goal = star_machine(h, kind);
        assert(got.len() == goal.len());
        assert forall|i: int| 0 <= i < goal.len() implies #[trigger] got[i] =~~= goal[i] by {}
        lemma_same(got, goal);
        lemma_star_answer(h, kind, path);
        if g.u.is_prefix_of(p) {
            assert(p.subrange(p.len() as int, p.len() as int) =~= g.v);
            assert(ends_at(g, p, p.len() as int));
            assert(ends_at(h, p, p.len() as int));
        }
    } else {
        lemma_star_answer(g, kind, path);
    }
}

} // verus!
