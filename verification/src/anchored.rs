//! What the non-deterministic matcher answers where its one rule carries a
//! pattern that ends in `$` and holds no other `$` and no `*`: the pattern
//! matches the path that equals it, and no other.

use crate::literal::{lemma_targets_under, literal};
use crate::nfa::{
    accept_of, active_after, add_child, add_children, advance, allows, automaton, bare, compiled,
    follows, heaviest, initial, lemma_settled_stays, reached, settled, steps, targets_under,
    verdict, visit, without, Accept, Build, Item, NodeView,
};
use crate::rule::{ends_with, normal, Kind, RuleView, EOW_BYTE, WILDCARD_BYTE};
use crate::trie::{
    child_bytes, extends, first_with, has_child, lemma_child_bytes, lemma_table_first, table,
    terminal,
};
use vstd::prelude::*;

verus! {

/// The one rule of the given kind over the pattern `s$`.
pub open spec fn anchored_rule(s: Seq<u8>, kind: Kind) -> Seq<RuleView> {
    seq![RuleView { kind, pattern: s.push(EOW_BYTE) }]
}

/// The table of one rule says the rule's kind of the rule's pattern, and
/// nothing of any other.
pub proof fn lemma_single_table(kind: Kind, pattern: Seq<u8>)
    ensures
        table(seq![RuleView { kind, pattern }]).dom() =~= set![pattern],
        table(seq![RuleView { kind, pattern }])[pattern] == kind,
        crate::dedupe::deduped(seq![RuleView { kind, pattern }]) == table(
            seq![RuleView { kind, pattern }],
        ),
{
    let rules = seq![RuleView { kind, pattern }];
    let t = table(rules);
    assert(crate::dedupe::deduped(rules) =~= t) by {
        assert(rules.drop_last() =~= Seq::<RuleView>::empty());
        assert forall|q: Seq<u8>| crate::dedupe::decided(rules, q) == (if q == pattern {
            Some(kind)
        } else {
            None
        }) by {
            assert(crate::dedupe::decided(rules.drop_last(), q) is None);
        }
        assert(rules[0].pattern == pattern);
        assert(first_with(rules, pattern, 0));
        lemma_table_first(rules, pattern, 0);
        assert forall|q: Seq<u8>| t.dom().contains(q) implies q == pattern by {
            let i = choose|i: int| 0 <= i < rules.len() && (#[trigger] rules[i]).pattern == q;
        }
        assert(t.dom().contains(pattern));
    }
    assert(rules[0].pattern == pattern);
    assert(first_with(rules, pattern, 0));
    lemma_table_first(rules, pattern, 0);
    assert forall|q: Seq<u8>| t.dom().contains(q) implies q == pattern by {
        let i = choose|i: int| 0 <= i < rules.len() && (#[trigger] rules[i]).pattern == q;
    }
}

/// In the tree of one pattern every node on the pattern has one child, under
/// the pattern's next byte, and the pattern's end has none.
pub proof fn lemma_single_children(t: Map<Seq<u8>, Kind>, pattern: Seq<u8>, j: int)
    requires
        t.dom() =~= set![pattern],
        0 <= j <= pattern.len(),
    ensures
        child_bytes(t, pattern.take(j), 0) == if j < pattern.len() {
            seq![pattern[j]]
        } else {
            Seq::empty()
        },
        terminal(t, pattern.take(j)) == if j == pattern.len() {
            Some(t[pattern])
        } else {
            None
        },
{
    let p = pattern.take(j);
    let c = if j < pattern.len() {
        seq![pattern[j]]
    } else {
        Seq::<u8>::empty()
    };
    assert forall|b: u8| has_child(t, p, b) <==> c.contains(b) by {
        if has_child(t, p, b) {
            let q = choose|q: Seq<u8>| t.dom().contains(q) && #[trigger] extends(q, p, b);
            assert(q == pattern);
            assert(c[0] == b);
        }
        if c.contains(b) {
            let i = choose|i: int| 0 <= i < c.len() && c[i] == b;
            assert(extends(pattern, p, b)) by {
                assert(p =~= pattern.subrange(0, p.len() as int));
            }
        }
    }
    lemma_child_bytes(t, p, c, 0, 0);
    assert(c.skip(0) =~= c);
    if j == pattern.len() {
        assert(p =~= pattern);
    } else {
        assert(p.len() != pattern.len());
    }
}

/// The state that stands for the node of the first `j` bytes of the pattern.
pub open spec fn at(j: int) -> usize {
    if j == 0 {
        0
    } else {
        (j + 1) as usize
    }
}

/// The state of the node `j` after `k` visits: a node that was visited has an
/// edge to the next; the end of `s` takes, with its visit, the verdict of the
/// rule, the weight of the whole pattern, and a wildcard edge to the state
/// behind the end.
pub open spec fn chain_node(s: Seq<u8>, kind: Kind, k: int, j: int) -> NodeView {
    let m = s.len() as int;
    if j < k && j < m {
        NodeView { wildcards: seq![1usize], edges: seq![(s[j], at(j + 1))], ..bare(Accept::Allow, j as usize) }
    } else if j == m && k > m {
        NodeView {
            wildcards: seq![1usize, (m + 2) as usize],
            ..bare(accept_of(Some(kind), Accept::Allow), (m + 1) as usize)
        }
    } else {
        NodeView { wildcards: seq![1usize], ..bare(Accept::Allow, j as usize) }
    }
}

/// The states after `k` visits.
pub open spec fn chain_states(s: Seq<u8>, kind: Kind, k: int) -> Seq<NodeView> {
    let m = s.len() as int;
    Seq::new(
        if k <= m {
            (k + 2) as nat
        } else {
            (m + 3) as nat
        },
        |i: int|
            if i == 1 {
                bare(Accept::Allow, 0)
            } else if i == m + 2 {
                bare(Accept::Allow, (m + 1) as usize)
            } else if i == 0 {
                chain_node(s, kind, k, 0)
            } else {
                chain_node(s, kind, k, i - 1)
            },
    )
}

/// The nodes that wait after `k` visits.
pub open spec fn chain_queue(s: Seq<u8>, k: int) -> Seq<Item> {
    let m = s.len() as int;
    if k <= m + 1 {
        seq![Item { prefix: s.push(EOW_BYTE).take(k), parent_state: at(k), epsilon_state: None }]
    } else {
        Seq::empty()
    }
}

/// The construction after `k` visits.
pub open spec fn chain(s: Seq<u8>, kind: Kind, k: int) -> Build {
    Build { states: chain_states(s, kind, k), queue: chain_queue(s, k) }
}

/// The one child of the node that waits is what a visit adds.
pub proof fn lemma_visit_one(t: Map<Seq<u8>, Kind>, b: Build, c: u8)
    requires
        b.queue.len() == 1,
        child_bytes(t, b.queue[0].prefix, 0) == seq![c],
    ensures
        visit(t, b) == add_child(
            Build { states: b.states, queue: Seq::empty() },
            b.queue[0],
            c,
            terminal(t, b.queue[0].prefix.push(c)),
        ),
{
    let rest = Build { states: b.states, queue: b.queue.drop_first() };
    assert(rest.queue =~= Seq::<Item>::empty());
    let kids = seq![c];
    assert(kids.drop_last() =~= Seq::<u8>::empty());
    assert(add_children(t, rest, b.queue[0], kids.drop_last()) == rest);
}

/// The visit of a node before the end of `s` adds the next node.
proof fn lemma_chain_literal(s: Seq<u8>, kind: Kind, j: int)
    requires
        literal(s),
        s.len() + 3 <= usize::MAX,
        0 <= j < s.len(),
    ensures
        visit(table(anchored_rule(s, kind)), chain(s, kind, j)) == chain(s, kind, j + 1),
{
    let m = s.len() as int;
    let pattern = s.push(EOW_BYTE);
    let t = table(anchored_rule(s, kind));
    lemma_single_table(kind, pattern);
    let b = chain(s, kind, j);
    let item = b.queue[0];
    let rest = Build { states: b.states, queue: Seq::empty() };
    lemma_single_children(t, pattern, j);
    lemma_single_children(t, pattern, j + 1);
    let c = pattern[j];
    assert(c == s[j]);
    assert(item.prefix.push(c) =~= pattern.take(j + 1));
    lemma_visit_one(t, b, c);
    let a = add_child(rest, item, c, None);
    if j > 0 {
        assert(item.prefix.last() == s[j - 1]);
    }
    assert(!ends_with(item.prefix, WILDCARD_BYTE));
    let parent = rest.states[at(j) as int];
    assert(parent == chain_node(s, kind, j, j));
    assert(without(parent.wildcards, (j + 2) as usize) =~= seq![1usize]) by {
        assert(parent.wildcards.drop_last() =~= Seq::<usize>::empty());
        assert(without(parent.wildcards.drop_last(), (j + 2) as usize) =~= Seq::<usize>::empty());
    }
    let n = rest.states.len() as int;
    assert(n == j + 2);
    let goal = chain_states(s, kind, j + 1);
    assert(a.states.len() == goal.len());
    assert forall|i: int| 0 <= i < goal.len() implies a.states[i] == goal[i] by {
        if i == n {
            assert(a.states[n] =~~= goal[n]);
        } else if i == at(j) {
            assert(a.states[at(j) as int] =~~= goal[at(j) as int]);
        } else {
            assert(a.states[i] == rest.states[i]);
            assert(rest.states[i] =~~= goal[i]);
        }
    }
    assert(a.states =~= goal);
    assert(a.queue =~= chain_queue(s, j + 1));
}

/// The visit of the end of `s` adds the state behind the end and gives the
/// end the verdict and the weight of the rule.
proof fn lemma_chain_anchor(s: Seq<u8>, kind: Kind)
    requires
        literal(s),
        s.len() + 3 <= usize::MAX,
    ensures
        visit(table(anchored_rule(s, kind)), chain(s, kind, s.len() as int)) == chain(
            s,
            kind,
            s.len() as int + 1,
        ),
{
    let m = s.len() as int;
    let pattern = s.push(EOW_BYTE);
    let t = table(anchored_rule(s, kind));
    lemma_single_table(kind, pattern);
    let b = chain(s, kind, m);
    let item = b.queue[0];
    let rest = Build { states: b.states, queue: Seq::empty() };
    lemma_single_children(t, pattern, m);
    lemma_single_children(t, pattern, m + 1);
    let c = pattern[m];
    assert(c == EOW_BYTE);
    assert(item.prefix.push(c) =~= pattern.take(m + 1));
    assert(pattern.take(m + 1) =~= pattern);
    lemma_visit_one(t, b, c);
    let a = add_child(rest, item, c, Some(kind));
    let n = rest.states.len() as int;
    let goal = chain_states(s, kind, m + 1);
    assert(n == m + 2);
    let parent = rest.states[at(m) as int];
    assert(parent == chain_node(s, kind, m, m));
    let changed = a.states[at(m) as int];
    assert(changed.wildcards =~= seq![1usize, (m + 2) as usize]);
    assert(changed.edges =~= Seq::<(u8, usize)>::empty());
    assert(a.states.len() == goal.len());
    assert forall|i: int| 0 <= i < goal.len() implies a.states[i] == goal[i] by {
        if i == n {
            assert(a.states[n] =~~= goal[n]);
        } else if i == at(m) {
            assert(changed =~~= goal[at(m) as int]);
        } else {
            assert(a.states[i] == rest.states[i]);
            assert(rest.states[i] =~~= goal[i]);
        }
    }
    assert(a.states =~= goal);
    assert(a.queue =~= chain_queue(s, m + 1));
}

/// The visit of the pattern's end adds nothing.
proof fn lemma_chain_end(s: Seq<u8>, kind: Kind)
    requires
        literal(s),
        s.len() + 3 <= usize::MAX,
    ensures
        visit(table(anchored_rule(s, kind)), chain(s, kind, s.len() as int + 1)) == chain(
            s,
            kind,
            s.len() as int + 2,
        ),
{
    let m = s.len() as int;
    let pattern = s.push(EOW_BYTE);
    let t = table(anchored_rule(s, kind));
    lemma_single_table(kind, pattern);
    let b = chain(s, kind, m + 1);
    lemma_single_children(t, pattern, m + 1);
    assert(pattern.take(m + 1) =~= pattern);
    let rest = Build { states: b.states, queue: b.queue.drop_first() };
    assert(rest.queue =~= Seq::<Item>::empty());
    assert(visit(t, b) == rest);
    assert(rest.states =~~= chain_states(s, kind, m + 2));
}

/// The construction for the one rule goes along the pattern, a node a visit.
pub proof fn lemma_chain(s: Seq<u8>, kind: Kind, k: nat)
    requires
        literal(s),
        s.len() + 3 <= usize::MAX,
        k <= s.len() + 2,
    ensures
        steps(table(anchored_rule(s, kind)), k) == chain(s, kind, k as int),
    decreases k,
{
    let m = s.len() as int;
    let pattern = s.push(EOW_BYTE);
    let t = table(anchored_rule(s, kind));
    if k == 0 {
        assert(pattern.take(0) =~= Seq::<u8>::empty());
        assert(chain_states(s, kind, 0) =~~= initial().states);
        assert(chain_queue(s, 0) =~= initial().queue);
    } else {
        let j = (k - 1) as int;
        lemma_chain(s, kind, (k - 1) as nat);
        assert(steps(t, k) == visit(t, chain(s, kind, j)));
        if j < m {
            lemma_chain_literal(s, kind, j);
        } else if j == m {
            lemma_chain_anchor(s, kind);
        } else {
            lemma_chain_end(s, kind);
        }
    }
}

/// A state without edges stays, and leads nowhere else.
pub proof fn lemma_bare_follows(states: Seq<NodeView>, s: usize, byte: u8, x: usize)
    requires
        s < states.len(),
        states[s as int].edges.len() == 0,
        states[s as int].wildcards.len() == 0,
    ensures
        follows(states, s, byte, x) <==> x == s,
{
    let found = states[s as int].successors(byte, s);
    assert(targets_under(states[s as int].edges, byte) =~= Seq::<usize>::empty());
    assert(found =~= seq![s]);
    if x == s {
        assert(found[0] == x);
    }
    if found.contains(x) {
        let i = choose|i: int| 0 <= i < found.len() && found[i] == x;
    }
}

/// A state leads to the targets of its edges under the byte and to the
/// targets of its wildcard edges, where it has any.
pub proof fn lemma_node_follows(states: Seq<NodeView>, s: usize, byte: u8, x: usize)
    requires
        s < states.len(),
        states[s as int].wildcards.len() > 0,
    ensures
        follows(states, s, byte, x) <==> states[s as int].edges.contains((byte, x))
            || states[s as int].wildcards.contains(x),
{
    let node = states[s as int];
    let found = node.successors(byte, s);
    let under = targets_under(node.edges, byte);
    lemma_targets_under(node.edges, byte, x);
    assert(found =~= under + node.wildcards);
    if found.contains(x) {
        let i = choose|i: int| 0 <= i < found.len() && found[i] == x;
        if i < under.len() {
            assert(under[i] == x);
        } else {
            assert(node.wildcards[i - under.len()] == x);
        }
    }
    if under.contains(x) {
        let i = choose|i: int| 0 <= i < under.len() && under[i] == x;
        assert(found[i] == x);
    }
    if node.wildcards.contains(x) {
        let i = choose|i: int| 0 <= i < node.wildcards.len() && node.wildcards[i] == x;
        assert(found[under.len() + i] == x);
    }
}

/// The states that follow a set of active states are those that follow one of them.
pub proof fn lemma_advance(
    states: Seq<NodeView>,
    active: Set<usize>,
    byte: u8,
    next: Set<usize>,
)
    requires
        forall|x: usize|
            next.contains(x) <==> exists|s: usize|
                #![trigger active.contains(s)]
                active.contains(s) && follows(states, s, byte, x),
    ensures
        advance(states, active, byte) == next,
{
    assert forall|x: usize| advance(states, active, byte).contains(x) <==> next.contains(x) by {
        assert(advance(states, active, byte).contains(x) == reached(states, active, byte, x));
    }
    assert(advance(states, active, byte) =~= next);
}

/// The states that are active after `p` in the matcher of the pattern `s$`:
/// on the way along `s` the state of the node reached, behind `s` the state
/// behind the end, and from the first byte on the state that allows.
pub open spec fn anchored_active(s: Seq<u8>, p: Seq<u8>) -> Set<usize> {
    if p.len() == 0 {
        set![0usize]
    } else if p.is_prefix_of(s) {
        set![at(p.len() as int), 1usize]
    } else if s.is_prefix_of(p) {
        set![1usize, (s.len() + 2) as usize]
    } else {
        set![1usize]
    }
}

/// The matcher of the pattern `s$` goes along `s` as long as the path does.
pub proof fn lemma_anchored_run(s: Seq<u8>, kind: Kind, p: Seq<u8>)
    requires
        literal(s),
        s.len() + 3 <= usize::MAX,
    ensures
        active_after(chain_states(s, kind, s.len() as int + 2), p) == anchored_active(s, p),
    decreases p.len(),
{
    let m = s.len() as int;
    let states = chain_states(s, kind, m + 2);
    let sink = 1usize;
    let behind = (m + 2) as usize;
    if p.len() > 0 {
        let q = p.drop_last();
        let c = p.last();
        lemma_anchored_run(s, kind, q);
        let before = anchored_active(s, q);
        let after = anchored_active(s, p);
        let j = q.len() as int;
        assert(q.push(c) =~= p);
        assert forall|x: usize| #![auto] follows(states, sink, c, x) <==> x == sink by {
            lemma_bare_follows(states, sink, c, x);
        }
        assert forall|x: usize| #![auto] follows(states, behind, c, x) <==> x == behind by {
            lemma_bare_follows(states, behind, c, x);
        }
        // Where the path is on its way along `s`, and where it has left it.
        let on_way = q.is_prefix_of(s);
        if on_way {
            assert forall|i: int| 0 <= i < j implies q[i] == s[i] by {
                assert(s.subrange(0, j)[i] == q[i]);
            }
        }
        if p.is_prefix_of(s) {
            assert forall|i: int| 0 <= i < j + 1 implies p[i] == s[i] by {
                assert(s.subrange(0, j + 1)[i] == p[i]);
            }
            assert(q =~= s.subrange(0, j));
        }
        if on_way && j < m && c == s[j] {
            assert(p =~= s.subrange(0, j + 1));
        }
        if s.is_prefix_of(p) && j >= m {
            assert(s =~= q.subrange(0, m)) by {
                assert forall|i: int| 0 <= i < m implies s[i] == q[i] by {
                    assert(p.subrange(0, m)[i] == s[i]);
                }
            }
        }
        if s.is_prefix_of(q) {
            assert(s =~= p.subrange(0, m)) by {
                assert forall|i: int| 0 <= i < m implies s[i] == p[i] by {
                    assert(q.subrange(0, m)[i] == s[i]);
                }
            }
        }
        if s.is_prefix_of(p) && j < m {
            assert(p =~= s);
        }
        if on_way {
            let here = at(j);
            let node = states[here as int];
            assert(node == chain_node(s, kind, m + 2, j));
            assert forall|x: usize| #![auto]
                follows(states, here, c, x) <==> (j < m && c == s[j] && x == at(j + 1)) || x == sink
                    || (j == m && x == behind) by {
                lemma_node_follows(states, here, c, x);
                if j < m {
                    assert(node.edges =~= seq![(s[j], at(j + 1))]);
                    assert(node.wildcards =~= seq![sink]);
                    if node.edges.contains((c, x)) {
                        let i = choose|i: int| 0 <= i < node.edges.len() && node.edges[i] == (c, x);
                    }
                    if node.wildcards.contains(x) {
                        let i = choose|i: int|
                            0 <= i < node.wildcards.len() && node.wildcards[i] == x;
                    }
                    if c == s[j] && x == at(j + 1) {
                        assert(node.edges[0] == (c, x));
                    }
                    if x == sink {
                        assert(node.wildcards[0] == x);
                    }
                } else {
                    assert(node.edges =~= Seq::<(u8, usize)>::empty());
                    assert(node.wildcards =~= seq![sink, behind]);
                    if node.edges.contains((c, x)) {
                        let i = choose|i: int| 0 <= i < node.edges.len() && node.edges[i] == (c, x);
                    }
                    if node.wildcards.contains(x) {
                        let i = choose|i: int|
                            0 <= i < node.wildcards.len() && node.wildcards[i] == x;
                    }
                    if x == sink {
                        assert(node.wildcards[0] == x);
                    }
                    if x == behind {
                        assert(node.wildcards[1] == x);
                    }
                }
            }
            assert forall|x: usize|
                after.contains(x) <==> exists|r: usize|
                    #![trigger before.contains(r)]
                    before.contains(r) && follows(states, r, c, x) by {
                if after.contains(x) {
                    if x == sink || x == behind || x == at(j + 1) {
                        assert(before.contains(here));
                        assert(follows(states, here, c, x));
                    }
                }
            }
            lemma_advance(states, before, c, after);
        } else if s.is_prefix_of(q) {
            assert forall|x: usize|
                after.contains(x) <==> exists|r: usize|
                    #![trigger before.contains(r)]
                    before.contains(r) && follows(states, r, c, x) by {
                if after.contains(x) {
                    assert(before.contains(x));
                    assert(follows(states, x, c, x));
                }
            }
            lemma_advance(states, before, c, after);
        } else {
            assert forall|x: usize|
                after.contains(x) <==> exists|r: usize|
                    #![trigger before.contains(r)]
                    before.contains(r) && follows(states, r, c, x) by {
                if after.contains(x) {
                    assert(before.contains(sink));
                    assert(follows(states, sink, c, sink));
                }
            }
            lemma_advance(states, before, c, after);
        }
    }
}

/// A pattern `s$` matches the path that equals `s`, and no other: the matcher
/// of the one rule over `s$` answers every other path with allow, and the
/// path `s` as the rule says. The empty path stands for `/`.
pub proof fn lemma_anchored_pattern(s: Seq<u8>, kind: Kind, path: Seq<u8>)
    requires
        literal(s),
        s.len() + 3 <= usize::MAX,
    ensures
        allows(compiled(anchored_rule(s, kind)), path) == !(kind == Kind::Disallow && normal(path)
            == s),
        settled(table(anchored_rule(s, kind)), s.len() + 2),
{
    let m = s.len() as int;
    let t = table(anchored_rule(s, kind));
    let last = (m + 2) as nat;
    lemma_single_table(kind, s.push(EOW_BYTE));
    assert(compiled(anchored_rule(s, kind)) == automaton(t));
    lemma_chain(s, kind, last);
    assert(settled(t, last));
    let c = choose|c: nat| settled(t, c);
    if c <= last {
        lemma_settled_stays(t, c, last);
    } else {
        lemma_settled_stays(t, last, c);
    }
    let states = chain_states(s, kind, m + 2);
    assert(automaton(t) == states);
    let p = normal(path);
    lemma_anchored_run(s, kind, p);
    let active = anchored_active(s, p);
    let sink = 1usize;
    let behind = (m + 2) as usize;
    if p.is_prefix_of(s) {
        let here = at(p.len() as int);
        assert(states[here as int] == chain_node(s, kind, m + 2, p.len() as int));
        assert(active.contains(here));
        assert(heaviest(states, active, here));
        crate::literal::lemma_heaviest_decides(states, active, here);
        if p.len() == m {
            assert(p =~= s);
        }
    } else if s.is_prefix_of(p) {
        assert(active.contains(behind));
        assert(heaviest(states, active, behind));
        crate::literal::lemma_heaviest_decides(states, active, behind);
    } else {
        assert(active.contains(sink));
        assert(heaviest(states, active, sink));
        crate::literal::lemma_heaviest_decides(states, active, sink);
    }
}

} // verus!
