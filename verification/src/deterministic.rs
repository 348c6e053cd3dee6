//! What the deterministic matcher answers. Where no pattern holds `*` or
//! `$`, the longest pattern that the path starts with decides. One rule over
//! a pattern `s$`, `u*v` or `u*v$` is answered by the pattern.

use crate::dfa::{
    answers, automaton, star_free, child_edges, child_items, compiled, edge_of, ends, fallback, fits,
    initial, last_ending, last_taking, leveled, lemma_settled_stays, settled, state_of, steps,
    takes, visit, Build, Edge, Item, Machine, State, Transition,
};
use crate::literal::{
    lemma_child_bytes_sorted, lemma_child_passes, lemma_literal_byte, lemma_longest, literal,
    literal_rules, literal_table, longest, longest_match, passes,
};
use crate::anchored::{anchored_rule, lemma_single_children, lemma_single_table};
use crate::rule::{ends_with, normal, Kind, RuleView, EOW_BYTE, WILDCARD_BYTE};
use crate::trie::{carried, child_bytes, lemma_max_len, max_len, table, terminal};
use crate::dedupe::{deduped, lemma_allow_beats_disallow, lemma_deduped_dom};
use crate::wildcard::{star_matches, star_pattern, star_rule, Star};
use vstd::prelude::*;

verus! {

/// The sink that the node `q` falls back to: that of the verdict of the
/// longest pattern that `q` starts with. Only `Allow` allows.
pub open spec fn fall(t: Map<Seq<u8>, Kind>, q: Seq<u8>) -> usize {
    match longest(t, q) {
        Some(r) => if t[r] == Kind::Allow {
            0
        } else {
            1
        },
        None => 0,
    }
}

/// What the rules say of a path that ends at the node `q`.
pub open spec fn own(t: Map<Seq<u8>, Kind>, q: Seq<u8>) -> State {
    if q.len() == 0 {
        State::Intermediate
    } else {
        state_of(terminal(t, q))
    }
}

/// The transition leads from the node `q` to the state of one of its children,
/// under the child's byte.
pub open spec fn edge_ok(idx: Map<Seq<u8>, usize>, q: Seq<u8>, e: Transition) -> bool {
    exists|c: u8|
        #![trigger q.push(c)]
        idx.dom().contains(q.push(c)) && e == Transition(Edge::MatchByte(c), idx[q.push(c)])
}

/// The state of the node `q` has a transition under `c` to the state of the child.
pub open spec fn has_edge(ts: Seq<Transition>, idx: Map<Seq<u8>, usize>, q: Seq<u8>, c: u8) -> bool {
    &&& idx.dom().contains(q.push(c))
    &&& exists|i: int|
        1 <= i < ts.len() && #[trigger] ts[i] == Transition(Edge::MatchByte(c), idx[q.push(c)])
}

/// The transitions of the node `q`, which has been visited: the fallback in
/// front, to the sink of the longest pattern that `q` starts with, and
/// behind it one transition for each child.
pub open spec fn visited_ok(t: Map<Seq<u8>, Kind>, b: Build, idx: Map<Seq<u8>, usize>, q: Seq<u8>) -> bool {
    let ts = b.machine.transitions[idx[q] as int];
    &&& ts.len() >= 1
    &&& ts[0] == Transition(Edge::MatchAny, fall(t, q))
    &&& forall|i: int| 1 <= i < ts.len() ==> edge_ok(idx, q, #[trigger] ts[i])
    &&& forall|c: u8| #[trigger] passes(t, q.push(c)) ==> has_edge(ts, idx, q, c)
}

/// The node that waits at place `k` is known by the state that is kept for
/// it, and carries what the rules say of it and what it falls back to.
pub open spec fn waiting_ok(t: Map<Seq<u8>, Kind>, b: Build, idx: Map<Seq<u8>, usize>, k: int) -> bool {
    let item = b.queue[k];
    &&& idx.dom().contains(item.prefix)
    &&& idx[item.prefix] == b.machine.states.len() + k
    &&& item.state == own(t, item.prefix)
    &&& fallback(item) == fall(t, item.prefix)
}

/// What holds of the construction all along where the patterns are
/// literal: the two sinks stand in front, every node found has a state of
/// its own, kept or made, and every node visited has a transition to each
/// of its children.
pub open spec fn shape(t: Map<Seq<u8>, Kind>, b: Build, idx: Map<Seq<u8>, usize>) -> bool {
    let n = b.machine.states.len();
    &&& b.machine.transitions.len() == n
    &&& n >= 2
    &&& b.machine.states[0] == State::Allow
    &&& b.machine.states[1] == State::Disallow
    &&& b.machine.transitions[0] == seq![Transition(Edge::MatchAny, 0)]
    &&& b.machine.transitions[1] == seq![Transition(Edge::MatchAny, 1)]
    &&& idx.dom().contains(Seq::empty())
    &&& idx[Seq::empty()] == 2
    &&& forall|q: Seq<u8>| #[trigger]
        idx.dom().contains(q) ==> 2 <= idx[q] < n + b.queue.len() && (q.len() > 0 ==> passes(t, q))
    &&& forall|q: Seq<u8>, r: Seq<u8>|
        idx.dom().contains(q) && idx.dom().contains(r) && #[trigger] idx[q] == #[trigger] idx[r]
            ==> q == r
    &&& forall|k: int| 0 <= k < b.queue.len() ==> #[trigger] waiting_ok(t, b, idx, k)
    &&& forall|q: Seq<u8>| #[trigger] idx.dom().contains(q) && idx[q] < n ==> visited_ok(t, b, idx, q)
    &&& forall|r: Seq<u8>| #[trigger]
        idx.dom().contains(r) && r.len() > 0 ==> idx.dom().contains(r.drop_last())
            && idx[r.drop_last()] < n
}

/// The states that the children of the node that waits first will get.
pub open spec fn with_children(t: Map<Seq<u8>, Kind>, b: Build, idx: Map<Seq<u8>, usize>) -> Map<
    Seq<u8>,
    usize,
> {
    let q = b.queue[0].prefix;
    let kids = child_bytes(t, q, 0);
    let next = b.machine.states.len() + b.queue.len();
    Map::new(
        |r: Seq<u8>| idx.dom().contains(r) || (r.len() > 0 && r.drop_last() == q && kids.contains(r.last())),
        |r: Seq<u8>|
            if idx.dom().contains(r) {
                idx[r]
            } else {
                (next + kids.index_of(r.last())) as usize
            },
    )
}

/// The construction starts in shape.
pub proof fn lemma_initial_shape(t: Map<Seq<u8>, Kind>)
    ensures
        shape(t, initial(), Map::empty().insert(Seq::empty(), 2usize)),
{
    let b = initial();
    let idx = Map::<Seq<u8>, usize>::empty().insert(Seq::empty(), 2usize);
    assert(waiting_ok(t, b, idx, 0));
    assert forall|q: Seq<u8>| #[trigger] idx.dom().contains(q) implies q == Seq::<u8>::empty() by {}
}

/// A visit keeps the shape: the node that waited first gets its state, with
/// a transition to each of its children, and the children wait behind the
/// others.
pub proof fn lemma_visit_shape(
    t: Map<Seq<u8>, Kind>,
    bound: nat,
    b: Build,
    idx: Map<Seq<u8>, usize>,
)
    requires
        literal_table(t, bound),
        shape(t, b, idx),
        b.queue.len() > 0,
        visit(t, b).machine.states.len() + visit(t, b).queue.len() <= usize::MAX,
    ensures
        shape(t, visit(t, b), with_children(t, b, idx)),
        visit(t, b).queue.len() >= b.queue.len() - 1,
        forall|j: int|
            0 <= j < b.queue.len() - 1 ==> #[trigger] visit(t, b).queue[j] == b.queue[j + 1],
        forall|j: int|
            b.queue.len() - 1 <= j < visit(t, b).queue.len() ==> (#[trigger] visit(
                t,
                b,
            ).queue[j]).prefix.len() == b.queue[0].prefix.len() + 1,
        visit(t, b).queue.len() > b.queue.len() - 1 ==> b.queue[0].prefix.len() < bound,
{
    let a = visit(t, b);
    let n = b.machine.states.len() as int;
    let len = b.queue.len() as int;
    let item = b.queue[0];
    let q = item.prefix;
    let kids = child_bytes(t, q, 0);
    let edges = child_edges(t, b);
    let items = child_items(t, b);
    let idx2 = with_children(t, b, idx);
    lemma_child_bytes_sorted(t, q, 0);
    assert(waiting_ok(t, b, idx, 0));
    assert forall|k: int| 0 <= k < kids.len() implies passes(t, q.push(#[trigger] kids[k]))
        && kids[k] != WILDCARD_BYTE && kids[k] != EOW_BYTE && q.len() < bound && kids.index_of(
        kids[k],
    ) == k by {
        assert(kids.contains(kids[k]));
        lemma_child_passes(t, q, kids[k]);
        lemma_literal_byte(t, bound, q, kids[k]);
        let i = kids.index_of(kids[k]);
        assert(kids[i] == kids[k]);
        if i < k {
            assert(kids[i] < kids[k]);
        }
        if k < i {
            assert(kids[k] < kids[i]);
        }
    }
    // The node is no `*`: the patterns are literal.
    assert(!ends_with(q, WILDCARD_BYTE)) by {
        if q.len() > 0 {
            assert(idx.dom().contains(q));
            assert(passes(t, q));
            let most = q.drop_last();
            assert(most.push(q.last()) =~= q);
            lemma_literal_byte(t, bound, most, q.last());
        }
    }
    assert(a.machine.transitions =~= b.machine.transitions.push(
        seq![Transition(Edge::MatchAny, fallback(item))] + edges,
    ));
    assert(a.queue =~= b.queue.drop_first() + items);
    // A child is new, and its parent is the node.
    assert forall|k: int| 0 <= k < kids.len() implies !idx.dom().contains(
        q.push(#[trigger] kids[k]),
    ) by {
        let r = q.push(kids[k]);
        assert(r.drop_last() =~= q);
        if idx.dom().contains(r) {
            assert(idx[r.drop_last()] < n);
        }
    }
    assert forall|r: Seq<u8>| #[trigger] idx2.dom().contains(r) && !idx.dom().contains(
        r,
    ) implies r == q.push(r.last()) && kids.contains(r.last()) && idx2[r] == n + len
        + kids.index_of(r.last()) by {
        assert(r.drop_last().push(r.last()) =~= r);
    }
    assert forall|k: int| 0 <= k < kids.len() implies idx2.dom().contains(
        q.push(#[trigger] kids[k]),
    ) && idx2[q.push(kids[k])] == n + len + k by {
        let r = q.push(kids[k]);
        assert(r.drop_last() =~= q);
        assert(r.last() == kids[k]);
        assert(kids.contains(kids[k]));
    }
    assert forall|r: Seq<u8>| #[trigger] idx2.dom().contains(r) implies 2 <= idx2[r] < n + 1
        + a.queue.len() && (r.len() > 0 ==> passes(t, r)) by {
        if !idx.dom().contains(r) {
            let k = kids.index_of(r.last());
            assert(kids[k] == r.last());
        }
    }
    assert forall|r: Seq<u8>, s: Seq<u8>|
        idx2.dom().contains(r) && idx2.dom().contains(s) && #[trigger] idx2[r]
            == #[trigger] idx2[s] implies r == s by {
        if !idx.dom().contains(r) && !idx.dom().contains(s) {
            let k = kids.index_of(r.last());
            let l = kids.index_of(s.last());
            assert(kids[k] == r.last() && kids[l] == s.last());
        } else if !idx.dom().contains(r) {
            let k = kids.index_of(r.last());
            assert(kids[k] == r.last());
        } else if !idx.dom().contains(s) {
            let l = kids.index_of(s.last());
            assert(kids[l] == s.last());
        }
    }
    assert forall|k: int| 0 <= k < a.queue.len() implies #[trigger] waiting_ok(t, a, idx2, k) by {
        if k < len - 1 {
            assert(a.queue[k] == b.queue[k + 1]);
            assert(waiting_ok(t, b, idx, k + 1));
        } else {
            let i = k - (len - 1);
            let c = kids[i];
            let r = q.push(c);
            assert(a.queue[k] == items[i]);
            assert(passes(t, q.push(kids[i])));
            assert(r.drop_last() =~= q);
            assert(r.last() == c);
            lemma_longest(t, r);
            if !t.dom().contains(r) {
                assert(longest(t, r) == longest(t, q));
            }
        }
    }
    assert forall|r: Seq<u8>| #[trigger] idx2.dom().contains(r) && idx2[r] < n + 1 implies visited_ok(
        t,
        a,
        idx2,
        r,
    ) by {
        assert(idx.dom().contains(r));
        let ts = a.machine.transitions[idx2[r] as int];
        if idx[r] < n {
            assert(visited_ok(t, b, idx, r));
            assert(ts == b.machine.transitions[idx[r] as int]);
            assert forall|i: int| 1 <= i < ts.len() implies edge_ok(idx2, r, #[trigger] ts[i]) by {
                assert(edge_ok(idx, r, ts[i]));
                let c = choose|c: u8|
                    #![trigger r.push(c)]
                    idx.dom().contains(r.push(c)) && ts[i] == Transition(
                        Edge::MatchByte(c),
                        idx[r.push(c)],
                    );
                assert(idx2.dom().contains(r.push(c)));
            }
            assert forall|c: u8| #[trigger] passes(t, r.push(c)) implies has_edge(
                ts,
                idx2,
                r,
                c,
            ) by {
                assert(has_edge(ts, idx, r, c));
                let i = choose|i: int|
                    1 <= i < ts.len() && #[trigger] ts[i] == Transition(
                        Edge::MatchByte(c),
                        idx[r.push(c)],
                    );
                assert(ts[i] == Transition(Edge::MatchByte(c), idx2[r.push(c)]));
            }
        } else {
            assert(r == q);
            assert(ts == seq![Transition(Edge::MatchAny, fallback(item))] + edges);
            assert forall|i: int| 1 <= i < ts.len() implies edge_ok(idx2, r, #[trigger] ts[i]) by {
                let c = kids[i - 1];
                assert(ts[i] == edges[i - 1]);
                assert(idx2.dom().contains(q.push(kids[i - 1])));
                assert(edge_of(c) == Edge::MatchByte(c));
            }
            assert forall|c: u8| #[trigger] passes(t, r.push(c)) implies has_edge(
                ts,
                idx2,
                r,
                c,
            ) by {
                lemma_child_passes(t, q, c);
                assert(kids.contains(c));
                let i = kids.index_of(c);
                assert(kids[i] == c);
                assert(idx2.dom().contains(q.push(kids[i])));
                assert(ts[i + 1] == edges[i]);
                assert(edge_of(c) == Edge::MatchByte(c));
            }
        }
    }
    assert forall|r: Seq<u8>| #[trigger] idx2.dom().contains(r) && r.len() > 0 implies idx2.dom().contains(
        r.drop_last(),
    ) && idx2[r.drop_last()] < n + 1 by {
        if !idx.dom().contains(r) {
            assert(r.drop_last() == q);
        }
    }
    assert forall|j: int| len - 1 <= j < a.queue.len() implies (#[trigger] a.queue[j]).prefix.len()
        == q.len() + 1 by {
        assert(a.queue[j] == items[j - (len - 1)]);
    }
    if a.queue.len() > len - 1 {
        assert(passes(t, q.push(kids[0])));
    }
}

/// Where the patterns are literal, the construction comes to an end, and in shape.
pub proof fn lemma_build(
    t: Map<Seq<u8>, Kind>,
    bound: nat,
    n: nat,
    idx: Map<Seq<u8>, usize>,
    level: nat,
    ahead: nat,
) -> (end: (nat, Map<Seq<u8>, usize>))
    requires
        literal_table(t, bound),
        fits(t),
        shape(t, steps(t, n), idx),
        leveled(steps(t, n).queue, level, ahead, bound),
    ensures
        settled(t, end.0),
        shape(t, steps(t, end.0), end.1),
    decreases bound + 1 - level, ahead,
{
    let b = steps(t, n);
    if b.queue.len() == 0 {
        (n, idx)
    } else {
        let a = steps(t, n + 1);
        assert(a == visit(t, b));
        lemma_visit_shape(t, bound, b, idx);
        let after = with_children(t, b, idx);
        let kept = b.queue.len() - 1;
        if ahead > 1 {
            assert(leveled(a.queue, level, (ahead - 1) as nat, bound)) by {
                assert forall|k: int| 0 <= k < a.queue.len() implies (
                #[trigger] a.queue[k]).prefix.len() <= bound && (k < ahead - 1
                    ==> a.queue[k].prefix.len() == level) && (k >= ahead - 1
                    ==> a.queue[k].prefix.len() == level + 1) by {
                    if k < kept {
                        assert(a.queue[k] == b.queue[k + 1]);
                    }
                }
            }
            lemma_build(t, bound, n + 1, after, level, (ahead - 1) as nat)
        } else if a.queue.len() == 0 {
            (n + 1, after)
        } else {
            assert(leveled(a.queue, level + 1, a.queue.len(), bound)) by {
                assert forall|k: int| 0 <= k < a.queue.len() implies (
                #[trigger] a.queue[k]).prefix.len() <= bound && a.queue[k].prefix.len() == level
                    + 1 by {
                    if k < kept {
                        assert(a.queue[k] == b.queue[k + 1]);
                    }
                }
            }
            assert(a.queue[0].prefix.len() <= bound);
            lemma_build(t, bound, n + 1, after, level + 1, a.queue.len())
        }
    }
}

/// When the construction has come to an end, every node has its state.
pub proof fn lemma_found(t: Map<Seq<u8>, Kind>, b: Build, idx: Map<Seq<u8>, usize>, q: Seq<u8>)
    requires
        shape(t, b, idx),
        b.queue.len() == 0,
        q.len() == 0 || passes(t, q),
    ensures
        idx.dom().contains(q),
    decreases q.len(),
{
    if q.len() > 0 {
        let most = q.drop_last();
        let c = q.last();
        assert(most.push(c) =~= q);
        let r = choose|r: Seq<u8>| t.dom().contains(r) && #[trigger] q.is_prefix_of(r);
        assert(most.is_prefix_of(r)) by {
            assert forall|i: int| 0 <= i < most.len() implies most[i] == r[i] by {
                assert(r.subrange(0, q.len() as int)[i] == q[i]);
            }
            assert(most =~= r.subrange(0, most.len() as int));
        }
        lemma_found(t, b, idx, most);
        assert(visited_ok(t, b, idx, most));
        assert(passes(t, most.push(c)));
        assert(has_edge(b.machine.transitions[idx[most] as int], idx, most, c));
    } else {
        assert(q =~= Seq::<u8>::empty());
    }
}

/// The state after the path `p`: that of `p` where `p` is a node, else the
/// sink of the longest pattern that `p` starts with.
pub open spec fn state_after(t: Map<Seq<u8>, Kind>, idx: Map<Seq<u8>, usize>, p: Seq<u8>) -> usize {
    if idx.dom().contains(p) {
        idx[p]
    } else {
        fall(t, p)
    }
}

/// A sink stays under any byte and at the end of the path.
pub proof fn lemma_sink(m: Machine, s: usize, byte: u8)
    requires
        s < m.transitions.len(),
        m.transitions[s as int] == seq![Transition(Edge::MatchAny, s)],
    ensures
        m.step(s, byte) == s,
        m.finish(s) == s,
{
    let ts = m.transitions[s as int];
    assert(last_taking(ts, byte, 0));
    let i = choose|i: int| last_taking(ts, byte, i);
    assert(i == 0);
    assert(last_ending(ts, 0));
    let j = choose|j: int| last_ending(ts, j);
    assert(j == 0);
}

/// From the state of a node a byte leads to the state of the child under
/// it, and to the sink that the node falls back to where there is no such
/// child; the end of the path leads to that sink.
proof fn lemma_node_step(
    t: Map<Seq<u8>, Kind>,
    bound: nat,
    b: Build,
    idx: Map<Seq<u8>, usize>,
    q: Seq<u8>,
    byte: u8,
)
    requires
        literal_table(t, bound),
        shape(t, b, idx),
        b.queue.len() == 0,
        idx.dom().contains(q),
    ensures
        b.machine.step(idx[q], byte) == state_after(t, idx, q.push(byte)),
        b.machine.finish(idx[q]) == fall(t, q),
{
    let m = b.machine;
    let ts = m.transitions[idx[q] as int];
    let p = q.push(byte);
    assert(visited_ok(t, b, idx, q));
    // At the end of the path only the fallback is open.
    assert(last_ending(ts, 0)) by {
        assert forall|j: int| 0 < j < ts.len() implies !ends(#[trigger] ts[j]) by {
            assert(edge_ok(idx, q, ts[j]));
        }
    }
    let e = choose|e: int| last_ending(ts, e);
    assert(e == 0) by {
        if e > 0 {
            assert(edge_ok(idx, q, ts[e]));
        }
    }
    let i = choose|i: int| last_taking(ts, byte, i);
    if idx.dom().contains(p) {
        // Some transition leads to the child; the last that is open does too.
        assert(p.drop_last() =~= q);
        assert(passes(t, p));
        assert(has_edge(ts, idx, q, byte));
        let k = choose|k: int|
            1 <= k < ts.len() && #[trigger] ts[k] == Transition(Edge::MatchByte(byte), idx[p]);
        lemma_last_taking(ts, byte, k);
        assert(last_taking(ts, byte, i));
        assert(i >= k);
        assert(edge_ok(idx, q, ts[i]));
        let c = choose|c: u8|
            #![trigger q.push(c)]
            idx.dom().contains(q.push(c)) && ts[i] == Transition(
                Edge::MatchByte(c),
                idx[q.push(c)],
            );
        assert(c == byte);
    } else {
        assert forall|j: int| 0 < j < ts.len() implies !takes(#[trigger] ts[j], byte) by {
            assert(edge_ok(idx, q, ts[j]));
            let c = choose|c: u8|
                #![trigger q.push(c)]
                idx.dom().contains(q.push(c)) && ts[j] == Transition(
                    Edge::MatchByte(c),
                    idx[q.push(c)],
                );
            if c == byte {
                assert(q.push(c) == p);
            }
        }
        assert(last_taking(ts, byte, 0));
        assert(i == 0);
        // The path starts with no pattern that the node does not start with.
        lemma_found_not(t, b, idx, p);
        assert(p.drop_last() =~= q);
        assert(longest(t, p) == longest(t, q));
    }
}

/// Where a transition is open to the byte, a last such transition is.
proof fn lemma_last_taking(ts: Seq<Transition>, byte: u8, k: int)
    requires
        0 <= k < ts.len(),
        takes(ts[k], byte),
    ensures
        exists|i: int| last_taking(ts, byte, i) && i >= k,
    decreases ts.len() - k,
{
    if exists|j: int| k < j < ts.len() && takes(#[trigger] ts[j], byte) {
        let j = choose|j: int| k < j < ts.len() && takes(#[trigger] ts[j], byte);
        lemma_last_taking(ts, byte, j);
    } else {
        assert(last_taking(ts, byte, k));
    }
}

/// What is no node is no pattern.
proof fn lemma_found_not(t: Map<Seq<u8>, Kind>, b: Build, idx: Map<Seq<u8>, usize>, p: Seq<u8>)
    requires
        shape(t, b, idx),
        b.queue.len() == 0,
        !idx.dom().contains(p),
    ensures
        !t.dom().contains(p),
        !passes(t, p),
{
    if passes(t, p) {
        lemma_found(t, b, idx, p);
    }
    if t.dom().contains(p) {
        assert(p.is_prefix_of(p)) by {
            assert(p =~= p.subrange(0, p.len() as int));
        }
    }
}

/// After the bytes of `p` the matcher is in the state of `p`, or in the sink
/// of the longest pattern that `p` starts with.
pub proof fn lemma_run(
    t: Map<Seq<u8>, Kind>,
    bound: nat,
    b: Build,
    idx: Map<Seq<u8>, usize>,
    p: Seq<u8>,
)
    requires
        literal_table(t, bound),
        shape(t, b, idx),
        b.queue.len() == 0,
    ensures
        b.machine.run(p) == state_after(t, idx, p),
        b.machine.finish(b.machine.run(p)) == fall(t, p),
    decreases p.len(),
{
    let m = b.machine;
    if p.len() == 0 {
        assert(p =~= Seq::<u8>::empty());
        lemma_node_step(t, bound, b, idx, p, 0);
    } else {
        let q = p.drop_last();
        let c = p.last();
        assert(q.push(c) =~= p);
        lemma_run(t, bound, b, idx, q);
        if idx.dom().contains(q) {
            lemma_node_step(t, bound, b, idx, q, c);
        } else {
            lemma_sink(m, fall(t, q), c);
            // Behind what is no node there is no node.
            if idx.dom().contains(p) {
                assert(idx.dom().contains(p.drop_last()));
            }
            lemma_found_not(t, b, idx, p);
            assert(longest(t, p) == longest(t, q));
        }
        if idx.dom().contains(p) {
            lemma_node_step(t, bound, b, idx, p, 0);
        } else {
            lemma_sink(m, fall(t, p), 0);
        }
    }
}

/// Where no pattern holds `*` or `$`, the deterministic matcher allows a
/// path exactly if the longest pattern that the path starts with is the
/// pattern of an `Allow`, or the path starts with none. The empty pattern
/// counts for nothing, and the empty path stands for `/`.
pub proof fn lemma_literal_matcher(t: Map<Seq<u8>, Kind>, bound: nat, path: Seq<u8>)
    requires
        literal_table(t, bound),
        fits(t),
    ensures
        automaton(t).allows(path) == (fall(t, normal(path)) == 0),
{
    let p = normal(path);
    lemma_initial_shape(t);
    assert(steps(t, 0) == initial());
    let first = Map::<Seq<u8>, usize>::empty().insert(Seq::empty(), 2usize);
    let (m, idx) = lemma_build(t, bound, 0, first, 0, 1);
    let c = choose|c: nat| settled(t, c);
    if c <= m {
        lemma_settled_stays(t, c, m);
    } else {
        lemma_settled_stays(t, m, c);
    }
    let b = steps(t, m);
    assert(automaton(t) == b.machine);
    lemma_run(t, bound, b, idx, p);
}

/// Where no pattern holds `*` or `$`, the longer pattern wins: the
/// deterministic matcher compiled from the rules answers as the longest
/// pattern that the path starts with, whatever shorter patterns say.
pub proof fn lemma_longest_pattern_wins(rules: Seq<RuleView>, path: Seq<u8>, q: Seq<u8>)
    requires
        literal_rules(rules),
        fits(deduped(rules)),
        longest_match(rules, normal(path), q),
    ensures
        answers(rules, path) == (deduped(rules)[q] == Kind::Allow),
        compiled(rules).allows(path) == answers(rules, path),
{
    lemma_star_free(rules);
    let t = deduped(rules);
    lemma_deduped_dom(rules);
    assert(literal_table(t, max_len(rules))) by {
        assert forall|x: Seq<u8>| #[trigger] t.dom().contains(x) implies literal(x) && x.len()
            <= max_len(rules) by {
            let i = choose|i: int| 0 <= i < rules.len() && (#[trigger] rules[i]).pattern == x;
            lemma_max_len(rules, i);
        }
    }
    lemma_literal_matcher(t, max_len(rules), path);
    lemma_longest(t, normal(path));
    let l = longest(t, normal(path))->0;
    assert(l =~= q);
}

/// Where no pattern holds `*` or `$` and the path starts with none of them,
/// the deterministic matcher allows the path.
pub proof fn lemma_no_pattern_allows(rules: Seq<RuleView>, path: Seq<u8>)
    requires
        literal_rules(rules),
        fits(deduped(rules)),
        forall|i: int|
            0 <= i < rules.len() && (#[trigger] rules[i]).pattern.len() > 0
                ==> !rules[i].pattern.is_prefix_of(normal(path)),
    ensures
        answers(rules, path),
        compiled(rules).allows(path),
{
    lemma_star_free(rules);
    let t = deduped(rules);
    lemma_deduped_dom(rules);
    assert(literal_table(t, max_len(rules))) by {
        assert forall|x: Seq<u8>| #[trigger] t.dom().contains(x) implies literal(x) && x.len()
            <= max_len(rules) by {
            let i = choose|i: int| 0 <= i < rules.len() && (#[trigger] rules[i]).pattern == x;
            lemma_max_len(rules, i);
        }
    }
    lemma_literal_matcher(t, max_len(rules), path);
    lemma_longest(t, normal(path));
    if longest(t, normal(path)) is Some {
        let l = longest(t, normal(path))->0;
        let i = choose|i: int| 0 <= i < rules.len() && (#[trigger] rules[i]).pattern == l;
    }
}

/// A pattern without `*` and `$` matches every path that starts with it, and
/// no other: the deterministic matcher of the one rule that disallows the
/// pattern denies exactly those paths.
pub proof fn lemma_prefix_pattern(s: Seq<u8>, path: Seq<u8>)
    requires
        literal(s),
        s.len() > 0,
        fits(deduped(seq![RuleView { kind: Kind::Disallow, pattern: s }])),
    ensures
        !answers(seq![RuleView { kind: Kind::Disallow, pattern: s }], path) <==> s.is_prefix_of(
            normal(path),
        ),
{
    lemma_star_free(seq![RuleView { kind: Kind::Disallow, pattern: s }]);
    let rules = seq![RuleView { kind: Kind::Disallow, pattern: s }];
    assert(rules[0].pattern == s);
    lemma_single_table(Kind::Disallow, s);
    if s.is_prefix_of(normal(path)) {
        assert(longest_match(rules, normal(path), s)) by {
            assert forall|r: Seq<u8>| carried(rules, r) && #[trigger] r.is_prefix_of(
                normal(path),
            ) implies r.len() <= s.len() by {
                let i = choose|i: int| 0 <= i < rules.len() && (#[trigger] rules[i]).pattern == r;
            }
        }
        lemma_longest_pattern_wins(rules, path, s);
    } else {
        lemma_no_pattern_allows(rules, path);
    }
}

/// Where no pattern holds `*` or `$`, the deterministic matcher that is
/// compiled from rules that allow and disallow lets `Allow` beat `Disallow`:
/// where the longest pattern that the path starts with is carried by an
/// `Allow`, the path is allowed, in whatever order the rules stand and
/// whatever other rules carry the same pattern.
pub proof fn lemma_allow_wins_ties(rules: Seq<RuleView>, path: Seq<u8>, q: Seq<u8>, i: int)
    requires
        literal_rules(rules),
        forall|k: int| 0 <= k < rules.len() ==> (#[trigger] rules[k]).kind != Kind::Delay,
        fits(deduped(rules)),
        longest_match(rules, normal(path), q),
        0 <= i < rules.len(),
        rules[i].pattern == q,
        rules[i].kind == Kind::Allow,
    ensures
        answers(rules, path),
{
    lemma_longest_pattern_wins(rules, path, q);
    lemma_allow_beats_disallow(rules, q);
    lemma_deduped_dom(rules);
    assert(deduped(rules).dom().contains(q));
}

/// The transitions of the node `j` of the pattern `s$`: along `s` to the
/// next node under the next byte, at the end of `s` to the end of the
/// pattern where the path ends, and from everywhere back to a sink.
pub open spec fn chain_transitions(s: Seq<u8>, kind: Kind, j: int) -> Seq<Transition> {
    let m = s.len() as int;
    if j < m {
        seq![Transition(Edge::MatchAny, 0), Transition(Edge::MatchByte(s[j]), (j + 3) as usize)]
    } else if j == m {
        seq![Transition(Edge::MatchAny, 0), Transition(Edge::MatchEow, (j + 3) as usize)]
    } else {
        seq![Transition(
            Edge::MatchAny,
            if kind == Kind::Delay {
                1
            } else {
                0
            },
        )]
    }
}

/// The construction for the one rule over `s$` after `k` visits.
pub open spec fn chain(s: Seq<u8>, kind: Kind, k: int) -> Build {
    let m = s.len() as int;
    Build {
        machine: Machine {
            states: Seq::new(
                (k + 2) as nat,
                |i: int|
                    if i == 1 {
                        State::Disallow
                    } else if i == m + 3 {
                        state_of(Some(kind))
                    } else {
                        State::Allow
                    },
            ),
            transitions: Seq::new(
                (k + 2) as nat,
                |i: int|
                    if i < 2 {
                        seq![Transition(Edge::MatchAny, i as usize)]
                    } else {
                        chain_transitions(s, kind, i - 2)
                    },
            ),
        },
        queue: if k <= m + 1 {
            seq![
                Item {
                    prefix: s.push(EOW_BYTE).take(k),
                    wildcard_state: 0,
                    parent_state: if k == 0 {
                        0
                    } else {
                        (k + 1) as usize
                    },
                    state: if k == m + 1 {
                        state_of(Some(kind))
                    } else {
                        State::Intermediate
                    },
                },
            ]
        } else {
            Seq::empty()
        },
    }
}

/// One visit along the pattern `s$`.
proof fn lemma_chain_step(s: Seq<u8>, kind: Kind, j: int)
    requires
        literal(s),
        s.len() + 4 <= usize::MAX,
        0 <= j <= s.len() + 1,
    ensures
        visit(table(anchored_rule(s, kind)), chain(s, kind, j)) == chain(s, kind, j + 1),
{
    let m = s.len() as int;
    let pattern = s.push(EOW_BYTE);
    let t = table(anchored_rule(s, kind));
    lemma_single_table(kind, pattern);
    lemma_single_children(t, pattern, j);
    let b = chain(s, kind, j);
    let a = visit(t, b);
    let goal = chain(s, kind, j + 1);
    let item = b.queue[0];
    if j > 0 {
        assert(item.prefix.last() == pattern[j - 1]);
    }
    assert(!ends_with(item.prefix, WILDCARD_BYTE));
    assert(ends_with(item.prefix, EOW_BYTE) <==> j == m + 1);
    let kids = child_bytes(t, item.prefix, 0);
    let edges = child_edges(t, b);
    let items = child_items(t, b);
    if j <= m {
        lemma_single_children(t, pattern, j + 1);
        assert(item.prefix.push(pattern[j]) =~= pattern.take(j + 1));
        assert(edges =~= seq![Transition(edge_of(pattern[j]), (j + 3) as usize)]);
        assert(items =~= goal.queue);
        assert(b.queue.drop_first() + items =~= goal.queue);
    } else {
        assert(item.prefix =~= pattern);
        assert(edges =~= Seq::<Transition>::empty());
        assert(b.queue.drop_first() + items =~= goal.queue);
    }
    assert(a.queue == goal.queue);
    assert(a.machine.states =~= goal.machine.states);
    assert(a.machine.transitions.len() == goal.machine.transitions.len());
    assert forall|i: int| 0 <= i < goal.machine.transitions.len() implies #[trigger] a.machine.transitions[i]
        =~= goal.machine.transitions[i] by {
        if i < j + 2 {
            assert(a.machine.transitions[i] == b.machine.transitions[i]);
        }
    }
    assert(a.machine.transitions =~= goal.machine.transitions);
}

/// The construction for the one rule over `s$` goes along the pattern, a
/// node a visit.
pub proof fn lemma_chain(s: Seq<u8>, kind: Kind, k: nat)
    requires
        literal(s),
        s.len() + 4 <= usize::MAX,
        k <= s.len() + 2,
    ensures
        steps(table(anchored_rule(s, kind)), k) == chain(s, kind, k as int),
    decreases k,
{
    if k == 0 {
        assert(s.push(EOW_BYTE).take(0) =~= Seq::<u8>::empty());
        let goal = chain(s, kind, 0);
        assert(initial().machine.states =~= goal.machine.states);
        assert forall|i: int| 0 <= i < 2 implies #[trigger] initial().machine.transitions[i]
            =~= goal.machine.transitions[i] by {}
        assert(initial().machine.transitions =~= goal.machine.transitions);
        assert(initial().queue =~= goal.queue);
    } else {
        lemma_chain(s, kind, (k - 1) as nat);
        lemma_chain_step(s, kind, k - 1);
    }
}

/// The state after the path `p` in the deterministic matcher of `s$`: on the
/// way along `s` the state of the node reached, else the sink that allows.
pub open spec fn chain_state(s: Seq<u8>, p: Seq<u8>) -> usize {
    if p.is_prefix_of(s) {
        (p.len() + 2) as usize
    } else {
        0
    }
}

/// The deterministic matcher of the pattern `s$` goes along `s` as long as
/// the path does.
proof fn lemma_chain_run(s: Seq<u8>, kind: Kind, p: Seq<u8>)
    requires
        literal(s),
        s.len() + 4 <= usize::MAX,
    ensures
        chain(s, kind, s.len() as int + 2).machine.run(p) == chain_state(s, p),
    decreases p.len(),
{
    let m = s.len() as int;
    let machine = chain(s, kind, m + 2).machine;
    if p.len() == 0 {
        assert(p =~= s.subrange(0, 0));
    } else {
        let q = p.drop_last();
        let c = p.last();
        let j = q.len() as int;
        lemma_chain_run(s, kind, q);
        assert(q.push(c) =~= p);
        if q.is_prefix_of(s) {
            assert forall|i: int| 0 <= i < j implies q[i] == s[i] by {
                assert(s.subrange(0, j)[i] == q[i]);
            }
            let ts = machine.transitions[j + 2];
            assert(ts == chain_transitions(s, kind, j));
            let i = choose|i: int| last_taking(ts, c, i);
            if j < m && c == s[j] {
                assert(p =~= s.subrange(0, j + 1));
                assert(last_taking(ts, c, 1));
                assert(i == 1);
            } else {
                if p.is_prefix_of(s) {
                    assert(s.subrange(0, j + 1)[j] == p[j]);
                }
                assert(last_taking(ts, c, 0));
                assert(i == 0);
            }
        } else {
            if p.is_prefix_of(s) {
                assert(q =~= s.subrange(0, j)) by {
                    assert forall|i: int| 0 <= i < j implies q[i] == s[i] by {
                        assert(s.subrange(0, j + 1)[i] == p[i]);
                    }
                }
            }
            lemma_sink(machine, 0, c);
        }
    }
}

/// A pattern `s$` matches the path that equals `s`, and no other: the
/// deterministic matcher of the one rule over `s$` answers every other path
/// with allow, and the path `s` as the rule says. The empty path stands for `/`.
pub proof fn lemma_anchored_pattern(s: Seq<u8>, kind: Kind, path: Seq<u8>)
    requires
        literal(s),
        s.len() + 4 <= usize::MAX,
    ensures
        answers(anchored_rule(s, kind), path) == !(kind == Kind::Disallow && normal(path) == s),
{
    assert(star_free(anchored_rule(s, kind))) by {
        let q = s.push(EOW_BYTE);
        assert forall|i: int| 0 <= i < q.len() implies q[i] != WILDCARD_BYTE by {
            if i < s.len() {
                assert(q[i] == s[i]);
            }
        }
    }
    let m = s.len() as int;
    let t = table(anchored_rule(s, kind));
    let last = (m + 2) as nat;
    lemma_single_table(kind, s.push(EOW_BYTE));
    assert(compiled(anchored_rule(s, kind)) == automaton(t));
    lemma_chain(s, kind, last);
    assert(settled(t, last));
    let c = choose|c: nat| settled(t, c);
    if c <= last {
        lemma_settled_stays(t, c, last);
    } else {
        lemma_settled_stays(t, last, c);
    }
    let machine = chain(s, kind, m + 2).machine;
    assert(automaton(t) == machine);
    let p = normal(path);
    lemma_chain_run(s, kind, p);
    let at = machine.run(p);
    if p.is_prefix_of(s) {
        let j = p.len() as int;
        let ts = machine.transitions[j + 2];
        assert(ts == chain_transitions(s, kind, j));
        let e = choose|e: int| last_ending(ts, e);
        if j == m {
            assert(p =~= s);
            assert(last_ending(ts, 1));
            assert(e == 1);
        } else {
            assert(last_ending(ts, 0));
            assert(e == 0);
        }
    } else {
        lemma_sink(machine, 0, 0);
    }
}

/// Patterns without `*` and `$` hold no `*`.
proof fn lemma_star_free(rules: Seq<RuleView>)
    requires
        literal_rules(rules),
    ensures
        star_free(rules),
{
    assert forall|i: int| 0 <= i < rules.len() implies !(#[trigger] rules[i]).pattern.contains(
        WILDCARD_BYTE,
    ) by {
        let q = rules[i].pattern;
        if q.contains(WILDCARD_BYTE) {
            let k = choose|k: int| 0 <= k < q.len() && q[k] == WILDCARD_BYTE;
        }
    }
}

/// A pattern `u*v` matches the paths that start with `u` and hold `v` behind
/// it; a pattern `u*v$` those that start with `u` and end with `v` behind it.
/// The deterministic matcher of the one rule over the pattern answers the
/// paths that the pattern matches as the rule says and allows every other
/// path. The empty path stands for `/`.
pub proof fn lemma_wildcard_pattern(g: Star, kind: Kind, path: Seq<u8>)
    requires
        literal(g.u),
        literal(g.v),
        g.u.len() + g.v.len() + 5 <= usize::MAX,
    ensures
        answers(star_rule(g, kind), path) == !(kind == Kind::Disallow && star_matches(
            g,
            normal(path),
        )),
{
    let q = star_pattern(g);
    assert(q[g.u.len() as int] == WILDCARD_BYTE);
    assert(star_rule(g, kind)[0].pattern.contains(WILDCARD_BYTE));
    crate::wildcard::lemma_wildcard_pattern(g, kind, path);
}

/// Whatever the patterns hold, the deterministic matcher answers a list of
/// rules that all carry one pattern as the one rule that decides among them:
/// as an `Allow`, where an `Allow` is the last among them that is no
/// `Disallow`, in whatever order they stand.
pub proof fn lemma_one_pattern(rules: Seq<RuleView>, q: Seq<u8>, path: Seq<u8>)
    requires
        rules.len() > 0,
        forall|i: int| 0 <= i < rules.len() ==> (#[trigger] rules[i]).pattern == q,
    ensures
        answers(rules, path) == answers(
            seq![RuleView { kind: crate::dedupe::decided(rules, q)->0, pattern: q }],
            path,
        ),
{
    crate::dedupe::lemma_one_pattern(rules, q);
    let one = seq![RuleView { kind: crate::dedupe::decided(rules, q)->0, pattern: q }];
    assert(rules[0].pattern == q);
    assert(one[0].pattern == q);
    if star_free(rules) {
        assert(star_free(one));
    } else {
        let i = choose|i: int| 0 <= i < rules.len() && (#[trigger] rules[i]).pattern.contains(WILDCARD_BYTE);
        assert(one[0].pattern.contains(WILDCARD_BYTE));
    }
}

} // verus!
