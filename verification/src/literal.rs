//! What the non-deterministic matcher answers where no pattern holds `*` or
//! `$`: the longest pattern that the path starts with decides.

use crate::nfa::{
    accept_of, active_after, add_child, add_children, advance, allows, automaton, bare, compiled,
    fits, follows, heaviest, initial, layered, lemma_settled_stays, reached, settled, steps,
    targets_under, verdict, visit, with_edge, without, Accept, Build, Item, NodeView,
};
use crate::dedupe::{deduped, lemma_allow_beats_disallow, lemma_deduped_dom};
use crate::rule::{normal, Kind, RuleView, EOW_BYTE, WILDCARD_BYTE};
use crate::trie::{
    carried, child_bytes, extends, has_child, lemma_max_len, max_len, table, terminal,
};
use vstd::prelude::*;

verus! {

/// No byte of the pattern is `*` or `$`.
pub open spec fn literal(q: Seq<u8>) -> bool {
    forall|i: int| 0 <= i < q.len() ==> #[trigger] q[i] != WILDCARD_BYTE && q[i] != EOW_BYTE
}

/// Every pattern of the table is literal and at most `bound` bytes long.
pub open spec fn literal_table(t: Map<Seq<u8>, Kind>, bound: nat) -> bool {
    forall|q: Seq<u8>| #[trigger] t.dom().contains(q) ==> literal(q) && q.len() <= bound
}

/// Some pattern of the table starts with `x`.
pub open spec fn passes(t: Map<Seq<u8>, Kind>, x: Seq<u8>) -> bool {
    exists|r: Seq<u8>| t.dom().contains(r) && #[trigger] x.is_prefix_of(r)
}

/// The longest pattern of the table, the empty one apart, that `q` starts with.
pub open spec fn longest(t: Map<Seq<u8>, Kind>, q: Seq<u8>) -> Option<Seq<u8>>
    decreases q.len(),
{
    if q.len() == 0 {
        None
    } else if t.dom().contains(q) {
        Some(q)
    } else {
        longest(t, q.drop_last())
    }
}

/// The verdict of the longest pattern that `q` starts with; where there is
/// none, `q` is allowed.
pub open spec fn accept_at(t: Map<Seq<u8>, Kind>, q: Seq<u8>) -> Accept {
    match longest(t, q) {
        Some(r) => accept_of(Some(t[r]), Accept::Allow),
        None => Accept::Allow,
    }
}

/// The length of the longest pattern that `q` starts with; 0 where there is none.
pub open spec fn weight_at(t: Map<Seq<u8>, Kind>, q: Seq<u8>) -> nat {
    match longest(t, q) {
        Some(r) => r.len(),
        None => 0,
    }
}

/// `longest` names the longest pattern, the empty one apart, that `q` starts
/// with, and none exactly where there is none.
pub proof fn lemma_longest(t: Map<Seq<u8>, Kind>, q: Seq<u8>)
    ensures
        longest(t, q) matches Some(r) ==> t.dom().contains(r) && r.len() > 0 && r.is_prefix_of(q),
        forall|x: Seq<u8>|
            t.dom().contains(x) && x.len() > 0 && #[trigger] x.is_prefix_of(q) ==> longest(t, q)
                is Some && x.len() <= longest(t, q)->0.len(),
    decreases q.len(),
{
    if q.len() > 0 {
        let most = q.drop_last();
        lemma_longest(t, most);
        if longest(t, most) is Some {
            let r = longest(t, most)->0;
            assert(r.is_prefix_of(q)) by {
                assert(r =~= q.subrange(0, r.len() as int));
            }
        }
        assert forall|x: Seq<u8>|
            t.dom().contains(x) && x.len() > 0 && #[trigger] x.is_prefix_of(q) implies longest(t, q)
            is Some && x.len() <= longest(t, q)->0.len() by {
            if x.len() == q.len() {
                assert(x =~= q);
            } else if !t.dom().contains(q) {
                assert(x.is_prefix_of(most)) by {
                    assert(x =~= most.subrange(0, x.len() as int));
                }
            }
        }
    }
}

/// A node has a child under `c` exactly where a pattern passes through it.
pub proof fn lemma_child_passes(t: Map<Seq<u8>, Kind>, p: Seq<u8>, c: u8)
    ensures
        has_child(t, p, c) <==> passes(t, p.push(c)),
{
    if has_child(t, p, c) {
        let q = choose|q: Seq<u8>| t.dom().contains(q) && #[trigger] extends(q, p, c);
        assert(p.push(c).is_prefix_of(q)) by {
            assert(p.push(c) =~= q.subrange(0, p.len() as int + 1));
        }
    }
    if passes(t, p.push(c)) {
        let r = choose|r: Seq<u8>| t.dom().contains(r) && #[trigger] p.push(c).is_prefix_of(r);
        assert(extends(r, p, c)) by {
            assert(r.subrange(0, p.len() as int + 1)[p.len() as int] == c);
            assert(p =~= r.subrange(0, p.len() as int)) by {
                assert forall|i: int| 0 <= i < p.len() implies p[i] == r[i] by {
                    assert(r.subrange(0, p.len() as int + 1)[i] == p.push(c)[i]);
                }
            }
        }
    }
}

/// The child bytes of a node are the bytes under which it has a child, each
/// once, in increasing order.
pub proof fn lemma_child_bytes_sorted(t: Map<Seq<u8>, Kind>, p: Seq<u8>, from: int)
    requires
        0 <= from <= 256,
    ensures
        forall|c: u8| #[trigger]
            child_bytes(t, p, from).contains(c) ==> c >= from && has_child(t, p, c),
        forall|c: u8|
            c >= from && #[trigger] has_child(t, p, c) ==> child_bytes(t, p, from).contains(c),
        forall|i: int, j: int|
            0 <= i < j < child_bytes(t, p, from).len() ==> child_bytes(t, p, from)[i] < child_bytes(
                t,
                p,
                from,
            )[j],
    decreases 256 - from,
{
    let all = child_bytes(t, p, from);
    if from < 256 {
        lemma_child_bytes_sorted(t, p, from + 1);
        let rest = child_bytes(t, p, from + 1);
        let first = from as u8;
        assert forall|c: u8| rest.contains(c) implies c > first && has_child(t, p, c) by {}
        if has_child(t, p, first) {
            assert(all == seq![first] + rest);
            assert(all.len() == rest.len() + 1);
            assert(all[0] == first);
            assert forall|i: int| 0 < i < all.len() implies all[i] == rest[i - 1] && rest.contains(
                all[i],
            ) by {
                assert(rest[i - 1] == all[i]);
            }
            assert forall|c: u8| all.contains(c) <==> c >= from && has_child(t, p, c) by {
                if all.contains(c) {
                    let i = choose|i: int| 0 <= i < all.len() && all[i] == c;
                    if i > 0 {
                        assert(rest.contains(all[i]));
                    }
                }
                if c >= from && has_child(t, p, c) {
                    if c == first {
                        assert(all[0] == c);
                    } else {
                        assert(c >= from + 1);
                        assert(rest.contains(c));
                        let i = choose|i: int| 0 <= i < rest.len() && rest[i] == c;
                        assert(all[i + 1] == c);
                    }
                }
            }
            assert forall|i: int, j: int| 0 <= i < j < all.len() implies all[i] < all[j] by {
                assert(rest.contains(all[j]));
                if i > 0 {
                    assert(rest[i - 1] < rest[j - 1]);
                }
            }
        } else {
            assert(all == rest);
            assert forall|c: u8| all.contains(c) <==> c >= from && has_child(t, p, c) by {
                if c >= from && has_child(t, p, c) {
                    assert(c != first);
                    assert(c >= from + 1);
                }
            }
        }
    } else {
        assert(all.len() == 0);
        assert forall|c: u8| all.contains(c) <==> c >= from && has_child(t, p, c) by {
            if all.contains(c) {
                let i = choose|i: int| 0 <= i < all.len() && all[i] == c;
            }
        }
    }
}

/// The bookkeeping of a walk over the prefix tree: the state that stands
/// for each node found so far, whether the children of a node are being
/// added, that node, and the bytes of its children added so far.
pub struct Walk {
    pub idx: Map<Seq<u8>, usize>,
    pub busy: bool,
    pub cur: Seq<u8>,
    pub done: Seq<u8>,
}

/// The edge leads from the node `q` to the state of its child under the
/// edge's byte.
pub open spec fn edge_ok(w: Walk, q: Seq<u8>, e: (u8, usize)) -> bool {
    w.idx.dom().contains(q.push(e.0)) && w.idx[q.push(e.0)] == e.1
}

/// The state of the node `q` is as the node asks: the verdict of the
/// longest pattern that `q` starts with, the weight of `q`, one wildcard
/// edge to a state without edges that keeps that verdict under that
/// pattern's weight, and labelled edges to children only.
pub open spec fn node_ok(t: Map<Seq<u8>, Kind>, states: Seq<NodeView>, w: Walk, q: Seq<u8>) -> bool {
    let i = w.idx[q] as int;
    &&& i < states.len()
    &&& q.len() > 0 ==> passes(t, q)
    &&& states[i].accept == accept_at(t, q)
    &&& states[i].weight == q.len()
    &&& states[i].wildcards.len() == 1
    &&& states[i].wildcards[0] < states.len()
    &&& states[states[i].wildcards[0] as int] == bare(accept_at(t, q), weight_at(t, q) as usize)
    &&& forall|k: int| 0 <= k < states[i].edges.len() ==> edge_ok(w, q, #[trigger] states[i].edges[k])
}

/// The state of the node `q` has an edge under `c` to the state of the child.
pub open spec fn has_edge(states: Seq<NodeView>, w: Walk, q: Seq<u8>, c: u8) -> bool {
    &&& w.idx.dom().contains(q.push(c))
    &&& states[w.idx[q] as int].edges.contains((c, w.idx[q.push(c)]))
}

/// The node `q` waits.
pub open spec fn queued(b: Build, q: Seq<u8>) -> bool {
    exists|k: int| 0 <= k < b.queue.len() && (#[trigger] b.queue[k]).prefix == q
}

/// The node `q` has an edge to each of its children.
pub open spec fn complete(t: Map<Seq<u8>, Kind>, b: Build, w: Walk, q: Seq<u8>) -> bool {
    forall|c: u8| #[trigger] passes(t, q.push(c)) ==> has_edge(b.states, w, q, c)
}

/// The node that waits at place `k` is known, waits in the name of its own
/// state, and has no edges yet.
pub open spec fn item_ok(b: Build, w: Walk, k: int) -> bool {
    let item = b.queue[k];
    &&& w.idx.dom().contains(item.prefix)
    &&& item.parent_state == w.idx[item.prefix]
    &&& item.epsilon_state is None
    &&& b.states[w.idx[item.prefix] as int].edges.len() == 0
}

/// The parent of the node `r` is known and waits no more; where its children
/// are being added, `r` is among those added.
pub open spec fn parent_ok(b: Build, w: Walk, r: Seq<u8>) -> bool {
    &&& w.idx.dom().contains(r.drop_last())
    &&& !queued(b, r.drop_last())
    &&& w.busy && r.drop_last() == w.cur ==> w.done.contains(r.last())
}

/// What holds of the construction all along where the patterns are
/// literal: the states are those of the nodes found so far and of what they
/// fall back to, and every node found waits, is at work, or has its children.
pub open spec fn shape(t: Map<Seq<u8>, Kind>, b: Build, w: Walk) -> bool {
    &&& b.states.len() >= 2
    &&& w.idx.dom().contains(Seq::empty())
    &&& w.idx[Seq::empty()] == 0
    &&& forall|q: Seq<u8>| #[trigger] w.idx.dom().contains(q) ==> node_ok(t, b.states, w, q)
    &&& forall|q: Seq<u8>, r: Seq<u8>|
        w.idx.dom().contains(q) && w.idx.dom().contains(r) && #[trigger] w.idx[q] == #[trigger] w.idx[r]
            ==> q == r
    &&& forall|k: int| 0 <= k < b.queue.len() ==> #[trigger] item_ok(b, w, k)
    &&& forall|k: int, l: int|
        0 <= k < l < b.queue.len() ==> (#[trigger] b.queue[k]).prefix != (#[trigger] b.queue[l]).prefix
    &&& forall|q: Seq<u8>| #[trigger]
        w.idx.dom().contains(q) ==> queued(b, q) || (w.busy && q == w.cur) || complete(t, b, w, q)
    &&& forall|r: Seq<u8>| #[trigger] w.idx.dom().contains(r) && r.len() > 0 ==> parent_ok(b, w, r)
    &&& w.busy ==> w.idx.dom().contains(w.cur) && !queued(b, w.cur) && forall|j: int|
        0 <= j < w.done.len() ==> has_edge(b.states, w, w.cur, #[trigger] w.done[j])
}

/// A byte through which a literal pattern passes is neither `*` nor `$`.
pub proof fn lemma_literal_byte(t: Map<Seq<u8>, Kind>, bound: nat, p: Seq<u8>, c: u8)
    requires
        literal_table(t, bound),
        passes(t, p.push(c)),
    ensures
        c != WILDCARD_BYTE,
        c != EOW_BYTE,
        p.len() < bound,
        passes(t, p),
        forall|i: int| 0 <= i < p.len() ==> #[trigger] p[i] != WILDCARD_BYTE,
{
    let r = choose|r: Seq<u8>| t.dom().contains(r) && #[trigger] p.push(c).is_prefix_of(r);
    let n = p.len() as int;
    assert(r.subrange(0, n + 1)[n] == p.push(c)[n]);
    assert(r[n] == c);
    assert(p.is_prefix_of(r)) by {
        assert forall|i: int| 0 <= i < n implies p[i] == r[i] by {
            assert(r.subrange(0, n + 1)[i] == p.push(c)[i]);
        }
        assert(p =~= r.subrange(0, n));
    }
    assert forall|i: int| 0 <= i < p.len() implies #[trigger] p[i] != WILDCARD_BYTE by {
        assert(r.subrange(0, n)[i] == p[i]);
        assert(r[i] != WILDCARD_BYTE);
    }
}

/// The walk after the child of the node at work under `c` has been added.
pub open spec fn walk_on(b: Build, w: Walk, c: u8) -> Walk {
    Walk { idx: w.idx.insert(w.cur.push(c), b.states.len() as usize), done: w.done.push(c), ..w }
}

/// One more child keeps the shape: the child gets a state of its own, and
/// the node at work an edge to it.
pub proof fn lemma_add_child_shape(t: Map<Seq<u8>, Kind>, bound: nat, b: Build, w: Walk, c: u8)
    requires
        literal_table(t, bound),
        bound <= usize::MAX,
        add_child(
            b,
            Item { prefix: w.cur, parent_state: w.idx[w.cur], epsilon_state: None },
            c,
            terminal(t, w.cur.push(c)),
        ).states.len() <= usize::MAX,
        shape(t, b, w),
        w.busy,
        passes(t, w.cur.push(c)),
        forall|j: int| 0 <= j < w.done.len() ==> w.done[j] < c,
    ensures
        shape(
            t,
            add_child(
                b,
                Item { prefix: w.cur, parent_state: w.idx[w.cur], epsilon_state: None },
                c,
                terminal(t, w.cur.push(c)),
            ),
            walk_on(b, w, c),
        ),
        add_child(
            b,
            Item { prefix: w.cur, parent_state: w.idx[w.cur], epsilon_state: None },
            c,
            terminal(t, w.cur.push(c)),
        ).queue == b.queue.push(
            Item { prefix: w.cur.push(c), parent_state: b.states.len() as usize, epsilon_state: None },
        ),
{
    let cur = w.cur;
    let new = cur.push(c);
    let item = Item { prefix: cur, parent_state: w.idx[cur], epsilon_state: None };
    let kind = terminal(t, new);
    let a = add_child(b, item, c, kind);
    let w2 = walk_on(b, w, c);
    let n = b.states.len() as int;
    let state = n as usize;
    let i0 = w.idx[cur] as int;
    let parent = b.states[i0];
    lemma_literal_byte(t, bound, cur, c);
    assert(new.drop_last() =~= cur);
    assert(new.last() == c);
    assert(node_ok(t, b.states, w, cur));
    // The child is new.
    assert(!w.idx.dom().contains(new)) by {
        if w.idx.dom().contains(new) {
            assert(parent_ok(b, w, new));
            let j = choose|j: int| 0 <= j < w.done.len() && w.done[j] == c;
        }
    }
    let accept = accept_of(kind, parent.accept);
    let weight = new.len() as usize;
    let fb = parent.wildcards[0];
    assert(fb != state);
    assert(parent.wildcards =~= seq![fb]);
    assert(without(parent.wildcards, state) =~= seq![fb]) by {
        assert(parent.wildcards.drop_last() =~= Seq::<usize>::empty());
        assert(without(parent.wildcards.drop_last(), state) =~= Seq::<usize>::empty());
    }
    let around = with_edge(b.states, w.idx[cur], c, state);
    let child = if kind is Some {
        NodeView { wildcards: seq![(state + 1) as usize], ..bare(accept, weight) }
    } else {
        NodeView { wildcards: seq![fb], ..bare(accept, weight) }
    };
    let grown = around.push(child);
    assert(around.len() == n);
    assert(a.states == if kind is Some {
        grown.push(bare(accept, weight))
    } else {
        grown
    });
    assert(n + 1 <= usize::MAX);
    assert(kind is Some ==> n + 2 <= usize::MAX);
    assert(a.queue == b.queue.push(Item { prefix: new, parent_state: state, epsilon_state: None }));
    // What the longest pattern says at the child.
    assert(accept_at(t, new) == accept && weight_at(t, new) == (if kind is Some {
        new.len()
    } else {
        weight_at(t, cur)
    })) by {
        if kind is None {
            assert(longest(t, new) == longest(t, cur));
        }
    }
    // States that were there are as they were, but for the new edge.
    assert forall|s: int| 0 <= s < n && s != i0 implies a.states[s] == b.states[s] by {}
    assert(a.states[i0] == (NodeView { edges: parent.edges.push((c, state)), ..parent }));
    assert(a.states[n] == child);
    assert(fb as int != i0) by {
        assert(b.states[fb as int].wildcards.len() == 0);
    }
    assert forall|q: Seq<u8>| #[trigger] w2.idx.dom().contains(q) implies node_ok(
        t,
        a.states,
        w2,
        q,
    ) by {
        if q == new {
            assert(w2.idx[q] == state);
            if kind is Some {
                assert(a.states[n + 1] == bare(accept, weight));
            } else {
                assert(a.states[fb as int] == b.states[fb as int]);
            }
        } else {
            assert(w.idx.dom().contains(q));
            assert(node_ok(t, b.states, w, q));
            let i = w.idx[q] as int;
            let f = b.states[i].wildcards[0] as int;
            assert(f != i0) by {
                assert(b.states[f].wildcards.len() == 0);
            }
            assert(a.states[f] == b.states[f]);
            assert forall|k: int| 0 <= k < a.states[i].edges.len() implies edge_ok(
                w2,
                q,
                #[trigger] a.states[i].edges[k],
            ) by {
                if i == i0 && k == parent.edges.len() {
                    assert(q == cur);
                    assert(a.states[i].edges[k] == (c, state));
                } else {
                    assert(a.states[i].edges[k] == b.states[i].edges[k]);
                    assert(edge_ok(w, q, b.states[i].edges[k]));
                }
            }
        }
    }
    assert forall|q: Seq<u8>, r: Seq<u8>|
        w2.idx.dom().contains(q) && w2.idx.dom().contains(r) && #[trigger] w2.idx[q]
            == #[trigger] w2.idx[r] implies q == r by {
        if q != new {
            assert(node_ok(t, b.states, w, q));
        }
        if r != new {
            assert(node_ok(t, b.states, w, r));
        }
    }
    assert forall|k: int| 0 <= k < a.queue.len() implies #[trigger] item_ok(a, w2, k) by {
        if k < b.queue.len() {
            assert(item_ok(b, w, k));
            assert(a.queue[k] == b.queue[k]);
            assert(b.queue[k].prefix != cur) by {
                if b.queue[k].prefix == cur {
                    assert(queued(b, cur));
                }
            }
            assert(w.idx[b.queue[k].prefix] as int != i0);
        }
    }
    assert forall|k: int, l: int| 0 <= k < l < a.queue.len() implies (#[trigger] a.queue[k]).prefix
        != (#[trigger] a.queue[l]).prefix by {
        assert(a.queue[k] == b.queue[k]);
        assert(item_ok(b, w, k));
        if l < b.queue.len() {
            assert(a.queue[l] == b.queue[l]);
        }
    }
    assert forall|q: Seq<u8>| queued(b, q) implies queued(a, q) by {
        let k = choose|k: int| 0 <= k < b.queue.len() && (#[trigger] b.queue[k]).prefix == q;
        assert(a.queue[k].prefix == q);
    }
    assert(queued(a, new)) by {
        assert(a.queue[b.queue.len() as int].prefix == new);
    }
    assert forall|q: Seq<u8>| queued(a, q) implies queued(b, q) || q == new by {
        let k = choose|k: int| 0 <= k < a.queue.len() && (#[trigger] a.queue[k]).prefix == q;
        if k < b.queue.len() {
            assert(b.queue[k].prefix == q);
        }
    }
    assert forall|q: Seq<u8>, x: u8| has_edge(b.states, w, q, x) && w.idx.dom().contains(
        q,
    ) implies has_edge(a.states, w2, q, x) by {
        assert(node_ok(t, b.states, w, q));
        let i = w.idx[q] as int;
        let e = (x, w.idx[q.push(x)]);
        let k = choose|k: int| 0 <= k < b.states[i].edges.len() && b.states[i].edges[k] == e;
        assert(a.states[i].edges[k] == e);
    }
    assert forall|q: Seq<u8>| #[trigger] w2.idx.dom().contains(q) implies queued(a, q) || (w2.busy
        && q == w2.cur) || complete(t, a, w2, q) by {
        if q != new && q != cur && !queued(b, q) {
            assert(complete(t, b, w, q));
            assert forall|x: u8| #[trigger] passes(t, q.push(x)) implies has_edge(
                a.states,
                w2,
                q,
                x,
            ) by {
                assert(has_edge(b.states, w, q, x));
            }
        }
    }
    assert forall|r: Seq<u8>| #[trigger] w2.idx.dom().contains(r) && r.len() > 0 implies parent_ok(
        a,
        w2,
        r,
    ) by {
        if r == new {
            assert(w2.done[w.done.len() as int] == c);
        } else {
            assert(parent_ok(b, w, r));
            assert(r.drop_last() != new) by {
                if r.drop_last() == new {
                    assert(w.idx.dom().contains(new));
                }
            }
            if r.drop_last() == cur {
                let j = choose|j: int| 0 <= j < w.done.len() && w.done[j] == r.last();
                assert(w2.done[j] == r.last());
            }
        }
    }
    assert(!queued(a, cur));
    assert forall|j: int| 0 <= j < w2.done.len() implies has_edge(
        a.states,
        w2,
        cur,
        #[trigger] w2.done[j],
    ) by {
        if j < w.done.len() {
            assert(w2.done[j] == w.done[j]);
            assert(has_edge(b.states, w, cur, w.done[j]));
        } else {
            assert(a.states[i0].edges[parent.edges.len() as int] == (c, state));
        }
    }
}

/// A child under a literal byte adds one state or two and one node that waits.
pub proof fn lemma_literal_grows(b: Build, item: Item, c: u8, kind: Option<Kind>)
    requires
        c != WILDCARD_BYTE,
        c != EOW_BYTE,
        item.parent_state < b.states.len(),
        item.epsilon_state is None,
    ensures
        b.states.len() < add_child(b, item, c, kind).states.len() <= b.states.len() + 2,
        add_child(b, item, c, kind).queue.len() == b.queue.len() + 1,
{
}

/// The children of a node under literal bytes add states, never take any.
pub proof fn lemma_children_grow(
    t: Map<Seq<u8>, Kind>,
    b: Build,
    item: Item,
    kids: Seq<u8>,
    k: int,
)
    requires
        0 <= k <= kids.len(),
        forall|j: int| 0 <= j < kids.len() ==> kids[j] != WILDCARD_BYTE && kids[j] != EOW_BYTE,
        item.parent_state < b.states.len(),
        item.epsilon_state is None,
    ensures
        b.states.len() <= add_children(t, b, item, kids.take(k)).states.len() <= add_children(
            t,
            b,
            item,
            kids,
        ).states.len(),
    decreases kids.len() - k,
{
    lemma_children_grow_from(t, b, item, kids.take(k));
    if k < kids.len() {
        lemma_children_grow(t, b, item, kids, k + 1);
        let more = kids.take(k + 1);
        assert(more.drop_last() =~= kids.take(k));
        assert forall|j: int| 0 <= j < kids.take(k).len() implies kids.take(k)[j] != WILDCARD_BYTE
            && kids.take(k)[j] != EOW_BYTE by {}
        let before = add_children(t, b, item, kids.take(k));
        lemma_literal_grows(before, item, more.last(), terminal(t, item.prefix.push(more.last())));
    } else {
        assert(kids.take(k) =~= kids);
    }
}

/// The children of a node under literal bytes add states to those that were there.
pub proof fn lemma_children_grow_from(t: Map<Seq<u8>, Kind>, b: Build, item: Item, kids: Seq<u8>)
    requires
        forall|j: int| 0 <= j < kids.len() ==> kids[j] != WILDCARD_BYTE && kids[j] != EOW_BYTE,
        item.parent_state < b.states.len(),
        item.epsilon_state is None,
    ensures
        b.states.len() <= add_children(t, b, item, kids).states.len(),
    decreases kids.len(),
{
    if kids.len() > 0 {
        let most = kids.drop_last();
        assert forall|j: int| 0 <= j < most.len() implies most[j] != WILDCARD_BYTE && most[j]
            != EOW_BYTE by {
            assert(most[j] == kids[j]);
        }
        lemma_children_grow_from(t, b, item, most);
        lemma_literal_grows(
            add_children(t, b, item, most),
            item,
            kids.last(),
            terminal(t, item.prefix.push(kids.last())),
        );
    }
}

/// The node of a walk that is at work, as it was taken from the queue.
pub open spec fn item_of(w: Walk) -> Item {
    Item { prefix: w.cur, parent_state: w.idx[w.cur], epsilon_state: None }
}

/// The children of the node at work keep the shape, one after the other.
pub proof fn lemma_children_shape(
    t: Map<Seq<u8>, Kind>,
    bound: nat,
    b: Build,
    w: Walk,
    kids: Seq<u8>,
    k: int,
) -> (after: Walk)
    requires
        literal_table(t, bound),
        bound <= usize::MAX,
        shape(t, b, w),
        w.busy,
        w.done.len() == 0,
        kids == child_bytes(t, w.cur, 0),
        0 <= k <= kids.len(),
        add_children(t, b, item_of(w), kids).states.len() <= usize::MAX,
    ensures
        shape(t, add_children(t, b, item_of(w), kids.take(k)), after),
        after.busy,
        after.cur == w.cur,
        after.done == kids.take(k),
        after.idx[w.cur] == w.idx[w.cur],
        add_children(t, b, item_of(w), kids.take(k)).queue.len() == b.queue.len() + k,
        forall|j: int|
            0 <= j < b.queue.len() ==> #[trigger] add_children(
                t,
                b,
                item_of(w),
                kids.take(k),
            ).queue[j] == b.queue[j],
        forall|j: int|
            b.queue.len() <= j < b.queue.len() + k ==> (#[trigger] add_children(
                t,
                b,
                item_of(w),
                kids.take(k),
            ).queue[j]).prefix.len() == w.cur.len() + 1,
        w.cur.len() < bound || kids.len() == 0,
    decreases k,
{
    let item = item_of(w);
    lemma_child_bytes_sorted(t, w.cur, 0);
    assert forall|j: int| 0 <= j < kids.len() implies kids[j] != WILDCARD_BYTE && kids[j]
        != EOW_BYTE && passes(t, w.cur.push(kids[j])) && w.cur.len() < bound by {
        assert(kids.contains(kids[j]));
        lemma_child_passes(t, w.cur, kids[j]);
        lemma_literal_byte(t, bound, w.cur, kids[j]);
    }
    if k == 0 {
        assert(kids.take(0) =~= Seq::<u8>::empty());
        assert(w.done =~= kids.take(0));
        if kids.len() > 0 {
            assert(kids[0] != WILDCARD_BYTE);
        }
        w
    } else {
        let before = lemma_children_shape(t, bound, b, w, kids, k - 1);
        let c = kids[k - 1];
        let seen = kids.take(k - 1);
        let now = kids.take(k);
        assert(now.drop_last() =~= seen);
        assert(now.last() == c);
        let mid = add_children(t, b, item, seen);
        let a = add_children(t, b, item, now);
        assert(item_of(before) == item);
        assert(a == add_child(mid, item, c, terminal(t, w.cur.push(c))));
        assert(node_ok(t, b.states, w, w.cur));
        lemma_children_grow(t, b, item, kids, k);
        assert forall|j: int| 0 <= j < before.done.len() implies before.done[j] < c by {
            assert(before.done[j] == kids[j]);
        }
        lemma_add_child_shape(t, bound, mid, before, c);
        let after = walk_on(mid, before, c);
        assert(after.done =~= now);
        assert(w.cur.push(c) != w.cur) by {
            assert(w.cur.push(c).len() != w.cur.len());
        }
        assert forall|j: int| 0 <= j < b.queue.len() implies #[trigger] a.queue[j]
            == b.queue[j] by {
            assert(mid.queue[j] == b.queue[j]);
        }
        assert forall|j: int| b.queue.len() <= j < b.queue.len() + k implies (
        #[trigger] a.queue[j]).prefix.len() == w.cur.len() + 1 by {
            if j < b.queue.len() + k - 1 {
                assert(mid.queue[j].prefix.len() == w.cur.len() + 1);
            }
        }
        after
    }
}

/// The walk before any visit.
pub open spec fn first_walk() -> Walk {
    Walk {
        idx: Map::empty().insert(Seq::empty(), 0usize),
        busy: false,
        cur: Seq::empty(),
        done: Seq::empty(),
    }
}

/// The construction starts in shape.
pub proof fn lemma_initial_shape(t: Map<Seq<u8>, Kind>)
    ensures
        shape(t, initial(), first_walk()),
{
    let b = initial();
    let w = first_walk();
    let root = Seq::<u8>::empty();
    assert forall|q: Seq<u8>| #[trigger] w.idx.dom().contains(q) implies node_ok(t, b.states, w, q)
        && queued(b, q) by {
        assert(q == root);
        assert(b.queue[0].prefix == q);
    }
    assert(item_ok(b, w, 0));
}

/// A visit keeps the shape: the node that waited first has an edge to each
/// of its children, and the children wait behind the others.
pub proof fn lemma_visit_shape(t: Map<Seq<u8>, Kind>, bound: nat, b: Build, w: Walk) -> (after:
    Walk)
    requires
        literal_table(t, bound),
        bound <= usize::MAX,
        shape(t, b, w),
        !w.busy,
        b.queue.len() > 0,
        visit(t, b).states.len() <= usize::MAX,
    ensures
        shape(t, visit(t, b), after),
        !after.busy,
        visit(t, b).queue.len() >= b.queue.len() - 1,
        forall|j: int|
            0 <= j < b.queue.len() - 1 ==> #[trigger] visit(t, b).queue[j] == b.queue[j + 1],
        forall|j: int|
            b.queue.len() - 1 <= j < visit(t, b).queue.len() ==> (#[trigger] visit(
                t,
                b,
            ).queue[j]).prefix.len() == b.queue[0].prefix.len() + 1,
        visit(t, b).queue.len() > b.queue.len() - 1 ==> b.queue[0].prefix.len() < bound,
{
    let cur = b.queue[0].prefix;
    let rest = Build { states: b.states, queue: b.queue.drop_first() };
    let start = Walk { busy: true, cur, done: Seq::empty(), ..w };
    let kids = child_bytes(t, cur, 0);
    assert(item_ok(b, w, 0));
    assert(item_of(start) == b.queue[0]);
    assert forall|q: Seq<u8>| queued(rest, q) implies queued(b, q) && q != cur by {
        let k = choose|k: int| 0 <= k < rest.queue.len() && (#[trigger] rest.queue[k]).prefix == q;
        assert(b.queue[k + 1].prefix == q);
    }
    assert forall|q: Seq<u8>| queued(b, q) && q != cur implies queued(rest, q) by {
        let k = choose|k: int| 0 <= k < b.queue.len() && (#[trigger] b.queue[k]).prefix == q;
        assert(rest.queue[k - 1].prefix == q);
    }
    assert(shape(t, rest, start)) by {
        assert forall|q: Seq<u8>| #[trigger] start.idx.dom().contains(q) implies node_ok(
            t,
            rest.states,
            start,
            q,
        ) by {
            assert(node_ok(t, b.states, w, q));
            let i = w.idx[q] as int;
            assert forall|k: int| 0 <= k < b.states[i].edges.len() implies edge_ok(
                start,
                q,
                #[trigger] b.states[i].edges[k],
            ) by {
                assert(edge_ok(w, q, b.states[i].edges[k]));
            }
        }
        assert forall|k: int| 0 <= k < rest.queue.len() implies #[trigger] item_ok(
            rest,
            start,
            k,
        ) by {
            assert(item_ok(b, w, k + 1));
        }
        assert forall|k: int, l: int| 0 <= k < l < rest.queue.len() implies (
        #[trigger] rest.queue[k]).prefix != (#[trigger] rest.queue[l]).prefix by {
            assert(b.queue[k + 1].prefix != b.queue[l + 1].prefix);
        }
        assert forall|q: Seq<u8>| #[trigger] start.idx.dom().contains(q) implies queued(rest, q)
            || (start.busy && q == start.cur) || complete(t, rest, start, q) by {
            if !queued(b, q) {
                assert(complete(t, b, w, q));
                assert forall|c: u8| #[trigger] passes(t, q.push(c)) implies has_edge(
                    rest.states,
                    start,
                    q,
                    c,
                ) by {
                    assert(has_edge(b.states, w, q, c));
                }
            }
        }
        assert forall|r: Seq<u8>| #[trigger]
            start.idx.dom().contains(r) && r.len() > 0 implies parent_ok(rest, start, r) by {
            assert(parent_ok(b, w, r));
            assert(queued(b, cur)) by {
                assert(b.queue[0].prefix == cur);
            }
        }
        assert(!queued(rest, cur));
    }
    let end = lemma_children_shape(t, bound, rest, start, kids, kids.len() as int);
    assert(kids.take(kids.len() as int) =~= kids);
    let a = visit(t, b);
    assert(a == add_children(t, rest, item_of(start), kids));
    let after = Walk { busy: false, ..end };
    lemma_child_bytes_sorted(t, cur, 0);
    assert(shape(t, a, after)) by {
        assert forall|q: Seq<u8>| #[trigger] after.idx.dom().contains(q) implies node_ok(
            t,
            a.states,
            after,
            q,
        ) by {
            assert(node_ok(t, a.states, end, q));
            let i = end.idx[q] as int;
            assert forall|k: int| 0 <= k < a.states[i].edges.len() implies edge_ok(
                after,
                q,
                #[trigger] a.states[i].edges[k],
            ) by {
                assert(edge_ok(end, q, a.states[i].edges[k]));
            }
        }
        assert forall|k: int| 0 <= k < a.queue.len() implies #[trigger] item_ok(a, after, k) by {
            assert(item_ok(a, end, k));
        }
        assert forall|q: Seq<u8>| #[trigger] after.idx.dom().contains(q) implies queued(a, q) || (
        after.busy && q == after.cur) || complete(t, a, after, q) by {
            if q == cur {
                assert forall|c: u8| #[trigger] passes(t, q.push(c)) implies has_edge(
                    a.states,
                    after,
                    q,
                    c,
                ) by {
                    lemma_child_passes(t, cur, c);
                    assert(kids.contains(c));
                    let j = choose|j: int| 0 <= j < kids.len() && kids[j] == c;
                    assert(has_edge(a.states, end, cur, end.done[j]));
                }
            } else if !queued(a, q) {
                assert(complete(t, a, end, q));
                assert forall|c: u8| #[trigger] passes(t, q.push(c)) implies has_edge(
                    a.states,
                    after,
                    q,
                    c,
                ) by {
                    assert(has_edge(a.states, end, q, c));
                }
            }
        }
        assert forall|r: Seq<u8>| #[trigger]
            after.idx.dom().contains(r) && r.len() > 0 implies parent_ok(a, after, r) by {
            assert(parent_ok(a, end, r));
        }
    }
    assert forall|j: int| 0 <= j < b.queue.len() - 1 implies #[trigger] a.queue[j] == b.queue[j
        + 1] by {
        assert(a.queue[j] == rest.queue[j]);
    }
    after
}

/// Where the patterns are literal, the construction comes to an end, and in shape.
pub proof fn lemma_build(
    t: Map<Seq<u8>, Kind>,
    bound: nat,
    n: nat,
    w: Walk,
    level: nat,
    ahead: nat,
) -> (end: (nat, Walk))
    requires
        literal_table(t, bound),
        bound <= usize::MAX,
        fits(t),
        shape(t, steps(t, n), w),
        !w.busy,
        layered(steps(t, n).queue, level, ahead as int, bound),
        steps(t, n).queue.len() > 0 ==> ahead >= 1,
    ensures
        settled(t, end.0),
        shape(t, steps(t, end.0), end.1),
        !end.1.busy,
    decreases bound + 1 - level, ahead,
{
    let b = steps(t, n);
    if b.queue.len() == 0 {
        (n, w)
    } else {
        let a = steps(t, n + 1);
        assert(a == visit(t, b));
        let after = lemma_visit_shape(t, bound, b, w);
        let kept = b.queue.len() - 1;
        if ahead > 1 {
            assert(layered(a.queue, level, ahead - 1, bound)) by {
                assert forall|k: int| 0 <= k < a.queue.len() implies (
                #[trigger] a.queue[k]).prefix.len() <= bound && (k < ahead - 1
                    ==> a.queue[k].prefix.len() == level) && (k >= ahead - 1
                    ==> a.queue[k].prefix.len() == level + 1) by {
                    if k < kept {
                        assert(a.queue[k] == b.queue[k + 1]);
                    }
                }
            }
            lemma_build(t, bound, n + 1, after, level, (ahead - 1) as nat)
        } else if a.queue.len() == 0 {
            (n + 1, after)
        } else {
            assert(layered(a.queue, level + 1, a.queue.len() as int, bound)) by {
                assert forall|k: int| 0 <= k < a.queue.len() implies (
                #[trigger] a.queue[k]).prefix.len() <= bound && a.queue[k].prefix.len() == level
                    + 1 by {
                    if k < kept {
                        assert(a.queue[k] == b.queue[k + 1]);
                    }
                }
            }
            assert(a.queue[0].prefix.len() <= bound);
            lemma_build(t, bound, n + 1, after, level + 1, a.queue.len())
        }
    }
}

/// The targets of the edges under a byte are the states that an edge under
/// the byte leads to.
pub proof fn lemma_targets_under(edges: Seq<(u8, usize)>, byte: u8, x: usize)
    ensures
        targets_under(edges, byte).contains(x) <==> edges.contains((byte, x)),
    decreases edges.len(),
{
    if edges.len() > 0 {
        let most = edges.drop_last();
        lemma_targets_under(most, byte, x);
        let all = targets_under(edges, byte);
        let part = targets_under(most, byte);
        if all.contains(x) {
            let i = choose|i: int| 0 <= i < all.len() && all[i] == x;
            if edges.last().0 == byte && i == part.len() {
                assert(edges[edges.len() - 1] == (byte, x));
            } else {
                assert(part[i] == x);
                assert(part.contains(x));
                let k = choose|k: int| 0 <= k < most.len() && most[k] == (byte, x);
                assert(edges[k] == (byte, x));
            }
        }
        if edges.contains((byte, x)) {
            let k = choose|k: int| 0 <= k < edges.len() && edges[k] == (byte, x);
            if k < most.len() {
                assert(most[k] == (byte, x));
                assert(most.contains((byte, x)));
                let i = choose|i: int| 0 <= i < part.len() && part[i] == x;
                assert(all[i] == x);
            } else {
                assert(all[part.len() as int] == x);
            }
        }
    } else {
        if targets_under(edges, byte).contains(x) {
            let i = choose|i: int|
                0 <= i < targets_under(edges, byte).len() && targets_under(edges, byte)[i] == x;
        }
        if edges.contains((byte, x)) {
            let k = choose|k: int| 0 <= k < edges.len() && edges[k] == (byte, x);
        }
    }
}

/// When the construction has come to an end, every node has its state.
pub proof fn lemma_found(t: Map<Seq<u8>, Kind>, b: Build, w: Walk, q: Seq<u8>)
    requires
        shape(t, b, w),
        !w.busy,
        b.queue.len() == 0,
        q.len() == 0 || passes(t, q),
    ensures
        w.idx.dom().contains(q),
    decreases q.len(),
{
    if q.len() > 0 {
        let most = q.drop_last();
        let c = q.last();
        assert(most.push(c) =~= q);
        let r = choose|r: Seq<u8>| t.dom().contains(r) && #[trigger] q.is_prefix_of(r);
        assert(most.is_prefix_of(r)) by {
            assert forall|i: int| 0 <= i < most.len() implies most[i] == r[i] by {
                assert(r.subrange(0, q.len() as int)[i] == q[i]);
            }
            assert(most =~= r.subrange(0, most.len() as int));
        }
        lemma_found(t, b, w, most);
        assert(!queued(b, most));
        assert(complete(t, b, w, most));
        assert(passes(t, most.push(c)));
        assert(has_edge(b.states, w, most, c));
    } else {
        assert(q =~= Seq::<u8>::empty());
    }
}

/// The state `x` stands for the node `p`.
pub open spec fn at_node(w: Walk, p: Seq<u8>, x: usize) -> bool {
    w.idx.dom().contains(p) && x == w.idx[p]
}

/// The node of the first `j` bytes of `p` falls back to the state `x`.
pub open spec fn falls_to(states: Seq<NodeView>, w: Walk, p: Seq<u8>, j: int, x: usize) -> bool {
    &&& 0 <= j < p.len()
    &&& w.idx.dom().contains(p.take(j))
    &&& x == states[w.idx[p.take(j)] as int].wildcards[0]
}

/// The states that are active after `p`: the state of `p` where `p` is a
/// node, and what the nodes on the way to `p` fall back to.
pub open spec fn expected(states: Seq<NodeView>, w: Walk, p: Seq<u8>) -> Set<usize> {
    Set::new(|x: usize| at_node(w, p, x) || exists|j: int| #[trigger] falls_to(states, w, p, j, x))
}

/// After the bytes of `p` the active states are the state of `p` and what
/// the nodes on the way to `p` fall back to.
pub proof fn lemma_run(t: Map<Seq<u8>, Kind>, b: Build, w: Walk, p: Seq<u8>)
    requires
        shape(t, b, w),
        !w.busy,
        b.queue.len() == 0,
    ensures
        active_after(b.states, p) == expected(b.states, w, p),
    decreases p.len(),
{
    let states = b.states;
    if p.len() == 0 {
        assert(p =~= Seq::<u8>::empty());
        assert forall|x: usize| expected(states, w, p).contains(x) <==> x == 0 by {
            if exists|j: int| #[trigger] falls_to(states, w, p, j, x) {
                let j = choose|j: int| #[trigger] falls_to(states, w, p, j, x);
            }
        }
        assert(active_after(states, p) =~= expected(states, w, p));
    } else {
        let most = p.drop_last();
        let c = p.last();
        lemma_run(t, b, w, most);
        let before = active_after(states, most);
        assert(most.push(c) =~= p);
        assert(p.take(most.len() as int) =~= most);
        assert forall|j: int| 0 <= j < most.len() implies #[trigger] p.take(j) == most.take(j) by {
            assert(p.take(j) =~= most.take(j));
        }
        assert forall|x: usize| reached(states, before, c, x) implies expected(
            states,
            w,
            p,
        ).contains(x) by {
            let s = choose|s: usize|
                #![trigger before.contains(s)]
                before.contains(s) && follows(states, s, c, x);
            let found = states[s as int].successors(c, s);
            let i = choose|i: int| 0 <= i < found.len() && found[i] == x;
            if at_node(w, most, s) {
                assert(node_ok(t, states, w, most));
                let under = targets_under(states[s as int].edges, c);
                if i < under.len() {
                    assert(under[i] == x);
                    assert(under.contains(x));
                    lemma_targets_under(states[s as int].edges, c, x);
                    let k = choose|k: int|
                        0 <= k < states[s as int].edges.len() && states[s as int].edges[k] == (
                            c,
                            x,
                        );
                    assert(edge_ok(w, most, states[s as int].edges[k]));
                    assert(at_node(w, p, x));
                } else {
                    assert(x == states[s as int].wildcards[0]);
                    assert(falls_to(states, w, p, most.len() as int, x));
                }
            } else {
                let j = choose|j: int| #[trigger] falls_to(states, w, most, j, s);
                assert(node_ok(t, states, w, most.take(j)));
                assert(states[s as int].edges =~= Seq::<(u8, usize)>::empty());
                assert(targets_under(states[s as int].edges, c) =~= Seq::<usize>::empty());
                assert(found =~= seq![s]);
                assert(falls_to(states, w, p, j, x));
            }
        }
        assert forall|x: usize| expected(states, w, p).contains(x) implies reached(
            states,
            before,
            c,
            x,
        ) by {
            if at_node(w, p, x) {
                assert(node_ok(t, states, w, p));
                assert(parent_ok(b, w, p));
                assert(!queued(b, most));
                assert(complete(t, b, w, most));
                assert(passes(t, most.push(c)));
                assert(has_edge(states, w, most, c));
                let s = w.idx[most];
                assert(node_ok(t, states, w, most));
                lemma_targets_under(states[s as int].edges, c, x);
                let under = targets_under(states[s as int].edges, c);
                let i = choose|i: int| 0 <= i < under.len() && under[i] == x;
                assert(states[s as int].successors(c, s)[i] == x);
                assert(at_node(w, most, s));
                assert(before.contains(s));
                assert(follows(states, s, c, x));
            } else {
                let j = choose|j: int| #[trigger] falls_to(states, w, p, j, x);
                if j == most.len() {
                    let s = w.idx[most];
                    assert(node_ok(t, states, w, most));
                    let under = targets_under(states[s as int].edges, c);
                    assert(states[s as int].successors(c, s)[under.len() as int] == x);
                    assert(at_node(w, most, s));
                    assert(before.contains(s));
                    assert(follows(states, s, c, x));
                } else {
                    assert(falls_to(states, w, most, j, x));
                    assert(node_ok(t, states, w, most.take(j)));
                    assert(states[x as int].edges =~= Seq::<(u8, usize)>::empty());
                    assert(targets_under(states[x as int].edges, c) =~= Seq::<usize>::empty());
                    assert(states[x as int].successors(c, x) =~= seq![x]);
                    assert(states[x as int].successors(c, x)[0] == x);
                    assert(before.contains(x));
                    assert(follows(states, x, c, x));
                }
            }
        }
        assert(advance(states, before, c) =~= expected(states, w, p));
    }
}

/// The weight, twice and one more where the verdict allows, of what the
/// longest pattern that `q` starts with says.
pub open spec fn norm_at(t: Map<Seq<u8>, Kind>, q: Seq<u8>) -> int {
    bare(accept_at(t, q), weight_at(t, q) as usize).normalized_weight()
}

/// A longer path starts with a pattern that is at least as long, and where
/// it is as long it is the same.
pub proof fn lemma_norm_grows(t: Map<Seq<u8>, Kind>, bound: nat, p: Seq<u8>, j: int)
    requires
        literal_table(t, bound),
        bound <= usize::MAX,
        0 <= j <= p.len(),
    ensures
        norm_at(t, p.take(j)) <= norm_at(t, p),
        weight_at(t, p) <= p.len(),
        weight_at(t, p) <= bound,
{
    lemma_longest(t, p);
    lemma_longest(t, p.take(j));
    if longest(t, p.take(j)) is Some {
        let r = longest(t, p.take(j))->0;
        assert(r.is_prefix_of(p)) by {
            assert(r =~= p.subrange(0, r.len() as int));
        }
        let l = longest(t, p)->0;
        if r.len() == l.len() {
            assert(r =~= l);
        }
    }
}

/// What a node on the way to `p` falls back to weighs no more than what
/// the longest pattern that `p` starts with says.
pub proof fn lemma_fallen(
    t: Map<Seq<u8>, Kind>,
    bound: nat,
    b: Build,
    w: Walk,
    p: Seq<u8>,
    j: int,
    x: usize,
)
    requires
        literal_table(t, bound),
        bound <= usize::MAX,
        shape(t, b, w),
        falls_to(b.states, w, p, j, x),
    ensures
        x < b.states.len(),
        b.states[x as int].normalized_weight() <= norm_at(t, p),
{
    assert(node_ok(t, b.states, w, p.take(j)));
    lemma_norm_grows(t, bound, p, j);
}

/// Among the states that are active after `p`, one judges as the longest
/// pattern that `p` starts with does, and weighs at least as much.
pub proof fn lemma_top(t: Map<Seq<u8>, Kind>, bound: nat, b: Build, w: Walk, p: Seq<u8>) -> (top:
    usize)
    requires
        literal_table(t, bound),
        bound <= usize::MAX,
        shape(t, b, w),
        !w.busy,
        b.queue.len() == 0,
        p.len() > 0,
    ensures
        expected(b.states, w, p).contains(top),
        top < b.states.len(),
        b.states[top as int].accept == accept_at(t, p),
        b.states[top as int].normalized_weight() >= norm_at(t, p),
        w.idx.dom().contains(p) ==> top == w.idx[p],
{
    let states = b.states;
    lemma_longest(t, p);
    lemma_norm_grows(t, bound, p, 0);
    if w.idx.dom().contains(p) {
        let top = w.idx[p];
        assert(node_ok(t, states, w, p));
        assert(at_node(w, p, top));
        top
    } else {
        let at = weight_at(t, p) as int;
        let head = p.take(at);
        if longest(t, p) is Some {
            let r = longest(t, p)->0;
            assert(head =~= r);
            assert(passes(t, head)) by {
                assert(head.is_prefix_of(r));
            }
            assert(longest(t, head) == Some(head));
        } else {
            assert(head =~= Seq::<u8>::empty());
        }
        lemma_found(t, b, w, head);
        assert(at < p.len()) by {
            if at == p.len() {
                assert(head =~= p);
            }
        }
        assert(node_ok(t, states, w, head));
        let top = states[w.idx[head] as int].wildcards[0];
        assert(falls_to(states, w, p, at, top));
        top
    }
}

/// No state that is active after `p` weighs more than the one that judges
/// as the longest pattern does.
pub proof fn lemma_below(
    t: Map<Seq<u8>, Kind>,
    bound: nat,
    b: Build,
    w: Walk,
    p: Seq<u8>,
    top: usize,
    r: usize,
)
    requires
        literal_table(t, bound),
        bound <= usize::MAX,
        shape(t, b, w),
        expected(b.states, w, p).contains(r),
        b.states[top as int].normalized_weight() >= norm_at(t, p),
        w.idx.dom().contains(p) ==> top == w.idx[p],
    ensures
        b.states[r as int].normalized_weight() <= b.states[top as int].normalized_weight(),
{
    if !at_node(w, p, r) {
        let j = choose|j: int| #[trigger] falls_to(b.states, w, p, j, r);
        lemma_fallen(t, bound, b, w, p, j, r);
    }
}

/// Where a state weighs most among the active ones, its verdict is the
/// verdict over them: states of one weight judge alike.
pub proof fn lemma_heaviest_decides(states: Seq<NodeView>, active: Set<usize>, top: usize)
    requires
        heaviest(states, active, top),
    ensures
        verdict(states, active) == states[top as int].allows(),
{
    if verdict(states, active) {
        if exists|s: usize|
            #![trigger active.contains(s)]
            heaviest(states, active, s) && states[s as int].allows() {
            let s = choose|s: usize|
                #![trigger active.contains(s)]
                heaviest(states, active, s) && states[s as int].allows();
            assert(active.contains(top));
            assert(active.contains(s));
            assert(states[s as int].normalized_weight() == states[top as int].normalized_weight());
        } else {
            assert(active.contains(top));
        }
    }
}

/// The verdict over the states that are active after `p` is that of the
/// longest pattern that `p` starts with.
pub proof fn lemma_verdict(t: Map<Seq<u8>, Kind>, bound: nat, b: Build, w: Walk, p: Seq<u8>)
    requires
        literal_table(t, bound),
        bound <= usize::MAX,
        shape(t, b, w),
        !w.busy,
        b.queue.len() == 0,
        p.len() > 0,
    ensures
        verdict(b.states, expected(b.states, w, p)) == (accept_at(t, p) != Accept::Disallow),
{
    let states = b.states;
    let active = expected(states, w, p);
    let top = lemma_top(t, bound, b, w, p);
    assert forall|r: usize|
        #![trigger active.contains(r)]
        active.contains(r) && r < states.len() implies states[r as int].normalized_weight()
        <= states[top as int].normalized_weight() by {
        lemma_below(t, bound, b, w, p, top, r);
    }
    assert(heaviest(states, active, top));
    lemma_heaviest_decides(states, active, top);
}

/// Where no pattern holds `*` or `$`, the matcher allows a path exactly if
/// the longest pattern that the path starts with allows, or the path starts
/// with none. The empty pattern counts for nothing, and the empty path
/// stands for `/`.
pub proof fn lemma_literal_matcher(t: Map<Seq<u8>, Kind>, bound: nat, path: Seq<u8>)
    requires
        literal_table(t, bound),
        bound <= usize::MAX,
        fits(t),
    ensures
        allows(automaton(t), path) == (accept_at(t, normal(path)) != Accept::Disallow),
{
    let p = normal(path);
    lemma_initial_shape(t);
    assert(steps(t, 0) == initial());
    let (m, w) = lemma_build(t, bound, 0, first_walk(), 0, 1);
    let c = choose|c: nat| settled(t, c);
    if c <= m {
        lemma_settled_stays(t, c, m);
    } else {
        lemma_settled_stays(t, m, c);
    }
    let b = steps(t, m);
    assert(automaton(t) == b.states);
    lemma_run(t, b, w, p);
    lemma_verdict(t, bound, b, w, p);
}

/// Every rule of the list carries a literal pattern.
pub open spec fn literal_rules(rules: Seq<RuleView>) -> bool {
    forall|i: int| 0 <= i < rules.len() ==> literal((#[trigger] rules[i]).pattern)
}

/// `q` is the longest pattern of the rules, the empty one apart, that the
/// path starts with.
pub open spec fn longest_match(rules: Seq<RuleView>, path: Seq<u8>, q: Seq<u8>) -> bool {
    &&& carried(rules, q)
    &&& q.len() > 0
    &&& q.is_prefix_of(path)
    &&& forall|r: Seq<u8>| carried(rules, r) && #[trigger] r.is_prefix_of(path) ==> r.len() <= q.len()
}

/// `longest` finds the longest pattern that the path starts with.
proof fn lemma_longest_is(t: Map<Seq<u8>, Kind>, path: Seq<u8>, q: Seq<u8>)
    requires
        t.dom().contains(q),
        q.len() > 0,
        q.is_prefix_of(path),
        forall|r: Seq<u8>| t.dom().contains(r) && #[trigger] r.is_prefix_of(path) ==> r.len() <= q.len(),
    ensures
        longest(t, path) == Some(q),
{
    lemma_longest(t, path);
    let l = longest(t, path)->0;
    assert(l.is_prefix_of(path));
    assert(l =~= q);
}

/// Where no pattern holds `*` or `$`, the longer pattern wins: the matcher
/// compiled from the rules answers as the longest pattern that the path
/// starts with, whatever shorter patterns say.
pub proof fn lemma_longest_pattern_wins(rules: Seq<RuleView>, path: Seq<u8>, q: Seq<u8>)
    requires
        literal_rules(rules),
        max_len(rules) <= usize::MAX,
        fits(deduped(rules)),
        longest_match(rules, normal(path), q),
    ensures
        allows(compiled(rules), path) == (deduped(rules)[q] != Kind::Disallow),
{
    let t = deduped(rules);
    lemma_deduped_dom(rules);
    assert(literal_table(t, max_len(rules))) by {
        assert forall|x: Seq<u8>| #[trigger] t.dom().contains(x) implies literal(x) && x.len()
            <= max_len(rules) by {
            let i = choose|i: int| 0 <= i < rules.len() && (#[trigger] rules[i]).pattern == x;
            lemma_max_len(rules, i);
        }
    }
    lemma_literal_matcher(t, max_len(rules), path);
    lemma_longest_is(t, normal(path), q);
}

/// Where no pattern holds `*` or `$` and the path starts with none of them,
/// the path is allowed.
pub proof fn lemma_no_pattern_allows(rules: Seq<RuleView>, path: Seq<u8>)
    requires
        literal_rules(rules),
        max_len(rules) <= usize::MAX,
        fits(deduped(rules)),
        forall|i: int|
            0 <= i < rules.len() && (#[trigger] rules[i]).pattern.len() > 0
                ==> !rules[i].pattern.is_prefix_of(normal(path)),
    ensures
        allows(compiled(rules), path),
{
    let t = deduped(rules);
    lemma_deduped_dom(rules);
    assert(literal_table(t, max_len(rules))) by {
        assert forall|x: Seq<u8>| #[trigger] t.dom().contains(x) implies literal(x) && x.len()
            <= max_len(rules) by {
            let i = choose|i: int| 0 <= i < rules.len() && (#[trigger] rules[i]).pattern == x;
            lemma_max_len(rules, i);
        }
    }
    lemma_literal_matcher(t, max_len(rules), path);
    lemma_longest(t, normal(path));
    if longest(t, normal(path)) is Some {
        let l = longest(t, normal(path))->0;
        let i = choose|i: int| 0 <= i < rules.len() && (#[trigger] rules[i]).pattern == l;
    }
}

/// A pattern without `*` and `$` matches every path that starts with it, and
/// no other: the matcher of the one rule that disallows the pattern denies
/// exactly those paths.
pub proof fn lemma_prefix_pattern(s: Seq<u8>, path: Seq<u8>)
    requires
        literal(s),
        0 < s.len() <= usize::MAX,
        fits(deduped(seq![RuleView { kind: Kind::Disallow, pattern: s }])),
    ensures
        !allows(compiled(seq![RuleView { kind: Kind::Disallow, pattern: s }]), path)
            <==> s.is_prefix_of(normal(path)),
{
    let rules = seq![RuleView { kind: Kind::Disallow, pattern: s }];
    assert(rules[0].pattern == s);
    crate::anchored::lemma_single_table(Kind::Disallow, s);
    assert(max_len(rules) == s.len()) by {
        assert(rules.drop_last() =~= Seq::<RuleView>::empty());
        assert(max_len(rules.drop_last()) == 0);
    }
    if s.is_prefix_of(normal(path)) {
        assert(longest_match(rules, normal(path), s)) by {
            assert forall|r: Seq<u8>| carried(rules, r) && #[trigger] r.is_prefix_of(
                normal(path),
            ) implies r.len() <= s.len() by {
                let i = choose|i: int| 0 <= i < rules.len() && (#[trigger] rules[i]).pattern == r;
            }
        }
        lemma_longest_pattern_wins(rules, path, s);
    } else {
        lemma_no_pattern_allows(rules, path);
    }
}

/// Where no pattern holds `*` or `$`, the matcher that is compiled from the
/// rules lets `Allow` beat `Disallow`: where the longest pattern that the
/// path starts with is carried by a rule that is no `Disallow`, the path is
/// allowed, in whatever order the rules stand and whatever other rules carry
/// the same pattern.
pub proof fn lemma_allow_wins_ties(rules: Seq<RuleView>, path: Seq<u8>, q: Seq<u8>, i: int)
    requires
        literal_rules(rules),
        max_len(rules) <= usize::MAX,
        fits(deduped(rules)),
        longest_match(rules, normal(path), q),
        0 <= i < rules.len(),
        rules[i].pattern == q,
        rules[i].kind != Kind::Disallow,
    ensures
        allows(compiled(rules), path),
{
    let t = deduped(rules);
    assert forall|x: Seq<u8>| #[trigger] t.dom().contains(x) implies carried(rules, x) by {
        lemma_allow_beats_disallow(rules, x);
    }
    assert(literal_table(t, max_len(rules))) by {
        assert forall|x: Seq<u8>| #[trigger] t.dom().contains(x) implies literal(x) && x.len()
            <= max_len(rules) by {
            let k = choose|k: int| 0 <= k < rules.len() && (#[trigger] rules[k]).pattern == x;
            lemma_max_len(rules, k);
        }
    }
    lemma_allow_beats_disallow(rules, q);
    lemma_literal_matcher(t, max_len(rules), path);
    lemma_longest_is(t, normal(path), q);
}

} // verus!
