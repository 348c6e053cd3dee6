//! How large the automata get: no larger than the patterns are long, all
//! together. A state stands for a node of the prefix tree, and of nodes
//! there are no more than bytes in the patterns.

use crate::literal::{lemma_child_bytes_sorted, lemma_child_passes, passes};
use crate::nfa::{
    add_child, add_children, compiled, fits, initial, lemma_add_child_grows,
    lemma_add_child_sound, sound, steps, visit, Build, Item,
};
use crate::dedupe::{deduped, lemma_allow_beats_disallow};
use crate::rule::{Kind, RuleView};
use crate::trie::{carried, child_bytes, table, terminal};
use vstd::prelude::*;

verus! {

/// The number of bytes in the patterns of the rules, all together.
pub open spec fn total_len(rules: Seq<RuleView>) -> nat
    decreases rules.len(),
{
    if rules.len() == 0 {
        0
    } else {
        total_len(rules.drop_last()) + rules.last().pattern.len()
    }
}

/// What a pattern starts with, the empty start apart.
pub open spec fn starts(p: Seq<u8>) -> Set<Seq<u8>> {
    Set::new(|q: Seq<u8>| q.len() > 0 && q.is_prefix_of(p))
}

/// What some pattern of the rules starts with, the empty start apart: the
/// nodes of the prefix tree below its root.
pub open spec fn nodes(rules: Seq<RuleView>) -> Set<Seq<u8>> {
    Set::new(
        |q: Seq<u8>|
            q.len() > 0 && exists|i: int|
                0 <= i < rules.len() && q.is_prefix_of((#[trigger] rules[i]).pattern),
    )
}

/// A pattern has as many starts as bytes.
pub proof fn lemma_starts(p: Seq<u8>)
    ensures
        starts(p).finite(),
        starts(p).len() <= p.len(),
    decreases p.len(),
{
    if p.len() == 0 {
        assert(starts(p) =~= Set::<Seq<u8>>::empty());
    } else {
        let most = p.drop_last();
        lemma_starts(most);
        assert(starts(p) =~= starts(most).insert(p)) by {
            assert forall|q: Seq<u8>| starts(p).contains(q) implies starts(most).insert(
                p,
            ).contains(q) by {
                if q.len() == p.len() {
                    assert(q =~= p);
                } else {
                    assert(q =~= most.subrange(0, q.len() as int));
                }
            }
            assert forall|q: Seq<u8>| starts(most).insert(p).contains(q) implies starts(
                p,
            ).contains(q) by {
                if q == p {
                    assert(p =~= p.subrange(0, p.len() as int));
                } else {
                    assert(q =~= p.subrange(0, q.len() as int));
                }
            }
        }
    }
}

/// The prefix tree has no more nodes below its root than the patterns have
/// bytes, all together.
pub proof fn lemma_nodes(rules: Seq<RuleView>)
    ensures
        nodes(rules).finite(),
        nodes(rules).len() <= total_len(rules),
    decreases rules.len(),
{
    if rules.len() == 0 {
        assert(nodes(rules) =~= Set::<Seq<u8>>::empty());
    } else {
        let most = rules.drop_last();
        let p = rules.last().pattern;
        lemma_nodes(most);
        lemma_starts(p);
        assert(nodes(rules) =~= nodes(most).union(starts(p))) by {
            assert forall|q: Seq<u8>| nodes(rules).contains(q) implies nodes(most).union(
                starts(p),
            ).contains(q) by {
                let i = choose|i: int|
                    0 <= i < rules.len() && q.is_prefix_of((#[trigger] rules[i]).pattern);
                if i < most.len() {
                    assert(q.is_prefix_of(most[i].pattern));
                }
            }
            assert forall|q: Seq<u8>| nodes(most).union(starts(p)).contains(
                q,
            ) implies nodes(rules).contains(q) by {
                if nodes(most).contains(q) {
                    let i = choose|i: int|
                        0 <= i < most.len() && q.is_prefix_of((#[trigger] most[i]).pattern);
                    assert(q.is_prefix_of(rules[i].pattern));
                } else {
                    assert(q.is_prefix_of(rules[rules.len() - 1].pattern));
                }
            }
        }
        vstd::set_lib::lemma_len_union(nodes(most), starts(p));
    }
}

/// Distinct nodes are no more than the nodes of the prefix tree, and these
/// no more than the bytes of the patterns.
pub proof fn lemma_count(rules: Seq<RuleView>, found: Seq<Seq<u8>>)
    requires
        found.no_duplicates(),
        forall|i: int| 0 <= i < found.len() ==> nodes(rules).contains(#[trigger] found[i]),
    ensures
        found.len() <= nodes(rules).len(),
        nodes(rules).len() <= total_len(rules),
{
    lemma_nodes(rules);
    found.unique_seq_to_set();
    assert(found.to_set().subset_of(nodes(rules))) by {
        assert forall|q: Seq<u8>| found.to_set().contains(q) implies nodes(rules).contains(q) by {
            let i = choose|i: int| 0 <= i < found.len() && found[i] == q;
        }
    }
    vstd::set_lib::lemma_len_subset(found.to_set(), nodes(rules));
}

/// Every pattern of the table is carried by a rule.
pub open spec fn covered(t: Map<Seq<u8>, Kind>, rules: Seq<RuleView>) -> bool {
    forall|q: Seq<u8>| #[trigger] t.dom().contains(q) ==> carried(rules, q)
}

/// The table of the rules and the table of the rules without doubles hold
/// patterns of the rules only.
pub proof fn lemma_covered(rules: Seq<RuleView>)
    ensures
        covered(table(rules), rules),
        covered(deduped(rules), rules),
{
    assert forall|q: Seq<u8>| #[trigger] deduped(rules).dom().contains(q) implies carried(
        rules,
        q,
    ) by {
        lemma_allow_beats_disallow(rules, q);
    }
}

/// What a pattern of the table passes through is a node.
pub proof fn lemma_passes_node(t: Map<Seq<u8>, Kind>, rules: Seq<RuleView>, q: Seq<u8>)
    requires
        covered(t, rules),
        passes(t, q),
        q.len() > 0,
    ensures
        nodes(rules).contains(q),
{
    let r = choose|r: Seq<u8>| t.dom().contains(r) && #[trigger] q.is_prefix_of(r);
    let i = choose|i: int| 0 <= i < rules.len() && (#[trigger] rules[i]).pattern == r;
    assert(q.is_prefix_of(rules[i].pattern));
}

/// The nodes found so far are nodes of the prefix tree, each found once,
/// and a node is found only when its parent waits no more. `queue` holds
/// the nodes that wait.
pub open spec fn tidy(rules: Seq<RuleView>, queue: Seq<Seq<u8>>, found: Seq<Seq<u8>>) -> bool {
    &&& found.len() > 0
    &&& found[0].len() == 0
    &&& found.no_duplicates()
    &&& forall|i: int| 1 <= i < found.len() ==> nodes(rules).contains(#[trigger] found[i])
    &&& forall|k: int| 0 <= k < queue.len() ==> found.contains(#[trigger] queue[k])
    &&& queue.no_duplicates()
    &&& forall|i: int|
        1 <= i < found.len() ==> found.contains((#[trigger] found[i]).drop_last())
            && !queue.contains(found[i].drop_last())
}

/// The nodes that wait.
pub open spec fn waiting(b: Build) -> Seq<Seq<u8>> {
    Seq::new(b.queue.len(), |k: int| b.queue[k].prefix)
}

/// What holds of the construction all along, whatever the patterns: the
/// nodes found so far are nodes of the prefix tree, each found once; a node
/// is found only when its parent waits no more; and the states are at most
/// two a node.
pub open spec fn kept(rules: Seq<RuleView>, b: Build, found: Seq<Seq<u8>>) -> bool {
    &&& tidy(rules, waiting(b), found)
    &&& sound(b)
    &&& b.states.len() <= 2 * found.len()
}

/// The nodes that the visit of the node `q` finds: its children.
pub open spec fn found_by(t: Map<Seq<u8>, Kind>, q: Seq<u8>) -> Seq<Seq<u8>> {
    let kids = child_bytes(t, q, 0);
    Seq::new(kids.len(), |k: int| q.push(kids[k]))
}

/// The children of a node are new, and with them the nodes found are still
/// no more than the bytes of the patterns, and the root.
proof fn lemma_children_new(
    t: Map<Seq<u8>, Kind>,
    rules: Seq<RuleView>,
    queue: Seq<Seq<u8>>,
    found: Seq<Seq<u8>>,
)
    requires
        covered(t, rules),
        tidy(rules, queue, found),
        queue.len() > 0,
    ensures
        tidy(rules, queue.drop_first() + found_by(t, queue[0]), found + found_by(t, queue[0])),
        (found + found_by(t, queue[0])).len() <= nodes(rules).len() + 1,
{
    let q = queue[0];
    let kids = child_bytes(t, q, 0);
    let new = found_by(t, q);
    let all = found + new;
    let next = queue.drop_first() + new;
    lemma_child_bytes_sorted(t, q, 0);
    assert forall|k: int| 0 <= k < new.len() implies !found.contains(#[trigger] new[k])
        && nodes(rules).contains(new[k]) && new[k].drop_last() == q by {
        let r = new[k];
        assert(r.drop_last() =~= q);
        if found.contains(r) {
            let i = choose|i: int| 0 <= i < found.len() && found[i] == r;
            assert(!queue.contains(found[i].drop_last()));
        }
        assert(kids.contains(kids[k]));
        lemma_child_passes(t, q, kids[k]);
        lemma_passes_node(t, rules, r);
    }
    assert forall|k: int, l: int| 0 <= k < l < new.len() implies new[k] != new[l] by {
        assert(kids[k] < kids[l]);
        assert(new[k].last() == kids[k] && new[l].last() == kids[l]);
    }
    lemma_tidy(rules, queue, found, new);
    let below = all.skip(1);
    assert(below.no_duplicates()) by {
        assert forall|i: int, j: int| 0 <= i < j < below.len() implies below[i] != below[j] by {
            assert(all[i + 1] != all[j + 1]);
        }
    }
    assert forall|i: int| 0 <= i < below.len() implies nodes(rules).contains(
        #[trigger] below[i],
    ) by {
        assert(below[i] == all[i + 1]);
    }
    lemma_count(rules, below);
}

/// New nodes whose parent waits first keep the nodes tidy when the parent
/// leaves the queue and they join it.
proof fn lemma_tidy(
    rules: Seq<RuleView>,
    queue: Seq<Seq<u8>>,
    found: Seq<Seq<u8>>,
    new: Seq<Seq<u8>>,
)
    requires
        tidy(rules, queue, found),
        queue.len() > 0,
        new.no_duplicates(),
        forall|k: int|
            0 <= k < new.len() ==> !found.contains(#[trigger] new[k]) && nodes(rules).contains(
                new[k],
            ) && new[k].drop_last() == queue[0],
    ensures
        tidy(rules, queue.drop_first() + new, found + new),
{
    let q = queue[0];
    let all = found + new;
    let next = queue.drop_first() + new;
    let old = queue.len() - 1;
    assert forall|i: int, j: int| 0 <= i < j < all.len() implies all[i] != all[j] by {
        if j >= found.len() && i < found.len() {
            assert(!found.contains(new[j - found.len()]));
        }
    }
    assert forall|k: int| 0 <= k < next.len() implies all.contains(#[trigger] next[k]) by {
        if k < old {
            assert(next[k] == queue[k + 1]);
            let i = choose|i: int| 0 <= i < found.len() && found[i] == queue[k + 1];
            assert(all[i] == found[i]);
        } else {
            assert(all[found.len() + (k - old)] == new[k - old]);
        }
    }
    assert forall|k: int, l: int| 0 <= k < l < next.len() implies next[k] != next[l] by {
        if l < old {
            assert(queue[k + 1] != queue[l + 1]);
        } else if k < old {
            assert(found.contains(queue[k + 1]));
            assert(!found.contains(new[l - old]));
        }
    }
    assert forall|r: Seq<u8>| next.contains(r) implies (queue.contains(r) && r != q)
        || new.contains(r) by {
        let k = choose|k: int| 0 <= k < next.len() && next[k] == r;
        if k < old {
            assert(queue[k + 1] == r);
            assert(queue[k + 1] != queue[0]);
        } else {
            assert(new[k - old] == r);
        }
    }
    assert forall|i: int| 1 <= i < all.len() implies all.contains(
        (#[trigger] all[i]).drop_last(),
    ) && !next.contains(all[i].drop_last()) by {
        let parent = all[i].drop_last();
        if i < found.len() {
            assert(all[i] == found[i]);
            let j = choose|j: int| 0 <= j < found.len() && found[j] == parent;
            assert(all[j] == parent);
            if new.contains(parent) {
                let k = choose|k: int| 0 <= k < new.len() && new[k] == parent;
                assert(!found.contains(new[k]));
            }
        } else {
            assert(all[i] == new[i - found.len()]);
            assert(parent == q);
            assert(found.contains(q));
            let j = choose|j: int| 0 <= j < found.len() && found[j] == q;
            assert(all[j] == q);
            if new.contains(q) {
                let k = choose|k: int| 0 <= k < new.len() && new[k] == q;
                assert(!found.contains(new[k]));
            }
        }
    }
    assert(all[0] == found[0]);
    assert forall|i: int| 1 <= i < all.len() implies nodes(rules).contains(#[trigger] all[i]) by {
        if i >= found.len() {
            assert(all[i] == new[i - found.len()]);
        }
    }
}

/// The children of a node add two states each at most, and keep the
/// construction within bounds.
proof fn lemma_children_kept(
    t: Map<Seq<u8>, Kind>,
    b: Build,
    item: Item,
    kids: Seq<u8>,
    k: int,
    room: int,
)
    requires
        0 <= k <= kids.len(),
        sound(b),
        item.parent_state < b.states.len(),
        item.epsilon_state matches Some(before) ==> before < b.states.len(),
        b.states.len() + 2 * kids.len() <= room <= usize::MAX,
    ensures
        sound(add_children(t, b, item, kids.take(k))),
        b.states.len() <= add_children(t, b, item, kids.take(k)).states.len() <= b.states.len() + 2
            * k,
        add_children(t, b, item, kids.take(k)).queue.len() == b.queue.len() + k,
        forall|j: int|
            0 <= j < b.queue.len() ==> #[trigger] add_children(t, b, item, kids.take(k)).queue[j]
                == b.queue[j],
        forall|j: int|
            0 <= j < k ==> (#[trigger] add_children(t, b, item, kids.take(k)).queue[b.queue.len()
                + j]).prefix == item.prefix.push(kids[j]),
    decreases k,
{
    if k == 0 {
        assert(kids.take(0) =~= Seq::<u8>::empty());
    } else {
        lemma_children_kept(t, b, item, kids, k - 1, room);
        let seen = kids.take(k - 1);
        let now = kids.take(k);
        assert(now.drop_last() =~= seen);
        assert(now.last() == kids[k - 1]);
        let mid = add_children(t, b, item, seen);
        let c = kids[k - 1];
        let kind = terminal(t, item.prefix.push(c));
        let a = add_children(t, b, item, now);
        assert(a == add_child(mid, item, c, kind));
        lemma_add_child_grows(mid, item, c, kind);
        lemma_add_child_sound(mid, item, c, kind);
        assert forall|j: int| 0 <= j < b.queue.len() implies #[trigger] a.queue[j]
            == b.queue[j] by {
            assert(mid.queue[j] == b.queue[j]);
        }
        assert forall|j: int| 0 <= j < k implies (#[trigger] a.queue[b.queue.len() + j]).prefix
            == item.prefix.push(kids[j]) by {
            if j < k - 1 {
                assert(a.queue[b.queue.len() + j] == mid.queue[b.queue.len() + j]);
            }
        }
    }
}

/// A visit takes the node that waits first from the queue, and adds its
/// children behind the others, with two states each at most.
proof fn lemma_visit_queue(t: Map<Seq<u8>, Kind>, b: Build, room: int)
    requires
        sound(b),
        b.queue.len() > 0,
        b.states.len() + 2 * found_by(t, b.queue[0].prefix).len() <= room <= usize::MAX,
    ensures
        sound(visit(t, b)),
        visit(t, b).states.len() <= b.states.len() + 2 * found_by(t, b.queue[0].prefix).len(),
        waiting(visit(t, b)) == waiting(b).drop_first() + found_by(t, b.queue[0].prefix),
{
    let item = b.queue[0];
    let kids = child_bytes(t, item.prefix, 0);
    let rest = Build { states: b.states, queue: b.queue.drop_first() };
    assert(sound(rest)) by {
        assert forall|k: int| 0 <= k < rest.queue.len() implies (
        #[trigger] rest.queue[k]).parent_state < rest.states.len() && (
        rest.queue[k].epsilon_state matches Some(before) ==> before < rest.states.len()) by {
            assert(rest.queue[k] == b.queue[k + 1]);
        }
    }
    lemma_children_kept(t, rest, item, kids, kids.len() as int, room);
    assert(kids.take(kids.len() as int) =~= kids);
    let a = visit(t, b);
    assert(a == add_children(t, rest, item, kids));
    let old = rest.queue.len() as int;
    assert forall|k: int| 0 <= k < a.queue.len() implies #[trigger] waiting(a)[k] == (waiting(
        b,
    ).drop_first() + found_by(t, item.prefix))[k] by {
        if k < old {
            assert(a.queue[k] == rest.queue[k]);
        } else {
            assert(a.queue[old + (k - old)].prefix == item.prefix.push(kids[k - old]));
        }
    }
    assert(waiting(a) =~= waiting(b).drop_first() + found_by(t, item.prefix));
}

/// Whatever the patterns, the construction keeps to its size, and every
/// node found has been visited or waits.
pub proof fn lemma_steps_kept(t: Map<Seq<u8>, Kind>, rules: Seq<RuleView>, n: nat) -> (found: Seq<
    Seq<u8>,
>)
    requires
        covered(t, rules),
        2 * nodes(rules).len() + 2 <= usize::MAX,
    ensures
        kept(rules, steps(t, n), found),
        found.len() <= nodes(rules).len() + 1,
        steps(t, n).queue.len() == 0 || n + steps(t, n).queue.len() == found.len(),
    decreases n,
{
    if n == 0 {
        let found = seq![Seq::<u8>::empty()];
        let b = initial();
        lemma_nodes(rules);
        assert(found.contains(waiting(b)[0])) by {
            assert(found[0] == waiting(b)[0]);
        }
        assert(kept(rules, b, found));
        found
    } else {
        let found = lemma_steps_kept(t, rules, (n - 1) as nat);
        let b = steps(t, (n - 1) as nat);
        if b.queue.len() == 0 {
            found
        } else {
            let new = found_by(t, b.queue[0].prefix);
            assert(waiting(b)[0] == b.queue[0].prefix);
            lemma_children_new(t, rules, waiting(b), found);
            lemma_visit_queue(t, b, 2 * ((found + new).len() as int));
            assert(waiting(visit(t, b)).len() == b.queue.len() - 1 + new.len());
            found + new
        }
    }
}

/// The automaton has at most two states for each node of the prefix tree,
/// and two more: its size is linear in what the patterns start with, and so
/// in the bytes of the patterns. Rules whose automaton can be counted in
/// this way can be compiled, and the construction ends with one visit for each node and one for the root.
pub proof fn lemma_size(rules: Seq<RuleView>)
    requires
        2 * nodes(rules).len() + 2 <= usize::MAX,
    ensures
        compiled(rules).len() <= 2 * nodes(rules).len() + 2,
        nodes(rules).len() <= total_len(rules),
        fits(deduped(rules)),
        crate::nfa::settled(deduped(rules), nodes(rules).len() + 1),
{
    lemma_nodes(rules);
    lemma_covered(rules);
    let d = deduped(rules);
    assert forall|n: nat| (#[trigger] steps(d, n)).states.len() <= usize::MAX by {
        let found = lemma_steps_kept(d, rules, n);
    }
    let n = choose|n: nat| crate::nfa::settled(d, n);
    let found = lemma_steps_kept(d, rules, n);
    let found = lemma_steps_kept(d, rules, nodes(rules).len() + 1);
}

/// The nodes that wait in the deterministic construction.
pub open spec fn dfa_waiting(b: crate::dfa::Build) -> Seq<Seq<u8>> {
    Seq::new(b.queue.len(), |k: int| b.queue[k].prefix)
}

/// What holds of the deterministic construction all along, whatever the
/// patterns: the nodes found so far are nodes of the prefix tree, each found
/// once, and each has a state of its own, made or kept for it.
pub open spec fn dfa_kept(rules: Seq<RuleView>, b: crate::dfa::Build, found: Seq<Seq<u8>>) -> bool {
    &&& tidy(rules, dfa_waiting(b), found)
    &&& crate::dfa::sound(b)
    &&& b.machine.states.len() + b.queue.len() == found.len() + 2
}

/// Whatever the patterns, the deterministic construction keeps to its
/// size, and every node found has been visited or waits.
pub proof fn lemma_dfa_steps_kept(t: Map<Seq<u8>, Kind>, rules: Seq<RuleView>, n: nat) -> (found:
    Seq<Seq<u8>>)
    requires
        covered(t, rules),
        nodes(rules).len() + 3 <= usize::MAX,
    ensures
        dfa_kept(rules, crate::dfa::steps(t, n), found),
        found.len() <= nodes(rules).len() + 1,
        crate::dfa::steps(t, n).queue.len() == 0 || n + crate::dfa::steps(t, n).queue.len()
            == found.len(),
    decreases n,
{
    if n == 0 {
        let found = seq![Seq::<u8>::empty()];
        let b = crate::dfa::initial();
        lemma_nodes(rules);
        assert(found.contains(dfa_waiting(b)[0])) by {
            assert(found[0] == dfa_waiting(b)[0]);
        }
        assert(dfa_kept(rules, b, found));
        found
    } else {
        let found = lemma_dfa_steps_kept(t, rules, (n - 1) as nat);
        let b = crate::dfa::steps(t, (n - 1) as nat);
        if b.queue.len() == 0 {
            found
        } else {
            let q = b.queue[0].prefix;
            let new = found_by(t, q);
            let a = crate::dfa::visit(t, b);
            assert(dfa_waiting(b)[0] == q);
            lemma_children_new(t, rules, dfa_waiting(b), found);
            crate::dfa::lemma_visit_sound(t, b);
            assert(dfa_waiting(a) =~= dfa_waiting(b).drop_first() + new) by {
                let items = crate::dfa::child_items(t, b);
                assert(a.queue =~= b.queue.drop_first() + items);
                assert forall|k: int| 0 <= k < a.queue.len() implies #[trigger] dfa_waiting(a)[k]
                    == (dfa_waiting(b).drop_first() + new)[k] by {
                    if k < b.queue.len() - 1 {
                        assert(a.queue[k] == b.queue[k + 1]);
                    } else {
                        assert(a.queue[k] == items[k - (b.queue.len() - 1)]);
                    }
                }
            }
            found + new
        }
    }
}

/// The prefix tree as a deterministic automaton, which is the automaton of
/// rules without `*`, has one state for each node of the tree, and three
/// more at most. Rules whose automaton can be counted in
/// this way can be compiled: the construction ends with one visit for each
/// node and one for the root, and leaves an automaton in which every state
/// has a verdict and a fallback, and every transition leads to a state.
pub proof fn lemma_dfa_size(rules: Seq<RuleView>)
    requires
        nodes(rules).len() + 3 <= usize::MAX,
    ensures
        crate::dfa::compiled(rules).states.len() <= nodes(rules).len() + 3,
        nodes(rules).len() <= total_len(rules),
        crate::dfa::fits(deduped(rules)),
        crate::dfa::settled(deduped(rules), nodes(rules).len() + 1),
        crate::dfa::compiled(rules).wf(),
{
    lemma_nodes(rules);
    lemma_covered(rules);
    let t = deduped(rules);
    assert forall|n: nat|
        (#[trigger] crate::dfa::steps(t, n)).machine.states.len() + crate::dfa::steps(
            t,
            n,
        ).queue.len() <= usize::MAX by {
        let found = lemma_dfa_steps_kept(t, rules, n);
    }
    let n = choose|n: nat| crate::dfa::settled(t, n);
    let found = lemma_dfa_steps_kept(t, rules, n);
    let found = lemma_dfa_steps_kept(t, rules, nodes(rules).len() + 1);
    assert(crate::dfa::settled(t, nodes(rules).len() + 1));
    assert(n >= 1);
    crate::dfa::lemma_steps_sinks(t, n);
}

/// An automaton whose states can be counted at all keeps to these sizes.
pub proof fn lemma_counted(rules: Seq<RuleView>)
    ensures
        compiled(rules).len() <= usize::MAX ==> compiled(rules).len() <= 2 * nodes(rules).len()
            + 2,
        crate::dfa::compiled(rules).states.len() <= usize::MAX ==> crate::dfa::compiled(
            rules,
        ).states.len() <= nodes(rules).len() + 3,
{
    if 2 * nodes(rules).len() + 2 <= usize::MAX {
        lemma_size(rules);
    }
    if nodes(rules).len() + 3 <= usize::MAX {
        lemma_dfa_size(rules);
    }
}

} // verus!
