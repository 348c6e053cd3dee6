//! The non-deterministic matcher: a set of active states, and at the end of
//! the path the verdict of the state that weighs most.

use crate::delay::{delay_of, min_delay};
use crate::rule::{
    ends_with, normal, sort_rules, sorted as sorted_rules, views, Kind, RuleView, EOW_BYTE,
    ROOT_BYTE, WILDCARD_BYTE,
};
use crate::trie::{
    child_bytes, children, children_of, leads, lemma_max_len, lemma_table_stable, max_len, table,
    terminal,
};
use crate::dedupe::{dedupe, deduped, lemma_dedupes_table};
use std::collections::{BTreeSet, VecDeque};
use vstd::prelude::*;

pub use crate::rule::Rule;

verus! {

/// The verdict of a state. A `Delay` state allows, as an `Allow` state does.
#[derive(Debug, Clone, Copy, PartialEq, Eq, Structural)]
pub enum Accept {
    Allow,
    Disallow,
    Delay,
}

/// A state of the automaton. Every state allows or disallows the paths that
/// end in it. Its labelled edges lead on under one byte each; its wildcard
/// edges lead on under any byte, and a state without wildcard edges stays
/// active under any byte.
#[derive(Debug, PartialEq, Eq)]
pub struct Node {
    pub accept: Accept,
    pub edges: Vec<(u8, usize)>,
    pub weight: usize,
    pub wildcards: Vec<usize>,
}

/// The mathematical value of a [`Node`].
pub struct NodeView {
    pub accept: Accept,
    pub edges: Seq<(u8, usize)>,
    pub weight: usize,
    pub wildcards: Seq<usize>,
}

impl View for Node {
    type V = NodeView;

    open spec fn view(&self) -> NodeView {
        NodeView {
            accept: self.accept,
            edges: self.edges@,
            weight: self.weight,
            wildcards: self.wildcards@,
        }
    }
}

impl Clone for Node {
    fn clone(&self) -> (copy: Self)
        ensures
            copy@ == self@,
    {
        let mut edges: Vec<(u8, usize)> = Vec::new();
        let mut i: usize = 0;
        while i < self.edges.len()
            invariant
                0 <= i <= self.edges.len(),
                edges@ == self.edges@.take(i as int),
            decreases self.edges.len() - i,
        {
            edges.push(self.edges[i]);
            assert(edges@ =~= self.edges@.take(i + 1));
            i += 1;
        }
        assert(self.edges@.take(i as int) =~= self.edges@);
        let wildcards = self.wildcards.clone();
        assert(wildcards@ =~= self.wildcards@);
        Node { accept: self.accept, edges, weight: self.weight, wildcards }
    }
}

/// The mathematical values of a list of nodes, in the same order.
pub open spec fn node_views(nodes: Seq<Node>) -> Seq<NodeView> {
    nodes.map_values(|n: Node| n@)
}

/// The targets of the edges labelled `byte`, in the order of the edges.
pub open spec fn targets_under(edges: Seq<(u8, usize)>, byte: u8) -> Seq<usize>
    decreases edges.len(),
{
    if edges.len() == 0 {
        Seq::empty()
    } else if edges.last().0 == byte {
        targets_under(edges.drop_last(), byte).push(edges.last().1)
    } else {
        targets_under(edges.drop_last(), byte)
    }
}

impl NodeView {
    /// Whether the state allows the paths that end in it.
    pub open spec fn allows(self) -> bool {
        self.accept != Accept::Disallow
    }

    /// Twice the weight, and one more for a state that allows: among states
    /// of one weight the allowing one weighs more.
    pub open spec fn normalized_weight(self) -> int {
        2 * self.weight + if self.allows() {
            1int
        } else {
            0int
        }
    }

    /// The states that follow this one under `byte`, in the order in which
    /// they are found: the targets of the labelled edges under `byte`, then
    /// the targets of the wildcard edges, or `fallback` where there is none.
    pub open spec fn successors(self, byte: u8, fallback: usize) -> Seq<usize> {
        targets_under(self.edges, byte) + self.wildcards + if self.wildcards.len() == 0 {
            seq![fallback]
        } else {
            Seq::empty()
        }
    }
}

impl Node {
    /// A state without edges.
    pub fn new(accept: Accept, weight: usize) -> (node: Node)
        ensures
            node@ == (NodeView { accept, edges: Seq::empty(), weight, wildcards: Seq::empty() }),
    {
        Node { accept, edges: Vec::new(), weight, wildcards: Vec::new() }
    }

    /// Adds an edge to `state` under the byte `edge`.
    pub fn add_edge(&mut self, edge: u8, state: usize)
        ensures
            final(self)@ == (NodeView { edges: old(self)@.edges.push((edge, state)), ..old(self)@ }),
    {
        self.edges.push((edge, state));
    }

    /// Adds an edge to `state` under any byte.
    pub fn add_wildcard(&mut self, state: usize)
        ensures
            final(self)@ == (NodeView { wildcards: old(self)@.wildcards.push(state), ..old(self)@ }),
    {
        self.wildcards.push(state);
    }

    /// The states that follow this one under the byte `edge`. A state without
    /// wildcard edges is followed by `fallback`, which the caller sets to the
    /// state itself.
    pub fn follow_edges(&self, edge: u8, fallback: usize) -> (out: Vec<usize>)
        ensures
            out@ == self@.successors(edge, fallback),
    {
        let mut out: Vec<usize> = Vec::new();
        let mut i: usize = 0;
        while i < self.edges.len()
            invariant
                0 <= i <= self.edges.len(),
                out@ == targets_under(self.edges@.take(i as int), edge),
            decreases self.edges.len() - i,
        {
            let (byte, state) = self.edges[i];
            assert(self.edges@.take(i + 1).drop_last() =~= self.edges@.take(i as int));
            if byte == edge {
                out.push(state);
            }
            i += 1;
        }
        assert(self.edges@.take(i as int) =~= self.edges@);
        let ghost labelled = out@;
        let mut i: usize = 0;
        while i < self.wildcards.len()
            invariant
                0 <= i <= self.wildcards.len(),
                out@ == labelled + self.wildcards@.take(i as int),
            decreases self.wildcards.len() - i,
        {
            out.push(self.wildcards[i]);
            assert(self.wildcards@.take(i + 1) =~= self.wildcards@.take(i as int).push(
                self.wildcards@[i as int],
            ));
            i += 1;
        }
        assert(self.wildcards@.take(i as int) =~= self.wildcards@);
        if self.wildcards.len() == 0 {
            out.push(fallback);
        }
        assert(out@ =~= self@.successors(edge, fallback));
        out
    }

    /// Whether the state allows the paths that end in it.
    pub fn allow(&self) -> (allowed: bool)
        ensures
            allowed == self@.allows(),
    {
        match self.accept {
            Accept::Allow => true,
            Accept::Disallow => false,
            Accept::Delay => true,
        }
    }

    /// The weight by which the active states are compared at the end of a
    /// path. It is wide enough for any weight.
    pub fn normalized_weight(&self) -> (w: u128)
        ensures
            w == self@.normalized_weight(),
    {
        let twice: u128 = 2 * (self.weight as u128);
        match self.accept {
            Accept::Allow => 1 + twice,
            Accept::Disallow => twice,
            Accept::Delay => 1 + twice,
        }
    }
}

/// A node of the prefix tree that waits for its turn: the bytes that lead to
/// it, the state that stands for it, and, behind a `*`, the state before the `*`,
/// which gets the node's children too.
pub struct Item {
    pub prefix: Seq<u8>,
    pub parent_state: usize,
    pub epsilon_state: Option<usize>,
}

/// The automaton under construction: the states made so far, and the nodes
/// that wait, in the order in which they were found.
pub struct Build {
    pub states: Seq<NodeView>,
    pub queue: Seq<Item>,
}

/// The states with one more wildcard edge, from `from` to `to`.
pub open spec fn with_wildcard(s: Seq<NodeView>, from: usize, to: usize) -> Seq<NodeView> {
    s.update(from as int, NodeView { wildcards: s[from as int].wildcards.push(to), ..s[from as int] })
}

/// The states with one more labelled edge, from `from` to `to` under `byte`.
pub open spec fn with_edge(s: Seq<NodeView>, from: usize, byte: u8, to: usize) -> Seq<NodeView> {
    s.update(from as int, NodeView { edges: s[from as int].edges.push((byte, to)), ..s[from as int] })
}

/// The states with the verdict of state `at` replaced.
pub open spec fn with_accept(s: Seq<NodeView>, at: usize, accept: Accept) -> Seq<NodeView> {
    s.update(at as int, NodeView { accept, ..s[at as int] })
}

/// The states with the weight of state `at` replaced.
pub open spec fn with_weight(s: Seq<NodeView>, at: usize, weight: usize) -> Seq<NodeView> {
    s.update(at as int, NodeView { weight, ..s[at as int] })
}

/// The states with one more wildcard edge to `to` from each target of `edges`.
pub open spec fn spread(s: Seq<NodeView>, edges: Seq<(u8, usize)>, to: usize) -> Seq<NodeView>
    decreases edges.len(),
{
    if edges.len() == 0 {
        s
    } else {
        with_wildcard(spread(s, edges.drop_last(), to), edges.last().1, to)
    }
}

/// The wildcard targets other than `state`, in order.
pub open spec fn without(wildcards: Seq<usize>, state: usize) -> Seq<usize>
    decreases wildcards.len(),
{
    if wildcards.len() == 0 {
        Seq::empty()
    } else if wildcards.last() != state {
        without(wildcards.drop_last(), state).push(wildcards.last())
    } else {
        without(wildcards.drop_last(), state)
    }
}

/// The verdict of a new state: that of the rule that ends there, else the
/// one it inherits.
pub open spec fn accept_of(kind: Option<Kind>, inherited: Accept) -> Accept {
    match kind {
        Some(Kind::Allow) => Accept::Allow,
        Some(Kind::Disallow) => Accept::Disallow,
        Some(Kind::Delay) => Accept::Allow,
        None => inherited,
    }
}

/// A state without edges.
pub open spec fn bare(accept: Accept, weight: usize) -> NodeView {
    NodeView { accept, edges: Seq::empty(), weight, wildcards: Seq::empty() }
}

/// Before any node is visited: the root, which any byte leads out of, the
/// state that allows whatever no pattern matches, and the root waiting.
pub open spec fn initial() -> Build {
    Build {
        states: seq![
            NodeView { wildcards: seq![1usize], ..bare(Accept::Allow, 0) },
            bare(Accept::Allow, 0),
        ],
        queue: seq![Item { prefix: Seq::empty(), parent_state: 0, epsilon_state: None }],
    }
}

/// The weight of the state behind a `$` that follows `prefix`: that of the
/// whole pattern, and one less where the pattern holds a `*`.
pub open spec fn behind_weight(prefix: Seq<u8>) -> usize {
    if prefix.contains(WILDCARD_BYTE) {
        prefix.len() as usize
    } else {
        (prefix.len() + 1) as usize
    }
}

/// Adds the child of `item` under `byte`; `kind` is the kind of the rule
/// that ends at the child, if one does.
///
/// - `*` behind `*` adds no state: the longer node waits in the name of the same state.
/// - `*` adds a state that loops on any byte, with wildcard edges to it from
///   the parent and from the states the parent's edges lead to. Where a rule
///   ends at the `*`, the parent takes its verdict, since `*` may take no byte.
///   The children of the new node will hang from the parent too.
/// - `$` adds a state for what goes on behind the end: it takes the parent's
///   verdict and is reached by a wildcard edge. The parent takes the verdict
///   and the weight of the rule, which holds where the path ends. Behind a
///   `*` the end can come again while the state behind it is still open, so
///   there the state behind the end weighs less than the end.
/// - `$` behind `*` adds no state: the `*` takes the rest of the path, so the
///   state of the `*` takes the verdict of the rule, and so does the state
///   before the `*`, since `*` may take no byte.
/// - Any other byte adds a state under a labelled edge. Where a rule ends
///   there, the state leads on to a sink of the same verdict and weight; else
///   it inherits the parent's wildcard edges.
pub open spec fn add_child(b: Build, item: Item, byte: u8, kind: Option<Kind>) -> Build {
    let prefix = item.prefix.push(byte);
    let parent = b.states[item.parent_state as int];
    let accept = accept_of(kind, parent.accept);
    let state = b.states.len() as usize;
    let weight = prefix.len() as usize;
    if byte == WILDCARD_BYTE && ends_with(item.prefix, WILDCARD_BYTE) {
        Build {
            states: b.states,
            queue: b.queue.push(
                Item { prefix, parent_state: item.parent_state, epsilon_state: None },
            ),
        }
    } else if byte == EOW_BYTE && ends_with(item.prefix, WILDCARD_BYTE) {
        let judged = with_accept(b.states, item.parent_state, accept);
        Build {
            states: match item.epsilon_state {
                Some(before) => with_accept(judged, before, accept),
                None => judged,
            },
            queue: b.queue.push(
                Item { prefix, parent_state: item.parent_state, epsilon_state: None },
            ),
        }
    } else {
        let around = if byte == WILDCARD_BYTE {
            let hooked = with_wildcard(b.states, item.parent_state, state);
            let judged = if kind is Some {
                with_accept(hooked, item.parent_state, accept)
            } else {
                hooked
            };
            spread(judged, parent.edges, state)
        } else if byte == EOW_BYTE {
            with_weight(
                with_accept(with_wildcard(b.states, item.parent_state, state), item.parent_state, accept),
                item.parent_state,
                weight,
            )
        } else {
            with_edge(b.states, item.parent_state, byte, state)
        };
        let child = if byte == WILDCARD_BYTE {
            NodeView { wildcards: seq![state], ..bare(accept, weight) }
        } else if byte == EOW_BYTE {
            bare(parent.accept, behind_weight(item.prefix))
        } else if kind is Some {
            NodeView { wildcards: seq![(state + 1) as usize], ..bare(accept, weight) }
        } else {
            NodeView { wildcards: without(parent.wildcards, state), ..bare(accept, weight) }
        };
        let linked = match item.epsilon_state {
            Some(before) => with_edge(around, before, byte, state),
            None => around,
        };
        let grown = linked.push(child);
        Build {
            states: if byte != WILDCARD_BYTE && byte != EOW_BYTE && kind is Some {
                grown.push(bare(accept, weight))
            } else {
                grown
            },
            queue: b.queue.push(
                Item {
                    prefix,
                    parent_state: state,
                    epsilon_state: if byte == WILDCARD_BYTE {
                        Some(item.parent_state)
                    } else {
                        None
                    },
                },
            ),
        }
    }
}

/// Adds the children of `item` under the bytes `kids`, in order.
pub open spec fn add_children(t: Map<Seq<u8>, Kind>, b: Build, item: Item, kids: Seq<u8>) -> Build
    decreases kids.len(),
{
    if kids.len() == 0 {
        b
    } else {
        add_child(
            add_children(t, b, item, kids.drop_last()),
            item,
            kids.last(),
            terminal(t, item.prefix.push(kids.last())),
        )
    }
}

/// Takes the node that waits first and adds its children, in increasing
/// order of their bytes.
pub open spec fn visit(t: Map<Seq<u8>, Kind>, b: Build) -> Build {
    if b.queue.len() == 0 {
        b
    } else {
        add_children(
            t,
            Build { states: b.states, queue: b.queue.drop_first() },
            b.queue[0],
            child_bytes(t, b.queue[0].prefix, 0),
        )
    }
}

/// The construction after `n` visits, breadth first from the root.
pub open spec fn steps(t: Map<Seq<u8>, Kind>, n: nat) -> Build
    decreases n,
{
    if n == 0 {
        initial()
    } else {
        visit(t, steps(t, (n - 1) as nat))
    }
}

/// After `n` visits no node waits.
pub open spec fn settled(t: Map<Seq<u8>, Kind>, n: nat) -> bool {
    steps(t, n).queue.len() == 0
}

/// The states of the automaton of a table of patterns: the prefix tree of
/// the patterns, walked breadth first until no node waits.
pub open spec fn automaton(t: Map<Seq<u8>, Kind>) -> Seq<NodeView> {
    steps(t, choose|n: nat| settled(t, n)).states
}

/// The states of the automaton of a list of rules, in whatever order they
/// stand and with whatever doubles.
pub open spec fn compiled(rules: Seq<RuleView>) -> Seq<NodeView> {
    automaton(deduped(rules))
}

/// The construction never holds more states than can be counted.
pub open spec fn fits(t: Map<Seq<u8>, Kind>) -> bool {
    forall|n: nat| (#[trigger] steps(t, n)).states.len() <= usize::MAX
}

/// Once no node waits, further visits change nothing.
pub proof fn lemma_settled_stays(t: Map<Seq<u8>, Kind>, n: nat, m: nat)
    requires
        settled(t, n),
        n <= m,
    ensures
        steps(t, m) == steps(t, n),
    decreases m,
{
    if n < m {
        lemma_settled_stays(t, n, (m - 1) as nat);
    }
}

/// Whenever no node waits, the states are those of the rules' automaton.
pub proof fn lemma_compiled(rules: Seq<RuleView>, n: nat)
    requires
        settled(deduped(rules), n),
    ensures
        compiled(rules) == steps(deduped(rules), n).states,
{
    let t = deduped(rules);
    let c = choose|c: nat| settled(t, c);
    if c <= n {
        lemma_settled_stays(t, c, n);
    } else {
        lemma_settled_stays(t, n, c);
    }
}

/// What keeps the construction within bounds: every labelled edge leads to
/// a state, and every node that waits names states.
pub open spec fn sound(b: Build) -> bool {
    &&& b.states.len() >= 2
    &&& forall|s: int, i: int|
        0 <= s < b.states.len() && 0 <= i < b.states[s].edges.len() ==> (
        #[trigger] b.states[s].edges[i]).1 < b.states.len()
    &&& forall|k: int|
        0 <= k < b.queue.len() ==> (#[trigger] b.queue[k]).parent_state < b.states.len() && (
        b.queue[k].epsilon_state matches Some(before) ==> before < b.states.len())
}

/// Wildcard edges leave the number of states and their labelled edges alone.
pub proof fn lemma_spread(s: Seq<NodeView>, edges: Seq<(u8, usize)>, to: usize)
    requires
        forall|i: int| 0 <= i < edges.len() ==> (#[trigger] edges[i]).1 < s.len(),
    ensures
        spread(s, edges, to).len() == s.len(),
        forall|i: int|
            0 <= i < s.len() ==> (#[trigger] spread(s, edges, to)[i]).edges == s[i].edges,
    decreases edges.len(),
{
    if edges.len() > 0 {
        let rest = edges.drop_last();
        assert forall|i: int| 0 <= i < rest.len() implies (#[trigger] rest[i]).1 < s.len() by {
            assert(rest[i] == edges[i]);
        }
        lemma_spread(s, rest, to);
        assert(edges[edges.len() - 1].1 < s.len());
    }
}

/// A new child adds at most two states and one node that waits.
pub proof fn lemma_add_child_grows(b: Build, item: Item, byte: u8, kind: Option<Kind>)
    requires
        sound(b),
        item.parent_state < b.states.len(),
        item.epsilon_state matches Some(before) ==> before < b.states.len(),
    ensures
        b.states.len() <= add_child(b, item, byte, kind).states.len() <= b.states.len() + 2,
        add_child(b, item, byte, kind).queue.len() == b.queue.len() + 1,
        add_child(b, item, byte, kind).queue.last().prefix == item.prefix.push(byte),
        forall|k: int|
            0 <= k < b.queue.len() ==> #[trigger] add_child(b, item, byte, kind).queue[k]
                == b.queue[k],
{
    let parent = b.states[item.parent_state as int];
    if byte == WILDCARD_BYTE && !ends_with(item.prefix, WILDCARD_BYTE) {
        let state = b.states.len() as usize;
        let hooked = with_wildcard(b.states, item.parent_state, state);
        let judged = if kind is Some {
            with_accept(hooked, item.parent_state, accept_of(kind, parent.accept))
        } else {
            hooked
        };
        assert forall|i: int| 0 <= i < parent.edges.len() implies (#[trigger] parent.edges[i]).1
            < judged.len() by {
            assert(b.states[item.parent_state as int].edges[i].1 < b.states.len());
        }
        lemma_spread(judged, parent.edges, state);
    }
}

/// A new child keeps the construction within bounds, as long as the states
/// can be counted.
pub proof fn lemma_add_child_sound(b: Build, item: Item, byte: u8, kind: Option<Kind>)
    requires
        sound(b),
        item.parent_state < b.states.len(),
        item.epsilon_state matches Some(before) ==> before < b.states.len(),
        add_child(b, item, byte, kind).states.len() <= usize::MAX,
    ensures
        sound(add_child(b, item, byte, kind)),
        b.states.len() <= add_child(b, item, byte, kind).states.len() <= b.states.len() + 2,
        add_child(b, item, byte, kind).queue.len() == b.queue.len() + 1,
        add_child(b, item, byte, kind).queue.last().prefix == item.prefix.push(byte),
        forall|k: int|
            0 <= k < b.queue.len() ==> #[trigger] add_child(b, item, byte, kind).queue[k]
                == b.queue[k],
{
    let a = add_child(b, item, byte, kind);
    let n = b.states.len();
    let parent = b.states[item.parent_state as int];
    assert forall|i: int| 0 <= i < parent.edges.len() implies (#[trigger] parent.edges[i]).1
        < n by {
        assert(b.states[item.parent_state as int].edges[i].1 < n);
    }
    if byte == WILDCARD_BYTE && ends_with(item.prefix, WILDCARD_BYTE) {
        assert forall|k: int| 0 <= k < a.queue.len() implies (#[trigger] a.queue[k]).parent_state
            < a.states.len() && (a.queue[k].epsilon_state matches Some(before) ==> before
            < a.states.len()) by {
            if k < b.queue.len() {
                assert(a.queue[k] == b.queue[k]);
            }
        }
    } else {
        let state = n as usize;
        let accept = accept_of(kind, parent.accept);
        let hooked = with_wildcard(b.states, item.parent_state, state);
        let judged = if kind is Some {
            with_accept(hooked, item.parent_state, accept)
        } else {
            hooked
        };
        if byte == WILDCARD_BYTE {
            assert forall|i: int| 0 <= i < parent.edges.len() implies (#[trigger] parent.edges[i]).1
                < judged.len() by {}
            lemma_spread(judged, parent.edges, state);
        }
        assert forall|s: int, i: int|
            0 <= s < a.states.len() && 0 <= i < a.states[s].edges.len() implies (
        #[trigger] a.states[s].edges[i]).1 < a.states.len() by {
            if s < n {
                if i < b.states[s].edges.len() {
                    assert(a.states[s].edges[i] == b.states[s].edges[i]);
                }
            }
        }
        assert forall|k: int| 0 <= k < a.queue.len() implies (#[trigger] a.queue[k]).parent_state
            < a.states.len() && (a.queue[k].epsilon_state matches Some(before) ==> before
            < a.states.len()) by {
            if k < b.queue.len() {
                assert(a.queue[k] == b.queue[k]);
            }
        }
    }
}

/// The nodes that wait stand level by level: `ahead` nodes of length `level`
/// in front, nodes one byte longer behind them.
pub open spec fn layered(queue: Seq<Item>, level: nat, ahead: int, bound: nat) -> bool {
    &&& 0 <= ahead <= queue.len()
    &&& forall|k: int| 0 <= k < queue.len() ==> (#[trigger] queue[k]).prefix.len() <= bound
    &&& forall|k: int| 0 <= k < ahead ==> (#[trigger] queue[k]).prefix.len() == level
    &&& forall|k: int| ahead <= k < queue.len() ==> (#[trigger] queue[k]).prefix.len() == level + 1
}

/// A node that waits: the bytes that lead to it, the state that stands for
/// it, and, behind a `*`, the state before the `*`.
#[derive(Debug, Clone, Copy)]
pub struct QueueItem<'a> {
    parent_prefix: &'a [u8],
    parent_state: usize,
    epsilon_state: Option<usize>,
}

impl<'a> View for QueueItem<'a> {
    type V = Item;

    closed spec fn view(&self) -> Item {
        Item {
            prefix: self.parent_prefix@,
            parent_state: self.parent_state,
            epsilon_state: self.epsilon_state,
        }
    }
}

impl<'a> QueueItem<'a> {
    /// A node that hands its children to no state but its own.
    pub fn new(parent_prefix: &'a [u8], parent_state: usize) -> (item: Self)
        ensures
            item@ == (Item { prefix: parent_prefix@, parent_state, epsilon_state: None }),
    {
        Self { parent_prefix, parent_state, epsilon_state: None }
    }
}

impl<'a> Default for QueueItem<'a> {
    /// The root of the prefix tree, which state 0 stands for.
    fn default() -> (item: Self)
        ensures
            item@ == (Item { prefix: Seq::empty(), parent_state: 0, epsilon_state: None }),
    {
        let root: &[u8] = &[];
        assert(root@ =~= Seq::<u8>::empty());
        Self::new(root, 0)
    }
}

/// The mathematical values of the nodes that wait, in the same order.
spec fn item_views(queue: Seq<QueueItem>) -> Seq<Item> {
    queue.map_values(|q: QueueItem| q@)
}

/// The construction that the vectors hold.
spec fn build_of(states: Seq<Node>, queue: Seq<QueueItem>) -> Build {
    Build { states: node_views(states), queue: item_views(queue) }
}

/// Adds a wildcard edge from state `from` to state `to`.
fn hook(states: &mut Vec<Node>, from: usize, to: usize)
    requires
        from < old(states).len(),
    ensures
        final(states)@.len() == old(states)@.len(),
        node_views(final(states)@) == with_wildcard(node_views(old(states)@), from, to),
{
    states[from].add_wildcard(to);
    assert(node_views(states@) =~= with_wildcard(node_views(old(states)@), from, to));
}

/// Adds an edge from state `from` to state `to` under `byte`.
fn link(states: &mut Vec<Node>, from: usize, byte: u8, to: usize)
    requires
        from < old(states).len(),
    ensures
        final(states)@.len() == old(states)@.len(),
        node_views(final(states)@) == with_edge(node_views(old(states)@), from, byte, to),
{
    states[from].add_edge(byte, to);
    assert(node_views(states@) =~= with_edge(node_views(old(states)@), from, byte, to));
}

/// Replaces the verdict of state `at`.
fn judge(states: &mut Vec<Node>, at: usize, accept: Accept)
    requires
        at < old(states).len(),
    ensures
        final(states)@.len() == old(states)@.len(),
        node_views(final(states)@) == with_accept(node_views(old(states)@), at, accept),
{
    states[at].accept = accept;
    assert(node_views(states@) =~= with_accept(node_views(old(states)@), at, accept));
}

/// Replaces the weight of state `at`.
fn weigh(states: &mut Vec<Node>, at: usize, weight: usize)
    requires
        at < old(states).len(),
    ensures
        final(states)@.len() == old(states)@.len(),
        node_views(final(states)@) == with_weight(node_views(old(states)@), at, weight),
{
    states[at].weight = weight;
    assert(node_views(states@) =~= with_weight(node_views(old(states)@), at, weight));
}

/// Whether the bytes hold a `*`.
pub fn holds_star(bytes: &[u8]) -> (found: bool)
    ensures
        found == bytes@.contains(WILDCARD_BYTE),
{
    let mut i: usize = 0;
    while i < bytes.len()
        invariant
            0 <= i <= bytes.len(),
            forall|j: int| 0 <= j < i ==> bytes@[j] != WILDCARD_BYTE,
        decreases bytes.len() - i,
    {
        if bytes[i] == WILDCARD_BYTE {
            return true;
        }
        i += 1;
    }
    false
}

/// Adds the child of `item` that the bytes `prefix` lead to.
fn add_node<'a>(
    states: &mut Vec<Node>,
    queue: &mut VecDeque<QueueItem<'a>>,
    item: &QueueItem<'a>,
    prefix: &'a [u8],
    kind: Option<Kind>,
)
    requires
        prefix@.len() > 0,
        prefix@.drop_last() == item@.prefix,
        sound(build_of(old(states)@, old(queue)@)),
        item@.parent_state < old(states).len(),
        item@.epsilon_state matches Some(before) ==> before < old(states).len(),
    ensures
        build_of(final(states)@, final(queue)@) == add_child(
            build_of(old(states)@, old(queue)@),
            item@,
            prefix@.last(),
            kind,
        ),
{
    let ghost b = build_of(states@, queue@);
    let ghost parent = b.states[item.parent_state as int];
    let len = prefix.len();
    let edge = prefix[len - 1];
    let parent_star = len > 1 && prefix[len - 2] == WILDCARD_BYTE;
    let state = states.len();
    proof {
        assert(item@.prefix.push(edge) =~= prefix@);
        if len > 1 {
            assert(prefix@.drop_last().last() == prefix@[len - 2]);
        }
        assert(parent_star == ends_with(item@.prefix, WILDCARD_BYTE));
        assert(states@[item.parent_state as int]@ == parent);
    }
    if edge == WILDCARD_BYTE && parent_star {
        let mut queue_item = QueueItem::new(prefix, state);
        queue_item.parent_state = item.parent_state;
        queue.push_back(queue_item);
        assert(item_views(queue@) =~= b.queue.push(queue_item@));
        return ;
    }
    let inherited = states[item.parent_state].accept;
    let accept_state = match kind {
        Some(Kind::Allow) => Accept::Allow,
        Some(Kind::Disallow) => Accept::Disallow,
        Some(Kind::Delay) => Accept::Allow,
        None => inherited,
    };
    if edge == EOW_BYTE && parent_star {
        judge(states, item.parent_state, accept_state);
        if let Some(before) = item.epsilon_state {
            judge(states, before, accept_state);
        }
        let mut queue_item = QueueItem::new(prefix, state);
        queue_item.parent_state = item.parent_state;
        queue.push_back(queue_item);
        assert(item_views(queue@) =~= b.queue.push(queue_item@));
        return ;
    }
    let mut child_node = Node::new(accept_state, len);
    let mut queue_item = QueueItem::new(prefix, state);
    let mut sink = false;
    if edge == WILDCARD_BYTE {
        child_node.add_wildcard(state);
        hook(states, item.parent_state, state);
        if kind.is_some() {
            judge(states, item.parent_state, accept_state);
        }
        let ghost judged = node_views(states@);
        let count = states[item.parent_state].edges.len();
        let mut i: usize = 0;
        while i < count
            invariant
                0 <= i <= count,
                count == parent.edges.len(),
                judged.len() == b.states.len(),
                item@.parent_state < judged.len(),
                forall|j: int| 0 <= j < parent.edges.len() ==> (#[trigger] parent.edges[j]).1 < judged.len(),
                judged[item.parent_state as int].edges == parent.edges,
                node_views(states@) == spread(judged, parent.edges.take(i as int), state),
            decreases count - i,
        {
            proof {
                let seen = parent.edges.take(i as int);
                assert forall|j: int| 0 <= j < seen.len() implies (#[trigger] seen[j]).1
                    < judged.len() by {
                    assert(seen[j] == parent.edges[j]);
                }
                lemma_spread(judged, seen, state);
                assert(states@[item.parent_state as int]@ == node_views(states@)[item.parent_state as int]);
                assert(parent.edges.take(i + 1).drop_last() =~= seen);
            }
            let target = states[item.parent_state].edges[i].1;
            assert(target == parent.edges[i as int].1);
            hook(states, target, state);
            i += 1;
        }
        assert(parent.edges.take(i as int) =~= parent.edges);
        queue_item.epsilon_state = Some(item.parent_state);
    } else if edge == EOW_BYTE {
        hook(states, item.parent_state, state);
        child_node.accept = inherited;
        if holds_star(item.parent_prefix) {
            child_node.weight = len - 1;
        }
        judge(states, item.parent_state, accept_state);
        weigh(states, item.parent_state, len);
    } else {
        link(states, item.parent_state, edge, state);
        if kind.is_some() {
            sink = true;
        } else {
            assert(states@[item.parent_state as int]@ == node_views(states@)[item.parent_state as int]);
            let count = states[item.parent_state].wildcards.len();
            let mut i: usize = 0;
            while i < count
                invariant
                    0 <= i <= count,
                    item@.parent_state < states.len(),
                    states@[item.parent_state as int]@.wildcards == parent.wildcards,
                    count == parent.wildcards.len(),
                    child_node@ == (NodeView {
                        wildcards: without(parent.wildcards.take(i as int), state),
                        ..bare(accept_state, len)
                    }),
                decreases count - i,
            {
                let target = states[item.parent_state].wildcards[i];
                assert(parent.wildcards.take(i + 1).drop_last() =~= parent.wildcards.take(i as int));
                if state != target {
                    child_node.add_wildcard(target);
                }
                i += 1;
            }
            assert(parent.wildcards.take(i as int) =~= parent.wildcards);
        }
    }
    if let Some(before) = item.epsilon_state {
        proof {
            if edge == WILDCARD_BYTE {
                lemma_spread(
                    if kind is Some {
                        with_accept(
                            with_wildcard(b.states, item.parent_state, state),
                            item.parent_state,
                            accept_state,
                        )
                    } else {
                        with_wildcard(b.states, item.parent_state, state)
                    },
                    parent.edges,
                    state,
                );
            }
        }
        link(states, before, edge, state);
    }
    let ghost linked = node_views(states@);
    states.push(child_node);
    assert(node_views(states@) =~= linked.push(child_node@));
    queue.push_back(queue_item);
    assert(item_views(queue@) =~= b.queue.push(queue_item@));
    if sink {
        let next = states.len();
        hook(states, state, next);
        let ghost hooked = node_views(states@);
        states.push(Node::new(accept_state, len));
        assert(node_views(states@) =~= hooked.push(bare(accept_state, len)));
        assert(node_views(states@) =~= linked.push(
            NodeView { wildcards: seq![next], ..bare(accept_state, len) },
        ).push(bare(accept_state, len)));
    }
}

/// The mathematical value of a [`Cylon`].
pub struct CylonView {
    pub states: Seq<NodeView>,
    pub delay: Option<u64>,
}

/// A matcher compiled from the rules of a robots file. It follows a path
/// through all the states that the rules leave open at once, and lets the
/// longest pattern that matched decide.
#[derive(Debug)]
pub struct Cylon {
    states: Vec<Node>,
    delay: Option<u64>,
}

impl Clone for Cylon {
    fn clone(&self) -> (copy: Self)
        ensures
            copy@ == self@,
    {
        let mut states: Vec<Node> = Vec::new();
        let mut i: usize = 0;
        while i < self.states.len()
            invariant
                0 <= i <= self.states.len(),
                node_views(states@) == node_views(self.states@).take(i as int),
            decreases self.states.len() - i,
        {
            let ghost before = node_views(states@);
            let copy = self.states[i].clone();
            assert(copy@ == node_views(self.states@)[i as int]);
            states.push(copy);
            assert(node_views(states@) =~= before.push(copy@));
            assert(node_views(self.states@).take(i + 1) =~= node_views(self.states@).take(
                i as int,
            ).push(copy@));
            i += 1;
        }
        assert(node_views(self.states@).take(i as int) =~= node_views(self.states@));
        Cylon { states, delay: self.delay }
    }
}

impl View for Cylon {
    type V = CylonView;

    closed spec fn view(&self) -> CylonView {
        CylonView { states: node_views(self.states@), delay: self.delay }
    }
}

/// The state `target` follows the state `s` under `byte`. An index that
/// names no state is followed by nothing.
pub open spec fn follows(states: Seq<NodeView>, s: usize, byte: u8, target: usize) -> bool {
    s < states.len() && states[s as int].successors(byte, s).contains(target)
}

/// The state `target` follows an active state under `byte`.
pub open spec fn reached(states: Seq<NodeView>, active: Set<usize>, byte: u8, target: usize) -> bool {
    exists|s: usize| #![trigger active.contains(s)] active.contains(s) && follows(states, s, byte, target)
}

/// The active states in the order in which the set hands them out.
spec fn active_list(current: &BTreeSet<usize>) -> Seq<usize> {
    vstd::std_specs::btree::into_iter_btree_keys(
        vstd::std_specs::btree::spec_btree_keys_iter(current),
    )
}

/// The states that are active after one more byte.
pub open spec fn advance(states: Seq<NodeView>, active: Set<usize>, byte: u8) -> Set<usize> {
    Set::new(|target: usize| reached(states, active, byte, target))
}

/// The states that are active after the bytes of `path`, from state 0.
pub open spec fn active_after(states: Seq<NodeView>, path: Seq<u8>) -> Set<usize>
    decreases path.len(),
{
    if path.len() == 0 {
        set![0usize]
    } else {
        advance(states, active_after(states, path.drop_last()), path.last())
    }
}

/// The state `s` is active and no active state weighs more.
pub open spec fn heaviest(states: Seq<NodeView>, active: Set<usize>, s: usize) -> bool {
    &&& active.contains(s)
    &&& s < states.len()
    &&& forall|r: usize|
        #![trigger active.contains(r)]
        active.contains(r) && r < states.len() ==> states[r as int].normalized_weight()
            <= states[s as int].normalized_weight()
}

/// The verdict over a set of active states: that of a state that weighs
/// most. Where no active index names a state, the path is allowed.
pub open spec fn verdict(states: Seq<NodeView>, active: Set<usize>) -> bool {
    ||| forall|s: usize| #![trigger active.contains(s)] active.contains(s) ==> s >= states.len()
    ||| exists|s: usize| #![trigger active.contains(s)] heaviest(states, active, s) && states[s as int].allows()
}

/// Whether the automaton allows the path. The empty path stands for `/`.
pub open spec fn allows(states: Seq<NodeView>, path: Seq<u8>) -> bool {
    verdict(states, active_after(states, normal(path)))
}

/// The empty path is answered as the path `/` is.
pub proof fn lemma_empty_path(states: Seq<NodeView>)
    ensures
        allows(states, Seq::empty()) == allows(states, seq![ROOT_BYTE]),
{
}

/// A table without patterns spans the root alone: one visit settles the
/// construction and leaves the two states it began with.
pub proof fn lemma_no_patterns(t: Map<Seq<u8>, Kind>)
    requires
        forall|q: Seq<u8>| !t.dom().contains(q),
    ensures
        settled(t, 1),
        automaton(t) == initial().states,
{
    lemma_no_children(t, Seq::empty(), 0);
    assert(initial().queue.drop_first() =~= Seq::<Item>::empty());
    assert(steps(t, 1) == visit(t, steps(t, 0)));
    assert(settled(t, 1));
    let c = choose|n: nat| settled(t, n);
    if c <= 1 {
        lemma_settled_stays(t, c, 1);
    } else {
        lemma_settled_stays(t, 1, c);
    }
}

/// A node under which no pattern passes has no children.
pub proof fn lemma_no_children(t: Map<Seq<u8>, Kind>, p: Seq<u8>, from: int)
    requires
        forall|b: u8| !crate::trie::has_child(t, p, b),
    ensures
        child_bytes(t, p, from) == Seq::<u8>::empty(),
    decreases 256 - from,
{
    if 0 <= from < 256 {
        lemma_no_children(t, p, from + 1);
    }
}

/// Where the rules are none, any byte leads from the root to the state that
/// allows, and that state stays.
pub proof fn lemma_no_patterns_active(path: Seq<u8>)
    requires
        path.len() > 0,
    ensures
        active_after(initial().states, path) == set![1usize],
    decreases path.len(),
{
    let states = initial().states;
    let before = active_after(states, path.drop_last());
    let byte = path.last();
    if path.len() > 1 {
        lemma_no_patterns_active(path.drop_last());
    }
    assert forall|t: usize| reached(states, before, byte, t) <==> t == 1 by {
        if reached(states, before, byte, t) {
            let s = choose|s: usize|
                #![trigger before.contains(s)]
                before.contains(s) && follows(states, s, byte, t);
            let found = states[s as int].successors(byte, s);
            let i = choose|i: int| 0 <= i < found.len() && found[i] == t;
            if s == 0 {
                assert(found =~= seq![1usize]);
            } else {
                assert(found =~= seq![s]);
            }
        }
        if t == 1 {
            if path.len() > 1 {
                assert(before.contains(1usize));
                assert(states[1].successors(byte, 1) =~= seq![1usize]);
                assert(states[1].successors(byte, 1)[0] == 1);
                assert(follows(states, 1, byte, 1));
            } else {
                assert(before.contains(0usize));
                assert(states[0].successors(byte, 0) =~= seq![1usize]);
                assert(states[0].successors(byte, 0)[0] == 1);
                assert(follows(states, 0, byte, 1));
            }
        }
    }
    assert(advance(states, before, byte) =~= set![1usize]);
}

/// Where the rules are none, every path is allowed.
pub proof fn lemma_no_patterns_allow(t: Map<Seq<u8>, Kind>, path: Seq<u8>)
    requires
        forall|q: Seq<u8>| !t.dom().contains(q),
    ensures
        allows(automaton(t), path),
{
    lemma_no_patterns(t);
    let states = initial().states;
    let p = normal(path);
    lemma_no_patterns_active(p);
    let active = active_after(states, p);
    assert(active.contains(1usize));
    assert(heaviest(states, active, 1));
}

/// Adds a state to a set of active states.
pub fn activate(active: &mut BTreeSet<usize>, state: usize)
    ensures
        final(active)@ == old(active)@.insert(state),
{
    assert(vstd::laws_cmp::obeys_cmp::<usize>());
    active.insert(state);
}

/// Whether the state is in the set.
pub fn holds(set: &BTreeSet<usize>, state: usize) -> (found: bool)
    ensures
        found == set@.contains(state),
{
    assert(vstd::laws_cmp::obeys_cmp::<usize>());
    set.contains(&state)
}

/// Whether every state of the set `a` is in the set `b`.
pub fn within(a: &BTreeSet<usize>, b: &BTreeSet<usize>) -> (all: bool)
    ensures
        all == a@.subset_of(b@),
{
    let ghost keys = active_list(a);
    let ghost mut done: int = 0;
    let mut all = true;
    for s in it: a.iter()
        invariant
            it.seq().unref() == keys,
            done == it.index(),
            0 <= done <= keys.len(),
            all ==> forall|i: int| 0 <= i < done ==> b@.contains(#[trigger] keys[i]),
            !all ==> exists|i: int| 0 <= i < done && !b@.contains(#[trigger] keys[i]),
    {
        assert(keys[done] == *s);
        if !holds(b, *s) {
            all = false;
        }
        proof {
            done = done + 1;
        }
    }
    proof {
        if all {
            assert forall|x: usize| a@.contains(x) implies b@.contains(x) by {
                assert(keys.to_set().contains(x));
                let i = choose|i: int| 0 <= i < keys.len() && keys[i] == x;
            }
        } else {
            let i = choose|i: int| 0 <= i < done && !b@.contains(#[trigger] keys[i]);
            assert(keys.to_set().contains(keys[i]));
            assert(a@.contains(keys[i]));
        }
    }
    all
}

/// Whether the two sets hold the same states.
pub fn same_set(a: &BTreeSet<usize>, b: &BTreeSet<usize>) -> (same: bool)
    ensures
        same == (a@ == b@),
{
    let same = within(a, b) && within(b, a);
    proof {
        if same {
            assert(a@ =~= b@);
        }
    }
    same
}

impl Cylon {
    /// The least crawl delay that the rules gave, if they gave one.
    pub fn delay(&self) -> (d: Option<u64>)
        ensures
            d == self@.delay,
    {
        self.delay
    }

    /// A matcher that was put together again from the states and the delay
    /// of this one, as by [`Cylon::from_parts`] from what [`Cylon::states`]
    /// and [`Cylon::delay`] give, answers every path as this one does.
    pub proof fn lemma_rebuilt(&self, copy: &Cylon, path: Seq<u8>)
        requires
            copy@ == (CylonView { states: self@.states, delay: self@.delay }),
        ensures
            allows(copy@.states, path) == allows(self@.states, path),
            copy@.delay == self@.delay,
    {
    }

    /// A matcher has no more states than can be counted.
    pub proof fn lemma_counted(&self)
        ensures
            self@.states.len() <= usize::MAX,
    {
        assert(self.states.len() == self.states@.len());
    }

    /// The states, by index.
    pub fn states(&self) -> (states: &Vec<Node>)
        ensures
            node_views(states@) == self@.states,
    {
        &self.states
    }

    /// The matcher with the given states. Any list of states is an
    /// automaton: an edge that leads to no state leads nowhere.
    pub fn from_parts(states: Vec<Node>, delay: Option<u64>) -> (machine: Cylon)
        ensures
            machine@ == (CylonView { states: node_views(states@), delay }),
    {
        Cylon { states, delay }
    }

    /// Compiles the rules into an automaton. Where several rules carry one
    /// pattern, a rule that is no `Disallow` decides, in whatever order the
    /// rules stand: `Allow` beats `Disallow`.
    pub fn compile(rules: Vec<Rule>) -> (machine: Cylon)
        ensures
            machine@.states == compiled(views(rules@)),
            machine@.delay == min_delay(views(rules@)),
            fits(deduped(views(rules@))),
            machine@.states.len() <= 2 * crate::size::nodes(views(rules@)).len() + 2,
    {
        let ghost input = views(rules@);
        let delay = delay_of(&rules);
        let mut rules = dedupe(&rules);
        let ghost clean = views(rules@);
        sort_rules(&mut rules);
        let ghost rs = views(rules@);
        let ghost t = table(rs);
        proof {
            lemma_table_stable(rs, clean);
            lemma_dedupes_table(clean, input);
        }
        let ghost bound = max_len(rs);

        let mut first = Node::new(Accept::Allow, 0);
        let second = Node::new(Accept::Allow, 0);
        first.add_wildcard(1);
        let mut states: Vec<Node> = Vec::new();
        states.push(first);
        states.push(second);
        let mut queue: VecDeque<QueueItem> = VecDeque::new();
        queue.push_back(QueueItem::default());

        let ghost mut b = initial();
        let ghost mut visited: nat = 0;
        let ghost mut level: nat = 0;
        let ghost mut ahead: nat = 1;
        proof {
            assert(node_views(states@) =~= initial().states);
            assert(item_views(queue@) =~= initial().queue);
            assert(states.len() == 2);
        }
        while queue.len() > 0
            invariant
                rs == views(rules@),
                rs.len() == rules.len(),
                sorted_rules(rs),
                t == table(rs),
                bound == max_len(rs),
                b == steps(t, visited),
                build_of(states@, queue@) == b,
                sound(b),
                layered(b.queue, level, ahead as int, bound),
                b.queue.len() > 0 ==> ahead >= 1,
                forall|n: nat| n <= visited ==> (#[trigger] steps(t, n)).states.len() <= usize::MAX,
            decreases bound + 1 - level, ahead,
        {
            let item = queue.pop_front().unwrap();
            let ghost rest = Build { states: b.states, queue: b.queue.drop_first() };
            let ghost p = item@.prefix;
            proof {
                assert(item_views(queue@) =~= b.queue.drop_first());
                assert(item@ == b.queue[0]);
                assert forall|k: int| 0 <= k < rest.queue.len() implies (
                #[trigger] rest.queue[k]).parent_state < rest.states.len() && (
                rest.queue[k].epsilon_state matches Some(before) ==> before < rest.states.len()) && rest.queue[k].prefix.len() <= bound && (k < ahead - 1 ==> rest.queue[k].prefix.len() == level) && (k >= ahead - 1 ==> rest.queue[k].prefix.len() == level + 1) by {
                    assert(rest.queue[k] == b.queue[k + 1]);
                }
            }
            let kids = children(&rules, item.parent_prefix);
            let ghost bytes = child_bytes(t, p, 0);
            let len = item.parent_prefix.len();
            proof {
                if kids.len() > 0 {
                    assert(leads(rs, p, bytes[0], kids@[0] as int));
                    lemma_max_len(rs, kids@[0] as int);
                }
            }
            let mut k: usize = 0;
            while k < kids.len()
                invariant
                    0 <= k <= kids.len(),
                    rs == views(rules@),
                    rs.len() == rules.len(),
                    t == table(rs),
                    bound == max_len(rs),
                    children_of(rs, p, kids@),
                    bytes == child_bytes(t, p, 0),
                    p == item@.prefix,
                    len == p.len(),
                    p.len() == level,
                    p.len() < bound || kids.len() == 0,
                    build_of(states@, queue@) == add_children(t, rest, item@, bytes.take(k as int)),
                    sound(build_of(states@, queue@)),
                    item@.parent_state < states.len(),
                    item@.epsilon_state matches Some(before) ==> before < states.len(),
                    layered(item_views(queue@), level, ahead - 1, bound),
                decreases kids.len() - k,
            {
                let j = kids[k];
                assert(leads(rs, p, bytes[k as int], j as int));
                let rule = &rules[j];
                let path = rule.inner();
                assert(path@ == rs[j as int].pattern);
                assert(len < path.len());
                let prefix = vstd::slice::slice_subrange(path, 0, len + 1);
                assert(prefix@ =~= p.push(bytes[k as int]));
                assert(prefix@.drop_last() =~= p);
                let kind = if path.len() == len + 1 {
                    Some(rule.kind())
                } else {
                    None
                };
                assert(kind == terminal(t, p.push(bytes[k as int])));
                let ghost cur = build_of(states@, queue@);
                add_node(&mut states, &mut queue, &item, prefix, kind);
                proof {
                    let total = states.len();
                    lemma_add_child_sound(cur, item@, bytes[k as int], kind);
                    assert(bytes.take(k + 1).drop_last() =~= bytes.take(k as int));
                    let grown = item_views(queue@);
                    assert forall|i: int| 0 <= i < grown.len() implies (
                    #[trigger] grown[i]).prefix.len() <= bound && (i < ahead - 1
                        ==> grown[i].prefix.len() == level) && (i >= ahead - 1
                        ==> grown[i].prefix.len() == level + 1) by {
                        if i < cur.queue.len() {
                            assert(grown[i] == cur.queue[i]);
                        }
                    }
                }
                k += 1;
            }
            proof {
                assert(bytes.take(k as int) =~= bytes);
                b = visit(t, b);
                visited = visited + 1;
                assert(steps(t, visited).states.len() == states.len());
                if ahead > 1 {
                    ahead = (ahead - 1) as nat;
                } else if b.queue.len() == 0 {
                    ahead = 0;
                } else {
                    level = level + 1;
                    ahead = b.queue.len();
                }
            }
        }
        proof {
            lemma_compiled(input, visited);
            assert forall|n: nat| (#[trigger] steps(t, n)).states.len() <= usize::MAX by {
                if n > visited {
                    lemma_settled_stays(t, visited, n);
                }
            }
            crate::size::lemma_counted(input);
        }
        Cylon { states, delay }
    }

    /// Whether the rules allow the path.
    pub fn allow(&self, path: &[u8]) -> (allowed: bool)
        ensures
            allowed == allows(self@.states, path@),
    {
        let root = [ROOT_BYTE];
        assert(root@ =~= seq![ROOT_BYTE]);
        let path: &[u8] = if path.len() == 0 {
            root.as_slice()
        } else {
            path
        };
        let ghost states = self@.states;
        let mut current: BTreeSet<usize> = BTreeSet::new();
        activate(&mut current, 0);
        assert(current@ =~= set![0usize]);
        let mut k: usize = 0;
        while k < path.len()
            invariant
                0 <= k <= path.len(),
                states == self@.states,
                current@ == active_after(states, path@.take(k as int)),
            decreases path.len() - k,
        {
            let byte = path[k];
            let next = self.follow(&current, byte);
            assert(path@.take(k + 1).drop_last() =~= path@.take(k as int));
            current = next;
            k += 1;
        }
        assert(path@.take(k as int) =~= path@);
        self.resolve(&current)
    }

    /// The states that follow the active ones under `byte`.
    pub fn follow(&self, current: &BTreeSet<usize>, byte: u8) -> (next: BTreeSet<usize>)
        ensures
            next@ == advance(self@.states, current@, byte),
    {
        let ghost states = self@.states;
        let ghost keys = active_list(current);
        let ghost mut done: int = 0;
        let mut next: BTreeSet<usize> = BTreeSet::new();
        for s in it: current.iter()
            invariant
                states == self@.states,
                it.seq().unref() == keys,
                done == it.index(),
                0 <= done <= keys.len(),
                forall|t: usize|
                    next@.contains(t) <==> exists|i: int|
                        #![trigger keys[i]]
                        0 <= i < done && follows(states, keys[i], byte, t),
        {
            let ghost before = next@;
            let ghost mut added: Seq<usize> = Seq::empty();
            assert(keys[done] == *s);
            if *s < self.states.len() {
                let targets = self.states[*s].follow_edges(byte, *s);
                assert(self.states@[*s as int]@ == states[*s as int]);
                let mut i: usize = 0;
                while i < targets.len()
                    invariant
                        0 <= i <= targets.len(),
                        next@ == before.union(targets@.take(i as int).to_set()),
                    decreases targets.len() - i,
                {
                    activate(&mut next, targets[i]);
                    proof {
                        let more = targets@.take(i + 1);
                        let less = targets@.take(i as int);
                        assert(more =~= less.push(targets@[i as int]));
                        assert(more.to_set() =~= less.to_set().insert(targets@[i as int])) by {
                            assert forall|t: usize| more.to_set().contains(t) implies less.to_set().insert(
                                targets@[i as int],
                            ).contains(t) by {
                                let j = choose|j: int| 0 <= j < more.len() && more[j] == t;
                                if j < i {
                                    assert(less[j] == t);
                                }
                            }
                            assert forall|t: usize|
                                less.to_set().insert(targets@[i as int]).contains(
                                    t,
                                ) implies more.to_set().contains(t) by {
                                if less.to_set().contains(t) {
                                    let j = choose|j: int| 0 <= j < less.len() && less[j] == t;
                                    assert(more[j] == t);
                                } else {
                                    assert(more[i as int] == t);
                                }
                            }
                        }
                        assert(next@ =~= before.union(more.to_set()));
                    }
                    i += 1;
                }
                proof {
                    assert(targets@.take(i as int) =~= targets@);
                    added = targets@;
                }
            }
            proof {
                assert(next@ =~= before.union(added.to_set()));
                assert forall|t: usize| added.contains(t) <==> follows(states, keys[done], byte, t) by {}
                assert forall|t: usize|
                    next@.contains(t) <==> exists|i: int|
                        #![trigger keys[i]]
                        0 <= i < done + 1 && follows(states, keys[i], byte, t) by {
                    if next@.contains(t) {
                        if before.contains(t) {
                            let i = choose|i: int|
                                #![trigger keys[i]]
                                0 <= i < done && follows(states, keys[i], byte, t);
                            assert(follows(states, keys[i], byte, t));
                        } else {
                            assert(added.to_set().contains(t));
                            assert(follows(states, keys[done], byte, t));
                        }
                    }
                    if exists|i: int|
                        #![trigger keys[i]]
                        0 <= i < done + 1 && follows(states, keys[i], byte, t) {
                        let i = choose|i: int|
                            #![trigger keys[i]]
                            0 <= i < done + 1 && follows(states, keys[i], byte, t);
                        if i < done {
                            assert(before.contains(t));
                        } else {
                            assert(added.to_set().contains(t));
                        }
                    }
                }
                done = done + 1;
            }
        }
        assert(next@ =~= advance(states, current@, byte)) by {
            assert forall|t: usize| next@.contains(t) <==> reached(states, current@, byte, t) by {
                if next@.contains(t) {
                    let i = choose|i: int|
                        #![trigger keys[i]]
                        0 <= i < done && follows(states, keys[i], byte, t);
                    assert(keys.to_set().contains(keys[i]));
                }
                if reached(states, current@, byte, t) {
                    let s = choose|s: usize|
                        #![trigger current@.contains(s)]
                        current@.contains(s) && follows(states, s, byte, t);
                    assert(keys.to_set().contains(s));
                    let i = choose|i: int| 0 <= i < keys.len() && keys[i] == s;
                    assert(follows(states, keys[i], byte, t));
                }
            }
        }
        next
    }

    /// The verdict of the active state that weighs most.
    pub fn resolve(&self, current: &BTreeSet<usize>) -> (allowed: bool)
        ensures
            allowed == verdict(self@.states, current@),
    {
        let ghost states = self@.states;
        let ghost keys = active_list(current);
        let ghost mut done: int = 0;
        let mut best: Option<usize> = None;
        for s in it: current.iter()
            invariant
                states == self@.states,
                it.seq().unref() == keys,
                done == it.index(),
                0 <= done <= keys.len(),
                best is None ==> forall|i: int| 0 <= i < done ==> (#[trigger] keys[i]) >= states.len(),
                best matches Some(b) ==> b < states.len() && keys.contains(b) && forall|i: int|
                    0 <= i < done && (#[trigger] keys[i]) < states.len()
                        ==> states[keys[i] as int].normalized_weight()
                        <= states[b as int].normalized_weight(),
        {
            assert(keys[done] == *s);
            if *s < self.states.len() {
                assert(self.states@[*s as int]@ == states[*s as int]);
                match best {
                    None => {
                        best = Some(*s);
                    },
                    Some(b) => {
                        assert(self.states@[b as int]@ == states[b as int]);
                        if self.states[*s].normalized_weight() >= self.states[b].normalized_weight() {
                            best = Some(*s);
                        }
                    },
                }
            }
            proof {
                done = done + 1;
            }
        }
        match best {
            Some(b) => {
                assert(self.states@[b as int]@ == states[b as int]);
                let allowed = self.states[b].allow();
                proof {
                    assert(keys.to_set().contains(b));
                    assert(heaviest(states, current@, b)) by {
                        assert forall|r: usize|
                            #![trigger current@.contains(r)]
                            current@.contains(r) && r < states.len() implies states[r as int].normalized_weight()
                            <= states[b as int].normalized_weight() by {
                            assert(keys.to_set().contains(r));
                            let i = choose|i: int| 0 <= i < keys.len() && keys[i] == r;
                            assert(keys[i] < states.len());
                        }
                    }
                    if verdict(states, current@) && !allowed {
                        let s = choose|s: usize|
                            #![trigger current@.contains(s)]
                            heaviest(states, current@, s) && states[s as int].allows();
                        assert(current@.contains(b));
                    }
                }
                allowed
            },
            None => {
                proof {
                    assert forall|s: usize|
                        #![trigger current@.contains(s)]
                        current@.contains(s) implies s >= states.len() by {
                        assert(keys.to_set().contains(s));
                        let i = choose|i: int| 0 <= i < keys.len() && keys[i] == s;
                        assert(keys[i] >= states.len());
                    }
                }
                true
            },
        }
    }
}

} // verus!
