//! The deterministic matcher: one current state, one transition per byte.
//!
//! Where no pattern holds a `*`, a path is at one node of the prefix tree of
//! the patterns at a time, and the automaton is the tree as it is walked
//! breadth first: [`automaton`]. Where a pattern holds a `*`, a path can be
//! at several nodes at once; then a state stands for a set of states of the
//! non-deterministic automaton of the rules, and the automaton answers as
//! that one does: [`answers`] says which of the two holds of a list of rules.

use crate::delay::{delay_of, min_delay};
use crate::rule::{
    ends_with, normal, sort_rules, sorted as sorted_rules, views, Kind, RuleView, EOW_BYTE,
    ROOT_BYTE, WILDCARD_BYTE,
};
use crate::trie::{
    child_bytes, children, children_of, leads, lemma_max_len, lemma_table_stable, max_len, table,
    terminal,
};
use crate::dedupe::{dedupe, deduped, lemma_dedupes_table};
use crate::nfa::{same_set, NodeView};
use std::collections::{BTreeSet, VecDeque};
use vstd::prelude::*;

pub use crate::rule::Rule;

verus! {

/// What a transition asks of the input.
#[derive(Debug, PartialEq, Eq, Clone, Copy, Structural)]
pub enum Edge {
    MatchByte(u8),
    MatchAny,
    MatchEow,
}

/// A transition: what it asks of the input, and the state it leads to.
#[derive(Debug, PartialEq, Eq, Clone, Copy, Structural)]
pub struct Transition(pub Edge, pub usize);

/// What a state says of the paths that end in it. `Intermediate` marks, while
/// the automaton is built, a node at which no rule ends; no state of a built
/// automaton carries it.
#[derive(Debug, Clone, Copy, PartialEq, Eq, Structural)]
pub enum State {
    Allow,
    Disallow,
    Delay,
    Intermediate,
}

/// The automaton as a mathematical value: for each state its verdict and its
/// transitions.
pub struct Machine {
    pub states: Seq<State>,
    pub transitions: Seq<Seq<Transition>>,
}

/// The mathematical value of a [`Cylon`].
pub struct CylonView {
    pub machine: Machine,
    pub delay: Option<u64>,
}

/// A matcher compiled from the rules of a robots file. It decides in one pass
/// over a path, byte by byte, whether the rules allow the path.
#[derive(Debug)]
pub struct Cylon {
    states: Vec<State>,
    transitions: Vec<Vec<Transition>>,
    delay: Option<u64>,
}

/// The transition is open to the byte.
pub open spec fn takes(t: Transition, byte: u8) -> bool {
    t.0 == Edge::MatchAny || t.0 == Edge::MatchByte(byte)
}

/// The transition is open at the end of the path.
pub open spec fn ends(t: Transition) -> bool {
    t.0 == Edge::MatchEow || t.0 == Edge::MatchAny
}

/// `i` is the last transition of the list that is open to the byte: labelled
/// transitions stand behind the fallback and so come before it.
pub open spec fn last_taking(ts: Seq<Transition>, byte: u8, i: int) -> bool {
    &&& 0 <= i < ts.len()
    &&& takes(ts[i], byte)
    &&& forall|j: int| i < j < ts.len() ==> !takes(#[trigger] ts[j], byte)
}

/// `i` is the last transition of the list that is open at the end of the path.
pub open spec fn last_ending(ts: Seq<Transition>, i: int) -> bool {
    &&& 0 <= i < ts.len()
    &&& ends(ts[i])
    &&& forall|j: int| i < j < ts.len() ==> !ends(#[trigger] ts[j])
}

impl Machine {
    /// Every state has a verdict and a fallback, and every transition leads
    /// to a state. The start state is state 2, behind the two sinks.
    pub open spec fn wf(self) -> bool {
        &&& self.states.len() == self.transitions.len()
        &&& self.states.len() >= 3
        &&& forall|s: int| 0 <= s < self.states.len() ==> #[trigger] self.states[s] != State::Intermediate
        &&& forall|s: int|
            0 <= s < self.transitions.len() ==> (#[trigger] self.transitions[s]).len() > 0
                && self.transitions[s][0].0 == Edge::MatchAny
        &&& forall|s: int, i: int|
            0 <= s < self.transitions.len() && 0 <= i < self.transitions[s].len() ==> (
            #[trigger] self.transitions[s][i]).1 < self.states.len()
    }

    /// The state that follows `s` on the byte.
    pub open spec fn step(self, s: usize, byte: u8) -> usize {
        let ts = self.transitions[s as int];
        ts[choose|i: int| last_taking(ts, byte, i)].1
    }

    /// The state reached from the start state on the bytes of `path`.
    pub open spec fn run(self, path: Seq<u8>) -> usize
        decreases path.len(),
    {
        if path.len() == 0 {
            2
        } else {
            self.step(self.run(path.drop_last()), path.last())
        }
    }

    /// The state in which a path that has led to `s` ends.
    pub open spec fn finish(self, s: usize) -> usize {
        let ts = self.transitions[s as int];
        ts[choose|i: int| last_ending(ts, i)].1
    }

    /// Whether the automaton allows the path. The empty path stands for `/`.
    pub open spec fn allows(self, path: Seq<u8>) -> bool {
        self.states[self.finish(self.run(normal(path))) as int] != State::Disallow
    }
}

/// A node of the prefix tree that waits for its turn: the bytes that lead to
/// it, the fallback it inherits, the state of its parent, and what the rules
/// say of a path that ends at it.
pub struct Item {
    pub prefix: Seq<u8>,
    pub wildcard_state: usize,
    pub parent_state: usize,
    pub state: State,
}

/// The automaton under construction: the states made so far, and the nodes
/// that wait, in the order in which they were found.
pub struct Build {
    pub machine: Machine,
    pub queue: Seq<Item>,
}

/// What a byte of a pattern asks of the input.
pub open spec fn edge_of(b: u8) -> Edge {
    if b == WILDCARD_BYTE {
        Edge::MatchAny
    } else if b == EOW_BYTE {
        Edge::MatchEow
    } else {
        Edge::MatchByte(b)
    }
}

/// What the rules say of a path that ends at a node.
pub open spec fn state_of(kind: Option<Kind>) -> State {
    match kind {
        Some(Kind::Allow) => State::Allow,
        Some(Kind::Disallow) => State::Disallow,
        Some(Kind::Delay) => State::Delay,
        None => State::Intermediate,
    }
}

/// The state to fall back to at a node and below it: the sink of the node's
/// own verdict, else what the node inherits. A `Disallow` behind `$` holds
/// only at the end of the path and so leaves the fallback as it is.
pub open spec fn fallback(item: Item) -> usize {
    match item.state {
        State::Allow => 0,
        State::Disallow => if ends_with(item.prefix, EOW_BYTE) {
            item.wildcard_state
        } else {
            1
        },
        State::Delay => 1,
        State::Intermediate => item.wildcard_state,
    }
}

/// Before any node is visited: the two sinks, and the root waiting.
pub open spec fn initial() -> Build {
    Build {
        machine: Machine {
            states: seq![State::Allow, State::Disallow],
            transitions: seq![
                seq![Transition(Edge::MatchAny, 0)],
                seq![Transition(Edge::MatchAny, 1)],
            ],
        },
        queue: seq![
            Item { prefix: Seq::empty(), wildcard_state: 0, parent_state: 0, state: State::Intermediate },
        ],
    }
}

/// The transitions to the children of the node that waits first, in
/// increasing order of their bytes. A child's state follows the states of
/// all the nodes that wait before it.
pub open spec fn child_edges(t: Map<Seq<u8>, Kind>, b: Build) -> Seq<Transition> {
    let kids = child_bytes(t, b.queue[0].prefix, 0);
    Seq::new(
        kids.len(),
        |k: int| Transition(edge_of(kids[k]), (b.machine.transitions.len() + b.queue.len() + k) as usize),
    )
}

/// The children of the node that waits first, as they join the queue.
pub open spec fn child_items(t: Map<Seq<u8>, Kind>, b: Build) -> Seq<Item> {
    let item = b.queue[0];
    let kids = child_bytes(t, item.prefix, 0);
    Seq::new(
        kids.len(),
        |k: int|
            Item {
                prefix: item.prefix.push(kids[k]),
                wildcard_state: fallback(item),
                parent_state: b.machine.transitions.len() as usize,
                state: state_of(terminal(t, item.prefix.push(kids[k]))),
            },
    )
}

/// Turns the node that waits first into a state. Its fallback transition
/// comes first: to itself behind `*`, which takes any run of bytes, else to
/// the state to fall back to. The transitions to its children follow; behind
/// `*` the parent gets them too, since `*` may take no byte at all.
pub open spec fn visit(t: Map<Seq<u8>, Kind>, b: Build) -> Build {
    if b.queue.len() == 0 {
        b
    } else {
        let item = b.queue[0];
        let me = b.machine.transitions.len() as usize;
        let star = ends_with(item.prefix, WILDCARD_BYTE);
        let edges = child_edges(t, b);
        let own = seq![Transition(Edge::MatchAny, if star { me } else { fallback(item) })] + edges;
        let earlier = if star {
            b.machine.transitions.update(
                item.parent_state as int,
                b.machine.transitions[item.parent_state as int] + edges,
            )
        } else {
            b.machine.transitions
        };
        Build {
            machine: Machine {
                states: b.machine.states.push(
                    match item.state {
                        State::Intermediate => b.machine.states[fallback(item) as int],
                        verdict => verdict,
                    },
                ),
                transitions: earlier.push(own),
            },
            queue: b.queue.drop_first() + child_items(t, b),
        }
    }
}

/// The construction after `n` visits, breadth first from the root.
pub open spec fn steps(t: Map<Seq<u8>, Kind>, n: nat) -> Build
    decreases n,
{
    if n == 0 {
        initial()
    } else {
        visit(t, steps(t, (n - 1) as nat))
    }
}

/// After `n` visits no node waits.
pub open spec fn settled(t: Map<Seq<u8>, Kind>, n: nat) -> bool {
    steps(t, n).queue.len() == 0
}

/// The automaton of a table of patterns: the prefix tree of the patterns,
/// walked breadth first until no node waits.
pub open spec fn automaton(t: Map<Seq<u8>, Kind>) -> Machine {
    steps(t, choose|n: nat| settled(t, n)).machine
}

/// The prefix tree of a list of rules as an automaton, in whatever order
/// the rules stand and with whatever doubles. It is the automaton of the
/// rules where no pattern holds a `*`.
pub open spec fn compiled(rules: Seq<RuleView>) -> Machine {
    automaton(deduped(rules))
}

/// The construction never holds more states and nodes that wait than can be
/// counted.
pub open spec fn fits(t: Map<Seq<u8>, Kind>) -> bool {
    forall|n: nat|
        (#[trigger] steps(t, n)).machine.states.len() + steps(t, n).queue.len() <= usize::MAX
}

/// Once no node waits, further visits change nothing.
pub proof fn lemma_settled_stays(t: Map<Seq<u8>, Kind>, n: nat, m: nat)
    requires
        settled(t, n),
        n <= m,
    ensures
        steps(t, m) == steps(t, n),
    decreases m,
{
    if n < m {
        lemma_settled_stays(t, n, (m - 1) as nat);
    }
}

/// Whenever no node waits, the automaton is the one of the rules.
pub proof fn lemma_compiled(rules: Seq<RuleView>, n: nat)
    requires
        settled(deduped(rules), n),
    ensures
        compiled(rules) == steps(deduped(rules), n).machine,
{
    let t = deduped(rules);
    let c = choose|c: nat| settled(t, c);
    if c <= n {
        lemma_settled_stays(t, c, n);
    } else {
        lemma_settled_stays(t, n, c);
    }
}

/// What keeps the construction within bounds: the sinks stand first, every
/// state has a verdict and a fallback transition in front, every transition
/// leads to a state or to a node that waits, and every node that waits falls
/// back to a sink and has its parent among the states.
pub open spec fn sound(b: Build) -> bool {
    let n = b.machine.states.len();
    &&& b.machine.transitions.len() == n
    &&& n >= 2
    &&& b.machine.states[0] == State::Allow
    &&& b.machine.states[1] == State::Disallow
    &&& forall|s: int| 0 <= s < n ==> #[trigger] b.machine.states[s] != State::Intermediate
    &&& forall|s: int|
        0 <= s < n ==> (#[trigger] b.machine.transitions[s]).len() > 0
            && b.machine.transitions[s][0].0 == Edge::MatchAny
    &&& forall|s: int, i: int|
        0 <= s < n && 0 <= i < b.machine.transitions[s].len() ==> (
        #[trigger] b.machine.transitions[s][i]).1 < n + b.queue.len()
    &&& forall|k: int|
        0 <= k < b.queue.len() ==> (#[trigger] b.queue[k]).wildcard_state <= 1
            && b.queue[k].parent_state < n
}

/// A visit keeps the construction within bounds, as long as the states can
/// be counted.
pub proof fn lemma_visit_sound(t: Map<Seq<u8>, Kind>, b: Build)
    requires
        sound(b),
        b.queue.len() > 0,
        b.machine.states.len() + b.queue.len() + child_bytes(t, b.queue[0].prefix, 0).len()
            <= usize::MAX,
    ensures
        sound(visit(t, b)),
{
    let a = visit(t, b);
    let n = b.machine.states.len();
    let item = b.queue[0];
    let edges = child_edges(t, b);
    let items = child_items(t, b);
    let star = ends_with(item.prefix, WILDCARD_BYTE);
    assert(fallback(item) <= 1);
    assert(a.machine.states[0] == b.machine.states[0]);
    assert(a.machine.states[1] == b.machine.states[1]);
    assert forall|s: int| 0 <= s < n + 1 implies #[trigger] a.machine.states[s]
        != State::Intermediate by {
        if s < n {
            assert(a.machine.states[s] == b.machine.states[s]);
        }
    }
    assert forall|s: int| 0 <= s < n + 1 implies (#[trigger] a.machine.transitions[s]).len() > 0
        && a.machine.transitions[s][0].0 == Edge::MatchAny by {
        if s < n {
            assert(b.machine.transitions[s].len() > 0);
        }
    }
    assert forall|s: int, i: int|
        0 <= s < n + 1 && 0 <= i < a.machine.transitions[s].len() implies (
    #[trigger] a.machine.transitions[s][i]).1 < n + 1 + a.queue.len() by {
        if s < n {
            if i < b.machine.transitions[s].len() {
                assert(a.machine.transitions[s][i] == b.machine.transitions[s][i]);
            } else {
                assert(a.machine.transitions[s][i] == edges[i - b.machine.transitions[s].len()]);
            }
        } else if i > 0 {
            assert(a.machine.transitions[s][i] == edges[i - 1]);
        }
    }
    assert forall|k: int| 0 <= k < a.queue.len() implies (#[trigger] a.queue[k]).wildcard_state
        <= 1 && a.queue[k].parent_state < n + 1 by {
        if k < b.queue.len() - 1 {
            assert(a.queue[k] == b.queue[k + 1]);
        } else {
            assert(a.queue[k] == items[k - (b.queue.len() - 1)]);
        }
    }
}

/// The two sinks stand first, each with its verdict and one transition, to
/// itself; and every node below the root that waits has its parent behind
/// them.
pub open spec fn sinks(b: Build) -> bool {
    &&& b.machine.states.len() >= 2
    &&& b.machine.transitions.len() >= 2
    &&& b.machine.states[0] == State::Allow
    &&& b.machine.states[1] == State::Disallow
    &&& b.machine.transitions[0] == seq![Transition(Edge::MatchAny, 0)]
    &&& b.machine.transitions[1] == seq![Transition(Edge::MatchAny, 1)]
    &&& forall|k: int|
        0 <= k < b.queue.len() && (#[trigger] b.queue[k]).prefix.len() > 0
            ==> b.queue[k].parent_state >= 2
}

/// Whatever the patterns, the construction keeps within bounds and leaves
/// the two sinks as they are.
pub proof fn lemma_steps_sinks(t: Map<Seq<u8>, Kind>, n: nat)
    requires
        fits(t),
    ensures
        sound(steps(t, n)),
        sinks(steps(t, n)),
    decreases n,
{
    if n > 0 {
        let b = steps(t, (n - 1) as nat);
        let a = steps(t, n);
        lemma_steps_sinks(t, (n - 1) as nat);
        if b.queue.len() > 0 {
            let item = b.queue[0];
            let items = child_items(t, b);
            assert(a.queue =~= b.queue.drop_first() + items);
            assert(a.machine.states.len() + a.queue.len() <= usize::MAX);
            lemma_visit_sound(t, b);
            assert(a.machine.states[0] == b.machine.states[0]);
            assert(a.machine.states[1] == b.machine.states[1]);
            assert(a.machine.transitions[0] == b.machine.transitions[0]);
            assert(a.machine.transitions[1] == b.machine.transitions[1]);
            assert forall|k: int|
                0 <= k < a.queue.len() && (#[trigger] a.queue[k]).prefix.len() > 0 implies a.queue[k].parent_state
                >= 2 by {
                if k < b.queue.len() - 1 {
                    assert(a.queue[k] == b.queue[k + 1]);
                } else {
                    assert(a.queue[k] == items[k - (b.queue.len() - 1)]);
                }
            }
        }
    }
}

/// The automaton of any rules that could be compiled holds the two sinks:
/// state 0 allows, state 1 disallows, and each leads to itself under every
/// byte and nowhere else.
pub proof fn lemma_sinks(rules: Seq<RuleView>)
    requires
        fits(deduped(rules)),
    ensures
        compiled(rules).states.len() >= 2,
        compiled(rules).transitions.len() == compiled(rules).states.len(),
        compiled(rules).states[0] == State::Allow,
        compiled(rules).states[1] == State::Disallow,
        compiled(rules).transitions[0] == seq![Transition(Edge::MatchAny, 0)],
        compiled(rules).transitions[1] == seq![Transition(Edge::MatchAny, 1)],
{
    let t = deduped(rules);
    lemma_steps_sinks(t, choose|n: nat| settled(t, n));
}

/// The nodes that wait stand level by level: `ahead` nodes of length `level`
/// in front, nodes one byte longer behind them.
pub open spec fn leveled(queue: Seq<Item>, level: nat, ahead: nat, bound: nat) -> bool {
    &&& ahead <= queue.len()
    &&& queue.len() > 0 ==> ahead >= 1
    &&& forall|k: int| 0 <= k < queue.len() ==> (#[trigger] queue[k]).prefix.len() <= bound
    &&& forall|k: int| 0 <= k < ahead ==> (#[trigger] queue[k]).prefix.len() == level
    &&& forall|k: int| ahead <= k < queue.len() ==> (#[trigger] queue[k]).prefix.len() == level + 1
}

/// A node that waits, with the state that is kept for it.
struct Pending<'a> {
    prefix: &'a [u8],
    wildcard_state: usize,
    parent_state: usize,
    state: State,
    index: usize,
}

impl<'a> View for Pending<'a> {
    type V = Item;

    closed spec fn view(&self) -> Item {
        Item {
            prefix: self.prefix@,
            wildcard_state: self.wildcard_state,
            parent_state: self.parent_state,
            state: self.state,
        }
    }
}

/// The vectors hold the states of the model, and behind them one place for
/// each node that waits.
spec fn mirrors(
    states: Seq<State>,
    transitions: Seq<Vec<Transition>>,
    queue: Seq<Pending>,
    b: Build,
) -> bool {
    let n = b.machine.states.len();
    &&& states.len() == n + queue.len()
    &&& transitions.len() == n + queue.len()
    &&& queue.len() == b.queue.len()
    &&& forall|i: int| 0 <= i < n ==> #[trigger] states[i] == b.machine.states[i]
    &&& forall|i: int| 0 <= i < n ==> (#[trigger] transitions[i])@ == b.machine.transitions[i]
    &&& forall|k: int|
        0 <= k < queue.len() ==> (#[trigger] queue[k])@ == b.queue[k] && queue[k].index == n + k
}

/// The empty path is answered as the path `/` is.
pub proof fn lemma_empty_path(m: Machine)
    ensures
        m.allows(Seq::empty()) == m.allows(seq![ROOT_BYTE]),
{
}

impl View for Cylon {
    type V = CylonView;

    closed spec fn view(&self) -> CylonView {
        CylonView {
            machine: Machine {
                states: self.states@,
                transitions: self.transitions@.map_values(|t: Vec<Transition>| t@),
            },
            delay: self.delay,
        }
    }
}

impl Clone for Cylon {
    fn clone(&self) -> (copy: Self)
        ensures
            copy@ == self@,
    {
        proof {
            use_type_invariant(self);
        }
        let states = self.states.clone();
        let transitions = self.transitions.clone();
        assert(states@ =~= self.states@);
        assert forall|s: int| 0 <= s < transitions@.len() implies (#[trigger] transitions@[s])@
            == self.transitions@[s]@ by {
            assert(cloned::<Vec<Transition>>(self.transitions@[s], transitions@[s]));
            assert(transitions@[s]@ =~= self.transitions@[s]@);
        }
        assert(transitions@.map_values(|t: Vec<Transition>| t@) =~= self.transitions@.map_values(
            |t: Vec<Transition>| t@,
        ));
        Cylon { states, transitions, delay: self.delay }
    }
}

impl Cylon {
    #[verifier::type_invariant]
    spec fn inv(self) -> bool {
        self@.machine.wf()
    }

    /// The least crawl delay that the rules gave, if they gave one.
    pub fn delay(&self) -> (d: Option<u64>)
        ensures
            d == self@.delay,
    {
        self.delay
    }

    /// A matcher that was put together again from the states, the
    /// transitions and the delay of this one, as by [`Cylon::from_parts`]
    /// from what [`Cylon::states`], [`Cylon::transitions`] and
    /// [`Cylon::delay`] give, answers every path as this one does.
    pub proof fn lemma_rebuilt(&self, copy: &Cylon, path: Seq<u8>)
        requires
            copy@.machine.states == self@.machine.states,
            copy@.machine.transitions == self@.machine.transitions,
            copy@.delay == self@.delay,
        ensures
            copy@.machine.allows(path) == self@.machine.allows(path),
            copy@ == self@,
    {
    }

    /// The verdicts of the states, by index.
    pub fn states(&self) -> (states: &Vec<State>)
        ensures
            states@ == self@.machine.states,
    {
        &self.states
    }

    /// The transitions of the states, by index.
    pub fn transitions(&self) -> (transitions: &Vec<Vec<Transition>>)
        ensures
            transitions@.map_values(|t: Vec<Transition>| t@) == self@.machine.transitions,
    {
        &self.transitions
    }

    /// The matcher with the given states and transitions, if they make an
    /// automaton: every state with a verdict and a fallback in front, every
    /// transition to a state, state 2 to start from.
    pub fn from_parts(
        states: Vec<State>,
        transitions: Vec<Vec<Transition>>,
        delay: Option<u64>,
    ) -> (machine: Option<Cylon>)
        ensures
            machine is Some <==> (Machine {
                states: states@,
                transitions: transitions@.map_values(|t: Vec<Transition>| t@),
            }).wf(),
            machine matches Some(m) ==> m@ == (CylonView {
                machine: Machine {
                    states: states@,
                    transitions: transitions@.map_values(|t: Vec<Transition>| t@),
                },
                delay,
            }),
    {
        let ghost m = Machine {
            states: states@,
            transitions: transitions@.map_values(|t: Vec<Transition>| t@),
        };
        let n = states.len();
        if n != transitions.len() || n < 3 {
            return None;
        }
        let mut s: usize = 0;
        while s < n
            invariant
                0 <= s <= n,
                n == states.len(),
                n == transitions.len(),
                m == (Machine {
                    states: states@,
                    transitions: transitions@.map_values(|t: Vec<Transition>| t@),
                }),
                forall|r: int| 0 <= r < s ==> #[trigger] m.states[r] != State::Intermediate,
                forall|r: int|
                    0 <= r < s ==> (#[trigger] m.transitions[r]).len() > 0 && m.transitions[r][0].0
                        == Edge::MatchAny,
                forall|r: int, i: int|
                    0 <= r < s && 0 <= i < m.transitions[r].len() ==> (
                    #[trigger] m.transitions[r][i]).1 < n,
            decreases n - s,
        {
            let t = &transitions[s];
            assert(t@ == m.transitions[s as int]);
            if states[s] == State::Intermediate || t.len() == 0 || t[0].0 != Edge::MatchAny {
                return None;
            }
            let mut i: usize = 0;
            while i < t.len()
                invariant
                    0 <= i <= t.len(),
                    0 <= s < n,
                    n == m.states.len(),
                    n == m.transitions.len(),
                    m == (Machine {
                        states: states@,
                        transitions: transitions@.map_values(|t: Vec<Transition>| t@),
                    }),
                    t@ == m.transitions[s as int],
                    forall|j: int| 0 <= j < i ==> (#[trigger] t@[j]).1 < n,
                decreases t.len() - i,
            {
                if t[i].1 >= n {
                    assert(m.transitions[s as int][i as int].1 >= n);
                    return None;
                }
                i += 1;
            }
            s += 1;
        }
        Some(Cylon { states, transitions, delay })
    }

    /// Compiles the rules into an automaton. Where several rules carry one
    /// pattern, a rule that is no `Disallow` decides, in whatever order the
    /// rules stand: `Allow` beats `Disallow`. Where no pattern holds a `*`,
    /// the automaton is the prefix tree of the patterns, a state a node.
    /// Where a pattern holds a `*`, a path can be at several nodes at once:
    /// the automaton then has a state for each set of nodes that a path can
    /// lead to, and answers as the non-deterministic matcher of the rules.
    pub fn compile(rules: Vec<Rule>) -> (machine: Cylon)
        ensures
            machine@.delay == min_delay(views(rules@)),
            forall|path: Seq<u8>| #[trigger] machine@.machine.allows(path) == answers(views(rules@), path),
            star_free(views(rules@)) ==> machine@.machine == compiled(views(rules@)),
            star_free(views(rules@)) ==> fits(deduped(views(rules@))),
            star_free(views(rules@)) ==> machine@.machine.states.len() <= crate::size::nodes(
                views(rules@),
            ).len() + 3,
    {
        if any_star(&rules) {
            let other = crate::nfa::Cylon::compile(rules);
            return determinize(&other);
        }
        let ghost input = views(rules@);
        let delay = delay_of(&rules);
        let mut rules = dedupe(&rules);
        let ghost clean = views(rules@);
        sort_rules(&mut rules);
        let ghost rs = views(rules@);
        let ghost t = table(rs);
        proof {
            lemma_table_stable(rs, clean);
            lemma_dedupes_table(clean, input);
        }
        let ghost bound = max_len(rs);

        let mut transitions: Vec<Vec<Transition>> = Vec::new();
        transitions.push(vec![Transition(Edge::MatchAny, 0)]);
        transitions.push(vec![Transition(Edge::MatchAny, 1)]);
        transitions.push(Vec::new());
        let mut states: Vec<State> = vec![State::Allow, State::Disallow, State::Intermediate];
        let root: &[u8] = &[];
        let mut queue: VecDeque<Pending> = VecDeque::new();
        queue.push_back(
            Pending {
                prefix: root,
                wildcard_state: 0,
                parent_state: 0,
                state: State::Intermediate,
                index: 2,
            },
        );

        let ghost mut b = initial();
        let ghost mut visited: nat = 0;
        let ghost mut level: nat = 0;
        let ghost mut ahead: nat = 1;
        proof {
            assert(root@ =~= Seq::<u8>::empty());
            assert(transitions@[0]@ =~= b.machine.transitions[0]);
            assert(transitions@[1]@ =~= b.machine.transitions[1]);
            assert(states.len() == 3);
        }
        while queue.len() > 0
            invariant
                rs == views(rules@),
                rs.len() == rules.len(),
                sorted_rules(rs),
                t == table(rs),
                bound == max_len(rs),
                b == steps(t, visited),
                sound(b),
                mirrors(states@, transitions@, queue@, b),
                leveled(b.queue, level, ahead, bound),
                states@.len() >= 3,
                forall|n: nat|
                    n <= visited ==> (#[trigger] steps(t, n)).machine.states.len() + steps(
                        t,
                        n,
                    ).queue.len() <= usize::MAX,
            decreases bound + 1 - level, ahead,
        {
            let item = queue.pop_front().unwrap();
            let ghost q = b.queue.len();
            let ghost n = b.machine.states.len();
            let ghost p = item.prefix@;
            assert(item@ == b.queue[0] && item.index == n);
            let len = item.prefix.len();
            let star = len > 0 && item.prefix[len - 1] == WILDCARD_BYTE;
            let eow = len > 0 && item.prefix[len - 1] == EOW_BYTE;
            let wildcard_state = match item.state {
                State::Allow => 0,
                State::Disallow => if eow {
                    item.wildcard_state
                } else {
                    1
                },
                State::Delay => 1,
                State::Intermediate => item.wildcard_state,
            };
            assert(wildcard_state == fallback(item@));
            let mut own: Vec<Transition> = Vec::new();
            own.push(
                Transition(
                    Edge::MatchAny,
                    if star {
                        item.index
                    } else {
                        wildcard_state
                    },
                ),
            );
            let kids = children(&rules, item.prefix);
            let ghost bytes = child_bytes(t, p, 0);
            let ghost edges = child_edges(t, b);
            let ghost items = child_items(t, b);
            let ghost first = own@;
            proof {
                if kids.len() > 0 {
                    assert(leads(rs, p, bytes[0], kids@[0] as int));
                    lemma_max_len(rs, kids@[0] as int);
                }
            }
            let mut k: usize = 0;
            while k < kids.len()
                invariant
                    0 <= k <= kids.len(),
                    rs == views(rules@),
                    rs.len() == rules.len(),
                    t == table(rs),
                    bound == max_len(rs),
                    children_of(rs, p, kids@),
                    bytes == child_bytes(t, p, 0),
                    edges == child_edges(t, b),
                    items == child_items(t, b),
                    p == item.prefix@,
                    p == b.queue[0].prefix,
                    len == p.len(),
                    item@ == b.queue[0],
                    item.index == n,
                    wildcard_state == fallback(item@),
                    star == ends_with(p, WILDCARD_BYTE),
                    q == b.queue.len(),
                    q > 0,
                    n == b.machine.states.len(),
                    sound(b),
                    p.len() < bound || kids.len() == 0,
                    states@.len() == n + q + k,
                    transitions@.len() == n + q + k,
                    queue@.len() == q - 1 + k,
                    forall|i: int| 0 <= i < n ==> #[trigger] states@[i] == b.machine.states[i],
                    forall|i: int|
                        0 <= i < n && !(star && i == item.parent_state) ==> (
                        #[trigger] transitions@[i])@ == b.machine.transitions[i],
                    star ==> transitions@[item.parent_state as int]@
                        == b.machine.transitions[item.parent_state as int] + edges.take(k as int),
                    forall|i: int|
                        0 <= i < q - 1 ==> (#[trigger] queue@[i])@ == b.queue[i + 1]
                            && queue@[i].index == n + 1 + i,
                    forall|i: int|
                        0 <= i < k ==> (#[trigger] queue@[q - 1 + i])@ == items[i] && queue@[q - 1
                            + i].index == n + q + i,
                    own@ == first + edges.take(k as int),
                decreases kids.len() - k,
            {
                let j = kids[k];
                assert(leads(rs, p, bytes[k as int], j as int));
                let rule = &rules[j];
                let path = rule.inner();
                assert(path@ == rs[j as int].pattern);
                proof {
                    lemma_max_len(rs, j as int);
                }
                let byte = path[len];
                let child_prefix = vstd::slice::slice_subrange(path, 0, len + 1);
                assert(child_prefix@ =~= p.push(byte));
                let state = if path.len() == len + 1 {
                    match rule.kind() {
                        Kind::Allow => State::Allow,
                        Kind::Disallow => State::Disallow,
                        Kind::Delay => State::Delay,
                    }
                } else {
                    State::Intermediate
                };
                assert(state == state_of(terminal(t, p.push(byte))));
                let child_index = transitions.len();
                transitions.push(Vec::new());
                states.push(State::Intermediate);
                let child = Pending {
                    prefix: child_prefix,
                    wildcard_state,
                    parent_state: item.index,
                    state,
                    index: child_index,
                };
                assert(child@ == items[k as int]);
                queue.push_back(child);
                let edge = if byte == WILDCARD_BYTE {
                    Edge::MatchAny
                } else if byte == EOW_BYTE {
                    Edge::MatchEow
                } else {
                    Edge::MatchByte(byte)
                };
                let transition = Transition(edge, child_index);
                assert(transition == edges[k as int]);
                if star {
                    transitions[item.parent_state].push(transition);
                }
                own.push(transition);
                proof {
                    assert(edges.take(k + 1) =~= edges.take(k as int).push(edges[k as int]));
                    assert(first + edges.take(k + 1) =~= (first + edges.take(k as int)).push(
                        edges[k as int],
                    ));
                    if star {
                        let old_parent = b.machine.transitions[item.parent_state as int];
                        assert(old_parent + edges.take(k + 1) =~= (old_parent + edges.take(
                            k as int,
                        )).push(edges[k as int]));
                    }
                }
                k += 1;
            }
            let verdict = match item.state {
                State::Intermediate => states[wildcard_state],
                verdict => verdict,
            };
            states[item.index] = verdict;
            transitions[item.index] = own;
            proof {
                assert(edges.take(k as int) =~= edges);
                assert(bytes.len() == kids@.len());
                assert(states.len() == n + q + bytes.len());
                lemma_visit_sound(t, b);
                let a = visit(t, b);
                assert(mirrors(states@, transitions@, queue@, a)) by {
                    assert forall|i: int| 0 <= i < n + 1 implies #[trigger] states@[i]
                        == a.machine.states[i] by {}
                    assert forall|i: int| 0 <= i < n + 1 implies (#[trigger] transitions@[i])@
                        == a.machine.transitions[i] by {}
                    assert forall|i: int| 0 <= i < queue@.len() implies (#[trigger] queue@[i])@
                        == a.queue[i] && queue@[i].index == n + 1 + i by {
                        if i >= q - 1 {
                            assert(queue@[q - 1 + (i - (q - 1))]@ == items[i - (q - 1)]);
                        }
                    }
                }
                assert forall|i: int| 0 <= i < a.queue.len() implies (#[trigger] a.queue[i]).prefix.len()
                    <= bound && (i >= q - 1 ==> a.queue[i].prefix.len() == p.len() + 1) && (i < q
                    - 1 ==> a.queue[i] == b.queue[i + 1]) by {
                    if i >= q - 1 {
                        assert(a.queue[i] == items[i - (q - 1)]);
                    } else {
                        assert(a.queue[i] == b.queue[i + 1]);
                    }
                }
                b = a;
                visited = visited + 1;
                assert(steps(t, visited) == a);
                assert(a.machine.states.len() + a.queue.len() == states.len());
                if ahead > 1 {
                    ahead = (ahead - 1) as nat;
                } else if b.queue.len() == 0 {
                    ahead = 0;
                } else {
                    level = level + 1;
                    ahead = b.queue.len();
                }
            }
        }
        proof {
            lemma_compiled(input, visited);
            assert forall|n: nat|
                (#[trigger] steps(t, n)).machine.states.len() + steps(t, n).queue.len()
                    <= usize::MAX by {
                if n > visited {
                    lemma_settled_stays(t, visited, n);
                }
            }
            assert(transitions@.map_values(|t: Vec<Transition>| t@) =~= b.machine.transitions);
            assert(states@ =~= b.machine.states);
            assert(b.machine.wf());
            crate::size::lemma_counted(input);
        }
        Cylon { states, transitions, delay }
    }

    /// Whether the rules allow the path.
    pub fn allow(&self, path: &[u8]) -> (allowed: bool)
        ensures
            allowed == self@.machine.allows(path@),
    {
        proof {
            use_type_invariant(self);
        }
        let s = if path.len() == 0 {
            let root = [ROOT_BYTE];
            assert(root@ =~= seq![ROOT_BYTE]);
            self.state(root.as_slice())
        } else {
            self.state(path)
        };
        match self.states[s] {
            State::Disallow => false,
            _ => true,
        }
    }

    /// The state in which the path ends.
    fn state(&self, path: &[u8]) -> (s: usize)
        ensures
            s == self@.machine.finish(self@.machine.run(path@)),
            s < self@.machine.states.len(),
    {
        proof {
            use_type_invariant(self);
        }
        let ghost m = self@.machine;
        let mut state: usize = 2;
        let mut k: usize = 0;
        while k < path.len()
            invariant
                0 <= k <= path.len(),
                m == self@.machine,
                m.wf(),
                state < m.states.len(),
                state == m.run(path@.take(k as int)),
            decreases path.len() - k,
        {
            let t = &self.transitions[state];
            assert(t@ == m.transitions[state as int]);
            let byte = path[k];
            let mut i: usize = t.len() - 1;
            while !Self::open_to(&t[i], byte)
                invariant
                    0 <= i < t.len(),
                    t@.len() > 0,
                    t@[0].0 == Edge::MatchAny,
                    forall|j: int| i < j < t.len() ==> !takes(#[trigger] t@[j], byte),
                decreases i,
            {
                i -= 1;
            }
            proof {
                let c = choose|c: int| last_taking(t@, byte, c);
                assert(last_taking(t@, byte, i as int));
                assert(c == i);
                assert(path@.take(k + 1).drop_last() =~= path@.take(k as int));
            }
            state = t[i].1;
            k += 1;
        }
        assert(path@.take(k as int) =~= path@);
        let t = &self.transitions[state];
        assert(t@ == m.transitions[state as int]);
        let mut i: usize = t.len() - 1;
        while !Self::open_at_end(&t[i])
            invariant
                0 <= i < t.len(),
                t@.len() > 0,
                t@[0].0 == Edge::MatchAny,
                forall|j: int| i < j < t.len() ==> !ends(#[trigger] t@[j]),
            decreases i,
        {
            i -= 1;
        }
        proof {
            let c = choose|c: int| last_ending(t@, c);
            assert(last_ending(t@, i as int));
            assert(c == i);
        }
        t[i].1
    }

    /// Whether the transition is open to the byte.
    fn open_to(t: &Transition, byte: u8) -> (r: bool)
        ensures
            r == takes(*t, byte),
    {
        match t.0 {
            Edge::MatchAny => true,
            Edge::MatchEow => false,
            Edge::MatchByte(edge_char) => edge_char == byte,
        }
    }

    /// Whether the transition is open at the end of the path.
    fn open_at_end(t: &Transition) -> (r: bool)
        ensures
            r == ends(*t),
    {
        match t.0 {
            Edge::MatchEow => true,
            Edge::MatchAny => true,
            _ => false,
        }
    }
}

/// The verdict as the state of a matcher.
pub open spec fn state_for(allowed: bool) -> State {
    if allowed {
        State::Allow
    } else {
        State::Disallow
    }
}

/// No pattern of the rules holds a `*`.
pub open spec fn star_free(rules: Seq<RuleView>) -> bool {
    forall|i: int| 0 <= i < rules.len() ==> !(#[trigger] rules[i]).pattern.contains(WILDCARD_BYTE)
}

/// What the deterministic matcher of the rules answers. Where no pattern
/// holds a `*`, a state stands for a node of the prefix tree, and the
/// automaton is the tree as it is walked. Where a pattern holds a `*`, a path
/// can be at several nodes at once, and a state stands for all of them
/// together: the automaton answers as the non-deterministic automaton of the
/// rules does.
pub open spec fn answers(rules: Seq<RuleView>, path: Seq<u8>) -> bool {
    if star_free(rules) {
        compiled(rules).allows(path)
    } else {
        crate::nfa::allows(crate::nfa::compiled(rules), path)
    }
}

/// The sets as mathematical values, in the same order.
spec fn set_views(sets: Seq<BTreeSet<usize>>) -> Seq<Set<usize>> {
    sets.map_values(|s: BTreeSet<usize>| s@)
}

/// The rows as mathematical values, in the same order.
spec fn row_views(rows: Seq<Vec<Transition>>) -> Seq<Seq<Transition>> {
    rows.map_values(|t: Vec<Transition>| t@)
}

/// A state with the transitions `ts` and the verdict `state` stands for the
/// set `sets[i]` of states of the automaton `nodes`: every byte leads it to
/// the state of the set that follows, the end of the path leaves it where
/// it is, and it judges as the heaviest state of the set does.
spec fn stands(nodes: Seq<NodeView>, sets: Seq<Set<usize>>, ts: Seq<Transition>, state: State, i: int) -> bool {
    &&& 0 <= i < sets.len()
    &&& ts.len() > 0
    &&& ts[0].0 == Edge::MatchAny
    &&& state == state_for(crate::nfa::verdict(nodes, sets[i]))
    &&& forall|k: int| 0 <= k < ts.len() ==> (#[trigger] ts[k]).1 < sets.len() && ts[k].1 != 1
    &&& forall|b: u8, k: int| #[trigger]
        last_taking(ts, b, k) ==> sets[ts[k].1 as int] == crate::nfa::advance(nodes, sets[i], b)
    &&& forall|k: int| #[trigger] last_ending(ts, k) ==> ts[k].1 == i
}

/// A state goes on standing for its set when more sets are found.
proof fn lemma_stands_on(
    nodes: Seq<NodeView>,
    sets: Seq<Set<usize>>,
    more: Seq<Set<usize>>,
    ts: Seq<Transition>,
    state: State,
    i: int,
)
    requires
        stands(nodes, sets, ts, state, i),
        sets.len() <= more.len(),
        forall|j: int| 0 <= j < sets.len() ==> sets[j] == more[j],
    ensures
        stands(nodes, more, ts, state, i),
{
    assert forall|b: u8, k: int| #[trigger] last_taking(ts, b, k) implies more[ts[k].1 as int]
        == crate::nfa::advance(nodes, more[i], b) by {
        assert(ts[k].1 < sets.len());
    }
}

/// Among the transitions of a state one is the last that is open to a byte,
/// and one is the last that is open at the end of a path.
proof fn lemma_last_open(ts: Seq<Transition>, b: u8, n: int) -> (found: (int, int))
    requires
        ts.len() > 0,
        ts[0].0 == Edge::MatchAny,
        1 <= n <= ts.len(),
    ensures
        0 <= found.0 < n,
        takes(ts[found.0], b),
        forall|j: int| found.0 < j < n ==> !takes(#[trigger] ts[j], b),
        0 <= found.1 < n,
        ends(ts[found.1]),
        forall|j: int| found.1 < j < n ==> !ends(#[trigger] ts[j]),
    decreases n,
{
    if n == 1 {
        (0, 0)
    } else {
        let most = lemma_last_open(ts, b, n - 1);
        (
            if takes(ts[n - 1], b) {
                n - 1
            } else {
                most.0
            },
            if ends(ts[n - 1]) {
                n - 1
            } else {
                most.1
            },
        )
    }
}

/// The automaton in which every state but the two sinks stands for a set
/// of states of the automaton `nodes`.
spec fn determinized(nodes: Seq<NodeView>, sets: Seq<Set<usize>>, m: Machine) -> bool {
    &&& m.states.len() == sets.len()
    &&& m.transitions.len() == sets.len()
    &&& sets.len() >= 3
    &&& sets[0] == Set::<usize>::empty()
    &&& sets[2] == set![0usize]
    &&& m.states[0] == State::Allow
    &&& m.states[1] == State::Disallow
    &&& m.transitions[0] == seq![Transition(Edge::MatchAny, 0)]
    &&& m.transitions[1] == seq![Transition(Edge::MatchAny, 1)]
    &&& forall|i: int| 2 <= i < sets.len() ==> stands(nodes, sets, #[trigger] m.transitions[i], m.states[i], i)
}

/// A path leads such an automaton to the state that stands for the set of
/// states to which the path leads the automaton `nodes`.
proof fn lemma_determinized_run(nodes: Seq<NodeView>, sets: Seq<Set<usize>>, m: Machine, path: Seq<u8>)
    requires
        determinized(nodes, sets, m),
    ensures
        m.run(path) < sets.len(),
        m.run(path) != 1,
        sets[m.run(path) as int] == crate::nfa::active_after(nodes, path),
    decreases path.len(),
{
    if path.len() > 0 {
        let before = path.drop_last();
        let b = path.last();
        lemma_determinized_run(nodes, sets, m, before);
        let r = m.run(before);
        let ts = m.transitions[r as int];
        if r == 0 {
            let k = choose|k: int| last_taking(ts, b, k);
            assert(last_taking(ts, b, 0));
            assert(k == 0);
            assert(crate::nfa::advance(nodes, sets[0], b) =~= Set::<usize>::empty());
        } else {
            assert(stands(nodes, sets, m.transitions[r as int], m.states[r as int], r as int));
            let found = lemma_last_open(ts, b, ts.len() as int);
            assert(last_taking(ts, b, found.0));
            let k = choose|k: int| last_taking(ts, b, k);
        }
    }
}

/// Such an automaton answers every path as the automaton `nodes` does.
proof fn lemma_determinized(nodes: Seq<NodeView>, sets: Seq<Set<usize>>, m: Machine, path: Seq<u8>)
    requires
        determinized(nodes, sets, m),
    ensures
        m.allows(path) == crate::nfa::allows(nodes, path),
{
    let p = normal(path);
    lemma_determinized_run(nodes, sets, m, p);
    let r = m.run(p);
    let ts = m.transitions[r as int];
    if r == 0 {
        let k = choose|k: int| last_ending(ts, k);
        assert(last_ending(ts, 0));
        assert(k == 0);
    } else {
        assert(stands(nodes, sets, m.transitions[r as int], m.states[r as int], r as int));
        let found = lemma_last_open(ts, 0, ts.len() as int);
        assert(last_ending(ts, found.1));
        let k = choose|k: int| last_ending(ts, k);
    }
}

/// Such an automaton is well formed.
proof fn lemma_determinized_wf(nodes: Seq<NodeView>, sets: Seq<Set<usize>>, m: Machine)
    requires
        determinized(nodes, sets, m),
    ensures
        m.wf(),
{
    assert forall|s: int| 0 <= s < m.states.len() implies #[trigger] m.states[s]
        != State::Intermediate by {
        if s >= 2 {
            assert(stands(nodes, sets, m.transitions[s], m.states[s], s));
        }
    }
    assert forall|s: int| 0 <= s < m.transitions.len() implies (#[trigger] m.transitions[s]).len()
        > 0 && m.transitions[s][0].0 == Edge::MatchAny by {
        if s >= 2 {
            assert(stands(nodes, sets, m.transitions[s], m.states[s], s));
        }
    }
    assert forall|s: int, i: int|
        0 <= s < m.transitions.len() && 0 <= i < m.transitions[s].len() implies (
    #[trigger] m.transitions[s][i]).1 < m.states.len() by {
        if s >= 2 {
            assert(stands(nodes, sets, m.transitions[s], m.states[s], s));
        }
    }
}

/// The place of the set among the sets found so far; it is added where it is
/// new. The place of the sink that disallows stands for no set.
fn place_of(sets: &mut Vec<BTreeSet<usize>>, target: BTreeSet<usize>) -> (at: usize)
    requires
        old(sets).len() >= 2,
    ensures
        at < final(sets).len(),
        at != 1,
        final(sets)@[at as int]@ == target@,
        old(sets).len() <= final(sets).len(),
        forall|j: int| 0 <= j < old(sets).len() ==> final(sets)@[j] == old(sets)@[j],
{
    let mut i: usize = 0;
    while i < sets.len()
        invariant
            0 <= i <= sets.len(),
            sets.len() >= 2,
            *sets == *old(sets),
        decreases sets.len() - i,
    {
        if i != 1 && same_set(&sets[i], &target) {
            return i;
        }
        i += 1;
    }
    sets.push(target);
    i
}

/// The transitions of the state that stands for the set `current`: one for
/// each byte, but for the bytes that lead where byte 0 leads, which the
/// fallback stands for; and, last, one that keeps the state where it is at
/// the end of a path.
fn row_of(nfa: &crate::nfa::Cylon, sets: &mut Vec<BTreeSet<usize>>, me: usize) -> (row: Vec<Transition>)
    requires
        2 <= me < old(sets).len(),
    ensures
        old(sets).len() <= final(sets).len(),
        forall|j: int| 0 <= j < old(sets).len() ==> final(sets)@[j] == old(sets)@[j],
        stands(
            nfa@.states,
            set_views(final(sets)@),
            row@,
            state_for(crate::nfa::verdict(nfa@.states, old(sets)@[me as int]@)),
            me as int,
        ),
{
    let ghost nodes = nfa@.states;
    let ghost first = sets@;
    let current = sets[me].clone();
    let ghost here = current@;
    let to = nfa.follow(&current, 0);
    let fallback = place_of(sets, to);
    let mut row: Vec<Transition> = Vec::new();
    row.push(Transition(Edge::MatchAny, fallback));
    let mut c: usize = 1;
    while c < 256
        invariant
            1 <= c <= 256,
            nodes == nfa@.states,
            here == current@,
            here == first[me as int]@,
            2 <= me < first.len(),
            first.len() <= sets.len(),
            forall|j: int| 0 <= j < first.len() ==> sets@[j] == first[j],
            row.len() >= 1,
            row@[0] == Transition(Edge::MatchAny, fallback),
            forall|k: int| 0 <= k < row.len() ==> (#[trigger] row@[k]).1 < sets.len() && row@[k].1 != 1,
            forall|k: int|
                1 <= k < row.len() ==> exists|b: u8|
                    b < c && (#[trigger] row@[k]).0 == Edge::MatchByte(b) && sets@[row@[k].1 as int]@
                        == crate::nfa::advance(nodes, here, b),
            forall|b: u8|
                b < c ==> sets@[fallback as int]@ == #[trigger] crate::nfa::advance(nodes, here, b)
                    || exists|k: int| 1 <= k < row.len() && (#[trigger] row@[k]).0 == Edge::MatchByte(b),
        decreases 256 - c,
    {
        let byte = c as u8;
        let to = nfa.follow(&current, byte);
        let ghost before = sets@;
        let ghost old_row = row@;
        let at = place_of(sets, to);
        if at != fallback {
            row.push(Transition(Edge::MatchByte(byte), at));
        }
        proof {
            assert forall|k: int| 1 <= k < row.len() implies exists|b: u8|
                b < c + 1 && (#[trigger] row@[k]).0 == Edge::MatchByte(b) && sets@[row@[k].1 as int]@
                    == crate::nfa::advance(nodes, here, b) by {
                if k < old_row.len() {
                    let b = choose|b: u8|
                        b < c && old_row[k].0 == Edge::MatchByte(b) && before[old_row[k].1 as int]@
                            == crate::nfa::advance(nodes, here, b);
                    assert(row@[k] == old_row[k]);
                    assert(sets@[old_row[k].1 as int] == before[old_row[k].1 as int]);
                } else {
                    assert(row@[k].0 == Edge::MatchByte(byte));
                }
            }
            assert forall|b: u8| b < c + 1 implies sets@[fallback as int]@
                == #[trigger] crate::nfa::advance(nodes, here, b) || exists|k: int|
                1 <= k < row.len() && (#[trigger] row@[k]).0 == Edge::MatchByte(b) by {
                assert(sets@[fallback as int] == before[fallback as int]);
                if b < c {
                    if before[fallback as int]@ != crate::nfa::advance(nodes, here, b) {
                        let k = choose|k: int|
                            1 <= k < old_row.len() && (#[trigger] old_row[k]).0 == Edge::MatchByte(b);
                        assert(row@[k] == old_row[k]);
                    }
                } else {
                    assert(b == byte);
                    if at != fallback {
                        assert(row@[row.len() - 1].0 == Edge::MatchByte(b));
                    }
                }
            }
            assert forall|k: int| 0 <= k < row.len() implies (#[trigger] row@[k]).1 < sets.len()
                && row@[k].1 != 1 by {
                if k < old_row.len() {
                    assert(row@[k] == old_row[k]);
                }
            }
        }
        c += 1;
    }
    let ghost most = row@;
    row.push(Transition(Edge::MatchEow, me));
    proof {
        let ts = row@;
        let all = set_views(sets@);
        let last = ts.len() - 1;
        assert(all[me as int] == here);
        assert forall|k: int| 0 <= k < ts.len() implies (#[trigger] ts[k]).1 < all.len() && ts[k].1
            != 1 by {
            if k < last {
                assert(ts[k] == most[k]);
            }
        }
        assert forall|b: u8, k: int| #[trigger] last_taking(ts, b, k) implies all[ts[k].1 as int]
            == crate::nfa::advance(nodes, here, b) by {
            assert(k < last);
            assert(ts[k] == most[k]);
            if k == 0 {
                if sets@[fallback as int]@ != crate::nfa::advance(nodes, here, b) {
                    let j = choose|j: int|
                        1 <= j < most.len() && (#[trigger] most[j]).0 == Edge::MatchByte(b);
                    assert(ts[j] == most[j]);
                    assert(takes(ts[j], b));
                }
            } else {
                let x = choose|x: u8|
                    x < 256 && most[k].0 == Edge::MatchByte(x) && sets@[most[k].1 as int]@
                        == crate::nfa::advance(nodes, here, x);
                assert(x == b);
            }
        }
        assert forall|k: int| #[trigger] last_ending(ts, k) implies ts[k].1 == me by {
            if k < last {
                assert(ends(ts[last]));
            }
        }
    }
    row
}

/// The deterministic automaton that answers as the given automaton does. A
/// state stands for a set of states of the given automaton: for the states
/// to which a path can lead it at once. The sets are found one after the
/// other, from the set of the start state on.
fn determinize(nfa: &crate::nfa::Cylon) -> (machine: Cylon)
    ensures
        machine@.delay == nfa@.delay,
        forall|path: Seq<u8>| #[trigger]
            machine@.machine.allows(path) == crate::nfa::allows(nfa@.states, path),
{
    let ghost nodes = nfa@.states;
    let mut sets: Vec<BTreeSet<usize>> = Vec::new();
    sets.push(BTreeSet::new());
    sets.push(BTreeSet::new());
    let mut start: BTreeSet<usize> = BTreeSet::new();
    crate::nfa::activate(&mut start, 0);
    sets.push(start);
    let mut states: Vec<State> = Vec::new();
    states.push(State::Allow);
    states.push(State::Disallow);
    let mut transitions: Vec<Vec<Transition>> = Vec::new();
    let mut sink: Vec<Transition> = Vec::new();
    sink.push(Transition(Edge::MatchAny, 0));
    transitions.push(sink);
    let mut sink: Vec<Transition> = Vec::new();
    sink.push(Transition(Edge::MatchAny, 1));
    transitions.push(sink);
    let mut w: usize = 2;
    assert(sets@[2]@ =~= set![0usize]);
    while w < sets.len()
        invariant
            nodes == nfa@.states,
            2 <= w <= sets.len(),
            sets.len() >= 3,
            states.len() == w,
            transitions.len() == w,
            sets@[0]@ == Set::<usize>::empty(),
            sets@[2]@ == set![0usize],
            states@[0] == State::Allow,
            states@[1] == State::Disallow,
            transitions@[0]@ == seq![Transition(Edge::MatchAny, 0)],
            transitions@[1]@ == seq![Transition(Edge::MatchAny, 1)],
            forall|i: int|
                2 <= i < w ==> stands(nodes, set_views(sets@), (#[trigger] transitions@[i])@, states@[i], i),
        decreases usize::MAX - w,
    {
        let ghost before = set_views(sets@);
        let allowed = nfa.resolve(&sets[w]);
        let row = row_of(nfa, &mut sets, w);
        proof {
            let after = set_views(sets@);
            assert forall|i: int| 2 <= i < w implies stands(
                nodes,
                after,
                (#[trigger] transitions@[i])@,
                states@[i],
                i,
            ) by {
                lemma_stands_on(nodes, before, after, transitions@[i]@, states@[i], i);
            }
        }
        states.push(if allowed {
            State::Allow
        } else {
            State::Disallow
        });
        transitions.push(row);
        w += 1;
    }
    proof {
        let m = Machine { states: states@, transitions: row_views(transitions@) };
        let all = set_views(sets@);
        assert(determinized(nodes, all, m));
        lemma_determinized_wf(nodes, all, m);
        assert forall|path: Seq<u8>| #[trigger] m.allows(path) == crate::nfa::allows(nodes, path) by {
            lemma_determinized(nodes, all, m, path);
        }
    }
    Cylon { states, transitions, delay: nfa.delay() }
}

/// Whether a pattern of the rules holds a `*`.
fn any_star(rules: &Vec<Rule>) -> (found: bool)
    ensures
        found == !star_free(views(rules@)),
{
    let mut i: usize = 0;
    while i < rules.len()
        invariant
            0 <= i <= rules.len(),
            forall|j: int| 0 <= j < i ==> !(#[trigger] views(rules@)[j]).pattern.contains(WILDCARD_BYTE),
        decreases rules.len() - i,
    {
        if crate::nfa::holds_star(rules[i].inner()) {
            assert(views(rules@)[i as int].pattern.contains(WILDCARD_BYTE));
            return true;
        }
        i += 1;
    }
    false
}

} // verus!
