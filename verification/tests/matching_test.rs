use cylon::dfa;
use cylon::dfa::{Edge, State, Transition};
use cylon::nfa::{Accept, Cylon, Node, Rule};
use cylon::rule::{compare_bytes, rule_order, Order};
use cylon::trie::{children, starts_with};
use cylon::Compiler;
use std::cmp::Ordering;

fn robots(lines: &[&str]) -> Vec<u8> {
    lines.join("\n").into_bytes()
}

#[test]
fn allow_beats_disallow_in_either_order() {
    let first = Compiler::new("bot").compile(&robots(&[
        "User-agent: bot",
        "Allow: /page",
        "Disallow: /page",
    ]));
    let second = Compiler::new("bot").compile(&robots(&[
        "User-agent: bot",
        "Disallow: /page",
        "Allow: /page",
    ]));
    for machine in [first, second] {
        assert!(machine.allow(b"/page"));
        assert!(machine.allow(b"/page/more"));
        assert!(machine.allow(b"/other"));
    }
}

#[test]
fn longer_pattern_wins() {
    let machine = Cylon::compile(vec![
        Rule::Allow(b"/shop"),
        Rule::Disallow(b"/shop/cart"),
        Rule::Allow(b"/shop/cart/help"),
    ]);
    assert!(machine.allow(b"/shop/items"));
    assert!(!machine.allow(b"/shop/cart"));
    assert!(!machine.allow(b"/shop/cart/pay"));
    assert!(machine.allow(b"/shop/cart/help"));
    assert!(machine.allow(b"/shop/cart/help/me"));

    let machine = dfa::Cylon::compile(vec![
        Rule::Allow(b"/shop"),
        Rule::Disallow(b"/shop/cart"),
        Rule::Allow(b"/shop/cart/help"),
    ]);
    assert!(machine.allow(b"/shop/items"));
    assert!(!machine.allow(b"/shop/cart/pay"));
    assert!(machine.allow(b"/shop/cart/help/me"));
}

#[test]
fn literal_pattern_matches_what_starts_with_it() {
    let machine = Cylon::compile(vec![Rule::Disallow(b"/tmp")]);
    assert!(!machine.allow(b"/tmp"));
    assert!(!machine.allow(b"/tmpfile"));
    assert!(!machine.allow(b"/tmp/x/y"));
    assert!(machine.allow(b"/tm"));
    assert!(machine.allow(b"/Tmp"));
    assert!(machine.allow(b"/a/tmp"));
}

#[test]
fn anchored_pattern_matches_the_equal_path_only() {
    for machine in [
        Cylon::compile(vec![Rule::Disallow(b"/exact$")]).allow(b"/exact"),
        dfa::Cylon::compile(vec![Rule::Disallow(b"/exact$")]).allow(b"/exact"),
    ] {
        assert!(!machine);
    }
    let machine = Cylon::compile(vec![Rule::Disallow(b"/exact$")]);
    assert!(machine.allow(b"/exac"));
    assert!(machine.allow(b"/exact/"));
    assert!(machine.allow(b"/exactly"));
    assert!(machine.allow(b"/"));
}

#[test]
fn wildcard_pattern_matches_behind_its_start() {
    let machine = Cylon::compile(vec![Rule::Disallow(b"/img/*.png")]);
    assert!(!machine.allow(b"/img/a.png"));
    assert!(!machine.allow(b"/img/.png"));
    assert!(!machine.allow(b"/img/a/b/c.png"));
    assert!(!machine.allow(b"/img/a.png?size=2"));
    assert!(!machine.allow(b"/img/a.pn.png"));
    assert!(machine.allow(b"/img/a.pn"));
    assert!(machine.allow(b"/im/a.png"));
    assert!(machine.allow(b"/img"));
}

#[test]
fn wildcard_pattern_finds_a_start_that_repeats() {
    let machine = Cylon::compile(vec![Rule::Disallow(b"*aa")]);
    assert!(!machine.allow(b"abaa"));
    assert!(!machine.allow(b"aa"));
    assert!(!machine.allow(b"baab"));
    assert!(machine.allow(b"abab"));
}

#[test]
fn anchored_wildcard_pattern_matches_what_ends_with_its_end() {
    let machine = Cylon::compile(vec![Rule::Disallow(b"/img/*.png$")]);
    assert!(!machine.allow(b"/img/a.png"));
    assert!(!machine.allow(b"/img/.png"));
    assert!(!machine.allow(b"/img/a/b.png"));
    assert!(machine.allow(b"/img/a.png?x"));
    assert!(machine.allow(b"/img/a.pn"));
    assert!(machine.allow(b"/im/a.png"));
    // An end that has gone by does not hide the end of the path.
    assert!(!machine.allow(b"/img/a.png.png"));
    assert!(machine.allow(b"/img/a.png.pn"));
    let machine = Cylon::compile(vec![Rule::Disallow(b"/*a$")]);
    assert!(!machine.allow(b"/a"));
    assert!(!machine.allow(b"/ba"));
    assert!(!machine.allow(b"/aa"));
    assert!(!machine.allow(b"/aba"));
    assert!(machine.allow(b"/ab"));
    let machine = Cylon::compile(vec![Rule::Disallow(b"/*.php$")]);
    assert!(!machine.allow(b"/a.php"));
    assert!(!machine.allow(b"/a.php.php"));
    assert!(machine.allow(b"/a.php.ph"));
    // A `*` before the `$` takes the rest of the path, whatever it holds.
    let machine = Cylon::compile(vec![Rule::Disallow(b"/x*$")]);
    assert!(!machine.allow(b"/x"));
    assert!(!machine.allow(b"/xy"));
    assert!(!machine.allow(b"/xyz"));
    assert!(machine.allow(b"/y"));
    assert!(machine.allow(b"/"));
}

#[test]
fn pattern_that_ends_in_a_wildcard() {
    let machine = Cylon::compile(vec![Rule::Disallow(b"/private*")]);
    assert!(!machine.allow(b"/private"));
    assert!(!machine.allow(b"/private/x"));
    assert!(machine.allow(b"/privat"));
}

#[test]
fn no_matching_group_allows_every_path() {
    let machine = Compiler::new("somebot").compile(&robots(&[
        "User-agent: other",
        "Disallow: /",
        "",
        "User-agent: another",
        "Disallow: /x",
    ]));
    assert!(machine.allow(b"/"));
    assert!(machine.allow(b"/x"));
    assert!(machine.allow(b""));
    assert!(machine.allow(b"anything at all"));
    assert_eq!(machine.delay(), None);
    assert_eq!(machine.states().len(), 2);
}

#[test]
fn empty_path_is_the_root_path() {
    let rules = || vec![Rule::Disallow(b"/"), Rule::Allow(b"/open")];
    let machine = Cylon::compile(rules());
    assert_eq!(machine.allow(b""), machine.allow(b"/"));
    assert!(!machine.allow(b""));
    let machine = dfa::Cylon::compile(rules());
    assert_eq!(machine.allow(b""), machine.allow(b"/"));
    assert!(!machine.allow(b""));
    let machine = Cylon::compile(vec![Rule::Allow(b"/")]);
    assert!(machine.allow(b""));
}

#[test]
fn empty_pattern_matches_nothing() {
    let machine = Cylon::compile(vec![Rule::Disallow(b"")]);
    assert!(machine.allow(b"/"));
    assert!(machine.allow(b"/anything"));
    let machine = dfa::Cylon::compile(vec![Rule::Disallow(b"")]);
    assert!(machine.allow(b"/"));
    assert!(machine.allow(b"/anything"));
}

#[test]
fn rules_are_walked_in_order_of_their_patterns() {
    let sorted = Cylon::compile(vec![
        Rule::Disallow(b"/a"),
        Rule::Allow(b"/b"),
        Rule::Disallow(b"/c/d"),
    ]);
    let shuffled = Cylon::compile(vec![
        Rule::Disallow(b"/c/d"),
        Rule::Allow(b"/b"),
        Rule::Disallow(b"/a"),
    ]);
    assert_eq!(sorted.states(), shuffled.states());

    let sorted = dfa::Cylon::compile(vec![
        Rule::Disallow(b"/a"),
        Rule::Allow(b"/b"),
        Rule::Disallow(b"/c/d"),
    ]);
    let shuffled = dfa::Cylon::compile(vec![
        Rule::Disallow(b"/c/d"),
        Rule::Allow(b"/b"),
        Rule::Disallow(b"/a"),
    ]);
    assert_eq!(sorted.states(), shuffled.states());
    assert_eq!(sorted.transitions(), shuffled.transitions());
}

#[test]
fn allow_wins_among_rules_of_one_pattern() {
    for rules in [
        || vec![Rule::Disallow(b"/x"), Rule::Allow(b"/x")],
        || vec![Rule::Allow(b"/x"), Rule::Disallow(b"/x")],
        || vec![Rule::Disallow(b"/x"), Rule::Allow(b"/x"), Rule::Disallow(b"/x")],
    ] {
        let machine = Cylon::compile(rules());
        assert!(machine.allow(b"/x"));
        assert!(machine.allow(b"/xy"));
        assert!(machine.allow(b"/y"));
        let machine = dfa::Cylon::compile(rules());
        assert!(machine.allow(b"/x"));
        assert!(machine.allow(b"/xy"));
        assert!(machine.allow(b"/y"));
    }
    let machine = Cylon::compile(vec![Rule::Disallow(b"/x"), Rule::Disallow(b"/x")]);
    assert!(!machine.allow(b"/x"));
    let machine = dfa::Cylon::compile(vec![Rule::Disallow(b"/x"), Rule::Disallow(b"/x")]);
    assert!(!machine.allow(b"/x"));
    // A longer pattern still wins over the tie.
    let machine = Cylon::compile(vec![
        Rule::Disallow(b"/a"),
        Rule::Allow(b"/a"),
        Rule::Disallow(b"/ab"),
    ]);
    assert!(machine.allow(b"/a"));
    assert!(!machine.allow(b"/ab"));
}

#[test]
fn normalized_weight_is_twice_the_weight_and_one_for_allow() {
    assert_eq!(Node::new(Accept::Allow, 0).normalized_weight(), 1);
    assert_eq!(Node::new(Accept::Disallow, 0).normalized_weight(), 0);
    assert_eq!(Node::new(Accept::Allow, 7).normalized_weight(), 15);
    assert_eq!(Node::new(Accept::Disallow, 7).normalized_weight(), 14);
    assert_eq!(Node::new(Accept::Delay, 7).normalized_weight(), 15);
    assert_eq!(
        Node::new(Accept::Allow, usize::MAX).normalized_weight(),
        2 * (usize::MAX as u128) + 1
    );
    assert!(Node::new(Accept::Allow, 3).allow());
    assert!(Node::new(Accept::Delay, 3).allow());
    assert!(!Node::new(Accept::Disallow, 3).allow());
}

#[test]
fn follow_edges_gives_labelled_targets_then_wildcards() {
    let mut node = Node::new(Accept::Allow, 1);
    assert_eq!(node.follow_edges(b'a', 9), vec![9]);
    node.add_edge(b'a', 4);
    node.add_edge(b'b', 5);
    node.add_edge(b'a', 6);
    assert_eq!(node.follow_edges(b'a', 9), vec![4, 6, 9]);
    assert_eq!(node.follow_edges(b'c', 9), vec![9]);
    node.add_wildcard(2);
    node.add_wildcard(3);
    assert_eq!(node.follow_edges(b'a', 9), vec![4, 6, 2, 3]);
    assert_eq!(node.follow_edges(b'c', 9), vec![2, 3]);
}

#[test]
fn states_out_of_range_lead_nowhere() {
    let machine = Cylon::from_parts(vec![Node::new(Accept::Disallow, 4)], None);
    assert!(!machine.allow(b"/"));
    assert!(!machine.allow(b"/a"));
    let mut only = Node::new(Accept::Disallow, 4);
    only.add_wildcard(17);
    let machine = Cylon::from_parts(vec![only], None);
    assert!(machine.allow(b"/"));
    assert!(machine.allow(b"/a"));
    let machine = Cylon::from_parts(vec![], Some(3));
    assert!(machine.allow(b"/"));
    assert_eq!(machine.delay(), Some(3));
}

#[test]
fn matcher_comes_back_from_its_parts() {
    let machine = Cylon::compile(vec![
        Rule::Disallow(b"/a*b"),
        Rule::Allow(b"/a/c$"),
        Rule::Delay(b"12"),
    ]);
    let again = Cylon::from_parts(machine.states().clone(), machine.delay());
    assert_eq!(again.states(), machine.states());
    assert_eq!(again.delay(), Some(12));
    for path in [&b"/"[..], b"/ab", b"/axxb", b"/a/c", b"/a/c/d", b"12", b""] {
        assert_eq!(again.allow(path), machine.allow(path));
    }

    let machine = dfa::Cylon::compile(vec![
        Rule::Disallow(b"/a*b"),
        Rule::Allow(b"/a/c$"),
        Rule::Delay(b"12"),
    ]);
    let again = dfa::Cylon::from_parts(
        machine.states().clone(),
        machine.transitions().clone(),
        machine.delay(),
    )
    .expect("a compiled matcher is an automaton");
    assert_eq!(again.delay(), Some(12));
    for path in [&b"/"[..], b"/ab", b"/axxb", b"/a/c", b"/a/c/d", b""] {
        assert_eq!(again.allow(path), machine.allow(path));
    }
    let copy = machine.clone();
    assert_eq!(copy.states(), machine.states());
    assert_eq!(copy.transitions(), machine.transitions());
}

#[test]
fn parts_that_make_no_automaton_are_refused() {
    let any = |state| Transition(Edge::MatchAny, state);
    let good = dfa::Cylon::from_parts(
        vec![State::Allow, State::Disallow, State::Allow],
        vec![vec![any(0)], vec![any(1)], vec![any(0)]],
        None,
    );
    assert!(good.is_some());
    assert!(good.unwrap().allow(b"/x"));
    // Too few states to start from.
    assert!(dfa::Cylon::from_parts(
        vec![State::Allow, State::Disallow],
        vec![vec![any(0)], vec![any(1)]],
        None
    )
    .is_none());
    // A state without a verdict.
    assert!(dfa::Cylon::from_parts(
        vec![State::Allow, State::Disallow, State::Intermediate],
        vec![vec![any(0)], vec![any(1)], vec![any(0)]],
        None
    )
    .is_none());
    // A state without a fallback in front.
    assert!(dfa::Cylon::from_parts(
        vec![State::Allow, State::Disallow, State::Allow],
        vec![vec![any(0)], vec![any(1)], vec![Transition(Edge::MatchByte(b'a'), 0)]],
        None
    )
    .is_none());
    assert!(dfa::Cylon::from_parts(
        vec![State::Allow, State::Disallow, State::Allow],
        vec![vec![any(0)], vec![any(1)], vec![]],
        None
    )
    .is_none());
    // A transition to no state.
    assert!(dfa::Cylon::from_parts(
        vec![State::Allow, State::Disallow, State::Allow],
        vec![vec![any(0)], vec![any(1)], vec![any(0), Transition(Edge::MatchEow, 3)]],
        None
    )
    .is_none());
    // States and transitions of different number.
    assert!(dfa::Cylon::from_parts(
        vec![State::Allow, State::Disallow, State::Allow],
        vec![vec![any(0)], vec![any(1)]],
        None
    )
    .is_none());
}

#[test]
fn delay_state_of_the_deterministic_matcher_allows() {
    let machine = dfa::Cylon::compile(vec![Rule::Disallow(b"/"), Rule::Delay(b"/7*")]);
    assert!(machine.allow(b"/7"));
    assert!(machine.allow(b"/7x"));
    assert!(!machine.allow(b"/8"));
    assert_eq!(machine.delay(), None);
}

#[test]
fn bytes_compare_lexicographically() {
    assert_eq!(compare_bytes(b"", b""), Order::Equal);
    assert_eq!(compare_bytes(b"", b"a"), Order::Less);
    assert_eq!(compare_bytes(b"a", b""), Order::Greater);
    assert_eq!(compare_bytes(b"/a", b"/a$"), Order::Less);
    assert_eq!(compare_bytes(b"/a*", b"/ab"), Order::Less);
    assert_eq!(compare_bytes(b"/b", b"/ab"), Order::Greater);
    assert_eq!(compare_bytes(b"/ab", b"/ab"), Order::Equal);
    assert_eq!(compare_bytes(&[200], &[100, 1]), Order::Greater);
    assert_eq!(rule_order(&Rule::Allow(b"/a"), &Rule::Disallow(b"/a")), Ordering::Equal);
    assert_eq!(rule_order(&Rule::Allow(b"/a"), &Rule::Disallow(b"/b")), Ordering::Less);
    assert_eq!(rule_order(&Rule::Delay(b"9"), &Rule::Disallow(b"10")), Ordering::Greater);
    assert_eq!(Rule::Delay(b"9").inner(), b"9");
}

#[test]
fn children_are_found_once_each_in_order_of_their_bytes() {
    let rules = vec![
        Rule::Allow(b"/"),
        Rule::Disallow(b"/a"),
        Rule::Allow(b"/a/b"),
        Rule::Allow(b"/a/c"),
        Rule::Disallow(b"/b"),
        Rule::Disallow(b"/bc"),
        Rule::Allow(b"x"),
    ];
    assert_eq!(children(&rules, b""), vec![0, 6]);
    assert_eq!(children(&rules, b"/"), vec![1, 4]);
    assert_eq!(children(&rules, b"/a"), vec![2]);
    assert_eq!(children(&rules, b"/a/"), vec![2, 3]);
    assert_eq!(children(&rules, b"/b"), vec![5]);
    assert_eq!(children(&rules, b"/bc"), Vec::<usize>::new());
    assert_eq!(children(&rules, b"/z"), Vec::<usize>::new());
    assert!(starts_with(b"/abc", b"/ab"));
    assert!(starts_with(b"/abc", b""));
    assert!(!starts_with(b"/ab", b"/abc"));
    assert!(!starts_with(b"/abc", b"/ac"));
}

#[test]
fn deterministic_wildcard_looks_from_every_byte() {
    let machine = dfa::Cylon::compile(vec![Rule::Disallow(b"/a*b")]);
    assert!(!machine.allow(b"/ab"));
    assert!(!machine.allow(b"/axb"));
    assert!(!machine.allow(b"/axxbyy"));
    assert!(machine.allow(b"/a"));
    assert!(machine.allow(b"/axx"));
    assert!(machine.allow(b"/b"));

    for pattern in [&b"/a*"[..], &b"/a*$"[..]] {
        let machine = dfa::Cylon::compile(vec![Rule::Disallow(pattern)]);
        assert!(!machine.allow(b"/a"));
        assert!(!machine.allow(b"/ab"));
        assert!(machine.allow(b"/"));
        assert!(machine.allow(b"/b"));
    }

    // What stands behind the `*` is looked for from every byte on.
    let machine = dfa::Cylon::compile(vec![Rule::Disallow(b"/*aa")]);
    assert!(!machine.allow(b"/aa"));
    assert!(!machine.allow(b"/baa"));
    assert!(!machine.allow(b"/aab"));
    assert!(!machine.allow(b"/abaa"));
    assert!(machine.allow(b"/abab"));
    let machine = dfa::Cylon::compile(vec![Rule::Disallow(b"/*aab")]);
    assert!(!machine.allow(b"/aaab"));
    assert!(!machine.allow(b"/aaba"));
    assert!(machine.allow(b"/abab"));

    let machine = dfa::Cylon::compile(vec![Rule::Disallow(b"/*.php$")]);
    assert!(!machine.allow(b"/x.php"));
    assert!(!machine.allow(b"/.php"));
    assert!(!machine.allow(b"/a.b.php"));
    assert!(!machine.allow(b"/a.php.php"));
    assert!(machine.allow(b"/x.php5"));

    let machine = dfa::Cylon::compile(vec![Rule::Allow(b"/a*b")]);
    assert!(machine.allow(b"/axb"));
    assert!(machine.allow(b"/axbx"));
}

#[test]
fn both_matchers_answer_alike_where_a_pattern_holds_a_wildcard() {
    let lists: [fn() -> Vec<Rule<'static>>; 4] = [
        || vec![Rule::Allow(b"/test"), Rule::Disallow(b"/*.html")],
        || vec![Rule::Disallow(b"/"), Rule::Allow(b"/a"), Rule::Allow(b"/*.b")],
        || vec![Rule::Allow(b"/"), Rule::Disallow(b"/www/*/images"), Rule::Allow(b"/www/public/images")],
        || vec![Rule::Disallow(b"/a*b*c$"), Rule::Allow(b"/ab")],
    ];
    let paths: [&[u8]; 12] = [
        b"", b"/", b"/test.html", b"/test", b"/a.b", b"/x..b", b"/www/cat/images",
        b"/www/public/images", b"/abc", b"/axbxc", b"/axbxcx", b"/ab",
    ];
    for rules in lists {
        let one = Cylon::compile(rules());
        let other = dfa::Cylon::compile(rules());
        for path in paths {
            assert_eq!(one.allow(path), other.allow(path));
        }
    }
}

#[test]
fn automata_are_no_larger_than_the_patterns_are_long() {
    // Fifteen nodes below the root: every pattern starts the longest one.
    let rules = || {
        vec![
            Rule::Allow(b"/"),
            Rule::Disallow(b"/shop"),
            Rule::Allow(b"/shop/cart/help"),
        ]
    };
    assert_eq!(dfa::Cylon::compile(rules()).states().len(), 15 + 3);
    assert_eq!(Cylon::compile(rules()).states().len(), 15 + 3 + 2);
    assert!(Cylon::compile(rules()).states().len() <= 2 * 15 + 2);

    // Four nodes below the root: `a`, `ab`, `ac` and `b`.
    let rules = || vec![Rule::Disallow(b"ab"), Rule::Disallow(b"ac"), Rule::Disallow(b"b")];
    assert_eq!(dfa::Cylon::compile(rules()).states().len(), 4 + 3);
    assert_eq!(Cylon::compile(rules()).states().len(), 4 + 3 + 2);

    assert_eq!(dfa::Cylon::compile(vec![]).states().len(), 3);
    assert_eq!(Cylon::compile(vec![]).states().len(), 2);
}

#[test]
fn deterministic_matcher_keeps_its_two_sinks() {
    let machine = dfa::Cylon::compile(vec![
        Rule::Disallow(b"/a*b"),
        Rule::Allow(b"/a*"),
        Rule::Disallow(b"/c$"),
    ]);
    assert_eq!(machine.states()[0], State::Allow);
    assert_eq!(machine.states()[1], State::Disallow);
    assert_eq!(machine.transitions()[0], vec![Transition(Edge::MatchAny, 0)]);
    assert_eq!(machine.transitions()[1], vec![Transition(Edge::MatchAny, 1)]);
    assert_eq!(machine.states().len(), machine.transitions().len());
}

#[test]
fn allow_wins_among_rules_of_one_pattern_with_a_wildcard() {
    for rules in [
        || vec![Rule::Disallow(b"/a*b"), Rule::Allow(b"/a*b")],
        || vec![Rule::Allow(b"/a*b"), Rule::Disallow(b"/a*b")],
    ] {
        assert!(Cylon::compile(rules()).allow(b"/axb"));
        assert!(Cylon::compile(rules()).allow(b"/ab/c"));
        assert!(dfa::Cylon::compile(rules()).allow(b"/axb"));
    }
    let rules = || vec![Rule::Disallow(b"/a*b$"), Rule::Disallow(b"/a*b$")];
    assert!(!Cylon::compile(rules()).allow(b"/axb"));
    assert!(Cylon::compile(rules()).allow(b"/axbx"));
    assert!(!dfa::Cylon::compile(rules()).allow(b"/axb"));
}
