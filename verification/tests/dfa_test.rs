use cylon::dfa::{Cylon, Edge, Rule, State, Transition};

fn any(state: usize) -> Transition {
    Transition(Edge::MatchAny, state)
}

fn eow(state: usize) -> Transition {
    Transition(Edge::MatchEow, state)
}

fn byte(b: u8, state: usize) -> Transition {
    Transition(Edge::MatchByte(b), state)
}

#[test]
fn test_compile() {
    let rules = vec![
        Rule::Disallow(b"/"),
        Rule::Allow(b"/a"),
        Rule::Allow(b"/abc"),
        Rule::Allow(b"/b"),
    ];

    let expect_transitions = vec![
        vec![any(0)],
        vec![any(1)],
        vec![any(0), byte(b'/', 3)], // ""
        vec![any(1), byte(b'a', 4), byte(b'b', 5)], // "/"
        vec![any(0), byte(b'b', 6)], // "/a"
        vec![any(0)], // "/b"
        vec![any(0), byte(b'c', 7)], // "/ab"
        vec![any(0)], // "/abc"
    ];

    let expect_states = vec![
        State::Allow,
        State::Disallow,
        State::Allow,
        State::Disallow,
        State::Allow,
        State::Allow,
        State::Allow,
        State::Allow,
    ];

    let actual = Cylon::compile(rules);
    assert_eq!(*actual.transitions(), expect_transitions);
    assert_eq!(*actual.states(), expect_states);
}

#[test]
fn test_compile_with_wildcard() {
    let rules = vec![
        Rule::Disallow(b"/"),
        Rule::Allow(b"/a"),
        Rule::Allow(b"/*.b"),
    ];

    // A path can be at several nodes of the prefix tree at once, so a state
    // stands for a set of nodes. Every state keeps its place at the end of
    // a path.
    let expect_transitions = vec![
        vec![any(0)],
        vec![any(1)],
        vec![any(3), byte(b'/', 4), eow(2)],
        vec![any(3), eow(3)],
        vec![any(5), byte(b'.', 6), byte(b'a', 7), eow(4)],
        vec![any(5), byte(b'.', 6), eow(5)],
        vec![any(5), byte(b'.', 6), byte(b'b', 8), eow(6)],
        vec![any(9), byte(b'.', 10), eow(7)],
        vec![any(11), byte(b'.', 12), eow(8)],
        vec![any(9), byte(b'.', 10), eow(9)],
        vec![any(9), byte(b'.', 10), byte(b'b', 13), eow(10)],
        vec![any(11), byte(b'.', 12), eow(11)],
        vec![any(11), byte(b'.', 12), byte(b'b', 14), eow(12)],
        vec![any(15), byte(b'.', 16), eow(13)],
        vec![any(11), byte(b'.', 12), eow(14)],
        vec![any(15), byte(b'.', 16), eow(15)],
        vec![any(15), byte(b'.', 16), byte(b'b', 17), eow(16)],
        vec![any(15), byte(b'.', 16), eow(17)],
    ];

    let expect_states = vec![
        State::Allow,
        State::Disallow,
        State::Allow,
        State::Allow,
        State::Disallow,
        State::Disallow,
        State::Disallow,
        State::Allow,
        State::Allow,
        State::Allow,
        State::Disallow,
        State::Allow,
        State::Allow,
        State::Allow,
        State::Allow,
        State::Allow,
        State::Allow,
        State::Allow,
    ];

    let actual = Cylon::compile(rules);
    assert_eq!(*actual.transitions(), expect_transitions);
    assert_eq!(*actual.states(), expect_states);
}

#[test]
fn test_compile_tricky_wildcard() {
    let rules = vec![Rule::Disallow(b"/"), Rule::Allow(b"/*.")];

    // A path can be at several nodes of the prefix tree at once, so a state
    // stands for a set of nodes. Every state keeps its place at the end of
    // a path.
    let expect_transitions = vec![
        vec![any(0)],
        vec![any(1)],
        vec![any(3), byte(b'/', 4), eow(2)],
        vec![any(3), eow(3)],
        vec![any(5), byte(b'.', 6), eow(4)],
        vec![any(5), byte(b'.', 6), eow(5)],
        vec![any(7), byte(b'.', 8), eow(6)],
        vec![any(7), byte(b'.', 8), eow(7)],
        vec![any(7), byte(b'.', 8), eow(8)],
    ];

    let expect_states = vec![
        State::Allow,
        State::Disallow,
        State::Allow,
        State::Allow,
        State::Disallow,
        State::Disallow,
        State::Allow,
        State::Allow,
        State::Allow,
    ];

    let actual = Cylon::compile(rules);
    assert_eq!(*actual.transitions(), expect_transitions);
    assert_eq!(*actual.states(), expect_states);
}

#[test]
fn test_compile_with_eow() {
    let rules = vec![
        Rule::Allow(b"/"),
        Rule::Disallow(b"/a$"),
        // Note that this rule is nonsensical. It will compile, but
        // no guarantees are made as to how it's matched. Rules should
        // use url-encoded strings to escape $.
        Rule::Disallow(b"/x$y"),
    ];

    let expect_transitions = vec![
        vec![any(0)],
        vec![any(1)],
        vec![any(0), byte(b'/', 3)], // ""
        vec![any(0), byte(b'a', 4), byte(b'x', 5)], // "/"
        vec![any(0), eow(6)], // "/a"
        vec![any(0), eow(7)], // "/x"
        vec![any(0)], // "/a$"
        vec![any(0), byte(b'y', 8)], // "/x$"
        vec![any(1)], // "/x$y"
    ];

    let expect_states = vec![
        State::Allow,
        State::Disallow,
        State::Allow,
        State::Allow,
        State::Allow,
        State::Allow,
        State::Disallow,
        State::Allow,
        State::Disallow,
    ];

    let actual = Cylon::compile(rules);
    assert_eq!(*actual.transitions(), expect_transitions);
    assert_eq!(*actual.states(), expect_states);
}

#[test]
fn dfa_test_allow() {
    let rules = vec![
        Rule::Disallow(b"/"),
        Rule::Allow(b"/a"),
        Rule::Allow(b"/abc"),
        Rule::Allow(b"/b"),
    ];

    let machine = Cylon::compile(rules);
    assert_eq!(false, machine.allow(b"/"));
    assert_eq!(true, machine.allow(b"/a"));
    assert_eq!(true, machine.allow(b"/a/b"));
    assert_eq!(true, machine.allow(b"/a"));
    assert_eq!(true, machine.allow(b"/abc"));
    assert_eq!(true, machine.allow(b"/abc/def"));
    assert_eq!(true, machine.allow(b"/b"));
    assert_eq!(true, machine.allow(b"/b/c"));
}

#[test]
fn dfa_test_allow_match_any() {
    let rules = vec![
        Rule::Allow(b"/"),
        Rule::Disallow(b"/secret/*.txt"),
        Rule::Disallow(b"/private/*"),
    ];

    let machine = Cylon::compile(rules);
    assert_eq!(true, machine.allow(b"/"));
    assert_eq!(true, machine.allow(b"/abc"));
    assert_eq!(false, machine.allow(b"/secret/abc.txt"));
    assert_eq!(false, machine.allow(b"/secret/123.txt"));
    assert_eq!(true, machine.allow(b"/secret/abc.csv"));
    assert_eq!(true, machine.allow(b"/secret/123.csv"));
    assert_eq!(false, machine.allow(b"/private/abc.txt"));
    assert_eq!(false, machine.allow(b"/private/123.txt"));
    assert_eq!(false, machine.allow(b"/private/abc.csv"));
    assert_eq!(false, machine.allow(b"/private/123.csv"));
}

#[test]
fn dfa_test_allow_match_eow() {
    let rules = vec![
        Rule::Allow(b"/"),
        Rule::Disallow(b"/ignore$"),
        Rule::Disallow(b"/foo$bar"),
    ];

    let machine = Cylon::compile(rules);
    assert_eq!(true, machine.allow(b"/"));
    assert_eq!(true, machine.allow(b"/abc"));
    assert_eq!(false, machine.allow(b"/ignore"));
    assert_eq!(true, machine.allow(b"/ignoreabc"));
    assert_eq!(true, machine.allow(b"/ignore/abc"));
    // These are technically undefined, and no behavior
    // is guaranteed since the rule is malformed. However
    // it is safer to accept them rather than reject them.
    assert_eq!(true, machine.allow(b"/foo"));
    assert_eq!(true, machine.allow(b"/foo$bar"));
}

#[test]
fn dfa_test_allow_more_complicated() {
    let rules = vec![
        Rule::Allow(b"/"),
        Rule::Disallow(b"/a$"),
        Rule::Disallow(b"/abc"),
        Rule::Allow(b"/abc/*"),
        Rule::Disallow(b"/foo/bar"),
        Rule::Allow(b"/*/bar"),
        Rule::Disallow(b"/www/*/images"),
        Rule::Allow(b"/www/public/images"),
    ];

    let machine = Cylon::compile(rules);
    assert_eq!(true, machine.allow(b"/"));
    assert_eq!(true, machine.allow(b"/directory"));
    assert_eq!(false, machine.allow(b"/a"));
    assert_eq!(true, machine.allow(b"/ab"));
    assert_eq!(false, machine.allow(b"/abc"));
    assert_eq!(true, machine.allow(b"/abc/123"));
    assert_eq!(true, machine.allow(b"/foo"));
    assert_eq!(true, machine.allow(b"/foobar"));
    assert_eq!(false, machine.allow(b"/foo/bar"));
    assert_eq!(false, machine.allow(b"/foo/bar/baz"));
    assert_eq!(true, machine.allow(b"/baz/bar"));
    assert_eq!(false, machine.allow(b"/www/cat/images"));
    assert_eq!(true, machine.allow(b"/www/public/images"));
}

#[test]
fn dfa_test_matches() {
    // Test cases from:
    // https://developers.google.com/search/reference/robots_txt#group-member-rules

    let machine = Cylon::compile(vec![Rule::Disallow(b"/"), Rule::Allow(b"/fish")]);
    assert_eq!(true, machine.allow(b"/fish"));
    assert_eq!(true, machine.allow(b"/fish.html"));
    assert_eq!(true, machine.allow(b"/fish/salmon.html"));
    assert_eq!(true, machine.allow(b"/fishheads.html"));
    assert_eq!(true, machine.allow(b"/fishheads/yummy.html"));
    assert_eq!(true, machine.allow(b"/fish.php?id=anything"));
    assert_eq!(false, machine.allow(b"/Fish.asp"));
    assert_eq!(false, machine.allow(b"/catfish"));
    assert_eq!(false, machine.allow(b"/?id=fish"));

    let machine = Cylon::compile(vec![Rule::Disallow(b"/"), Rule::Allow(b"/fish*")]);
    assert_eq!(true, machine.allow(b"/fish"));
    assert_eq!(true, machine.allow(b"/fish.html"));
    assert_eq!(true, machine.allow(b"/fish/salmon.html"));
    assert_eq!(true, machine.allow(b"/fishheads.html"));
    assert_eq!(true, machine.allow(b"/fishheads/yummy.html"));
    assert_eq!(true, machine.allow(b"/fish.php?id=anything"));
    assert_eq!(false, machine.allow(b"/Fish.asp"));
    assert_eq!(false, machine.allow(b"/catfish"));
    assert_eq!(false, machine.allow(b"/?id=fish"));

    let machine = Cylon::compile(vec![Rule::Disallow(b"/"), Rule::Allow(b"/fish/")]);
    assert_eq!(true, machine.allow(b"/fish/"));
    assert_eq!(true, machine.allow(b"/fish/?id=anything"));
    assert_eq!(true, machine.allow(b"/fish/salmon.htm"));
    assert_eq!(false, machine.allow(b"/fish"));
    assert_eq!(false, machine.allow(b"/fish.html"));
    assert_eq!(false, machine.allow(b"/Fish/Salmon.asp"));

    let machine = Cylon::compile(vec![Rule::Disallow(b"/"), Rule::Allow(b"/*.php")]);
    assert_eq!(true, machine.allow(b"/filename.php"));
    assert_eq!(true, machine.allow(b"/folder/filename.php"));
    assert_eq!(true, machine.allow(b"/folder/filename.php?parameters"));
    assert_eq!(true, machine.allow(b"/folder/any.php.file.html"));
    assert_eq!(true, machine.allow(b"/filename.php/"));
    assert_eq!(false, machine.allow(b"/"));
    assert_eq!(false, machine.allow(b"/windows.PHP"));

    let machine = Cylon::compile(vec![Rule::Disallow(b"/"), Rule::Allow(b"/*.php$")]);
    assert_eq!(true, machine.allow(b"/filename.php"));
    assert_eq!(true, machine.allow(b"/folder/filename.php"));
    assert_eq!(false, machine.allow(b"/filename.php?parameters"));
    assert_eq!(false, machine.allow(b"/filename.php/"));
    assert_eq!(false, machine.allow(b"/filename.php5"));
    assert_eq!(false, machine.allow(b"/windows.PHP"));

    let machine = Cylon::compile(vec![Rule::Disallow(b"/"), Rule::Allow(b"/fish*.php")]);
    assert_eq!(true, machine.allow(b"/fish.php"));
    assert_eq!(true, machine.allow(b"/fishheads/catfish.php?parameters"));
    assert_eq!(false, machine.allow(b"/Fish.PHP"));
}

#[test]
fn a_labelled_sibling_does_not_shut_out_the_wildcard() {
    let machine = Cylon::compile(vec![Rule::Allow(b"/test"), Rule::Disallow(b"/*.html")]);
    assert_eq!(false, machine.allow(b"/test.html"));
    assert_eq!(true, machine.allow(b"/test"));
    assert_eq!(true, machine.allow(b"/test.htm"));
    assert_eq!(false, machine.allow(b"/other.html"));
}

#[test]
fn an_end_that_has_gone_by_does_not_hide_the_end_of_the_path() {
    let machine = Cylon::compile(vec![Rule::Disallow(b"/*.php$")]);
    assert_eq!(false, machine.allow(b"/a.php.php"));
    assert_eq!(false, machine.allow(b"/a.php"));
    assert_eq!(true, machine.allow(b"/a.php.ph"));
    assert_eq!(true, machine.allow(b"/a.php/"));
}
