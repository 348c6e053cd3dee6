use cylon::nfa::{Accept, Cylon, Node, Rule};

fn node(accept: Accept, weight: usize, wildcards: Vec<usize>, edges: Vec<(u8, usize)>) -> Node {
    Node { accept, edges, weight, wildcards }
}

#[test]
fn test_compile_1() {
    // Allow:     /a
    // Disallow:  /abc
    // Allow:     /a*c

    let rules = vec![
        Rule::Allow(b"/a"),
        Rule::Disallow(b"/abc"),
        Rule::Allow(b"/a*c"),
    ];

    let expect_nodes = vec![
        node(Accept::Allow, 0, vec![1], vec![(b'/', 2)]), // ''
        node(Accept::Allow, 0, vec![], vec![]), // '' wildcard
        node(Accept::Allow, 1, vec![1], vec![(b'a', 3)]), // '/'
        node(Accept::Allow, 2, vec![4, 5], vec![(b'b', 6), (b'c', 7)]), // '/a'
        node(Accept::Allow, 2, vec![], vec![]), // '/a' wildcard
        node(Accept::Allow, 3, vec![5], vec![(b'c', 7)]), // '/a*'
        node(Accept::Allow, 3, vec![4, 5], vec![(b'c', 9)]), // '/ab'
        node(Accept::Allow, 4, vec![8], vec![]), // '/a*c'
        node(Accept::Allow, 4, vec![], vec![]), // '/a*c' wildcard
        node(Accept::Disallow, 4, vec![10], vec![]), // '/abc'
        node(Accept::Disallow, 4, vec![], vec![]), // '/abc' wildcard
    ];

    let actual = Cylon::compile(rules);
    assert_eq!(*actual.states(), expect_nodes);
}

#[test]
fn test_compile_2() {
    // Allow:     /a
    // Disallow:  /a$
    // Disallow:  /ab

    let rules = vec![
        Rule::Allow(b"/a"),
        Rule::Disallow(b"/a$"),
        Rule::Disallow(b"/ab"),
    ];

    let expect_nodes = vec![
        node(Accept::Allow, 0, vec![1], vec![(b'/', 2)]), // ''
        node(Accept::Allow, 0, vec![], vec![]), // '' wildcard
        node(Accept::Allow, 1, vec![1], vec![(b'a', 3)]), // '/'
        node(Accept::Disallow, 3, vec![4, 5], vec![(b'b', 6)]), // '/a$'
        node(Accept::Allow, 2, vec![], vec![]), // '/a' wildcard
        node(Accept::Allow, 3, vec![], vec![]), // '/a$' wildcard
        node(Accept::Disallow, 3, vec![7], vec![]), // '/ab'
        node(Accept::Disallow, 3, vec![], vec![]), // '/ab' wildcard
    ];

    let actual = Cylon::compile(rules);
    assert_eq!(*actual.states(), expect_nodes);
}

#[test]
fn test_degenerate_1() {
    let rules = vec![Rule::Allow(b"/****************************")];

    let expect_nodes = vec![
        node(Accept::Allow, 0, vec![1], vec![(b'/', 2)]), // ''
        node(Accept::Allow, 0, vec![], vec![]), // '' wildcard
        node(Accept::Allow, 1, vec![1, 3], vec![]), // '/'
        node(Accept::Allow, 2, vec![3], vec![]), // '/*'
    ];

    let actual = Cylon::compile(rules);
    assert_eq!(*actual.states(), expect_nodes);
}

#[test]
fn nfa_test_allow() {
    let rules = vec![
        Rule::Disallow(b"/"),
        Rule::Allow(b"/a"),
        Rule::Allow(b"/abc"),
        Rule::Allow(b"/b"),
    ];

    let machine = Cylon::compile(rules);
    assert_eq!(false, machine.allow(b"/"));
    assert_eq!(true, machine.allow(b"/a"));
    assert_eq!(true, machine.allow(b"/a/b"));
    assert_eq!(true, machine.allow(b"/a"));
    assert_eq!(true, machine.allow(b"/abc"));
    assert_eq!(true, machine.allow(b"/abc/def"));
    assert_eq!(true, machine.allow(b"/b"));
    assert_eq!(true, machine.allow(b"/b/c"));
}

#[test]
fn test_priority_1() {
    let rules = vec![Rule::Disallow(b"/a.b"), Rule::Allow(b"/*.b")];

    let machine = Cylon::compile(rules);
    assert_eq!(true, machine.allow(b"/"));
    assert_eq!(true, machine.allow(b"/a.b"));
    assert_eq!(true, machine.allow(b"/b.b"));
}

#[test]
fn test_priority_2() {
    let rules = vec![Rule::Disallow(b"/ab.c"), Rule::Allow(b"/*.c")];

    let machine = Cylon::compile(rules);
    assert_eq!(true, machine.allow(b"/"));
    assert_eq!(true, machine.allow(b"/a.c"));
    assert_eq!(true, machine.allow(b"/b.c"));
    assert_eq!(false, machine.allow(b"/ab.c"));
}

#[test]
fn test_tricky() {
    let rules = vec![Rule::Disallow(b"/abc"), Rule::Allow(b"/abd")];

    let machine = Cylon::compile(rules);
    assert_eq!(false, machine.allow(b"/abc"));
    assert_eq!(true, machine.allow(b"/abd"));
}

#[test]
fn nfa_test_allow_match_any() {
    let rules = vec![
        Rule::Allow(b"/"),
        Rule::Disallow(b"/secret/*.txt"),
        Rule::Disallow(b"/private/*"),
    ];

    let machine = Cylon::compile(rules);
    assert_eq!(true, machine.allow(b"/"));
    assert_eq!(true, machine.allow(b"/abc"));
    assert_eq!(false, machine.allow(b"/secret/abc.txt"));
    assert_eq!(false, machine.allow(b"/secret/123.txt"));
    assert_eq!(true, machine.allow(b"/secret/abc.csv"));
    assert_eq!(true, machine.allow(b"/secret/123.csv"));
    assert_eq!(false, machine.allow(b"/private/abc.txt"));
    assert_eq!(false, machine.allow(b"/private/123.txt"));
    assert_eq!(false, machine.allow(b"/private/abc.csv"));
    assert_eq!(false, machine.allow(b"/private/123.csv"));
}

#[test]
fn nfa_test_allow_match_eow() {
    let rules = vec![
        Rule::Allow(b"/"),
        Rule::Disallow(b"/ignore$"),
        Rule::Disallow(b"/foo$bar"),
    ];

    let machine = Cylon::compile(rules);
    assert_eq!(true, machine.allow(b"/"));
    assert_eq!(true, machine.allow(b"/abc"));
    assert_eq!(false, machine.allow(b"/ignore"));
    assert_eq!(true, machine.allow(b"/ignoreabc"));
    assert_eq!(true, machine.allow(b"/ignore/abc"));
    // These are technically undefined, and no behavior
    // is guaranteed since the rule is malformed. However
    // it is safer to accept them rather than reject them.
    assert_eq!(true, machine.allow(b"/foo"));
    assert_eq!(false, machine.allow(b"/foo$bar"));
}

#[test]
fn nfa_test_allow_more_complicated() {
    let rules = vec![
        Rule::Allow(b"/"),
        Rule::Disallow(b"/a$"),
        Rule::Disallow(b"/abc"),
        Rule::Allow(b"/abc/*"),
        Rule::Disallow(b"/foo/bar"),
        Rule::Allow(b"/*/bar"),
        Rule::Disallow(b"/www/*/images"),
        Rule::Allow(b"/www/public/images"),
    ];

    let machine = Cylon::compile(rules);
    assert_eq!(true, machine.allow(b"/"));
    assert_eq!(true, machine.allow(b"/directory"));
    assert_eq!(false, machine.allow(b"/a"));
    assert_eq!(true, machine.allow(b"/ab"));
    assert_eq!(false, machine.allow(b"/abc"));
    assert_eq!(true, machine.allow(b"/abc/123"));
    assert_eq!(true, machine.allow(b"/foo"));
    assert_eq!(true, machine.allow(b"/foobar"));
    assert_eq!(false, machine.allow(b"/foo/bar"));
    assert_eq!(false, machine.allow(b"/foo/bar/baz"));
    assert_eq!(true, machine.allow(b"/baz/bar"));
    assert_eq!(false, machine.allow(b"/www/cat/images"));
    assert_eq!(true, machine.allow(b"/www/public/images"));
}

#[test]
fn nfa_test_matches() {
    // Test cases from:
    // https://developers.google.com/search/reference/robots_txt#group-member-rules

    let machine = Cylon::compile(vec![Rule::Disallow(b"/"), Rule::Allow(b"/fish")]);
    assert_eq!(true, machine.allow(b"/fish"));
    assert_eq!(true, machine.allow(b"/fish.html"));
    assert_eq!(true, machine.allow(b"/fish/salmon.html"));
    assert_eq!(true, machine.allow(b"/fishheads.html"));
    assert_eq!(true, machine.allow(b"/fishheads/yummy.html"));
    assert_eq!(true, machine.allow(b"/fish.php?id=anything"));
    assert_eq!(false, machine.allow(b"/Fish.asp"));
    assert_eq!(false, machine.allow(b"/catfish"));
    assert_eq!(false, machine.allow(b"/?id=fish"));

    let machine = Cylon::compile(vec![Rule::Disallow(b"/"), Rule::Allow(b"/fish*")]);
    assert_eq!(true, machine.allow(b"/fish"));
    assert_eq!(true, machine.allow(b"/fish.html"));
    assert_eq!(true, machine.allow(b"/fish/salmon.html"));
    assert_eq!(true, machine.allow(b"/fishheads.html"));
    assert_eq!(true, machine.allow(b"/fishheads/yummy.html"));
    assert_eq!(true, machine.allow(b"/fish.php?id=anything"));
    assert_eq!(false, machine.allow(b"/Fish.asp"));
    assert_eq!(false, machine.allow(b"/catfish"));
    assert_eq!(false, machine.allow(b"/?id=fish"));

    let machine = Cylon::compile(vec![Rule::Disallow(b"/"), Rule::Allow(b"/*.php")]);
    assert_eq!(true, machine.allow(b"/filename.php"));
    assert_eq!(true, machine.allow(b"/folder/filename.php"));
    assert_eq!(true, machine.allow(b"/folder/filename.php?parameters"));
    assert_eq!(true, machine.allow(b"/folder/any.php.file.html"));
    assert_eq!(true, machine.allow(b"/filename.php/"));
    assert_eq!(false, machine.allow(b"/"));
    assert_eq!(false, machine.allow(b"/windows.PHP"));

    let machine = Cylon::compile(vec![Rule::Disallow(b"/"), Rule::Allow(b"/*.php$")]);
    assert_eq!(true, machine.allow(b"/filename.php"));
    assert_eq!(true, machine.allow(b"/folder/filename.php"));
    assert_eq!(false, machine.allow(b"/filename.php?parameters"));
    assert_eq!(false, machine.allow(b"/filename.php/"));
    assert_eq!(false, machine.allow(b"/filename.php5"));
    assert_eq!(false, machine.allow(b"/windows.PHP"));

    let machine = Cylon::compile(vec![Rule::Disallow(b"/"), Rule::Allow(b"/fish*.php")]);
    assert_eq!(true, machine.allow(b"/fish.php"));
    assert_eq!(true, machine.allow(b"/fishheads/catfish.php?parameters"));
    assert_eq!(false, machine.allow(b"/Fish.PHP"));
}
