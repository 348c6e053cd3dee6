use cylon::parse::{parse_line, ParsedLine, ParsedRule};
use cylon::Compiler;

#[test]
fn test_parse_allow() {
    let test_cases = vec![
        ("Allow: /", "/"),
        ("allow: /   #  Root with comment", "/"),
        ("ALLOW: /abc/def  ", "/abc/def"),
        ("Allow:   /abc/def  ", "/abc/def"),
        ("  Allow: /*/foo", "/*/foo"),
    ];

    for (i, o) in test_cases {
        assert_eq!(
            parse_line(i.into()),
            ParsedLine::Rule(ParsedRule::Allow(o.into()))
        );
    }
}

#[test]
fn test_parse_disallow() {
    let test_cases = vec![
        ("Disallow: /", "/"),
        ("disallow: /   #  Root with comment", "/"),
        ("DISALLOW: /abc/def  ", "/abc/def"),
        ("Disallow:   /abc/def  ", "/abc/def"),
        ("  Disallow: /*/foo", "/*/foo"),
    ];

    for (i, o) in test_cases {
        assert_eq!(
            parse_line(i.into()),
            ParsedLine::Rule(ParsedRule::Disallow(o.into()))
        );
    }
}

#[test]
fn test_parse_user_agent() {
    let test_cases = vec![
        ("User-agent: *", "*"),
        ("user-agent: ImABot   #  User agent with comment", "imabot"),
        ("  USER-AGENT:   ImABot  ", "imabot"),
    ];

    for (i, o) in test_cases {
        assert_eq!(parse_line(i.into()), ParsedLine::UserAgent(o.into()));
    }
}

#[test]
fn test_parse_nothing() {
    let test_cases = vec![
        "Useragent: *",
        "# Comment",
        "",
        "    ",
        "\t",
        "alow: /",
        "disalow: /",
    ];

    for i in test_cases {
        assert_eq!(parse_line(i.into()), ParsedLine::Nothing);
    }
}

#[test]
fn test_crawl_delay() {
    let example_robots = r#"
            User-agent: jones-bot
            Disallow: /
            Crawl-Delay: 30

            User-agent: foobar
            Crawl-Delay: 60

            User-agent: googlebot
            Allow: /

            User-agent: barfoo
            Crawl-Delay: 60
            Crawl-Delay: 20
    "#
    .as_bytes();

    let parser = Compiler::new("foobar");
    let foobar_machine = parser.compile(example_robots);

    let parser = Compiler::new("googlebot");
    let googlebot_machine = parser.compile(example_robots);

    let parser = Compiler::new("barfoo");
    let barfoo_machine = parser.compile(example_robots);

    let parser = Compiler::new("jones-bot");
    let jonesbot_machine = parser.compile(example_robots);

    assert_eq!(Some(60), foobar_machine.delay());
    assert_eq!(Some(20), barfoo_machine.delay());
    assert_eq!(Some(30), jonesbot_machine.delay());
    assert_eq!(None, googlebot_machine.delay());
}

#[test]
fn test_end_to_end() {
    let example_robots = r#"
            User-agent: jones-bot
            Disallow: /

            User-agent: foo
            Allow: /
            Crawl-Delay: 20

            User-agent: jones
            User-agent: foobar
            Allow: /

            User-agent: *
            Disallow: /
    "#
    .as_bytes();

    let parser = Compiler::new("foobar");
    let foobar_machine = parser.compile(example_robots);

    let parser = Compiler::new("jones-bot");
    let jonesbot_machine = parser.compile(example_robots);

    let parser = Compiler::new("imabot");
    let imabot_machine = parser.compile(example_robots);

    let parser = Compiler::new("abc");
    let abc_machine = parser.compile(example_robots);

    assert_eq!(true, foobar_machine.allow(b"/index.html"));
    assert_eq!(false, jonesbot_machine.allow(b"/index.html"));
    assert_eq!(false, imabot_machine.allow(b"/index.html"));
    assert_eq!(false, abc_machine.allow(b"/index.html"));
}

#[test]
fn test_invalid_1() {
    let example_robots = r#"
            # Instead of treating this as an error, we'll just consider
            # this behavior undefined.
            Allow: /

            User-agent: jones
            User-agent: foobar
            Disallow: /
    "#
    .as_bytes();

    let parser = Compiler::new("foobar");
    let foobar_machine = parser.compile(example_robots);

    let parser = Compiler::new("imabot");
    let imabot_machine = parser.compile(example_robots);

    // Everything is allowed because next_header() returns None
    assert_eq!(true, foobar_machine.allow(b"/index.html"));
    assert_eq!(true, imabot_machine.allow(b"/index.html"));
}

#[test]
fn test_invalid_2() {
    let example_robots = r#"
            User-agent: jones
            User-agent: foobar
            Disallow: /

            # Instead of treating this as an error, we consider this
            # behavior undefined.
            User-agent: imabot
    "#
    .as_bytes();

    let parser = Compiler::new("foobar");
    let foobar_machine = parser.compile(example_robots);

    let parser = Compiler::new("imabot");
    let imabot_machine = parser.compile(example_robots);

    assert_eq!(false, foobar_machine.allow(b"/index.html"));
    assert_eq!(true, imabot_machine.allow(b"/index.html"));
}

#[test]
fn test_unicode_support() {
    // From: wikipedia.org/robots.txt
    let example_robots = r#"
            User-agent: test
            Disallow: /wiki/ויקיפדיה:רשימת_מועמדים_למחיקה/
            Disallow: /wiki/ויקיפדיה%3Aרשימת_מועמדים_למחיקה/
            Disallow: /wiki/%D7%95%D7%99%D7%A7%D7%99%D7%A4%D7%93%D7%99%D7%94:%D7%A8%D7%A9%D7%99%D7%9E%D7%AA_%D7%9E%D7%95%D7%A2%D7%9E%D7%93%D7%99%D7%9D_%D7%9C%D7%9E%D7%97%D7%99%D7%A7%D7%94/
            Disallow: /wiki/%D7%95%D7%99%D7%A7%D7%99%D7%A4%D7%93%D7%99%D7%94%3A%D7%A8%D7%A9%D7%99%D7%9E%D7%AA_%D7%9E%D7%95%D7%A2%D7%9E%D7%93%D7%99%D7%9D_%D7%9C%D7%9E%D7%97%D7%99%D7%A7%D7%94/
            Disallow: /wiki/ויקיפדיה:ערכים_לא_קיימים_ומוגנים
            Disallow: /wiki/ויקיפדיה%3Aערכים_לא_קיימים_ומוגנים
            Disallow: /wiki/%D7%95%D7%99%D7%A7%D7%99%D7%A4%D7%93%D7%99%D7%94:%D7%A2%D7%A8%D7%9B%D7%99%D7%9D_%D7%9C%D7%90_%D7%A7%D7%99%D7%99%D7%9E%D7%99%D7%9D_%D7%95%D7%9E%D7%95%D7%92%D7%A0%D7%99%D7%9D
            Disallow: /wiki/%D7%95%D7%99%D7%A7%D7%99%D7%A4%D7%93%D7%99%D7%94%3A%D7%A2%D7%A8%D7%9B%D7%99%D7%9D_%D7%9C%D7%90_%D7%A7%D7%99%D7%99%D7%9E%D7%99%D7%9D_%D7%95%D7%9E%D7%95%D7%92%D7%A0%D7%99%D7%9D
            Disallow: /wiki/ויקיפדיה:דפים_לא_קיימים_ומוגנים
            Disallow: /wiki/ויקיפדיה%3Aדפים_לא_קיימים_ומוגנים
            Disallow: /wiki/%D7%95%D7%99%D7%A7%D7%99%D7%A4%D7%93%D7%99%D7%94:%D7%93%D7%A4%D7%99%D7%9D_%D7%9C%D7%90_%D7%A7%D7%99%D7%99%D7%9E%D7%99%D7%9D_%D7%95%D7%9E%D7%95%D7%92%D7%A0%D7%99%D7%9D
            Disallow: /wiki/%D7%95%D7%99%D7%A7%D7%99%D7%A4%D7%93%D7%99%D7%94%3A%D7%93%D7%A4%D7%99%D7%9D_%D7%9C%D7%90_%D7%A7%D7%99%D7%99%D7%9E%D7%99%D7%9D_%D7%95%D7%9E%D7%95%D7%92%D7%A0%D7%99%D7%9D
    "#
    .as_bytes();

    let parser = Compiler::new("test");
    let machine = parser.compile(example_robots);

    assert_eq!(true, machine.allow(b"/index.html"));
    assert_eq!(
        false,
        machine.allow("/wiki/ויקיפדיה:ערכים_לא_קיימים_ומוגנים".as_bytes())
    );
}
