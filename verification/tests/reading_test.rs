use cylon::delay::{delay_of, parse_decimal};
use cylon::parse::{
    borrow_rule, contains_bytes, most_specific, parse_allow, parse_delay, parse_disallow,
    parse_line, parse_user_agent, strip_comments, lower_ascii, to_lowercase_text, trim_bytes,
    ParsedLine, ParsedRule,
};
use cylon::rule::Rule;
use cylon::Compiler;

#[test]
fn keys_are_read_in_any_case_and_patterns_kept_as_they_are() {
    for key in ["disallow:", "Disallow:", "DISALLOW:", "dIsAlLoW:"] {
        let line = format!("  {} /Path/To/File  # not /this", key);
        assert_eq!(
            parse_line(line.into_bytes()),
            ParsedLine::Rule(ParsedRule::Disallow("/Path/To/File".into()))
        );
    }
    for key in ["allow:", "ALLOW:", "AlLoW:"] {
        let line = format!("{}/Mixed%2FCase", key);
        assert_eq!(
            parse_line(line.into_bytes()),
            ParsedLine::Rule(ParsedRule::Allow("/Mixed%2FCase".into()))
        );
    }
    for key in ["crawl-delay:", "Crawl-Delay:", "CRAWL-DELAY:"] {
        let line = format!("{} 15", key);
        assert_eq!(
            parse_line(line.into_bytes()),
            ParsedLine::Rule(ParsedRule::Delay("15".into()))
        );
    }
    for key in ["user-agent:", "User-Agent:", "USER-AGENT:"] {
        let line = format!("{} GoodBot/2.1", key);
        assert_eq!(
            parse_line(line.into_bytes()),
            ParsedLine::UserAgent("goodbot/2.1".into())
        );
    }
}

#[test]
fn values_may_be_empty() {
    assert_eq!(
        parse_line("Disallow:".into()),
        ParsedLine::Rule(ParsedRule::Disallow(Vec::new()))
    );
    assert_eq!(
        parse_line("Allow:   # nothing".into()),
        ParsedLine::Rule(ParsedRule::Allow(Vec::new()))
    );
    assert_eq!(parse_line("User-agent:".into()), ParsedLine::UserAgent(Vec::new()));
}

#[test]
fn lines_end_in_any_white_space() {
    assert_eq!(
        parse_line("Allow: /a\r\n".into()),
        ParsedLine::Rule(ParsedRule::Allow("/a".into()))
    );
    assert_eq!(
        parse_line("\t\x0b\x0c Allow: /a \t\r\n".into()),
        ParsedLine::Rule(ParsedRule::Allow("/a".into()))
    );
    assert_eq!(parse_line("Allow : /a".into()), ParsedLine::Nothing);
    assert_eq!(parse_line("#Allow: /a".into()), ParsedLine::Nothing);
}

#[test]
fn lines_that_are_no_text_say_nothing_and_stop_nothing() {
    assert_eq!(parse_line(vec![0xff, 0xfe, b':', 0x80]), ParsedLine::Nothing);
    assert_eq!(parse_line(vec![b'a'; 8].into_iter().chain([0xc3, 0xa9]).collect()), ParsedLine::Nothing);
    assert_eq!(
        parse_line(b"Disallow: /caf\xc3\xa9".to_vec()),
        ParsedLine::Rule(ParsedRule::Disallow(b"/caf\xc3\xa9".to_vec()))
    );
    let mut file = b"User-agent: bot\n".to_vec();
    file.extend_from_slice(&[0xff, 0xff, b'\n']);
    file.extend_from_slice(b"Disallow: /x\n");
    let machine = Compiler::new("bot").compile(&file);
    assert!(!machine.allow(b"/x"));
}

#[test]
fn pieces_of_a_line() {
    assert_eq!(strip_comments(b"a # b # c"), b"a ");
    assert_eq!(strip_comments(b"# all"), b"");
    assert_eq!(strip_comments(b"none"), b"none");
    assert_eq!(strip_comments(b""), b"");
    assert_eq!(trim_bytes(b"  a b \t"), b"a b");
    assert_eq!(trim_bytes(b" \r\n\t "), b"");
    assert_eq!(trim_bytes(b"x"), b"x");
    assert_eq!(trim_bytes(b""), b"");
    assert_eq!(lower_ascii(b"AbC-xyZ@[`{09"), b"abc-xyz@[`{09");
    assert_eq!(parse_allow(b"Allow:  /x "), Some(&b"/x"[..]));
    assert_eq!(parse_allow(b"Allo"), None);
    assert_eq!(parse_allow(b"Disallow: /x"), None);
    assert_eq!(parse_disallow(b"DISALLOW:/x"), Some(&b"/x"[..]));
    assert_eq!(parse_disallow(b"allow: /x"), None);
    assert_eq!(parse_user_agent(b"user-agent: A B"), Some(&b"A B"[..]));
    assert_eq!(parse_user_agent(b"useragent: A"), None);
    assert_eq!(parse_delay(b"Crawl-delay: 5"), Some(&b"5"[..]));
    assert_eq!(parse_delay(b"Crawl delay: 5"), None);
}

#[test]
fn crawler_names_match_in_any_case() {
    let file = b"User-agent: GoodBot\nDisallow: /\n";
    assert!(!Compiler::new("goodbot").compile(file).allow(b"/"));
    assert!(!Compiler::new("GOODBOT").compile(file).allow(b"/"));
    assert!(!Compiler::new("Mozilla (GoodBot/2.1)").compile(file).allow(b"/"));
    assert!(Compiler::new("badbot").compile(file).allow(b"/"));
    assert_eq!(Compiler::new("GoodBot").user_agent(), b"goodbot");
}

#[test]
fn most_specific_group_is_chosen() {
    let file = b"User-agent: *\nDisallow: /all\n\nUser-agent: good\nDisallow: /four\n\n\
User-agent: goodbot\nDisallow: /seven\n\nUser-agent: goo\nDisallow: /three\n";
    let machine = Compiler::new("goodbot").compile(file);
    assert!(!machine.allow(b"/seven"));
    assert!(machine.allow(b"/all"));
    assert!(machine.allow(b"/four"));
    assert!(machine.allow(b"/three"));
    let machine = Compiler::new("goodie").compile(file);
    assert!(!machine.allow(b"/four"));
    assert!(machine.allow(b"/seven"));
    assert!(machine.allow(b"/three"));
    let machine = Compiler::new("x").compile(file);
    assert!(!machine.allow(b"/all"));
    assert!(machine.allow(b"/four"));
}

#[test]
fn first_of_equally_specific_groups_is_kept() {
    let file = b"User-agent: bot\nDisallow: /first\n\nUser-agent: bot\nDisallow: /second\n";
    let machine = Compiler::new("bot").compile(file);
    assert!(!machine.allow(b"/first"));
    assert!(machine.allow(b"/second"));
}

#[test]
fn longest_user_agent_of_a_header_counts() {
    let file = b"User-agent: a\nUser-agent: abc\nDisallow: /one\n\nUser-agent: ab\nDisallow: /two\n";
    let machine = Compiler::new("abc").compile(file);
    assert!(!machine.allow(b"/one"));
    assert!(machine.allow(b"/two"));
}

#[test]
fn specificity_of_headers() {
    let agents = |names: &[&str]| names.iter().map(|n| n.as_bytes().to_vec()).collect::<Vec<_>>();
    assert_eq!(most_specific(&agents(&["*"]), b"bot"), 1);
    assert_eq!(most_specific(&agents(&["bot"]), b"bot"), 3);
    assert_eq!(most_specific(&agents(&["o", "bo", "x"]), b"bot"), 2);
    assert_eq!(most_specific(&agents(&["robot"]), b"bot"), 0);
    assert_eq!(most_specific(&agents(&[""]), b"bot"), 0);
    assert_eq!(most_specific(&agents(&[]), b"bot"), 0);
    assert_eq!(most_specific(&agents(&["**"]), b"bot"), 0);
    assert!(contains_bytes(b"a fine bot", b"fine"));
    assert!(contains_bytes(b"bot", b""));
    assert!(contains_bytes(b"", b""));
    assert!(contains_bytes(b"aab", b"ab"));
    assert!(!contains_bytes(b"bot", b"bot2"));
    assert!(!contains_bytes(b"abab", b"bb"));
}

#[test]
fn doubles_are_dropped_and_allow_stays() {
    let rules = vec![
        ParsedRule::Disallow("/b".into()),
        ParsedRule::Allow("/a".into()),
        ParsedRule::Disallow("/a".into()),
        ParsedRule::Disallow("/b".into()),
        ParsedRule::Allow("/b".into()),
        ParsedRule::Delay("7".into()),
        ParsedRule::Disallow("/c".into()),
        ParsedRule::Delay("/c".into()),
        ParsedRule::Allow("7".into()),
        ParsedRule::Disallow("7".into()),
    ];
    assert_eq!(
        Compiler::filter_dupes(&rules),
        vec![
            Rule::Allow(b"/a"),
            Rule::Allow(b"/b"),
            Rule::Delay(b"/c"),
            Rule::Allow(b"7"),
        ]
    );
    assert_eq!(Compiler::filter_dupes(&[]), Vec::<Rule>::new());
    assert_eq!(borrow_rule(&rules[5]), Rule::Delay(b"7"));
    assert_eq!(Rule::from(&rules[0]), Rule::Disallow(b"/b"));
}

#[test]
fn decimal_numbers() {
    assert_eq!(parse_decimal(b"0"), Some(0));
    assert_eq!(parse_decimal(b"007"), Some(7));
    assert_eq!(parse_decimal(b"+42"), Some(42));
    assert_eq!(parse_decimal(b"18446744073709551615"), Some(u64::MAX));
    assert_eq!(parse_decimal(b"18446744073709551616"), None);
    assert_eq!(parse_decimal(b"99999999999999999999999"), None);
    assert_eq!(parse_decimal(b""), None);
    assert_eq!(parse_decimal(b"+"), None);
    assert_eq!(parse_decimal(b"++1"), None);
    assert_eq!(parse_decimal(b"-1"), None);
    assert_eq!(parse_decimal(b"1.5"), None);
    assert_eq!(parse_decimal(b"1 "), None);
    assert_eq!(parse_decimal(b"ten"), None);
    assert_eq!(parse_decimal(&[0xff]), None);
}

#[test]
fn least_delay_is_kept() {
    assert_eq!(delay_of(&vec![]), None);
    assert_eq!(delay_of(&vec![Rule::Allow(b"5"), Rule::Disallow(b"1")]), None);
    assert_eq!(
        delay_of(&vec![Rule::Delay(b"60"), Rule::Delay(b"soon"), Rule::Delay(b"20"), Rule::Delay(b"30")]),
        Some(20)
    );
    assert_eq!(delay_of(&vec![Rule::Delay(b"never")]), None);
    let machine = Compiler::new("bot").compile(
        b"User-agent: bot\nCrawl-delay: 2.5\nCrawl-delay: 9\nCrawl-delay: 10\nAllow: /\n",
    );
    assert_eq!(machine.delay(), Some(9));
    let machine = Compiler::new("bot").compile(b"User-agent: bot\nCrawl-delay: fast\n");
    assert_eq!(machine.delay(), None);
}

#[test]
fn rule_before_any_header_ends_the_reading() {
    let machine = Compiler::new("bot").compile(b"Disallow: /\nUser-agent: bot\nDisallow: /x\n");
    assert!(machine.allow(b"/"));
    assert!(machine.allow(b"/x"));
}

#[test]
fn header_without_rules_starts_no_group() {
    let machine = Compiler::new("bot").compile(b"User-agent: *\nDisallow: /\nUser-agent: bot\n");
    assert!(!machine.allow(b"/"));
    let machine = Compiler::new("bot").compile(b"User-agent: bot\n");
    assert!(machine.allow(b"/"));
}

#[test]
fn last_line_needs_no_line_feed() {
    let machine = Compiler::new("bot").compile(b"User-agent: bot\r\nDisallow: /x");
    assert!(!machine.allow(b"/x"));
    assert!(machine.allow(b"/y"));
    assert!(Compiler::new("bot").compile(b"").allow(b"/"));
}

#[test]
fn names_are_lowered_by_the_rules_of_unicode() {
    assert_eq!(
        parse_line("User-agent: \u{c9}COLE Bot".as_bytes().to_vec()),
        ParsedLine::UserAgent("\u{e9}cole bot".as_bytes().to_vec())
    );
    assert_eq!(to_lowercase_text("\u{c9}t\u{c9}".as_bytes()), "\u{e9}t\u{e9}".as_bytes());
    assert_eq!(to_lowercase_text(b"FakeBot"), b"fakebot");
    // Bytes that hold no text are lowered letter by letter.
    assert_eq!(to_lowercase_text(b"A\xffB"), b"a\xffb");
    assert_eq!(Compiler::new("\u{c9}coleBot").user_agent(), "\u{e9}colebot".as_bytes());
    assert_eq!(Compiler::new("FakeBot").user_agent(), b"fakebot");

    let file = "User-agent: \u{e9}colebot\nDisallow: /\n".as_bytes();
    for name in ["\u{c9}coleBot", "\u{e9}colebot", "\u{c9}COLEBOT"] {
        let machine = Compiler::new(name).compile(file);
        assert!(!machine.allow(b"/"));
        assert!(!machine.allow(b"/page"));
    }
    let file = "User-agent: \u{c9}COLEBOT\nDisallow: /\n".as_bytes();
    for name in ["\u{c9}coleBot", "\u{e9}colebot"] {
        assert!(!Compiler::new(name).compile(file).allow(b"/"));
    }
    assert!(Compiler::new("ecolebot").compile(file).allow(b"/"));
}

#[test]
fn lines_end_at_a_line_feed_or_a_carriage_return() {
    for ending in ["\n", "\r\n", "\r"] {
        let file = ["User-agent: bot", "Disallow: /a # not /b", "Allow: /a/b", ""].join(ending);
        let machine = Compiler::new("bot").compile(file.as_bytes());
        assert!(!machine.allow(b"/a"));
        assert!(!machine.allow(b"/a/c"));
        assert!(machine.allow(b"/a/b"));
        assert!(machine.allow(b"/b"));
    }
    // A comment ends with its line.
    let machine = Compiler::new("bot").compile(b"User-agent: bot # all\rDisallow: /");
    assert!(!machine.allow(b"/"));
}

#[test]
fn white_space_beyond_ascii_is_trimmed() {
    assert_eq!(
        parse_line("\u{a0}Disallow: /".as_bytes().to_vec()),
        ParsedLine::Rule(ParsedRule::Disallow("/".into()))
    );
    for space in [
        "\u{85}", "\u{a0}", "\u{1680}", "\u{2000}", "\u{2005}", "\u{200a}", "\u{2028}",
        "\u{2029}", "\u{202f}", "\u{205f}", "\u{3000}",
    ] {
        let line = format!("{space} \tAllow:{space} /x y{space}z {space}# c");
        assert_eq!(
            parse_line(line.into_bytes()),
            ParsedLine::Rule(ParsedRule::Allow(format!("/x y{space}z").into_bytes()))
        );
        let line = format!("{space}{space}");
        assert_eq!(parse_line(line.into_bytes()), ParsedLine::Nothing);
        assert_eq!(trim_bytes(format!("{space}a{space}").as_bytes()), b"a");
    }
    // A character that is no white space stays, though its bytes come close.
    assert_eq!(trim_bytes("\u{200b}a\u{200b}".as_bytes()), "\u{200b}a\u{200b}".as_bytes());
    assert_eq!(trim_bytes("\u{e9} ".as_bytes()), "\u{e9}".as_bytes());
    assert_eq!(trim_bytes(b" \xc2"), b"\xc2");
}

#[test]
fn trimming_agrees_with_the_trimming_of_text() {
    let mut code: u32 = 0;
    while code <= 0x10ffff {
        if let Some(c) = char::from_u32(code) {
            let text = format!("{c}x{c}y{c}");
            assert_eq!(trim_bytes(text.as_bytes()), text.trim().as_bytes(), "U+{code:04X}");
            let text = format!(" {c}{c}\t");
            assert_eq!(trim_bytes(text.as_bytes()), text.trim().as_bytes(), "U+{code:04X}");
        }
        code += if code < 0x3100 { 1 } else { 97 };
    }
}
