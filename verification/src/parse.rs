//! Reading a robots file: one line at a time into user agents and rules,
//! the lines into groups, and the group that names the crawler most
//! closely into a matcher.

use crate::delay::{lemma_table_delay, table_delay};
use crate::nfa::{automaton, Cylon};
use crate::dedupe::{deduped, dedupes, lemma_dedupes_table, lemma_no_doubles, place};
use crate::rule::{views, Kind, Rule, RuleView};
use vstd::prelude::*;
use vstd::string::StringSliceAdditionalSpecFns;
use vstd::utf8::{decode_utf8, encode_utf8, valid_utf8};

verus! {

/// The byte `#`, which starts a comment.
pub const COMMENT_BYTE: u8 = 35;

/// The line feed, which ends a line.
pub const NEWLINE_BYTE: u8 = 10;

/// The carriage return, which ends a line too.
pub const RETURN_BYTE: u8 = 13;

/// `user-agent:`
pub open spec fn ua_key() -> Seq<u8> {
    seq![117u8, 115u8, 101u8, 114u8, 45u8, 97u8, 103u8, 101u8, 110u8, 116u8, 58u8]
}

/// `crawl-delay:`
pub open spec fn delay_key() -> Seq<u8> {
    seq![99u8, 114u8, 97u8, 119u8, 108u8, 45u8, 100u8, 101u8, 108u8, 97u8, 121u8, 58u8]
}

/// `allow:`
pub open spec fn allow_key() -> Seq<u8> {
    seq![97u8, 108u8, 108u8, 111u8, 119u8, 58u8]
}

/// `disallow:`
pub open spec fn disallow_key() -> Seq<u8> {
    seq![100u8, 105u8, 115u8, 97u8, 108u8, 108u8, 111u8, 119u8, 58u8]
}

/// The lower-case form of an ASCII letter; any other byte as it is.
pub open spec fn lower_byte(b: u8) -> u8 {
    if 65 <= b <= 90 {
        (b + 32) as u8
    } else {
        b
    }
}

/// The bytes with every ASCII letter in lower case.
pub open spec fn lower(s: Seq<u8>) -> Seq<u8> {
    Seq::new(s.len(), |i: int| lower_byte(s[i]))
}

/// The lower-case form of a text, as `str::to_lowercase` gives it.
pub uninterp spec fn lowercase(text: Seq<char>) -> Seq<char>;

/// The bytes in lower case: as text, where they hold text in UTF-8; letter
/// by letter in ASCII, where they do not.
pub open spec fn lower_text(bytes: Seq<u8>) -> Seq<u8> {
    if valid_utf8(bytes) {
        encode_utf8(lowercase(decode_utf8(bytes)))
    } else {
        lower(bytes)
    }
}

/// White space in one byte: tab, line feed, vertical tab, form feed,
/// carriage return, space.
pub open spec fn is_space(b: u8) -> bool {
    9 <= b <= 13 || b == 32
}

/// The two bytes hold, in UTF-8, a character of white space: U+0085 or
/// U+00A0.
pub open spec fn is_space_of_two(a: u8, b: u8) -> bool {
    a == 0xC2 && (b == 0x85 || b == 0xA0)
}

/// The three bytes hold, in UTF-8, a character of white space: U+1680, one
/// of U+2000 to U+200A, U+2028, U+2029, U+202F, U+205F or U+3000.
pub open spec fn is_space_of_three(a: u8, b: u8, c: u8) -> bool {
    ||| a == 0xE1 && b == 0x9A && c == 0x80
    ||| a == 0xE2 && b == 0x80 && (0x80 <= c <= 0x8A || c == 0xA8 || c == 0xA9 || c == 0xAF)
    ||| a == 0xE2 && b == 0x81 && c == 0x9F
    ||| a == 0xE3 && b == 0x80 && c == 0x80
}

/// The number of bytes in which `s` starts with a character of white space:
/// 0 where it starts with none.
pub open spec fn space_at_start(s: Seq<u8>) -> nat {
    if s.len() >= 1 && is_space(s[0]) {
        1
    } else if s.len() >= 2 && is_space_of_two(s[0], s[1]) {
        2
    } else if s.len() >= 3 && is_space_of_three(s[0], s[1], s[2]) {
        3
    } else {
        0
    }
}

/// The number of bytes in which `s` ends with a character of white space: 0
/// where it ends with none.
pub open spec fn space_at_end(s: Seq<u8>) -> nat {
    let n = s.len() as int;
    if n >= 1 && is_space(s[n - 1]) {
        1
    } else if n >= 2 && is_space_of_two(s[n - 2], s[n - 1]) {
        2
    } else if n >= 3 && is_space_of_three(s[n - 3], s[n - 2], s[n - 1]) {
        3
    } else {
        0
    }
}

/// The bytes without the white space at their start.
pub open spec fn trim_start(s: Seq<u8>) -> Seq<u8>
    decreases s.len(),
{
    let n = space_at_start(s);
    if n == 0 {
        s
    } else {
        trim_start(s.skip(n as int))
    }
}

/// The bytes without the white space at their end.
pub open spec fn trim_end(s: Seq<u8>) -> Seq<u8>
    decreases s.len(),
{
    let n = space_at_end(s);
    if n == 0 {
        s
    } else {
        trim_end(s.take(s.len() - n))
    }
}

/// The bytes are white space and nothing else.
pub open spec fn blank(s: Seq<u8>) -> bool {
    trim_start(s).len() == 0
}

/// `i` is where the comment of the line starts: at its first `#`, or at its end.
pub open spec fn comment_at(s: Seq<u8>, i: int) -> bool {
    &&& 0 <= i <= s.len()
    &&& i < s.len() ==> s[i] == COMMENT_BYTE
    &&& forall|j: int| 0 <= j < i ==> s[j] != COMMENT_BYTE
}

/// The line without its comment.
pub open spec fn before_comment(s: Seq<u8>) -> Seq<u8> {
    s.take(choose|i: int| comment_at(s, i))
}

/// The bytes without the white space at either end: the six characters of
/// white space in ASCII, and the characters of white space beyond ASCII as
/// UTF-8 holds them.
pub open spec fn trim(s: Seq<u8>) -> Seq<u8> {
    trim_start(trim_end(s))
}

/// The line starts with the key, in upper or lower case.
pub open spec fn has_key(line: Seq<u8>, key: Seq<u8>) -> bool {
    line.len() >= key.len() && lower(line.take(key.len() as int)) == key
}

/// What follows the key, without the white space around it.
pub open spec fn value_of(line: Seq<u8>, key: Seq<u8>) -> Seq<u8> {
    trim(line.skip(key.len() as int))
}

/// What a line of a robots file says.
pub enum LineView {
    UserAgent(Seq<u8>),
    Rule(RuleView),
    Nothing,
}

/// What the line says: the comment is dropped, then the white space around
/// the rest. A line that starts with one of the four keys, in any case,
/// gives the value behind the key without the white space around it: byte
/// for byte where it is a rule, in lower case where it is a user agent, by
/// the rules of Unicode. Any other line says nothing.
pub open spec fn classify(line: Seq<u8>) -> LineView {
    let text = trim(before_comment(line));
    if has_key(text, disallow_key()) {
        LineView::Rule(RuleView { kind: Kind::Disallow, pattern: value_of(text, disallow_key()) })
    } else if has_key(text, ua_key()) {
        LineView::UserAgent(lower_text(value_of(text, ua_key())))
    } else if has_key(text, allow_key()) {
        LineView::Rule(RuleView { kind: Kind::Allow, pattern: value_of(text, allow_key()) })
    } else if has_key(text, delay_key()) {
        LineView::Rule(RuleView { kind: Kind::Delay, pattern: value_of(text, delay_key()) })
    } else {
        LineView::Nothing
    }
}

/// A rule as it is read from a line; it owns its bytes.
#[derive(Debug, PartialEq, Eq, Clone)]
pub enum ParsedRule {
    Allow(Vec<u8>),
    Disallow(Vec<u8>),
    Delay(Vec<u8>),
}

impl View for ParsedRule {
    type V = RuleView;

    open spec fn view(&self) -> RuleView {
        match self {
            ParsedRule::Allow(inner) => RuleView { kind: Kind::Allow, pattern: inner@ },
            ParsedRule::Disallow(inner) => RuleView { kind: Kind::Disallow, pattern: inner@ },
            ParsedRule::Delay(inner) => RuleView { kind: Kind::Delay, pattern: inner@ },
        }
    }
}

/// A line as it is read.
#[derive(Debug, PartialEq, Eq)]
pub enum ParsedLine {
    UserAgent(Vec<u8>),
    Rule(ParsedRule),
    Nothing,
}

impl View for ParsedLine {
    type V = LineView;

    open spec fn view(&self) -> LineView {
        match self {
            ParsedLine::UserAgent(agent) => LineView::UserAgent(agent@),
            ParsedLine::Rule(rule) => LineView::Rule(rule@),
            ParsedLine::Nothing => LineView::Nothing,
        }
    }
}

/// The mathematical values of a list of parsed rules, in the same order.
pub open spec fn rule_views(rules: Seq<ParsedRule>) -> Seq<RuleView> {
    rules.map_values(|r: ParsedRule| r@)
}

/// The bytes of a list of user agents, in the same order.
pub open spec fn agent_views(agents: Seq<Vec<u8>>) -> Seq<Seq<u8>> {
    agents.map_values(|a: Vec<u8>| a@)
}

/// The lower-case form of an ASCII letter; any other byte as it is.
pub fn to_lower(b: u8) -> (r: u8)
    ensures
        r == lower_byte(b),
{
    if 65 <= b && b <= 90 {
        b + 32
    } else {
        b
    }
}

/// The bytes with every ASCII letter in lower case.
pub fn lower_ascii(s: &[u8]) -> (out: Vec<u8>)
    ensures
        out@ == lower(s@),
{
    let mut out: Vec<u8> = Vec::new();
    let mut i: usize = 0;
    while i < s.len()
        invariant
            0 <= i <= s.len(),
            out@ == lower(s@.take(i as int)),
        decreases s.len() - i,
    {
        out.push(to_lower(s[i]));
        assert(out@ =~= lower(s@.take(i + 1)));
        i += 1;
    }
    assert(s@.take(i as int) =~= s@);
    out
}

/// The text that the bytes hold in UTF-8, if they hold any. This calls
/// `core::str::from_utf8`, of which it is taken on trust that it accepts
/// exactly the bytes that are valid UTF-8 and hands them back as they are.
#[verifier::external_body]
fn utf8_text(bytes: &[u8]) -> (text: Option<&str>)
    ensures
        text is Some <==> valid_utf8(bytes@),
        text matches Some(s) ==> s.spec_bytes() == bytes@,
{
    core::str::from_utf8(bytes).ok()
}

/// The bytes of the text in lower case. This calls `str::to_lowercase`, of
/// which nothing is taken on trust but that the same text gives the same
/// result.
#[verifier::external_body]
fn lower_str(text: &str) -> (out: Vec<u8>)
    ensures
        out@ == encode_utf8(lowercase(text@)),
{
    text.to_lowercase().into_bytes()
}

/// The bytes in lower case: as text, where they hold text in UTF-8; letter
/// by letter in ASCII, where they do not.
pub fn to_lowercase_text(bytes: &[u8]) -> (out: Vec<u8>)
    ensures
        out@ == lower_text(bytes@),
{
    match utf8_text(bytes) {
        Some(text) => {
            proof {
                vstd::utf8::encode_utf8_decode_utf8(text@);
            }
            lower_str(text)
        },
        None => lower_ascii(bytes),
    }
}

/// Whether the byte is white space.
pub fn is_whitespace(b: u8) -> (r: bool)
    ensures
        r == is_space(b),
{
    (9 <= b && b <= 13) || b == 32
}

/// The number of bytes in which the bytes from `from` on start with a
/// character of white space.
pub fn space_after(s: &[u8], from: usize) -> (n: usize)
    requires
        from <= s.len(),
    ensures
        n == space_at_start(s@.skip(from as int)),
        from + n <= s.len(),
{
    let left = s.len() - from;
    if left >= 1 && is_whitespace(s[from]) {
        1
    } else if left >= 2 && s[from] == 0xC2 && (s[from + 1] == 0x85 || s[from + 1] == 0xA0) {
        2
    } else if left >= 3 && wide_space(s[from], s[from + 1], s[from + 2]) {
        3
    } else {
        0
    }
}

/// The number of bytes in which the bytes before `until` end with a
/// character of white space.
pub fn space_before(s: &[u8], until: usize) -> (n: usize)
    requires
        until <= s.len(),
    ensures
        n == space_at_end(s@.take(until as int)),
        n <= until,
{
    if until >= 1 && is_whitespace(s[until - 1]) {
        1
    } else if until >= 2 && s[until - 2] == 0xC2 && (s[until - 1] == 0x85 || s[until - 1] == 0xA0) {
        2
    } else if until >= 3 && wide_space(s[until - 3], s[until - 2], s[until - 1]) {
        3
    } else {
        0
    }
}

/// Whether the three bytes hold a character of white space.
pub fn wide_space(a: u8, b: u8, c: u8) -> (r: bool)
    ensures
        r == is_space_of_three(a, b, c),
{
    (a == 0xE1 && b == 0x9A && c == 0x80) || (a == 0xE2 && b == 0x80 && ((0x80 <= c && c <= 0x8A)
        || c == 0xA8 || c == 0xA9 || c == 0xAF)) || (a == 0xE2 && b == 0x81 && c == 0x9F) || (a
        == 0xE3 && b == 0x80 && c == 0x80)
}

/// The bytes without the white space at either end.
pub fn trim_bytes(s: &[u8]) -> (out: &[u8])
    ensures
        out@ == trim(s@),
{
    let mut until: usize = s.len();
    assert(s@.take(until as int) =~= s@);
    loop
        invariant_except_break
            trim_end(s@) == trim_end(s@.take(until as int)),
        invariant
            until <= s.len(),
        ensures
            trim_end(s@) == s@.take(until as int),
        decreases until,
    {
        let n = space_before(s, until);
        if n == 0 {
            break ;
        }
        assert(s@.take(until as int).take(until - n) =~= s@.take(until - n));
        until -= n;
    }
    let kept = vstd::slice::slice_subrange(s, 0, until);
    assert(kept@ =~= s@.take(until as int));
    let mut from: usize = 0;
    assert(kept@.skip(0) =~= kept@);
    loop
        invariant_except_break
            trim_start(kept@) == trim_start(kept@.skip(from as int)),
        invariant
            from <= kept.len(),
        ensures
            trim_start(kept@) == kept@.skip(from as int),
        decreases kept.len() - from,
    {
        let n = space_after(kept, from);
        if n == 0 {
            break ;
        }
        assert(kept@.skip(from as int).skip(n as int) =~= kept@.skip(from + n));
        from += n;
    }
    let out = vstd::slice::slice_subrange(kept, from, kept.len());
    assert(out@ =~= kept@.skip(from as int));
    out
}

/// The line without its comment.
pub fn strip_comments(line: &[u8]) -> (out: &[u8])
    ensures
        out@ == before_comment(line@),
{
    let mut i: usize = 0;
    while i < line.len() && line[i] != COMMENT_BYTE
        invariant
            0 <= i <= line.len(),
            forall|j: int| 0 <= j < i ==> line@[j] != COMMENT_BYTE,
        decreases line.len() - i,
    {
        i += 1;
    }
    proof {
        assert(comment_at(line@, i as int));
        let c = choose|c: int| comment_at(line@, c);
        if c < i {
            assert(line@[c] != COMMENT_BYTE);
        }
        if i < c {
            assert(line@[i as int] != COMMENT_BYTE);
        }
    }
    vstd::slice::slice_subrange(line, 0, i)
}

/// What follows the key if the line starts with it, in upper or lower case,
/// without the white space around it.
fn parse_key<'a>(line: &'a [u8], key: &[u8]) -> (value: Option<&'a [u8]>)
    ensures
        value is Some <==> has_key(line@, key@),
        value matches Some(v) ==> v@ == value_of(line@, key@),
{
    if line.len() < key.len() {
        return None;
    }
    let mut i: usize = 0;
    while i < key.len()
        invariant
            0 <= i <= key.len(),
            key.len() <= line.len(),
            forall|j: int| 0 <= j < i ==> lower_byte(line@[j]) == key@[j],
        decreases key.len() - i,
    {
        if to_lower(line[i]) != key[i] {
            assert(lower(line@.take(key@.len() as int))[i as int] != key@[i as int]);
            return None;
        }
        i += 1;
    }
    assert(lower(line@.take(key@.len() as int)) =~= key@);
    let suffix = vstd::slice::slice_subrange(line, key.len(), line.len());
    assert(suffix@ =~= line@.skip(key@.len() as int));
    Some(trim_bytes(suffix))
}

/// The user agent that the line declares.
pub fn parse_user_agent(line: &[u8]) -> (value: Option<&[u8]>)
    ensures
        value is Some <==> has_key(line@, ua_key()),
        value matches Some(v) ==> v@ == value_of(line@, ua_key()),
{
    let key: [u8; 11] = [117, 115, 101, 114, 45, 97, 103, 101, 110, 116, 58];
    assert(key@ =~= ua_key());
    parse_key(line, key.as_slice())
}

/// The crawl delay that the line sets.
pub fn parse_delay(line: &[u8]) -> (value: Option<&[u8]>)
    ensures
        value is Some <==> has_key(line@, delay_key()),
        value matches Some(v) ==> v@ == value_of(line@, delay_key()),
{
    let key: [u8; 12] = [99, 114, 97, 119, 108, 45, 100, 101, 108, 97, 121, 58];
    assert(key@ =~= delay_key());
    parse_key(line, key.as_slice())
}

/// The pattern that the line allows.
pub fn parse_allow(line: &[u8]) -> (value: Option<&[u8]>)
    ensures
        value is Some <==> has_key(line@, allow_key()),
        value matches Some(v) ==> v@ == value_of(line@, allow_key()),
{
    let key: [u8; 6] = [97, 108, 108, 111, 119, 58];
    assert(key@ =~= allow_key());
    parse_key(line, key.as_slice())
}

/// The pattern that the line disallows.
pub fn parse_disallow(line: &[u8]) -> (value: Option<&[u8]>)
    ensures
        value is Some <==> has_key(line@, disallow_key()),
        value matches Some(v) ==> v@ == value_of(line@, disallow_key()),
{
    let key: [u8; 9] = [100, 105, 115, 97, 108, 108, 111, 119, 58];
    assert(key@ =~= disallow_key());
    parse_key(line, key.as_slice())
}

/// Reads one line of a robots file. The kinds of line are tried from the
/// most frequent to the least; no line is of two kinds.
pub fn parse_line(line: Vec<u8>) -> (parsed: ParsedLine)
    ensures
        parsed@ == classify(line@),
{
    let text = trim_bytes(strip_comments(line.as_slice()));
    if let Some(value) = parse_disallow(text) {
        return ParsedLine::Rule(ParsedRule::Disallow(vstd::slice::slice_to_vec(value)));
    }
    if let Some(value) = parse_user_agent(text) {
        return ParsedLine::UserAgent(to_lowercase_text(value));
    }
    if let Some(value) = parse_allow(text) {
        return ParsedLine::Rule(ParsedRule::Allow(vstd::slice::slice_to_vec(value)));
    }
    if let Some(value) = parse_delay(text) {
        return ParsedLine::Rule(ParsedRule::Delay(vstd::slice::slice_to_vec(value)));
    }
    ParsedLine::Nothing
}

/// Every line has a place where its comment starts.
pub proof fn lemma_comment_at(s: Seq<u8>) -> (i: int)
    ensures
        comment_at(s, i),
        before_comment(s) == s.take(i),
    decreases s.len(),
{
    let i = if s.len() == 0 {
        0
    } else {
        let j = lemma_comment_at(s.drop_last());
        if j < s.len() - 1 {
            assert(s.drop_last()[j] == s[j]);
            j
        } else if s.last() == COMMENT_BYTE {
            s.len() - 1
        } else {
            s.len() as int
        }
    };
    assert(comment_at(s, i)) by {
        if s.len() > 0 {
            assert forall|j: int| 0 <= j < i implies s[j] != COMMENT_BYTE by {
                if j < s.len() - 1 {
                    assert(s.drop_last()[j] == s[j]);
                }
            }
        }
    }
    let c = choose|c: int| comment_at(s, c);
    if c < i {
        assert(s[c] != COMMENT_BYTE);
    }
    if i < c {
        assert(s[i] != COMMENT_BYTE);
    }
    i
}

/// White space before other bytes is trimmed with them: what is blank at
/// the start makes no difference.
pub proof fn lemma_trim_start_lead(lead: Seq<u8>, rest: Seq<u8>)
    requires
        blank(lead),
    ensures
        trim_start(lead + rest) == trim_start(rest),
    decreases lead.len(),
{
    let n = space_at_start(lead) as int;
    if lead.len() == 0 {
        assert(lead + rest =~= rest);
    } else {
        assert(n > 0);
        let whole = lead + rest;
        assert(whole[0] == lead[0]);
        if n >= 2 {
            assert(whole[1] == lead[1]);
        }
        if n >= 3 {
            assert(whole[2] == lead[2]);
        }
        assert(space_at_start(whole) == n);
        assert(whole.skip(n) =~= lead.skip(n) + rest);
        lemma_trim_start_lead(lead.skip(n), rest);
    }
}

/// What is blank holds no `#`.
proof fn lemma_blank_bytes(lead: Seq<u8>)
    requires
        blank(lead),
    ensures
        forall|i: int| 0 <= i < lead.len() ==> lead[i] != COMMENT_BYTE,
    decreases lead.len(),
{
    if lead.len() > 0 {
        let n = space_at_start(lead) as int;
        assert(n > 0);
        let rest = lead.skip(n);
        lemma_blank_bytes(rest);
        assert forall|i: int| 0 <= i < lead.len() implies lead[i] != COMMENT_BYTE by {
            if i >= n {
                assert(rest[i - n] == lead[i]);
            }
        }
    }
}

/// Behind a byte of ASCII that is no white space, the end is trimmed as it
/// is alone.
pub proof fn lemma_trim_end_behind(front: Seq<u8>, rest: Seq<u8>)
    requires
        front.len() > 0,
        front.last() < 128,
        !is_space(front.last()),
    ensures
        trim_end(front + rest) == front + trim_end(rest),
    decreases rest.len(),
{
    let whole = front + rest;
    let f = front.len() as int;
    let r = rest.len() as int;
    let n = space_at_end(rest) as int;
    assert(whole[f - 1] == front[f - 1]);
    if r >= 1 {
        assert(whole[f + r - 1] == rest[r - 1]);
    }
    if r >= 2 {
        assert(whole[f + r - 2] == rest[r - 2]);
    }
    if r >= 3 {
        assert(whole[f + r - 3] == rest[r - 3]);
    }
    assert(space_at_end(whole) == n);
    if n == 0 {
        assert(whole =~= front + rest);
    } else {
        assert(whole.take(whole.len() - n) =~= front + rest.take(r - n));
        lemma_trim_end_behind(front, rest.take(r - n));
    }
}

/// What was trimmed at the end ends with no white space.
pub proof fn lemma_trim_end_done(s: Seq<u8>)
    ensures
        space_at_end(trim_end(s)) == 0,
        trim_end(trim_end(s)) == trim_end(s),
    decreases s.len(),
{
    let n = space_at_end(s);
    if n > 0 {
        lemma_trim_end_done(s.take(s.len() - n));
    }
}

/// The byte string is one of the four keys.
pub open spec fn is_key(key: Seq<u8>) -> bool {
    key == disallow_key() || key == ua_key() || key == allow_key() || key == delay_key()
}

/// What a line with the given key and value says.
pub open spec fn keyed(key: Seq<u8>, value: Seq<u8>) -> LineView {
    if key == disallow_key() {
        LineView::Rule(RuleView { kind: Kind::Disallow, pattern: value })
    } else if key == ua_key() {
        LineView::UserAgent(lower_text(value))
    } else if key == allow_key() {
        LineView::Rule(RuleView { kind: Kind::Allow, pattern: value })
    } else {
        LineView::Rule(RuleView { kind: Kind::Delay, pattern: value })
    }
}

/// A key in any case holds no `#` and no white space, and starts as the
/// key in lower case does.
proof fn lemma_key_bytes(k: Seq<u8>, key: Seq<u8>)
    requires
        is_key(key),
        lower(k) == key,
    ensures
        k.len() == key.len(),
        k.len() >= 6,
        forall|i: int| 0 <= i < k.len() ==> k[i] != COMMENT_BYTE && !is_space(k[i]) && k[i] < 128,
        lower_byte(k[0]) == key[0],
        forall|other: Seq<u8>| is_key(other) && other != key ==> other[0] != key[0],
{
    let m = k.len() as int;
    assert(m == key.len());
    assert(disallow_key().len() == 9 && ua_key().len() == 11 && allow_key().len() == 6
        && delay_key().len() == 12);
    assert(disallow_key()[0] == 100 && ua_key()[0] == 117 && allow_key()[0] == 97 && delay_key()[0]
        == 99);
    assert forall|i: int| 0 <= i < m implies lower_byte(k[i]) == key[i] by {
        assert(lower(k)[i] == key[i]);
    }
    assert forall|i: int| 0 <= i < m implies k[i] != COMMENT_BYTE && !is_space(k[i]) && k[i]
        < 128 by {
        assert(lower_byte(k[i]) == key[i]);
    }
}

/// The comment of a line behind white space and a key is the comment of
/// what follows the key.
proof fn lemma_comment_behind_key(lead: Seq<u8>, k: Seq<u8>, rest: Seq<u8>)
    requires
        forall|i: int| 0 <= i < lead.len() ==> lead[i] != COMMENT_BYTE,
        forall|i: int| 0 <= i < k.len() ==> k[i] != COMMENT_BYTE,
    ensures
        before_comment(lead + k + rest) == lead + k + before_comment(rest),
{
    let line = lead + k + rest;
    let n = lead.len() as int;
    let m = k.len() as int;
    let cr = lemma_comment_at(rest);
    let cl = lemma_comment_at(line);
    assert(comment_at(line, n + m + cr)) by {
        assert forall|j: int| 0 <= j < n + m + cr implies line[j] != COMMENT_BYTE by {
            if j < n {
                assert(line[j] == lead[j]);
            } else if j < n + m {
                assert(line[j] == k[j - n]);
            } else {
                assert(line[j] == rest[j - n - m]);
            }
        }
        if cr < rest.len() {
            assert(line[n + m + cr] == rest[cr]);
        }
    }
    assert(cl == n + m + cr) by {
        if cl < n + m + cr {
            assert(line[cl] != COMMENT_BYTE);
        }
        if n + m + cr < cl {
            assert(line[n + m + cr] != COMMENT_BYTE);
        }
    }
    assert(line.take(cl) =~= lead + k + rest.take(cr));
}

/// The text of white space, a key and more: the key, and the more without
/// the white space at its end.
proof fn lemma_text_behind_key(lead: Seq<u8>, k: Seq<u8>, more: Seq<u8>) -> (tail: Seq<u8>)
    requires
        blank(lead),
        k.len() > 0,
        forall|i: int| 0 <= i < k.len() ==> !is_space(k[i]) && k[i] < 128,
    ensures
        trim(lead + k + more) == k + tail,
        trim(tail) == trim(more),
{
    let tail = trim_end(more);
    let front = lead + k;
    assert(front.last() == k.last());
    lemma_trim_end_behind(front, more);
    assert(front + tail =~= lead + (k + tail));
    lemma_trim_start_lead(lead, k + tail);
    assert((k + tail)[0] == k[0]);
    assert(space_at_start(k + tail) == 0);
    lemma_trim_end_done(more);
    tail
}

/// A text that starts with a key in any case has that key and no other.
proof fn lemma_one_key(k: Seq<u8>, tail: Seq<u8>, key: Seq<u8>)
    requires
        is_key(key),
        lower(k) == key,
    ensures
        has_key(k + tail, key),
        value_of(k + tail, key) == trim(tail),
        forall|other: Seq<u8>| is_key(other) && other != key ==> !has_key(k + tail, other),
{
    let text = k + tail;
    let m = k.len() as int;
    lemma_key_bytes(k, key);
    assert(text.take(m) =~= k);
    assert(text.skip(m) =~= tail);
    assert forall|other: Seq<u8>| is_key(other) && other != key implies !has_key(text, other) by {
        if text.len() >= other.len() {
            assert(lower(text.take(other.len() as int))[0] == lower_byte(k[0]));
        }
    }
}

/// A key is read whatever the case of its letters, and a pattern is kept byte
/// for byte: a line that is made of white space, in ASCII or beyond, a key
/// `k` in any mix of upper and lower case, and a rest says what the key says
/// of the rest without its comment and the white space around it.
pub proof fn lemma_key_case(lead: Seq<u8>, k: Seq<u8>, rest: Seq<u8>, key: Seq<u8>)
    requires
        blank(lead),
        is_key(key),
        lower(k) == key,
    ensures
        classify(lead + k + rest) == keyed(key, trim(before_comment(rest))),
{
    lemma_key_bytes(k, key);
    lemma_blank_bytes(lead);
    lemma_comment_behind_key(lead, k, rest);
    let bare = before_comment(rest);
    let tail = lemma_text_behind_key(lead, k, bare);
    lemma_one_key(k, tail, key);
    let text = k + tail;
    assert(!has_key(text, disallow_key()) || key == disallow_key());
    assert(!has_key(text, ua_key()) || key == ua_key());
    assert(!has_key(text, allow_key()) || key == allow_key());
}

/// The byte ends a line: a line feed or a carriage return. A carriage
/// return before a line feed ends a line of its own, and the line feed an
/// empty one behind it.
pub open spec fn ends_line(b: u8) -> bool {
    b == NEWLINE_BYTE || b == RETURN_BYTE
}

/// The length of the first line of `s`, the byte that ends it included.
pub open spec fn line_len(s: Seq<u8>) -> nat
    decreases s.len(),
{
    if s.len() == 0 {
        0
    } else if ends_line(s[0]) {
        1
    } else {
        1 + line_len(s.drop_first())
    }
}

/// A first line is not empty and not longer than the input.
pub proof fn lemma_line_len(s: Seq<u8>)
    ensures
        line_len(s) <= s.len(),
        s.len() > 0 ==> line_len(s) > 0,
    decreases s.len(),
{
    if s.len() > 0 && !ends_line(s[0]) {
        lemma_line_len(s.drop_first());
    }
}

/// The reader of groups as a mathematical value: whether it is reading the
/// user agents of a header, the user agents and the rules it has kept, and
/// the input that is left.
pub struct Reader {
    pub parsing_agents: bool,
    pub agents: Seq<Seq<u8>>,
    pub rules: Seq<RuleView>,
    pub rest: Seq<u8>,
}

/// The reader at the start of a file.
pub open spec fn start(file: Seq<u8>) -> Reader {
    Reader { parsing_agents: true, agents: Seq::empty(), rules: Seq::empty(), rest: file }
}

/// The reader after it has read on to the end of the next header: over the
/// user agents of the header, which it keeps, up to and with the first rule
/// behind them, which it keeps too. On its way to the header it passes over
/// rules; a user agent behind rules starts a new header. Lines that say
/// nothing are passed over.
pub open spec fn header_scan(r: Reader) -> Reader
    decreases r.rest.len(),
{
    if r.rest.len() == 0 {
        r
    } else {
        proof {
            lemma_line_len(r.rest);
        }
        let n = line_len(r.rest) as int;
        let rest = r.rest.skip(n);
        match classify(r.rest.take(n)) {
            LineView::UserAgent(agent) => if r.parsing_agents {
                header_scan(Reader { agents: r.agents.push(agent), rest, ..r })
            } else {
                header_scan(
                    Reader { parsing_agents: true, agents: seq![agent], rules: Seq::empty(), rest },
                )
            },
            LineView::Rule(rule) => if r.parsing_agents {
                Reader { parsing_agents: false, rules: r.rules.push(rule), rest, ..r }
            } else {
                header_scan(Reader { rest, ..r })
            },
            LineView::Nothing => header_scan(Reader { rest, ..r }),
        }
    }
}

/// The reader after it has read on to the end of the rules of a group: over
/// the rules, which it keeps, up to and with the first user agent behind
/// them, which it keeps for the next header.
pub open spec fn rules_scan(r: Reader) -> Reader
    decreases r.rest.len(),
{
    if r.rest.len() == 0 {
        r
    } else {
        proof {
            lemma_line_len(r.rest);
        }
        let n = line_len(r.rest) as int;
        let rest = r.rest.skip(n);
        match classify(r.rest.take(n)) {
            LineView::Rule(rule) => rules_scan(
                Reader { parsing_agents: false, rules: r.rules.push(rule), rest, ..r },
            ),
            LineView::UserAgent(agent) => if !r.parsing_agents {
                Reader { parsing_agents: true, agents: r.agents.push(agent), rest, ..r }
            } else {
                rules_scan(Reader { rest, ..r })
            },
            LineView::Nothing => rules_scan(Reader { rest, ..r }),
        }
    }
}

/// What selecting has left to go through: the input, and a header read ahead.
pub open spec fn left(r: Reader) -> nat {
    2 * r.rest.len() + if r.agents.len() > 0 {
        1nat
    } else {
        0nat
    }
}

/// Reading on to a header takes input, and gives a header only where it took
/// input or had a user agent read ahead.
pub proof fn lemma_header_scan(r: Reader)
    ensures
        header_scan(r).rest.len() <= r.rest.len(),
        header_scan(r).agents.len() > 0 ==> header_scan(r).rest.len() < r.rest.len()
            || r.agents.len() > 0,
    decreases r.rest.len(),
{
    if r.rest.len() > 0 {
        lemma_line_len(r.rest);
        let n = line_len(r.rest) as int;
        let rest = r.rest.skip(n);
        match classify(r.rest.take(n)) {
            LineView::UserAgent(agent) => if r.parsing_agents {
                lemma_header_scan(Reader { agents: r.agents.push(agent), rest, ..r });
            } else {
                lemma_header_scan(
                    Reader { parsing_agents: true, agents: seq![agent], rules: Seq::empty(), rest },
                );
            },
            LineView::Rule(rule) => if !r.parsing_agents {
                lemma_header_scan(Reader { rest, ..r });
            },
            LineView::Nothing => lemma_header_scan(Reader { rest, ..r }),
        }
    }
}

/// Reading on over rules takes input, and reads a user agent ahead only
/// where it took input or had one already.
pub proof fn lemma_rules_scan(r: Reader)
    ensures
        rules_scan(r).rest.len() <= r.rest.len(),
        rules_scan(r).agents.len() > r.agents.len() ==> rules_scan(r).rest.len() < r.rest.len(),
        rules_scan(r).agents.len() >= r.agents.len(),
    decreases r.rest.len(),
{
    if r.rest.len() > 0 {
        lemma_line_len(r.rest);
        let n = line_len(r.rest) as int;
        let rest = r.rest.skip(n);
        match classify(r.rest.take(n)) {
            LineView::Rule(rule) => lemma_rules_scan(
                Reader { parsing_agents: false, rules: r.rules.push(rule), rest, ..r },
            ),
            LineView::UserAgent(agent) => if r.parsing_agents {
                lemma_rules_scan(Reader { rest, ..r });
            },
            LineView::Nothing => lemma_rules_scan(Reader { rest, ..r }),
        }
    }
}

/// Reads a robots file group by group.
struct GroupReader<'a> {
    parsing_agents: bool,
    agents: Vec<Vec<u8>>,
    rules: Vec<ParsedRule>,
    reader: &'a [u8],
    position: usize,
}

impl<'a> View for GroupReader<'a> {
    type V = Reader;

    closed spec fn view(&self) -> Reader {
        Reader {
            parsing_agents: self.parsing_agents,
            agents: agent_views(self.agents@),
            rules: rule_views(self.rules@),
            rest: self.reader@.skip(self.position as int),
        }
    }
}

impl<'a> GroupReader<'a> {
    /// The reader has not read past the end of the file.
    spec fn wf(&self) -> bool {
        self.position <= self.reader@.len()
    }

    /// A reader at the start of the file.
    fn new(reader: &'a [u8]) -> (r: Self)
        ensures
            r.wf(),
            r@ == start(reader@),
    {
        let r = Self {
            parsing_agents: true,
            agents: Vec::new(),
            rules: Vec::new(),
            reader,
            position: 0,
        };
        assert(reader@.skip(0) =~= reader@);
        assert(agent_views(r.agents@) =~= Seq::<Seq<u8>>::empty());
        assert(rule_views(r.rules@) =~= Seq::<RuleView>::empty());
        r
    }

    /// The next line of the file with the byte that ends it; none at the end
    /// of the file.
    fn read_line(&mut self) -> (line: Option<&'a [u8]>)
        requires
            old(self).wf(),
        ensures
            final(self).wf(),
            old(self)@.rest.len() == 0 ==> line is None && final(self)@ == old(self)@,
            old(self)@.rest.len() > 0 ==> line is Some && line->0@ == old(self)@.rest.take(
                line_len(old(self)@.rest) as int,
            ) && final(self)@ == (Reader {
                rest: old(self)@.rest.skip(line_len(old(self)@.rest) as int),
                ..old(self)@
            }),
            final(self).agents == old(self).agents,
            final(self).rules == old(self).rules,
            final(self).parsing_agents == old(self).parsing_agents,
    {
        let start = self.position;
        let input = self.reader;
        if start >= input.len() {
            return None;
        }
        let ghost rest = input@.skip(start as int);
        let mut end: usize = start;
        while end < input.len() && input[end] != NEWLINE_BYTE && input[end] != RETURN_BYTE
            invariant
                start <= end <= input.len(),
                line_len(input@.skip(start as int)) == (end - start) + line_len(
                    input@.skip(end as int),
                ),
            decreases input.len() - end,
        {
            assert(input@.skip(end as int).drop_first() =~= input@.skip(end + 1));
            end += 1;
        }
        if end < input.len() {
            assert(input@.skip(end as int).drop_first() =~= input@.skip(end + 1));
            assert(ends_line(input@.skip(end as int)[0]));
            end += 1;
        }
        assert(line_len(rest) == end - start);
        self.position = end;
        let line = vstd::slice::slice_subrange(input, start, end);
        assert(line@ =~= rest.take(line_len(rest) as int));
        assert(input@.skip(end as int) =~= rest.skip(line_len(rest) as int));
        Some(line)
    }

    /// Reads on to the end of the next header and hands out its user agents;
    /// none where the header has none, or where the input ends before a
    /// rule follows the header.
    fn next_header(&mut self) -> (header: Option<Vec<Vec<u8>>>)
        requires
            old(self).wf(),
        ensures
            final(self).wf(),
            final(self)@ == (Reader { agents: Seq::empty(), ..header_scan(old(self)@) }),
            header is Some <==> grouped(header_scan(old(self)@)),
            header matches Some(agents) ==> agent_views(agents@) == header_scan(old(self)@).agents,
    {
        let ghost goal = header_scan(self@);
        loop
            invariant_except_break
                header_scan(self@) == goal,
            invariant
                self.wf(),
            ensures
                self.wf(),
                self@ == goal,
            decreases self@.rest.len(),
        {
            let ghost before = self@;
            proof {
                lemma_line_len(before.rest);
            }
            let line = match self.read_line() {
                Some(line) => line,
                None => {
                    break ;
                },
            };
            let parsed = parse_line(vstd::slice::slice_to_vec(line));
            match parsed {
                ParsedLine::UserAgent(agent) => {
                    if self.parsing_agents {
                        self.agents.push(agent);
                        assert(agent_views(self.agents@) =~= before.agents.push(agent@));
                    } else {
                        self.agents = Vec::new();
                        self.agents.push(agent);
                        self.rules = Vec::new();
                        self.parsing_agents = true;
                        assert(agent_views(self.agents@) =~= seq![agent@]);
                        assert(rule_views(self.rules@) =~= Seq::<RuleView>::empty());
                    }
                },
                ParsedLine::Rule(rule) => {
                    if self.parsing_agents {
                        self.rules.push(rule);
                        self.parsing_agents = false;
                        assert(rule_views(self.rules@) =~= before.rules.push(rule@));
                        break ;
                    }
                },
                ParsedLine::Nothing => {},
            }
        }
        let mut agents: Vec<Vec<u8>> = Vec::new();
        std::mem::swap(&mut agents, &mut self.agents);
        assert(agent_views(self.agents@) =~= Seq::<Seq<u8>>::empty());
        if agents.len() == 0 || self.rules.len() == 0 {
            return None;
        }
        Some(agents)
    }

    /// Reads on to the end of the rules of the group and hands them out.
    fn next_rules(&mut self) -> (rules: Vec<ParsedRule>)
        requires
            old(self).wf(),
        ensures
            final(self).wf(),
            final(self)@ == (Reader { rules: Seq::empty(), ..rules_scan(old(self)@) }),
            rule_views(rules@) == rules_scan(old(self)@).rules,
    {
        let ghost goal = rules_scan(self@);
        loop
            invariant_except_break
                rules_scan(self@) == goal,
            invariant
                self.wf(),
            ensures
                self.wf(),
                self@ == goal,
            decreases self@.rest.len(),
        {
            let ghost before = self@;
            proof {
                lemma_line_len(before.rest);
            }
            let line = match self.read_line() {
                Some(line) => line,
                None => {
                    break ;
                },
            };
            let parsed = parse_line(vstd::slice::slice_to_vec(line));
            match parsed {
                ParsedLine::Rule(rule) => {
                    self.rules.push(rule);
                    self.parsing_agents = false;
                    assert(rule_views(self.rules@) =~= before.rules.push(rule@));
                },
                ParsedLine::UserAgent(agent) => {
                    if !self.parsing_agents {
                        self.agents.push(agent);
                        self.parsing_agents = true;
                        assert(agent_views(self.agents@) =~= before.agents.push(agent@));
                        break ;
                    }
                },
                ParsedLine::Nothing => {},
            }
        }
        let mut rules: Vec<ParsedRule> = Vec::new();
        std::mem::swap(&mut rules, &mut self.rules);
        assert(rule_views(self.rules@) =~= Seq::<RuleView>::empty());
        rules
    }
}

/// `needle` stands somewhere in `hay`.
pub open spec fn is_infix(needle: Seq<u8>, hay: Seq<u8>) -> bool {
    exists|k: int|
        0 <= k && k + needle.len() <= hay.len() && #[trigger] hay.subrange(k, k + needle.len())
            == needle
}

/// The user agent of a header names the crawler `agent`: it is `*`, or it
/// stands somewhere in the crawler's name.
pub open spec fn names(token: Seq<u8>, agent: Seq<u8>) -> bool {
    token == seq![42u8] || is_infix(token, agent)
}

/// How closely a header names the crawler: the length of its longest user
/// agent that names it, 0 where none does.
pub open spec fn specificity(agents: Seq<Seq<u8>>, agent: Seq<u8>) -> nat
    decreases agents.len(),
{
    if agents.len() == 0 {
        0
    } else {
        let before = specificity(agents.drop_last(), agent);
        if names(agents.last(), agent) && agents.last().len() > before {
            agents.last().len()
        } else {
            before
        }
    }
}

/// The reader has read a header that starts a group: it names a user agent,
/// and a rule follows it. A rule before any user agent starts no group, and
/// neither does a header that the end of the input follows.
pub open spec fn grouped(header: Reader) -> bool {
    header.agents.len() > 0 && header.rules.len() > 0
}

/// The rules of the group that names the crawler most closely, among the
/// groups that the reader still has before it: the rules `kept` stay unless
/// a later header names the crawler more closely than `best`. Reading ends
/// at the end of the input, or where a header starts no group.
pub open spec fn select(r: Reader, agent: Seq<u8>, best: nat, kept: Seq<RuleView>) -> Seq<RuleView>
    decreases left(r),
{
    let header = header_scan(r);
    if !grouped(header) {
        kept
    } else {
        proof {
            lemma_header_scan(r);
            lemma_rules_scan(Reader { agents: Seq::empty(), ..header });
        }
        let found = specificity(header.agents, agent);
        let after = Reader { agents: Seq::empty(), ..header };
        if found > best {
            let group = rules_scan(after);
            select(Reader { rules: Seq::empty(), ..group }, agent, found, group.rules)
        } else {
            select(after, agent, best, kept)
        }
    }
}

/// The rules that a robots file holds for the crawler `agent`.
pub open spec fn chosen_rules(file: Seq<u8>, agent: Seq<u8>) -> Seq<RuleView> {
    select(start(file), agent, 0, Seq::empty())
}

/// Whether `needle` stands somewhere in `hay`.
pub fn contains_bytes(hay: &[u8], needle: &[u8]) -> (r: bool)
    ensures
        r == is_infix(needle@, hay@),
{
    if needle.len() > hay.len() {
        return false;
    }
    let last = hay.len() - needle.len();
    let mut k: usize = 0;
    while k <= last
        invariant
            0 <= k <= last + 1,
            last == hay.len() - needle.len(),
            forall|j: int| 0 <= j < k ==> #[trigger] hay@.subrange(j, j + needle@.len()) != needle@,
        decreases last + 1 - k,
    {
        let mut i: usize = 0;
        while i < needle.len() && hay[k + i] == needle[i]
            invariant
                0 <= i <= needle.len(),
                k + needle.len() <= hay.len(),
                forall|j: int| 0 <= j < i ==> hay@[k + j] == needle@[j],
            decreases needle.len() - i,
        {
            i += 1;
        }
        if i == needle.len() {
            assert(hay@.subrange(k as int, k + needle@.len()) =~= needle@);
            return true;
        }
        assert(hay@.subrange(k as int, k + needle@.len())[i as int] != needle@[i as int]);
        k += 1;
    }
    false
}

/// How closely the header names the crawler.
pub fn most_specific(agents: &Vec<Vec<u8>>, agent: &[u8]) -> (found: usize)
    ensures
        found == specificity(agent_views(agents@), agent@),
{
    let mut found: usize = 0;
    let mut i: usize = 0;
    while i < agents.len()
        invariant
            0 <= i <= agents.len(),
            found == specificity(agent_views(agents@).take(i as int), agent@),
        decreases agents.len() - i,
    {
        let token = agents[i].as_slice();
        proof {
            let seen = agent_views(agents@).take(i + 1);
            assert(seen.drop_last() =~= agent_views(agents@).take(i as int));
            assert(seen.last() == token@);
        }
        if token.len() > found {
            let star = token.len() == 1 && token[0] == 42;
            assert(star == (token@ == seq![42u8])) by {
                if star {
                    assert(token@ =~= seq![42u8]);
                }
            }
            if star || contains_bytes(agent, token) {
                found = token.len();
            }
        }
        i += 1;
    }
    assert(agent_views(agents@).take(i as int) =~= agent_views(agents@));
    found
}

/// The headers that reading meets, one after the other, as long as no
/// group is taken.
pub open spec fn headers(r: Reader) -> Seq<Seq<Seq<u8>>>
    decreases left(r),
{
    let header = header_scan(r);
    if !grouped(header) {
        Seq::empty()
    } else {
        proof {
            lemma_header_scan(r);
        }
        seq![header.agents] + headers(Reader { agents: Seq::empty(), ..header })
    }
}

/// Where no header names the crawler, the rules that are kept stay.
pub proof fn lemma_select_none(r: Reader, agent: Seq<u8>, best: nat, kept: Seq<RuleView>)
    requires
        forall|i: int|
            0 <= i < headers(r).len() ==> specificity(#[trigger] headers(r)[i], agent) <= best,
    ensures
        select(r, agent, best, kept) == kept,
    decreases left(r),
{
    let header = header_scan(r);
    if grouped(header) {
        lemma_header_scan(r);
        let after = Reader { agents: Seq::empty(), ..header };
        assert(headers(r)[0] == header.agents);
        assert forall|i: int| 0 <= i < headers(after).len() implies specificity(
            #[trigger] headers(after)[i],
            agent,
        ) <= best by {
            assert(headers(r)[i + 1] == headers(after)[i]);
        }
        lemma_select_none(after, agent, best, kept);
    }
}

/// A header names the crawler with a length of 0 exactly where none of its
/// user agents that are not empty names the crawler.
pub proof fn lemma_specificity_zero(agents: Seq<Seq<u8>>, agent: Seq<u8>)
    ensures
        specificity(agents, agent) == 0 <==> forall|i: int|
            0 <= i < agents.len() && names(#[trigger] agents[i], agent) ==> agents[i].len() == 0,
    decreases agents.len(),
{
    if agents.len() > 0 {
        let most = agents.drop_last();
        lemma_specificity_zero(most, agent);
        if specificity(agents, agent) == 0 {
            assert forall|i: int|
                0 <= i < agents.len() && names(#[trigger] agents[i], agent) implies agents[i].len()
                == 0 by {
                if i < most.len() {
                    assert(most[i] == agents[i]);
                }
            }
        } else if specificity(most, agent) != 0 {
            let i = choose|i: int|
                0 <= i < most.len() && names(#[trigger] most[i], agent) && most[i].len() != 0;
            assert(agents[i] == most[i]);
        }
    }
}

/// The slice that holds the bytes of `v`.
pub open spec fn bytes_of<'a>(v: &'a Vec<u8>) -> &'a [u8] {
    choose|s: &'a [u8]| s@ == v@
}

/// The rule over the bytes that the parsed rule owns.
pub open spec fn borrowed<'a>(rule: &'a ParsedRule) -> Rule<'a> {
    match rule {
        ParsedRule::Allow(path) => Rule::Allow(bytes_of(path)),
        ParsedRule::Disallow(path) => Rule::Disallow(bytes_of(path)),
        ParsedRule::Delay(delay) => Rule::Delay(bytes_of(delay)),
    }
}

impl<'a> vstd::std_specs::convert::FromSpecImpl<&'a ParsedRule> for Rule<'a> {
    open spec fn obeys_from_spec() -> bool {
        true
    }

    open spec fn from_spec(rule: &'a ParsedRule) -> Rule<'a> {
        borrowed(rule)
    }
}

impl<'a> From<&'a ParsedRule> for Rule<'a> {
    /// The rule over the bytes that the parsed rule owns.
    fn from(rule: &'a ParsedRule) -> (borrowed: Rule<'a>) {
        borrow_rule(rule)
    }
}

/// The rule over the bytes that the parsed rule owns.
pub fn borrow_rule<'a>(rule: &'a ParsedRule) -> (r: Rule<'a>)
    ensures
        r@ == rule@,
        r == borrowed(rule),
{
    {
        match rule {
            ParsedRule::Allow(path) => {
                let bytes = path.as_slice();
                assert(bytes =~= bytes_of(path));
                Rule::Allow(bytes)
            },
            ParsedRule::Disallow(path) => {
                let bytes = path.as_slice();
                assert(bytes =~= bytes_of(path));
                Rule::Disallow(bytes)
            },
            ParsedRule::Delay(delay) => {
                let bytes = delay.as_slice();
                assert(bytes =~= bytes_of(delay));
                Rule::Delay(bytes)
            },
        }
    }
}

/// The mathematical value of a [`Compiler`]: the name of its crawler, in
/// lower case.
pub struct CompilerView {
    pub user_agent: Seq<u8>,
}

/// A compiler reads a robots file and compiles the rules that the file holds
/// for one crawler into a matcher.
#[derive(Debug, Clone)]
pub struct Compiler {
    user_agent: Vec<u8>,
}

impl View for Compiler {
    type V = CompilerView;

    closed spec fn view(&self) -> CompilerView {
        CompilerView { user_agent: self.user_agent@ }
    }
}

impl Compiler {
    /// A compiler for the crawler of the given name. The name is kept in
    /// lower case, by the rules of Unicode, as the names in a robots file
    /// are.
    pub fn new(user_agent: &str) -> (compiler: Self)
        ensures
            compiler@.user_agent == encode_utf8(lowercase(user_agent@)),
            compiler@.user_agent == lower_text(user_agent.spec_bytes()),
    {
        proof {
            vstd::utf8::encode_utf8_decode_utf8(user_agent@);
            vstd::utf8::encode_utf8_valid_utf8(user_agent@);
        }
        Self { user_agent: lower_str(user_agent) }
    }

    /// The name of the crawler, in lower case.
    pub fn user_agent(&self) -> (name: &[u8])
        ensures
            name@ == self@.user_agent,
    {
        self.user_agent.as_slice()
    }

    /// Compiles the rules that the robots file holds for the crawler: those
    /// of the group whose header names the crawler most closely, without
    /// doubles.
    pub fn compile(&self, file: &[u8]) -> (machine: Cylon)
        ensures
            machine@.states == automaton(deduped(chosen_rules(file@, self@.user_agent))),
            machine@.delay == table_delay(deduped(chosen_rules(file@, self@.user_agent))),
            crate::nfa::fits(deduped(chosen_rules(file@, self@.user_agent))),
            machine@.states.len() <= 2 * crate::size::nodes(
                chosen_rules(file@, self@.user_agent),
            ).len() + 2,
    {
        let ghost agent = self@.user_agent;
        let mut best: usize = 0;
        let mut rules: Vec<ParsedRule> = Vec::new();
        let mut group_reader = GroupReader::new(file);
        assert(rule_views(rules@) =~= Seq::<RuleView>::empty());
        loop
            invariant_except_break
                select(group_reader@, agent, best as nat, rule_views(rules@)) == chosen_rules(
                    file@,
                    agent,
                ),
            invariant
                group_reader.wf(),
                agent == self@.user_agent,
            ensures
                rule_views(rules@) == chosen_rules(file@, agent),
            decreases left(group_reader@),
        {
            let ghost before = group_reader@;
            proof {
                lemma_header_scan(before);
                lemma_rules_scan(Reader { agents: Seq::empty(), ..header_scan(before) });
            }
            let agents = match group_reader.next_header() {
                Some(agents) => agents,
                None => {
                    break ;
                },
            };
            let found = most_specific(&agents, self.user_agent.as_slice());
            if found > best {
                best = found;
                rules = group_reader.next_rules();
            }
        }
        let rules = Compiler::filter_dupes(rules.as_slice());
        proof {
            let out = views(rules@);
            lemma_dedupes_table(out, chosen_rules(file@, agent));
            lemma_no_doubles(out);
            lemma_table_delay(out);
            crate::size::lemma_counted(chosen_rules(file@, agent));
        }
        let machine = Cylon::compile(rules);
        proof {
            machine.lemma_counted();
        }
        machine
    }

    /// The rules without doubles, in increasing order of their patterns.
    /// Where several rules carry one pattern, an `Allow` or a `Delay` takes
    /// the place of whatever stands there; a `Disallow` takes no place that
    /// is taken.
    pub fn filter_dupes(rules: &[ParsedRule]) -> (out: Vec<Rule<'_>>)
        ensures
            dedupes(views(out@), rule_views(rules@)),
    {
        let mut out: Vec<Rule> = Vec::new();
        let mut i: usize = 0;
        assert(views(out@) =~= Seq::<RuleView>::empty());
        while i < rules.len()
            invariant
                0 <= i <= rules.len(),
                dedupes(views(out@), rule_views(rules@).take(i as int)),
            decreases rules.len() - i,
        {
            let rule = borrow_rule(&rules[i]);
            assert(rule_views(rules@).take(i + 1) =~= rule_views(rules@).take(i as int).push(rule@));
            place(&mut out, rule, Ghost(rule_views(rules@).take(i as int)));
            i += 1;
        }
        assert(rule_views(rules@).take(i as int) =~= rule_views(rules@));
        out
    }
}

/// Where no group of a file names the crawler, every path is allowed.
pub proof fn lemma_no_group(file: Seq<u8>, agent: Seq<u8>, path: Seq<u8>)
    requires
        forall|i: int|
            0 <= i < headers(start(file)).len() ==> specificity(
                #[trigger] headers(start(file))[i],
                agent,
            ) == 0,
    ensures
        chosen_rules(file, agent) == Seq::<RuleView>::empty(),
        crate::nfa::allows(automaton(deduped(chosen_rules(file, agent))), path),
        table_delay(deduped(chosen_rules(file, agent))) is None,
{
    lemma_select_none(start(file), agent, 0, Seq::empty());
    let t = deduped(Seq::<RuleView>::empty());
    crate::nfa::lemma_no_patterns_allow(t, path);
    assert forall|d: u64| !crate::delay::least_in(t, d) by {
        if crate::delay::least_in(t, d) {
            let q = choose|q: Seq<u8>|
                #[trigger] t.dom().contains(q) && t[q] == Kind::Delay && crate::delay::decimal(q)
                    == Some(d);
        }
    }
}

} // verus!
