//! Rules of a robots file and the order in which the builders walk them.

use std::cmp::Ordering;
use vstd::prelude::*;

verus! {

/// The byte `$`: at the end of a pattern it anchors the match to the end of the path.
pub const EOW_BYTE: u8 = 36;

/// The byte `*`: it matches any run of bytes, the empty one included.
pub const WILDCARD_BYTE: u8 = 42;

/// The byte `/`: the path that an empty path stands for.
pub const ROOT_BYTE: u8 = 47;

/// The last byte of `p` is `b`.
pub open spec fn ends_with(p: Seq<u8>, b: u8) -> bool {
    p.len() > 0 && p.last() == b
}

/// The path as a matcher reads it: the empty path stands for `/`.
pub open spec fn normal(path: Seq<u8>) -> Seq<u8> {
    if path.len() == 0 {
        seq![ROOT_BYTE]
    } else {
        path
    }
}

/// What a rule says of the paths its pattern matches.
#[derive(Debug, Clone, Copy, PartialEq, Eq, Structural)]
pub enum Kind {
    Allow,
    Disallow,
    Delay,
}

/// One directive of a group. `Allow` and `Disallow` carry a path pattern,
/// `Delay` the digits of a crawl delay.
#[derive(Debug, PartialEq, Eq, PartialOrd, Ord)]
pub enum Rule<'a> {
    Allow(&'a [u8]),
    Disallow(&'a [u8]),
    Delay(&'a [u8]),
}

/// The mathematical value of a rule: its kind and the bytes it carries.
pub struct RuleView {
    pub kind: Kind,
    pub pattern: Seq<u8>,
}

impl<'a> View for Rule<'a> {
    type V = RuleView;

    open spec fn view(&self) -> RuleView {
        match self {
            Rule::Allow(inner) => RuleView { kind: Kind::Allow, pattern: inner@ },
            Rule::Disallow(inner) => RuleView { kind: Kind::Disallow, pattern: inner@ },
            Rule::Delay(inner) => RuleView { kind: Kind::Delay, pattern: inner@ },
        }
    }
}

impl<'a> Rule<'a> {
    /// The bytes the rule carries.
    pub fn inner(&self) -> (bytes: &[u8])
        ensures
            bytes@ == self@.pattern,
    {
        match self {
            Rule::Allow(inner) => inner,
            Rule::Disallow(inner) => inner,
            Rule::Delay(inner) => inner,
        }
    }

    /// The kind of the rule.
    pub fn kind(&self) -> (kind: Kind)
        ensures
            kind == self@.kind,
    {
        match self {
            Rule::Allow(_) => Kind::Allow,
            Rule::Disallow(_) => Kind::Disallow,
            Rule::Delay(_) => Kind::Delay,
        }
    }
}

/// The mathematical values of a list of rules, in the same order.
pub open spec fn views(rules: Seq<Rule<'_>>) -> Seq<RuleView> {
    rules.map_values(|r: Rule| r@)
}

/// `a` and `b` hold the same bytes at every index below `k`.
pub open spec fn agree(a: Seq<u8>, b: Seq<u8>, k: int) -> bool {
    &&& 0 <= k <= a.len()
    &&& k <= b.len()
    &&& forall|i: int| 0 <= i < k ==> a[i] == b[i]
}

/// Lexicographic order on byte strings: at the first index where they differ
/// `a` holds the smaller byte, or `a` ends there.
pub open spec fn lex_le(a: Seq<u8>, b: Seq<u8>) -> bool {
    exists|k: int| #[trigger] agree(a, b, k) && (k == a.len() || (k < b.len() && a[k] < b[k]))
}

/// Two byte strings that come before each other are equal.
pub proof fn lemma_lex_antisymmetric(a: Seq<u8>, b: Seq<u8>)
    requires
        lex_le(a, b),
        lex_le(b, a),
    ensures
        a == b,
{
    let k = choose|k: int| #[trigger] agree(a, b, k) && (k == a.len() || (k < b.len() && a[k] < b[k]));
    let l = choose|l: int| #[trigger] agree(b, a, l) && (l == b.len() || (l < a.len() && b[l] < a[l]));
    assert(k == a.len() && l == b.len()) by {
        if k < a.len() {
            if l > k {
                assert(b[k] == a[k]);
            }
        } else if l < b.len() {
            assert(a[l] == b[l]);
        }
    }
    assert(a =~= b);
}

/// The order on byte strings is transitive.
pub proof fn lemma_lex_transitive(a: Seq<u8>, b: Seq<u8>, c: Seq<u8>)
    requires
        lex_le(a, b),
        lex_le(b, c),
    ensures
        lex_le(a, c),
{
    let k = choose|k: int| #[trigger] agree(a, b, k) && (k == a.len() || (k < b.len() && a[k] < b[k]));
    let l = choose|l: int| #[trigger] agree(b, c, l) && (l == b.len() || (l < c.len() && b[l] < c[l]));
    if k <= l {
        assert(agree(a, c, k));
        if k < a.len() && k < l {
            assert(b[k] == c[k]);
        }
    } else {
        assert(agree(a, c, l));
        assert(a[l] == b[l]);
    }
}

/// The rules stand in lexicographic order of their patterns.
pub open spec fn sorted(rules: Seq<RuleView>) -> bool {
    forall|i: int, j: int|
        0 <= i < j < rules.len() ==> lex_le(#[trigger] rules[i].pattern, #[trigger] rules[j].pattern)
}

/// The rules that carry the pattern `q`, in the order of the list.
pub open spec fn with_pattern(rules: Seq<RuleView>, q: Seq<u8>) -> Seq<RuleView> {
    rules.filter(|r: RuleView| r.pattern == q)
}

/// How two byte strings compare.
#[derive(Debug, Clone, Copy, PartialEq, Eq, Structural)]
pub enum Order {
    Less,
    Equal,
    Greater,
}

/// Compares two byte strings lexicographically.
pub fn compare_bytes(a: &[u8], b: &[u8]) -> (r: Order)
    ensures
        r == Order::Equal <==> a@ == b@,
        r == Order::Less <==> lex_le(a@, b@) && a@ != b@,
        r == Order::Greater <==> lex_le(b@, a@) && a@ != b@,
{
    let mut i: usize = 0;
    while i < a.len() && i < b.len()
        invariant
            agree(a@, b@, i as int),
        decreases a.len() - i,
    {
        if a[i] < b[i] {
            proof {
                assert(agree(a@, b@, i as int));
                if lex_le(b@, a@) {
                    lemma_lex_antisymmetric(a@, b@);
                }
            }
            return Order::Less;
        }
        if a[i] > b[i] {
            proof {
                assert(agree(b@, a@, i as int));
                if lex_le(a@, b@) {
                    lemma_lex_antisymmetric(a@, b@);
                }
            }
            return Order::Greater;
        }
        i += 1;
    }
    if a.len() == b.len() {
        proof {
            assert(a@ =~= b@);
        }
        Order::Equal
    } else if a.len() < b.len() {
        proof {
            assert(agree(a@, b@, i as int));
            if lex_le(b@, a@) {
                lemma_lex_antisymmetric(a@, b@);
            }
        }
        Order::Less
    } else {
        proof {
            assert(agree(b@, a@, i as int));
            if lex_le(a@, b@) {
                lemma_lex_antisymmetric(a@, b@);
            }
        }
        Order::Greater
    }
}

/// The place of `a` relative to `b` in the order the builders walk the rules in:
/// by pattern, whatever the kind.
pub fn rule_order(a: &Rule, b: &Rule) -> (r: Ordering)
    ensures
        r == Ordering::Equal <==> a@.pattern == b@.pattern,
        r == Ordering::Less <==> lex_le(a@.pattern, b@.pattern) && a@.pattern != b@.pattern,
        r == Ordering::Greater <==> lex_le(b@.pattern, a@.pattern) && a@.pattern != b@.pattern,
{
    match compare_bytes(a.inner(), b.inner()) {
        Order::Less => Ordering::Less,
        Order::Equal => Ordering::Equal,
        Order::Greater => Ordering::Greater,
    }
}

/// `slice::sort_by` of std with [`rule_order`]: a stable sort. Afterwards the
/// rules stand in lexicographic order of their patterns, and the rules that
/// carry any one pattern are the same as before, in the same order.
#[verifier::external_body]
pub(crate) fn sort_rules(rules: &mut Vec<Rule>)
    ensures
        final(rules)@.len() == old(rules)@.len(),
        sorted(views(final(rules)@)),
        forall|q: Seq<u8>|
            with_pattern(views(final(rules)@), q) == with_pattern(views(old(rules)@), q),
{
    rules.sort_by(|a, b| rule_order(a, b));
}

} // verus!
