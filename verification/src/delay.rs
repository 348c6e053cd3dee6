//! The crawl delay of a group: the least of the delays that its rules give.

use crate::rule::{views, Kind, Rule, RuleView};
use crate::trie::{first_with, lemma_table_first, table};
use vstd::prelude::*;

verus! {

/// Every byte is an ASCII digit.
pub open spec fn all_digits(s: Seq<u8>) -> bool {
    forall|i: int| 0 <= i < s.len() ==> 48 <= #[trigger] s[i] <= 57
}

/// The number that a string of ASCII digits writes in base ten.
pub open spec fn digits_value(s: Seq<u8>) -> nat
    decreases s.len(),
{
    if s.len() == 0 {
        0
    } else {
        digits_value(s.drop_last()) * 10 + (s.last() - 48) as nat
    }
}

/// The number that `s` writes: one or more ASCII digits, which a single `+`
/// may precede, and a value that fits in 64 bits. Anything else writes none.
pub open spec fn decimal(s: Seq<u8>) -> Option<u64> {
    let digits = if s.len() > 0 && s[0] == 43 {
        s.skip(1)
    } else {
        s
    };
    if digits.len() > 0 && all_digits(digits) && digits_value(digits) <= u64::MAX {
        Some(digits_value(digits) as u64)
    } else {
        None
    }
}

/// A string of digits writes at least what any of its prefixes writes.
proof fn lemma_digits_grow(s: Seq<u8>, n: int)
    requires
        0 <= n <= s.len(),
        all_digits(s),
    ensures
        digits_value(s.take(n)) <= digits_value(s),
    decreases s.len() - n,
{
    if n < s.len() {
        lemma_digits_grow(s, n + 1);
        assert(s.take(n + 1).drop_last() =~= s.take(n));
        assert(48 <= s[n] <= 57);
        assert(s.take(n + 1).last() == s[n]);
    } else {
        assert(s.take(n) =~= s);
    }
}

/// Reads a decimal number.
pub fn parse_decimal(bytes: &[u8]) -> (r: Option<u64>)
    ensures
        r == decimal(bytes@),
{
    let start: usize = if bytes.len() > 0 && bytes[0] == 43 {
        1
    } else {
        0
    };
    if start >= bytes.len() {
        assert(bytes@.skip(start as int).len() == 0);
        return None;
    }
    let ghost digits = bytes@.skip(start as int);
    assert(bytes@.skip(0) =~= bytes@);
    let mut value: u64 = 0;
    let mut i: usize = start;
    while i < bytes.len()
        invariant
            start <= i <= bytes.len(),
            digits == bytes@.skip(start as int),
            digits.len() > 0,
            digits == if bytes@.len() > 0 && bytes@[0] == 43 {
                bytes@.skip(1)
            } else {
                bytes@
            },
            all_digits(digits.take(i - start)),
            value == digits_value(digits.take(i - start)),
        decreases bytes.len() - i,
    {
        let b = bytes[i];
        assert(digits[i - start] == b);
        if b < 48 || b > 57 {
            return None;
        }
        let d: u64 = (b - 48) as u64;
        proof {
            assert(digits.take(i - start + 1).drop_last() =~= digits.take(i - start));
            assert(all_digits(digits.take(i - start + 1))) by {
                assert forall|k: int| 0 <= k < i - start + 1 implies 48 <= #[trigger] digits.take(
                    i - start + 1,
                )[k] <= 57 by {
                    if k < i - start {
                        assert(digits.take(i - start)[k] == digits[k]);
                    }
                }
            }
        }
        if value > (u64::MAX - d) / 10 {
            proof {
                if all_digits(digits) {
                    lemma_digits_grow(digits, i - start + 1);
                }
            }
            return None;
        }
        value = value * 10 + d;
        i += 1;
    }
    assert(digits.take(i - start) =~= digits);
    Some(value)
}

/// Rule `i` gives the delay `d`.
pub open spec fn gives(rules: Seq<RuleView>, i: int, d: u64) -> bool {
    &&& 0 <= i < rules.len()
    &&& rules[i].kind == Kind::Delay
    &&& decimal(rules[i].pattern) == Some(d)
}

/// `d` is the least delay that the rules give.
pub open spec fn least_delay(rules: Seq<RuleView>, d: u64) -> bool {
    &&& exists|i: int| gives(rules, i, d)
    &&& forall|i: int, e: u64| gives(rules, i, e) ==> d <= e
}

/// The least delay that the rules give; none if no `Delay` rule writes a number.
pub open spec fn min_delay(rules: Seq<RuleView>) -> Option<u64> {
    if exists|d: u64| least_delay(rules, d) {
        Some(choose|d: u64| least_delay(rules, d))
    } else {
        None
    }
}

/// The table gives the delay `d`: a `Delay` entry writes it.
pub open spec fn sets_delay(t: Map<Seq<u8>, Kind>, d: u64) -> bool {
    exists|q: Seq<u8>| #[trigger] t.dom().contains(q) && t[q] == Kind::Delay && decimal(q) == Some(d)
}

/// `d` is the least delay that the table gives.
pub open spec fn least_in(t: Map<Seq<u8>, Kind>, d: u64) -> bool {
    &&& sets_delay(t, d)
    &&& forall|e: u64| sets_delay(t, e) ==> d <= e
}

/// The least delay that a table of rules gives; none if no `Delay` entry
/// writes a number.
pub open spec fn table_delay(t: Map<Seq<u8>, Kind>) -> Option<u64> {
    if exists|d: u64| least_in(t, d) {
        Some(choose|d: u64| least_in(t, d))
    } else {
        None
    }
}

/// Rules of which no two carry one pattern give the delays of their table.
pub proof fn lemma_table_delay(rules: Seq<RuleView>)
    requires
        forall|i: int, j: int|
            0 <= i < j < rules.len() ==> (#[trigger] rules[i]).pattern != (#[trigger] rules[j]).pattern,
    ensures
        min_delay(rules) == table_delay(table(rules)),
{
    let t = table(rules);
    assert forall|d: u64| sets_delay(t, d) <==> exists|i: int| gives(rules, i, d) by {
        if sets_delay(t, d) {
            let q = choose|q: Seq<u8>|
                #[trigger] t.dom().contains(q) && t[q] == Kind::Delay && decimal(q) == Some(d);
            let i = choose|i: int| 0 <= i < rules.len() && (#[trigger] rules[i]).pattern == q;
            assert(first_with(rules, q, i)) by {
                assert forall|j: int| 0 <= j < i implies (#[trigger] rules[j]).pattern != q by {}
            }
            lemma_table_first(rules, q, i);
            assert(gives(rules, i, d));
        }
        if exists|i: int| gives(rules, i, d) {
            let i = choose|i: int| gives(rules, i, d);
            let q = rules[i].pattern;
            assert(first_with(rules, q, i)) by {
                assert forall|j: int| 0 <= j < i implies (#[trigger] rules[j]).pattern != q by {}
            }
            lemma_table_first(rules, q, i);
            assert(t.dom().contains(q));
        }
    }
    assert forall|d: u64| least_in(t, d) <==> least_delay(rules, d) by {
        if least_in(t, d) {
            assert forall|i: int, e: u64| gives(rules, i, e) implies d <= e by {
                assert(sets_delay(t, e));
            }
        }
        if least_delay(rules, d) {
            assert forall|e: u64| sets_delay(t, e) implies d <= e by {
                let i = choose|i: int| gives(rules, i, e);
            }
        }
    }
    if exists|d: u64| least_in(t, d) {
        let d = choose|d: u64| least_in(t, d);
        assert(least_delay(rules, d));
        let c = choose|c: u64| least_delay(rules, c);
        assert(least_in(t, c));
        assert(c <= d && d <= c) by {
            let i = choose|i: int| gives(rules, i, c);
            let j = choose|j: int| gives(rules, j, d);
        }
    } else {
        assert forall|d: u64| !least_delay(rules, d) by {}
    }
}

/// The crawl delay of a list of rules.
pub fn delay_of(rules: &Vec<Rule>) -> (r: Option<u64>)
    ensures
        r == min_delay(views(rules@)),
{
    let ghost rs = views(rules@);
    let mut best: Option<u64> = None;
    let mut i: usize = 0;
    while i < rules.len()
        invariant
            0 <= i <= rules.len(),
            rs == views(rules@),
            rs.len() == rules.len(),
            best is None ==> forall|j: int, e: u64| 0 <= j < i ==> !gives(rs, j, e),
            best matches Some(d) ==> (exists|j: int| 0 <= j < i && gives(rs, j, d)) && forall|
                j: int,
                e: u64,
            | 0 <= j < i && gives(rs, j, e) ==> d <= e,
        decreases rules.len() - i,
    {
        if let Rule::Delay(text) = &rules[i] {
            assert(rs[i as int].pattern == text@);
            if let Some(d) = parse_decimal(text) {
                assert(gives(rs, i as int, d));
                match best {
                    Some(b) if b <= d => {},
                    _ => {
                        best = Some(d);
                    },
                }
            }
        } else {
            assert(rs[i as int].kind != Kind::Delay);
        }
        i += 1;
    }
    proof {
        match best {
            Some(d) => {
                assert(least_delay(rs, d));
                let c = choose|c: u64| least_delay(rs, c);
                let j = choose|j: int| gives(rs, j, c);
                let k = choose|k: int| gives(rs, k, d);
                assert(c <= d && d <= c);
            },
            None => {
                assert forall|d: u64| !least_delay(rs, d) by {
                    if least_delay(rs, d) {
                        let j = choose|j: int| gives(rs, j, d);
                    }
                }
            },
        }
    }
    best
}

} // verus!
