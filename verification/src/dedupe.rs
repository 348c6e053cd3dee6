//! Rules without doubles. Where several rules carry one pattern, a rule
//! that is no `Disallow` decides, whichever comes first: `Allow` beats
//! `Disallow`.

use crate::rule::{
    agree, compare_bytes, lemma_lex_antisymmetric, lemma_lex_transitive, lex_le, views, Kind,
    Order, Rule, RuleView,
};
use crate::trie::{carried, first_with, lemma_table_first, table};
use vstd::prelude::*;

verus! {

/// What the rules say of the pattern `q` once doubles are gone: the last
/// `Allow` or `Delay` that carries `q` decides; `Disallow` decides only
/// where nothing else carries `q`.
pub open spec fn decided(rules: Seq<RuleView>, q: Seq<u8>) -> Option<Kind>
    decreases rules.len(),
{
    if rules.len() == 0 {
        None
    } else {
        let before = decided(rules.drop_last(), q);
        if rules.last().pattern != q {
            before
        } else if rules.last().kind != Kind::Disallow {
            Some(rules.last().kind)
        } else if before is Some {
            before
        } else {
            Some(Kind::Disallow)
        }
    }
}

/// The rules without doubles, as a table from patterns to kinds.
pub open spec fn deduped(rules: Seq<RuleView>) -> Map<Seq<u8>, Kind> {
    Map::new(|q: Seq<u8>| decided(rules, q) is Some, |q: Seq<u8>| decided(rules, q)->0)
}

/// The rules stand in strictly increasing order of their patterns.
pub open spec fn strictly_sorted(rules: Seq<RuleView>) -> bool {
    forall|i: int, j: int|
        0 <= i < j < rules.len() ==> lex_le(#[trigger] rules[i].pattern, #[trigger] rules[j].pattern)
            && rules[i].pattern != rules[j].pattern
}

/// `out` holds `rules` without doubles: one rule for each pattern, of the
/// kind that decides, in increasing order of the patterns.
pub open spec fn dedupes(out: Seq<RuleView>, rules: Seq<RuleView>) -> bool {
    &&& strictly_sorted(out)
    &&& forall|i: int| 0 <= i < out.len() ==> decided(rules, (#[trigger] out[i]).pattern) == Some(out[i].kind)
    &&& forall|q: Seq<u8>| decided(rules, q) is Some ==> carried(out, q)
}

/// `Disallow` is decided of a pattern only where every rule that carries the
/// pattern is a `Disallow`: an `Allow` beats a `Disallow` of the same
/// pattern, whichever of them comes first.
pub proof fn lemma_allow_beats_disallow(rules: Seq<RuleView>, q: Seq<u8>)
    ensures
        decided(rules, q) is Some <==> carried(rules, q),
        decided(rules, q) == Some(Kind::Disallow) <==> carried(rules, q) && forall|i: int|
            0 <= i < rules.len() && (#[trigger] rules[i]).pattern == q ==> rules[i].kind
                == Kind::Disallow,
    decreases rules.len(),
{
    if rules.len() > 0 {
        let most = rules.drop_last();
        lemma_allow_beats_disallow(most, q);
        if carried(most, q) {
            let i = choose|i: int| 0 <= i < most.len() && (#[trigger] most[i]).pattern == q;
            assert(rules[i].pattern == q);
        }
        if carried(rules, q) && !carried(most, q) {
            let i = choose|i: int| 0 <= i < rules.len() && (#[trigger] rules[i]).pattern == q;
            if i < most.len() {
                assert(most[i].pattern == q);
            }
        }
        if rules.last().pattern == q {
            assert(rules[rules.len() - 1].pattern == q);
        }
        let only = forall|i: int|
            0 <= i < rules.len() && (#[trigger] rules[i]).pattern == q ==> rules[i].kind
                == Kind::Disallow;
        let only_most = forall|i: int|
            0 <= i < most.len() && (#[trigger] most[i]).pattern == q ==> most[i].kind
                == Kind::Disallow;
        if only {
            assert forall|i: int| 0 <= i < most.len() && (#[trigger] most[i]).pattern
                == q implies most[i].kind == Kind::Disallow by {
                assert(rules[i] == most[i]);
            }
        }
        if only_most && (rules.last().pattern != q || rules.last().kind == Kind::Disallow) {
            assert forall|i: int| 0 <= i < rules.len() && (#[trigger] rules[i]).pattern
                == q implies rules[i].kind == Kind::Disallow by {
                if i < most.len() {
                    assert(rules[i] == most[i]);
                }
            }
        }
        if !only_most {
            let i = choose|i: int|
                0 <= i < most.len() && (#[trigger] most[i]).pattern == q && most[i].kind
                    != Kind::Disallow;
            assert(rules[i] == most[i]);
        }
    }
}

/// The table of the rules without doubles holds the patterns that the rules
/// carry, and says of each what one of its rules says.
pub proof fn lemma_deduped_dom(rules: Seq<RuleView>)
    ensures
        forall|q: Seq<u8>| #[trigger] deduped(rules).dom().contains(q) <==> carried(rules, q),
        forall|q: Seq<u8>| #[trigger]
            deduped(rules).dom().contains(q) ==> exists|i: int|
                0 <= i < rules.len() && (#[trigger] rules[i]).pattern == q && rules[i].kind
                    == deduped(rules)[q],
{
    assert forall|q: Seq<u8>| #[trigger] deduped(rules).dom().contains(q) <==> carried(
        rules,
        q,
    ) by {
        lemma_allow_beats_disallow(rules, q);
    }
    assert forall|q: Seq<u8>| #[trigger] deduped(rules).dom().contains(q) implies exists|i: int|
        0 <= i < rules.len() && (#[trigger] rules[i]).pattern == q && rules[i].kind == deduped(
            rules,
        )[q] by {
        lemma_decided_from(rules, q);
    }
}

/// What is decided of a pattern is what one of its rules says.
pub proof fn lemma_decided_from(rules: Seq<RuleView>, q: Seq<u8>)
    requires
        decided(rules, q) is Some,
    ensures
        exists|i: int|
            0 <= i < rules.len() && (#[trigger] rules[i]).pattern == q && rules[i].kind == decided(
                rules,
                q,
            )->0,
    decreases rules.len(),
{
    let last = rules.len() - 1;
    let most = rules.drop_last();
    if rules[last].pattern == q && (rules[last].kind != Kind::Disallow || decided(most, q) is None) {
        assert(rules[last].kind == decided(rules, q)->0);
    } else {
        lemma_decided_from(most, q);
        let i = choose|i: int|
            0 <= i < most.len() && (#[trigger] most[i]).pattern == q && most[i].kind == decided(
                most,
                q,
            )->0;
        assert(rules[i] == most[i]);
    }
}

/// One more rule, of which `decided` says nothing yet or something else,
/// changes what is decided of its own pattern only.
proof fn lemma_decided_push(rules: Seq<RuleView>, r: RuleView, q: Seq<u8>)
    ensures
        q != r.pattern ==> decided(rules.push(r), q) == decided(rules, q),
        q == r.pattern && r.kind != Kind::Disallow ==> decided(rules.push(r), q) == Some(r.kind),
        q == r.pattern && r.kind == Kind::Disallow && decided(rules, q) is Some ==> decided(
            rules.push(r),
            q,
        ) == decided(rules, q),
        q == r.pattern && r.kind == Kind::Disallow && decided(rules, q) is None ==> decided(
            rules.push(r),
            q,
        ) == Some(Kind::Disallow),
{
    assert(rules.push(r).drop_last() =~= rules);
}

/// Rules without doubles say of each pattern what was decided of it.
pub proof fn lemma_dedupes_table(out: Seq<RuleView>, rules: Seq<RuleView>)
    requires
        dedupes(out, rules),
    ensures
        table(out) == deduped(rules),
{
    assert forall|q: Seq<u8>| carried(out, q) <==> decided(rules, q) is Some by {
        if carried(out, q) {
            let i = choose|i: int| 0 <= i < out.len() && (#[trigger] out[i]).pattern == q;
        }
    }
    assert forall|q: Seq<u8>| carried(out, q) implies #[trigger] table(out)[q] == decided(
        rules,
        q,
    )->0 by {
        let i = choose|i: int| 0 <= i < out.len() && (#[trigger] out[i]).pattern == q;
        assert(first_with(out, q, i)) by {
            assert forall|j: int| 0 <= j < i implies (#[trigger] out[j]).pattern != q by {}
        }
        lemma_table_first(out, q, i);
    }
    assert(table(out) =~= deduped(rules));
}

/// Rules that stand in strictly increasing order of their patterns have no
/// doubles: each decides for its own pattern.
pub proof fn lemma_no_doubles(out: Seq<RuleView>)
    requires
        strictly_sorted(out),
    ensures
        deduped(out) == table(out),
        dedupes(out, out),
{
    assert forall|i: int| 0 <= i < out.len() implies decided(out, (#[trigger] out[i]).pattern)
        == Some(out[i].kind) by {
        let q = out[i].pattern;
        lemma_allow_beats_disallow(out, q);
        lemma_decided_from(out, q);
        let j = choose|j: int|
            0 <= j < out.len() && (#[trigger] out[j]).pattern == q && out[j].kind == decided(
                out,
                q,
            )->0;
        if j < i {
            assert(out[j].pattern != out[i].pattern);
        } else if i < j {
            assert(out[i].pattern != out[j].pattern);
        }
    }
    assert forall|q: Seq<u8>| decided(out, q) is Some implies carried(out, q) by {
        lemma_allow_beats_disallow(out, q);
    }
    lemma_dedupes_table(out, out);
}

/// Rules that all carry one pattern, whatever the pattern holds, are
/// compiled as the one rule that decides among them: as an `Allow`, where
/// an `Allow` is the last among them that is no `Disallow`, in whatever
/// order they stand.
pub proof fn lemma_one_pattern(rules: Seq<RuleView>, q: Seq<u8>)
    requires
        rules.len() > 0,
        forall|i: int| 0 <= i < rules.len() ==> (#[trigger] rules[i]).pattern == q,
    ensures
        decided(rules, q) is Some,
        decided(rules, q) == Some(Kind::Disallow) <==> forall|i: int|
            0 <= i < rules.len() ==> (#[trigger] rules[i]).kind == Kind::Disallow,
        deduped(rules) == deduped(seq![RuleView { kind: decided(rules, q)->0, pattern: q }]),
        crate::nfa::compiled(rules) == crate::nfa::compiled(
            seq![RuleView { kind: decided(rules, q)->0, pattern: q }],
        ),
        crate::dfa::compiled(rules) == crate::dfa::compiled(
            seq![RuleView { kind: decided(rules, q)->0, pattern: q }],
        ),
{
    lemma_allow_beats_disallow(rules, q);
    assert(rules[0].pattern == q);
    assert(carried(rules, q));
    let kind = decided(rules, q)->0;
    let one = seq![RuleView { kind, pattern: q }];
    assert(one.drop_last() =~= Seq::<RuleView>::empty());
    assert forall|x: Seq<u8>| decided(one, x) == decided(rules, x) by {
        assert(decided(one.drop_last(), x) is None);
        if x != q {
            lemma_allow_beats_disallow(rules, x);
            if carried(rules, x) {
                let i = choose|i: int| 0 <= i < rules.len() && (#[trigger] rules[i]).pattern == x;
            }
        }
    }
    assert(deduped(rules) =~= deduped(one));
}

/// The same rule, over the same bytes.
pub fn copy_rule<'a>(rule: &Rule<'a>) -> (copy: Rule<'a>)
    ensures
        copy@ == rule@,
{
    match rule {
        Rule::Allow(pattern) => Rule::Allow(pattern),
        Rule::Disallow(pattern) => Rule::Disallow(pattern),
        Rule::Delay(value) => Rule::Delay(value),
    }
}

/// Gives one more rule its place among rules without doubles: in the order
/// of the patterns where its pattern is new; in the place of the rule of
/// its pattern where it is no `Disallow`; nowhere else.
pub(crate) fn place<'a>(out: &mut Vec<Rule<'a>>, rule: Rule<'a>, Ghost(seen): Ghost<Seq<RuleView>>)
    requires
        dedupes(views(old(out)@), seen),
    ensures
        dedupes(views(final(out)@), seen.push(rule@)),
{
    let ghost r = rule@;
    let ghost q = r.pattern;
    proof {
        assert forall|x: Seq<u8>| true implies decided(seen.push(r), x) == (if x != q {
            decided(seen, x)
        } else if r.kind != Kind::Disallow {
            Some(r.kind)
        } else if decided(seen, x) is Some {
            decided(seen, x)
        } else {
            Some(Kind::Disallow)
        }) by {
            lemma_decided_push(seen, r, x);
        }
    }
    let ghost old_out = views(out@);
    let mut k: usize = 0;
    let mut found = false;
    while k < out.len()
        invariant_except_break
            !found,
        invariant
            0 <= k <= out.len(),
            old_out == views(out@),
            q == rule@.pattern,
            forall|j: int|
                0 <= j < k ==> lex_le((#[trigger] old_out[j]).pattern, q)
                    && old_out[j].pattern != q,
        ensures
            0 <= k <= out.len(),
            old_out == views(out@),
            forall|j: int|
                0 <= j < k ==> lex_le((#[trigger] old_out[j]).pattern, q)
                    && old_out[j].pattern != q,
            found ==> k < out.len() && old_out[k as int].pattern == q,
            !found && k < out.len() ==> lex_le(q, old_out[k as int].pattern)
                && old_out[k as int].pattern != q,
        decreases out.len() - k,
    {
        assert(out@[k as int]@ == old_out[k as int]);
        match compare_bytes(out[k].inner(), rule.inner()) {
            Order::Less => {
                k += 1;
            },
            Order::Equal => {
                found = true;
                break ;
            },
            Order::Greater => {
                break ;
            },
        }
    }
    proof {
        // No rule behind the place carries the pattern either.
        assert forall|j: int| k < j < old_out.len() implies lex_le(
            q,
            (#[trigger] old_out[j]).pattern,
        ) && old_out[j].pattern != q by {
            if found {
                assert(agree(q, q, q.len() as int));
            }
            lemma_lex_transitive(q, old_out[k as int].pattern, old_out[j].pattern);
            if old_out[j].pattern == q {
                lemma_lex_antisymmetric(q, old_out[k as int].pattern);
            }
        }
    }
    if found {
        if !matches!(rule, Rule::Disallow(_)) {
            out[k] = rule;
            proof {
                assert(views(out@) =~= old_out.update(k as int, r));
                let new_out = views(out@);
                assert forall|a: int, b: int| 0 <= a < b < new_out.len() implies lex_le(
                    #[trigger] new_out[a].pattern,
                    #[trigger] new_out[b].pattern,
                ) && new_out[a].pattern != new_out[b].pattern by {
                    assert(new_out[a].pattern == old_out[a].pattern);
                    assert(new_out[b].pattern == old_out[b].pattern);
                }
                assert forall|x: Seq<u8>| decided(seen.push(r), x) is Some implies carried(
                    new_out,
                    x,
                ) by {
                    if x == q {
                        assert(new_out[k as int].pattern == x);
                    } else {
                        assert(decided(seen, x) is Some);
                        assert(carried(old_out, x));
                        let j = choose|j: int|
                            0 <= j < old_out.len() && (#[trigger] old_out[j]).pattern == x;
                        assert(new_out[j].pattern == x);
                    }
                }
                assert forall|j: int| 0 <= j < new_out.len() implies decided(
                    seen.push(r),
                    (#[trigger] new_out[j]).pattern,
                ) == Some(new_out[j].kind) by {
                    if j != k {
                        assert(new_out[j] == old_out[j]);
                    }
                }
            }
        } else {
            proof {
                assert forall|x: Seq<u8>| decided(seen.push(r), x) is Some implies carried(
                    old_out,
                    x,
                ) by {
                    if x == q {
                        assert(old_out[k as int].pattern == x);
                    } else {
                        assert(decided(seen, x) is Some);
                    }
                }
            }
        }
    } else {
        proof {
            assert(decided(seen, q) is None) by {
                if decided(seen, q) is Some {
                    assert(carried(old_out, q));
                    let j = choose|j: int|
                        0 <= j < old_out.len() && (#[trigger] old_out[j]).pattern == q;
                }
            }
        }
        out.insert(k, rule);
        proof {
            assert(views(out@) =~= old_out.insert(k as int, r));
            let new_out = views(out@);
            assert forall|a: int, b: int| 0 <= a < b < new_out.len() implies lex_le(
                #[trigger] new_out[a].pattern,
                #[trigger] new_out[b].pattern,
            ) && new_out[a].pattern != new_out[b].pattern by {
                if b < k {
                    assert(new_out[a] == old_out[a] && new_out[b] == old_out[b]);
                } else if b == k {
                    assert(new_out[a] == old_out[a]);
                } else if a < k {
                    assert(new_out[a] == old_out[a] && new_out[b] == old_out[b - 1]);
                } else if a == k {
                    assert(new_out[b] == old_out[b - 1]);
                } else {
                    assert(new_out[a] == old_out[a - 1] && new_out[b] == old_out[b - 1]);
                }
            }
            assert forall|x: Seq<u8>| decided(seen.push(r), x) is Some implies carried(
                new_out,
                x,
            ) by {
                if x == q {
                    assert(new_out[k as int].pattern == x);
                } else {
                    assert(decided(seen, x) is Some);
                    assert(carried(old_out, x));
                    let j = choose|j: int|
                        0 <= j < old_out.len() && (#[trigger] old_out[j]).pattern == x;
                    if j < k {
                        assert(new_out[j].pattern == x);
                    } else {
                        assert(new_out[j + 1].pattern == x);
                    }
                }
            }
            assert forall|j: int| 0 <= j < new_out.len() implies decided(
                seen.push(r),
                (#[trigger] new_out[j]).pattern,
            ) == Some(new_out[j].kind) by {
                if j < k {
                    assert(new_out[j] == old_out[j]);
                } else if j > k {
                    assert(new_out[j] == old_out[j - 1]);
                }
            }
        }
    }
}

/// The rules without doubles, in increasing order of their patterns.
pub fn dedupe<'a>(rules: &Vec<Rule<'a>>) -> (out: Vec<Rule<'a>>)
    ensures
        dedupes(views(out@), views(rules@)),
{
    let mut out: Vec<Rule> = Vec::new();
    let mut i: usize = 0;
    assert(views(out@) =~= Seq::<RuleView>::empty());
    while i < rules.len()
        invariant
            0 <= i <= rules.len(),
            dedupes(views(out@), views(rules@).take(i as int)),
        decreases rules.len() - i,
    {
        let rule = copy_rule(&rules[i]);
        assert(views(rules@).take(i + 1) =~= views(rules@).take(i as int).push(rule@));
        place(&mut out, rule, Ghost(views(rules@).take(i as int)));
        i += 1;
    }
    assert(views(rules@).take(i as int) =~= views(rules@));
    out
}

} // verus!
