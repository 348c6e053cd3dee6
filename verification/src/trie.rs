//! The prefix tree that a list of rules spans. A node is a byte string that
//! some pattern starts with; its children are the nodes one byte longer.
//! The tree is never built: the builders walk it by scanning the sorted rules.

use crate::rule::{agree, lex_le, sorted, views, with_pattern, Kind, Rule, RuleView};
use vstd::prelude::*;

verus! {

/// Some rule of the list carries the pattern `q`.
pub open spec fn carried(rules: Seq<RuleView>, q: Seq<u8>) -> bool {
    exists|i: int| 0 <= i < rules.len() && (#[trigger] rules[i]).pattern == q
}

/// `i` is the index of the first rule that carries the pattern `q`.
pub open spec fn first_with(rules: Seq<RuleView>, q: Seq<u8>, i: int) -> bool {
    &&& 0 <= i < rules.len()
    &&& rules[i].pattern == q
    &&& forall|j: int| 0 <= j < i ==> (#[trigger] rules[j]).pattern != q
}

/// What rules without doubles say of each pattern, as the construction
/// walks them: it looks at the first rule of a pattern only. The matchers
/// take their rules through [`crate::dedupe::deduped`], in which a rule that
/// is no `Disallow` decides where several rules carry one pattern.
pub open spec fn table(rules: Seq<RuleView>) -> Map<Seq<u8>, Kind> {
    Map::new(
        |q: Seq<u8>| carried(rules, q),
        |q: Seq<u8>| rules[choose|i: int| first_with(rules, q, i)].kind,
    )
}

/// `pattern` starts with `p` followed by the byte `b`.
pub open spec fn extends(pattern: Seq<u8>, p: Seq<u8>, b: u8) -> bool {
    &&& p.len() < pattern.len()
    &&& p.is_prefix_of(pattern)
    &&& pattern[p.len() as int] == b
}

/// The node `p` has a child under the byte `b`.
pub open spec fn has_child(t: Map<Seq<u8>, Kind>, p: Seq<u8>, b: u8) -> bool {
    exists|q: Seq<u8>| t.dom().contains(q) && #[trigger] extends(q, p, b)
}

/// The bytes, from `from` upwards and in increasing order, under which the
/// node `p` has a child.
pub open spec fn child_bytes(t: Map<Seq<u8>, Kind>, p: Seq<u8>, from: int) -> Seq<u8>
    decreases 256 - from,
{
    if from < 0 || from >= 256 {
        Seq::empty()
    } else if has_child(t, p, from as u8) {
        seq![from as u8] + child_bytes(t, p, from + 1)
    } else {
        child_bytes(t, p, from + 1)
    }
}

/// The kind of the rule that ends at the node `q`, if there is one.
pub open spec fn terminal(t: Map<Seq<u8>, Kind>, q: Seq<u8>) -> Option<Kind> {
    if t.dom().contains(q) {
        Some(t[q])
    } else {
        None
    }
}

/// Rule `j` stands for the child of `p` under `b`: its pattern passes through
/// that child, and it ends there exactly if some rule does, with the kind that
/// decides for that pattern.
pub open spec fn leads(rules: Seq<RuleView>, p: Seq<u8>, b: u8, j: int) -> bool {
    &&& 0 <= j < rules.len()
    &&& extends(rules[j].pattern, p, b)
    &&& terminal(table(rules), p.push(b)) == if rules[j].pattern.len() == p.len() + 1 {
        Some(rules[j].kind)
    } else {
        None
    }
}

/// `out` names, for each child of `p` in increasing order of its byte, a rule
/// that stands for it.
pub open spec fn children_of(rules: Seq<RuleView>, p: Seq<u8>, out: Seq<usize>) -> bool {
    let bytes = child_bytes(table(rules), p, 0);
    &&& out.len() == bytes.len()
    &&& forall|k: int| 0 <= k < out.len() ==> leads(rules, p, #[trigger] bytes[k], out[k] as int)
}

/// The greatest length of a pattern in the list.
pub open spec fn max_len(rules: Seq<RuleView>) -> nat
    decreases rules.len(),
{
    if rules.len() == 0 {
        0
    } else {
        let rest = max_len(rules.drop_last());
        if rules.last().pattern.len() > rest {
            rules.last().pattern.len()
        } else {
            rest
        }
    }
}

/// No pattern is longer than `max_len`.
pub proof fn lemma_max_len(rules: Seq<RuleView>, i: int)
    requires
        0 <= i < rules.len(),
    ensures
        rules[i].pattern.len() <= max_len(rules),
    decreases rules.len(),
{
    if i < rules.len() - 1 {
        lemma_max_len(rules.drop_last(), i);
    }
}

/// The rules that carry `q` begin with the first rule that carries `q`.
pub proof fn lemma_with_pattern_first(rules: Seq<RuleView>, q: Seq<u8>)
    ensures
        carried(rules, q) <==> with_pattern(rules, q).len() > 0,
        forall|i: int|
            first_with(rules, q, i) ==> with_pattern(rules, q).len() > 0 && with_pattern(
                rules,
                q,
            )[0] == rules[i],
    decreases rules.len(),
{
    reveal(Seq::filter);
    let all = with_pattern(rules, q);
    if rules.len() == 0 {
        assert(all.len() == 0);
        assert(!carried(rules, q));
    } else {
        let rest = rules.drop_last();
        let most = with_pattern(rest, q);
        lemma_with_pattern_first(rest, q);
        assert(all == if rules.last().pattern == q {
            most.push(rules.last())
        } else {
            most
        });
        if carried(rest, q) {
            let i = choose|i: int| 0 <= i < rest.len() && (#[trigger] rest[i]).pattern == q;
            assert(rules[i].pattern == q);
        }
        if carried(rules, q) && !carried(rest, q) {
            let i = choose|i: int| 0 <= i < rules.len() && (#[trigger] rules[i]).pattern == q;
            if i < rest.len() {
                assert(rest[i].pattern == q);
            }
        }
        if rules.last().pattern == q {
            assert(rules[rules.len() - 1].pattern == q);
        }
        assert forall|i: int| first_with(rules, q, i) implies all.len() > 0 && all[0]
            == rules[i] by {
            if i < rest.len() {
                assert(rest[i].pattern == q);
                assert(first_with(rest, q, i)) by {
                    assert forall|j: int| 0 <= j < i implies (#[trigger] rest[j]).pattern != q by {
                        assert(rules[j].pattern != q);
                    }
                }
                assert(most[0] == rest[i]);
            } else {
                assert(!carried(rest, q)) by {
                    if carried(rest, q) {
                        let j = choose|j: int|
                            0 <= j < rest.len() && (#[trigger] rest[j]).pattern == q;
                        assert(rules[j].pattern == q);
                    }
                }
                assert(most.len() == 0);
            }
        }
    }
}

/// Lists in which every pattern is carried by the same rules in the same order
/// say the same of every pattern.
pub proof fn lemma_table_stable(a: Seq<RuleView>, b: Seq<RuleView>)
    requires
        forall|q: Seq<u8>| with_pattern(a, q) == with_pattern(b, q),
    ensures
        table(a) == table(b),
{
    assert forall|q: Seq<u8>| carried(a, q) == carried(b, q) by {
        lemma_with_pattern_first(a, q);
        lemma_with_pattern_first(b, q);
    }
    assert forall|q: Seq<u8>| carried(a, q) implies #[trigger] table(a)[q] == table(b)[q] by {
        lemma_with_pattern_first(a, q);
        lemma_with_pattern_first(b, q);
        lemma_first_exists(a, q);
        lemma_first_exists(b, q);
        let i = choose|i: int| first_with(a, q, i);
        let j = choose|j: int| first_with(b, q, j);
        assert(a[i] == with_pattern(a, q)[0]);
        assert(b[j] == with_pattern(b, q)[0]);
    }
    assert(table(a) =~= table(b));
}

/// A pattern that is carried has a first rule that carries it.
pub proof fn lemma_first_exists(rules: Seq<RuleView>, q: Seq<u8>)
    requires
        carried(rules, q),
    ensures
        exists|i: int| first_with(rules, q, i),
    decreases rules.len(),
{
    let rest = rules.drop_last();
    if carried(rest, q) {
        lemma_first_exists(rest, q);
        let i = choose|i: int| first_with(rest, q, i);
        assert(first_with(rules, q, i)) by {
            assert(rules[i] == rest[i]);
            assert forall|j: int| 0 <= j < i implies (#[trigger] rules[j]).pattern != q by {
                assert(rest[j].pattern != q);
            }
        }
    } else {
        let i = choose|i: int| 0 <= i < rules.len() && (#[trigger] rules[i]).pattern == q;
        if i < rest.len() {
            assert(rest[i].pattern == q);
        }
        assert(first_with(rules, q, rules.len() - 1)) by {
            assert forall|j: int| 0 <= j < rules.len() - 1 implies (#[trigger] rules[j]).pattern
                != q by {
                assert(rest[j].pattern == rules[j].pattern);
            }
        }
    }
}

/// If `i` is the first rule that carries `q`, the table gives `q` its kind.
pub proof fn lemma_table_first(rules: Seq<RuleView>, q: Seq<u8>, i: int)
    requires
        first_with(rules, q, i),
    ensures
        terminal(table(rules), q) == Some(rules[i].kind),
{
    let j = choose|j: int| first_with(rules, q, j);
    assert(carried(rules, q));
    if j < i {
        assert(rules[j].pattern != q);
    }
    if i < j {
        assert(rules[i].pattern != q);
    }
}

/// Of two patterns in order that both pass through the node `p`, the first
/// leaves `p` by a byte that is not greater.
pub proof fn lemma_order_of_children(x: Seq<u8>, y: Seq<u8>, p: Seq<u8>)
    requires
        lex_le(x, y),
        extends(x, p, x[p.len() as int]),
        extends(y, p, y[p.len() as int]),
    ensures
        x[p.len() as int] <= y[p.len() as int],
{
    let k = choose|k: int| #[trigger] agree(x, y, k) && (k == x.len() || (k < y.len() && x[k] < y[k]));
    let n = p.len() as int;
    if k < n {
        assert(x[k] == p[k]);
        assert(y[k] == p[k]);
    }
}

/// A pattern does not come before one of its own proper prefixes.
pub proof fn lemma_prefix_comes_first(x: Seq<u8>, y: Seq<u8>)
    requires
        lex_le(x, y),
        y.is_prefix_of(x),
    ensures
        x == y,
{
    let k = choose|k: int| #[trigger] agree(x, y, k) && (k == x.len() || (k < y.len() && x[k] < y[k]));
    assert(x =~= y);
}

/// A strictly increasing list of exactly the bytes under which `p` has a
/// child is the list of `p`'s child bytes.
pub proof fn lemma_child_bytes(t: Map<Seq<u8>, Kind>, p: Seq<u8>, c: Seq<u8>, from: int, m: int)
    requires
        0 <= from <= 256,
        0 <= m <= c.len(),
        forall|k: int| 0 <= k < m ==> c[k] < from,
        forall|k: int| m <= k < c.len() ==> c[k] >= from,
        forall|k: int, l: int| 0 <= k < l < c.len() ==> c[k] < c[l],
        forall|b: u8| has_child(t, p, b) <==> c.contains(b),
    ensures
        child_bytes(t, p, from) == c.skip(m),
    decreases 256 - from,
{
    if from >= 256 {
        assert(m == c.len()) by {
            if m < c.len() {
                assert(c[m] >= from);
            }
        }
        assert(c.skip(m) =~= Seq::<u8>::empty());
    } else if has_child(t, p, from as u8) {
        assert(c.contains(from as u8));
        let k = choose|k: int| 0 <= k < c.len() && c[k] == from as u8;
        assert(k == m) by {
            if k > m {
                assert(c[m] < c[k]);
            }
        }
        lemma_child_bytes(t, p, c, from + 1, m + 1);
        assert(c.skip(m) =~= seq![from as u8] + c.skip(m + 1));
    } else {
        assert forall|k: int| m <= k < c.len() implies c[k] >= from + 1 by {
            if c[k] == from {
                assert(c.contains(from as u8));
            }
        }
        lemma_child_bytes(t, p, c, from + 1, m);
    }
}

/// Whether `s` starts with `p`.
pub fn starts_with(s: &[u8], p: &[u8]) -> (r: bool)
    ensures
        r == p@.is_prefix_of(s@),
{
    if p.len() > s.len() {
        return false;
    }
    let mut i: usize = 0;
    while i < p.len()
        invariant
            p.len() <= s.len(),
            0 <= i <= p.len(),
            forall|k: int| 0 <= k < i ==> s@[k] == p@[k],
        decreases p.len() - i,
    {
        if s[i] != p[i] {
            assert(s@.subrange(0, p@.len() as int)[i as int] != p@[i as int]);
            return false;
        }
        i += 1;
    }
    assert(p@ =~= s@.subrange(0, p@.len() as int));
    true
}

/// The byte by which the child that rule `j` passes through leaves `p`.
pub open spec fn child_byte(rules: Seq<RuleView>, p: Seq<u8>, j: usize) -> u8 {
    rules[j as int].pattern[p.len() as int]
}

/// The first rule that passes through a child stands for it.
proof fn lemma_first_leads(rs: Seq<RuleView>, p: Seq<u8>, b: u8, j: int)
    requires
        sorted(rs),
        0 <= j < rs.len(),
        extends(rs[j].pattern, p, b),
        forall|i: int| 0 <= i < j ==> !extends((#[trigger] rs[i]).pattern, p, b),
    ensures
        leads(rs, p, b, j),
{
    let q = p.push(b);
    if rs[j].pattern.len() == p.len() + 1 {
        assert(rs[j].pattern =~= q);
        assert(first_with(rs, q, j)) by {
            assert forall|i: int| 0 <= i < j implies (#[trigger] rs[i]).pattern != q by {
                if rs[i].pattern == q {
                    assert(extends(rs[i].pattern, p, b));
                }
            }
        }
        lemma_table_first(rs, q, j);
    } else {
        assert(!carried(rs, q)) by {
            if carried(rs, q) {
                let m = choose|m: int| 0 <= m < rs.len() && (#[trigger] rs[m]).pattern == q;
                assert(extends(rs[m].pattern, p, b));
                assert(m > j);
                assert(lex_le(rs[j].pattern, rs[m].pattern));
                assert(q =~= rs[j].pattern.subrange(0, q.len() as int));
                lemma_prefix_comes_first(rs[j].pattern, q);
            }
        }
    }
}

/// What the scan has found among the first `j` rules: `out` names the first
/// rule of each child met so far, in strictly increasing order of the bytes.
pub open spec fn scanned(rs: Seq<RuleView>, p: Seq<u8>, out: Seq<usize>, j: int) -> bool {
    &&& forall|k: int| 0 <= k < out.len() ==> (#[trigger] out[k]) < j
    &&& forall|k: int|
        0 <= k < out.len() ==> leads(rs, p, child_byte(rs, p, #[trigger] out[k]), out[k] as int)
    &&& forall|k: int, l: int|
        0 <= k < l < out.len() ==> child_byte(rs, p, #[trigger] out[k]) < child_byte(
            rs,
            p,
            #[trigger] out[l],
        )
    &&& forall|i: int|
        0 <= i < j && p.len() < (#[trigger] rs[i]).pattern.len() && p.is_prefix_of(rs[i].pattern)
            ==> found(rs, p, out, rs[i].pattern[p.len() as int])
}

/// `out` names a rule that leaves `p` by the byte `b`.
pub open spec fn found(rs: Seq<RuleView>, p: Seq<u8>, out: Seq<usize>, b: u8) -> bool {
    exists|k: int| 0 <= k < out.len() && child_byte(rs, p, #[trigger] out[k]) == b
}

/// Rule `j` does not pass through `p`, or belongs to the child found last.
proof fn lemma_scan_skip(rs: Seq<RuleView>, p: Seq<u8>, out: Seq<usize>, j: int)
    requires
        0 <= j < rs.len(),
        scanned(rs, p, out, j),
        p.len() < rs[j].pattern.len() && p.is_prefix_of(rs[j].pattern) ==> out.len() > 0
            && child_byte(rs, p, out[out.len() - 1]) == rs[j].pattern[p.len() as int],
    ensures
        scanned(rs, p, out, j + 1),
{
    assert forall|i: int|
        0 <= i < j + 1 && p.len() < (#[trigger] rs[i]).pattern.len() && p.is_prefix_of(
            rs[i].pattern,
        ) implies found(rs, p, out, rs[i].pattern[p.len() as int]) by {
        if i == j {
            assert(child_byte(rs, p, out[out.len() - 1]) == rs[j].pattern[p.len() as int]);
        }
    }
}

/// Rule `j` passes through a child that the scan has not met yet.
proof fn lemma_scan_push(rs: Seq<RuleView>, p: Seq<u8>, out: Seq<usize>, j: int)
    requires
        sorted(rs),
        0 <= j < rs.len(),
        j <= usize::MAX,
        scanned(rs, p, out, j),
        p.len() < rs[j].pattern.len(),
        p.is_prefix_of(rs[j].pattern),
        out.len() > 0 ==> child_byte(rs, p, out[out.len() - 1]) != rs[j].pattern[p.len() as int],
    ensures
        scanned(rs, p, out.push(j as usize), j + 1),
{
    let b = rs[j].pattern[p.len() as int];
    let next = out.push(j as usize);
    if out.len() > 0 {
        let last = out[out.len() - 1];
        assert(leads(rs, p, child_byte(rs, p, last), last as int));
        lemma_order_of_children(rs[last as int].pattern, rs[j].pattern, p);
    }
    assert forall|i: int| 0 <= i < j implies !extends((#[trigger] rs[i]).pattern, p, b) by {
        if extends(rs[i].pattern, p, b) {
            assert(found(rs, p, out, b));
            let k = choose|k: int| 0 <= k < out.len() && child_byte(rs, p, #[trigger] out[k]) == b;
            if k < out.len() - 1 {
                assert(child_byte(rs, p, out[k]) < child_byte(rs, p, out[out.len() - 1]));
            }
        }
    }
    lemma_first_leads(rs, p, b, j);
    assert forall|k: int| 0 <= k < next.len() implies leads(
        rs,
        p,
        child_byte(rs, p, #[trigger] next[k]),
        next[k] as int,
    ) by {
        if k < out.len() {
            assert(next[k] == out[k]);
        }
    }
    assert forall|k: int, l: int| 0 <= k < l < next.len() implies child_byte(
        rs,
        p,
        #[trigger] next[k],
    ) < child_byte(rs, p, #[trigger] next[l]) by {
        assert(next[k] == out[k]);
        if l < out.len() {
            assert(next[l] == out[l]);
        } else if k < out.len() - 1 {
            assert(child_byte(rs, p, out[k]) < child_byte(rs, p, out[out.len() - 1]));
        }
    }
    assert forall|i: int|
        0 <= i < j + 1 && p.len() < (#[trigger] rs[i]).pattern.len() && p.is_prefix_of(
            rs[i].pattern,
        ) implies found(rs, p, next, rs[i].pattern[p.len() as int]) by {
        if i < j {
            assert(found(rs, p, out, rs[i].pattern[p.len() as int]));
            let k = choose|k: int|
                0 <= k < out.len() && child_byte(rs, p, #[trigger] out[k])
                    == rs[i].pattern[p.len() as int];
            assert(next[k] == out[k]);
        } else {
            assert(child_byte(rs, p, next[next.len() - 1]) == b);
        }
    }
}

/// When every rule has been scanned, `out` names the children of `p`.
proof fn lemma_scan_done(rs: Seq<RuleView>, p: Seq<u8>, out: Seq<usize>)
    requires
        scanned(rs, p, out, rs.len() as int),
    ensures
        children_of(rs, p, out),
{
    let t = table(rs);
    let c = Seq::new(out.len(), |k: int| child_byte(rs, p, out[k]));
    assert forall|b: u8| has_child(t, p, b) <==> c.contains(b) by {
        if has_child(t, p, b) {
            let q = choose|q: Seq<u8>| t.dom().contains(q) && #[trigger] extends(q, p, b);
            let i = choose|i: int| 0 <= i < rs.len() && (#[trigger] rs[i]).pattern == q;
            assert(found(rs, p, out, rs[i].pattern[p.len() as int]));
            let k = choose|k: int| 0 <= k < out.len() && child_byte(rs, p, #[trigger] out[k]) == b;
            assert(c[k] == b);
        }
        if c.contains(b) {
            let k = choose|k: int| 0 <= k < c.len() && c[k] == b;
            assert(leads(rs, p, child_byte(rs, p, out[k]), out[k] as int));
            let q = rs[out[k] as int].pattern;
            assert(carried(rs, q));
            assert(extends(q, p, b));
        }
    }
    assert forall|k: int, l: int| 0 <= k < l < c.len() implies c[k] < c[l] by {
        assert(child_byte(rs, p, out[k]) < child_byte(rs, p, out[l]));
    }
    lemma_child_bytes(t, p, c, 0, 0);
    assert(c.skip(0) =~= c);
    assert forall|k: int| 0 <= k < out.len() implies leads(
        rs,
        p,
        #[trigger] child_bytes(t, p, 0)[k],
        out[k] as int,
    ) by {
        assert(leads(rs, p, child_byte(rs, p, out[k]), out[k] as int));
        assert(c[k] == child_byte(rs, p, out[k]));
    }
}

/// The children of the node `parent`, in increasing order of their bytes:
/// for each, the index of the first rule whose pattern passes through it.
/// This is what the scan finds where the rules stand in order, so that the
/// rules of one child are neighbours; of rules in disorder it finds indices
/// of rules and nothing more.
pub fn children(rules: &Vec<Rule>, parent: &[u8]) -> (out: Vec<usize>)
    ensures
        forall|k: int| 0 <= k < out.len() ==> (#[trigger] out[k]) < rules.len(),
        sorted(views(rules@)) ==> children_of(views(rules@), parent@, out@),
{
    let ghost rs = views(rules@);
    let ghost p = parent@;
    let mut out: Vec<usize> = Vec::new();
    let mut j: usize = 0;
    while j < rules.len()
        invariant
            0 <= j <= rules.len(),
            rs == views(rules@),
            rs.len() == rules.len(),
            p == parent@,
            forall|k: int| 0 <= k < out.len() ==> (#[trigger] out[k]) < j,
            forall|k: int|
                0 <= k < out.len() ==> p.len() < (#[trigger] rs[out[k] as int]).pattern.len(),
            sorted(rs) ==> scanned(rs, p, out@, j as int),
        decreases rules.len() - j,
    {
        let path = rules[j].inner();
        assert(path@ == rs[j as int].pattern);
        let mut fresh = false;
        if path.len() > parent.len() && starts_with(path, parent) {
            if out.len() == 0 {
                fresh = true;
            } else {
                let last = out[out.len() - 1];
                let before = rules[last].inner();
                assert(before@ == rs[last as int].pattern);
                fresh = before[parent.len()] != path[parent.len()];
            }
        }
        if fresh {
            proof {
                if sorted(rs) {
                    lemma_scan_push(rs, p, out@, j as int);
                }
            }
            out.push(j);
        } else {
            proof {
                if sorted(rs) {
                    lemma_scan_skip(rs, p, out@, j as int);
                }
            }
        }
        j += 1;
    }
    proof {
        if sorted(rs) {
            lemma_scan_done(rs, p, out@);
        }
    }
    out
}

} // verus!
