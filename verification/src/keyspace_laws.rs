//! What holds of the order of keys, of their prefixes and of ranges.

use crate::keyspace::{
    after_slashes, dotted, in_range, in_registry, inverted, lemma_split_point, one_prefix,
    prefix_of, registry, selected, slashes, split_point, suffix_of, upper_bound, whole_prefix,
    BoundView,
};
use crate::order::{
    lex_asymmetric, lex_irreflexive, lex_lt, lex_total, lex_transitive, parts_at,
};
use vstd::prelude::*;

verus! {

// ------------------------------------------------------------------ order

/// The first byte in which two keys differ decides which comes before the other, and a
/// key comes before those that go on from it.
pub proof fn law_first_difference_decides(p: Seq<u8>, a: Seq<u8>, b: Seq<u8>, x: u8, y: u8)
    requires
        x < y,
    ensures
        lex_lt(p + seq![x] + a, p + seq![y] + b),
        !lex_lt(p + seq![y] + b, p + seq![x] + a),
        lex_lt(p, p + seq![x] + a),
        !lex_lt(p + seq![x] + a, p),
{
    let l = p + seq![x] + a;
    let r = p + seq![y] + b;
    let n = p.len() as int;
    assert forall|j: int| 0 <= j < n implies l[j] == r[j] by {
        assert(l[j] == p[j] && r[j] == p[j]);
    }
    assert(parts_at(l, r, n));
    lex_asymmetric(l, r);
    assert(parts_at(p, l, n));
    lex_asymmetric(p, l);
}

/// Between a key and the key with a zero byte behind it there is no other key.
pub proof fn law_next_key(key: Seq<u8>, x: Seq<u8>)
    ensures
        in_range(x, key, key.push(0)) == (x == key),
{
    let next = key.push(0);
    let n = key.len() as int;
    if x == key {
        assert(parts_at(key, next, n));
    } else if in_range(x, key, next) {
        let i = choose|i: int| #[trigger] parts_at(x, next, i);
        let k = choose|k: int| #[trigger] parts_at(key, x, k);
        if i < n {
            assert(x.len() == i || x[i] < key[i]) by {
                assert(next[i] == key[i]);
            }
            assert forall|j: int| 0 <= j < i implies x[j] == key[j] by {
                assert(next[j] == key[j]);
            }
            assert(parts_at(x, key, i));
            lex_asymmetric(x, key);
        } else {
            assert(x.len() == n);
            assert forall|j: int| 0 <= j < n implies x[j] == key[j] by {
                assert(next[j] == key[j]);
            }
            assert(x =~= key);
        }
    }
}

/// The range from a key to the one whose last byte is the next takes in the keys that
/// start with it, and no others.
pub proof fn law_range_of_a_start(p: Seq<u8>, b: u8, x: Seq<u8>)
    requires
        b < 255,
    ensures
        in_range(x, p.push(b), p.push((b + 1) as u8)) == p.push(b).is_prefix_of(x),
{
    let lo = p.push(b);
    let hi = p.push((b + 1) as u8);
    let n = p.len() as int;
    if lo.is_prefix_of(x) {
        assert(lo =~= x.subrange(0, n + 1));
        assert forall|j: int| 0 <= j < n + 1 implies x[j] == lo[j] by {
            assert(x.subrange(0, n + 1)[j] == x[j]);
        }
        assert forall|j: int| 0 <= j < n implies x[j] == hi[j] by {
            assert(lo[j] == p[j] && hi[j] == p[j]);
        }
        assert(parts_at(x, hi, n));
        if x.len() == n + 1 {
            assert(x =~= lo);
        } else {
            assert(parts_at(lo, x, n + 1));
        }
    } else if in_range(x, lo, hi) {
        lex_irreflexive(lo);
        let i = choose|i: int| #[trigger] parts_at(x, hi, i);
        if i < n {
            assert(hi[i] == lo[i]);
            assert forall|j: int| 0 <= j < i implies x[j] == lo[j] by {
                assert(hi[j] == p[j] && lo[j] == p[j]);
            }
            assert(parts_at(x, lo, i));
            if x != lo {
                lex_asymmetric(x, lo);
            }
        } else {
            assert forall|j: int| 0 <= j < n implies x[j] == lo[j] by {
                assert(hi[j] == p[j] && lo[j] == p[j]);
            }
            if x.len() == n || x[n] < b {
                assert(parts_at(x, lo, n));
                lex_asymmetric(x, lo);
            } else {
                assert(x[n] == b);
                assert(x.subrange(0, n + 1) =~= lo);
            }
        }
    }
}

/// What a range takes in: without an end the one key, and else the keys that are neither
/// before its start nor at its end or behind it. No range to its own start has a key.
pub proof fn law_range(x: Seq<u8>, start: Seq<u8>, end: Seq<u8>)
    ensures
        end.len() == 0 ==> in_range(x, start, end) == (x == start),
        end.len() > 0 ==> in_range(x, start, end) == (!lex_lt(x, start) && lex_lt(x, end)),
        end.len() > 0 && !lex_lt(start, end) ==> !in_range(x, start, end),
{
    lex_total(x, start);
    if lex_lt(x, start) {
        lex_asymmetric(x, start);
    }
    if end.len() > 0 && !lex_lt(start, end) && in_range(x, start, end) {
        if x != start {
            lex_transitive(start, x, end);
        }
    }
}

// --------------------------------------------------------------- prefixes

/// No slash stands in a piece of a key.
pub open spec fn unslashed(s: Seq<u8>) -> bool {
    forall|i: int| 0 <= i < s.len() ==> #[trigger] s[i] != 47u8
}

proof fn lemma_over_segment(key: Seq<u8>, from: int, to: int, k: nat)
    requires
        0 <= from <= to <= key.len(),
        forall|i: int| from <= i < to ==> #[trigger] key[i] != 47u8,
        k > 0,
    ensures
        slashes(key, from) == slashes(key, to),
        after_slashes(key, from, k) == after_slashes(key, to, k),
    decreases to - from,
{
    if from < to {
        assert(key[from] != 47u8);
        lemma_over_segment(key, from + 1, to, k);
    }
}

proof fn lemma_dotted(key: Seq<u8>, from: int, to: int)
    requires
        0 <= from <= to <= key.len(),
        forall|i: int| from <= i < to ==> #[trigger] key[i] != 47u8,
        to == key.len() || key[to] == 47u8,
    ensures
        dotted(key, from) == exists|i: int| from <= i < to && #[trigger] key[i] == 46u8,
    decreases to - from,
{
    if from < to {
        assert(key[from] != 47u8);
        lemma_dotted(key, from + 1, to);
    }
}

proof fn lemma_in_registry(rest: Seq<u8>)
    ensures
        in_registry(registry() + rest),
        registry().len() == 10,
{
    let key = registry() + rest;
    assert(key.subrange(0, 10) =~= registry());
}

/// A key that does not start with the word of the registry between slashes has the empty
/// prefix.
pub proof fn law_prefix_outside_registry(key: Seq<u8>)
    requires
        !seq![47u8, 114u8, 101u8, 103u8, 105u8, 115u8, 116u8, 114u8, 121u8, 47u8].is_prefix_of(key),
    ensures
        prefix_of(key).len() == 0,
        suffix_of(key) == key,
{
    assert(suffix_of(key) =~= key);
}

/// In the registry, a segment without a period makes the prefix, up to its slash.
pub proof fn law_prefix_of_core_group(a: Seq<u8>, rest: Seq<u8>)
    requires
        unslashed(a),
        !a.contains(46u8),
    ensures
        ({
            let word = seq![47u8, 114u8, 101u8, 103u8, 105u8, 115u8, 116u8, 114u8, 121u8, 47u8];
            let key = word + a + seq![47u8] + rest;
            &&& prefix_of(key) == word + a + seq![47u8]
            &&& suffix_of(key) == rest
        }),
{
    let word = registry();
    let key = word + a + seq![47u8] + rest;
    let n = (10 + a.len()) as int;
    lemma_in_registry(a + seq![47u8] + rest);
    assert(key =~= word + (a + seq![47u8] + rest));
    assert forall|i: int| 10 <= i < n implies #[trigger] key[i] != 47u8 by {
        assert(key[i] == a[i - 10]);
    }
    assert forall|i: int| 10 <= i < n implies #[trigger] key[i] != 46u8 by {
        assert(key[i] == a[i - 10]);
        assert(a.contains(a[i - 10]));
    }
    assert(key[n] == 47u8);
    lemma_dotted(key, 10, n);
    lemma_over_segment(key, 10, n, 1);
    assert(slashes(key, n) >= 1);
    assert(after_slashes(key, n + 1, 0) == n + 1);
    assert(split_point(key) == n + 1);
    assert(prefix_of(key) =~= word + a + seq![47u8]);
    assert(suffix_of(key) =~= rest);
}

/// In the registry, a segment with a period is an API group, and makes the prefix
/// together with the one behind it.
pub proof fn law_prefix_of_api_group(a: Seq<u8>, b: Seq<u8>, rest: Seq<u8>)
    requires
        unslashed(a),
        unslashed(b),
        a.contains(46u8),
    ensures
        ({
            let word = seq![47u8, 114u8, 101u8, 103u8, 105u8, 115u8, 116u8, 114u8, 121u8, 47u8];
            let key = word + a + seq![47u8] + b + seq![47u8] + rest;
            let short = word + a + seq![47u8] + b;
            &&& prefix_of(key) == word + a + seq![47u8] + b + seq![47u8]
            &&& suffix_of(key) == rest
            &&& prefix_of(short) == word + a + seq![47u8]
            &&& suffix_of(short) == b
        }),
{
    let word = registry();
    let key = word + a + seq![47u8] + b + seq![47u8] + rest;
    let short = word + a + seq![47u8] + b;
    let n = (10 + a.len()) as int;
    let m = (n + 1 + b.len()) as int;
    lemma_in_registry(a + seq![47u8] + b + seq![47u8] + rest);
    lemma_in_registry(a + seq![47u8] + b);
    assert(key =~= word + (a + seq![47u8] + b + seq![47u8] + rest));
    assert(short =~= word + (a + seq![47u8] + b));
    let w = choose|w: int| 0 <= w < a.len() && a[w] == 46u8;
    assert(key[10 + w] == 46u8 && short[10 + w] == 46u8);
    assert forall|i: int| 10 <= i < n implies #[trigger] key[i] != 47u8 by {
        assert(key[i] == a[i - 10]);
    }
    assert forall|i: int| 10 <= i < n implies #[trigger] short[i] != 47u8 by {
        assert(short[i] == a[i - 10]);
    }
    assert forall|i: int| n < i < m implies #[trigger] key[i] != 47u8 by {
        assert(key[i] == b[i - n - 1]);
    }
    assert forall|i: int| n < i < m implies #[trigger] short[i] != 47u8 by {
        assert(short[i] == b[i - n - 1]);
    }
    assert(key[n] == 47u8 && short[n] == 47u8 && key[m] == 47u8);
    lemma_dotted(key, 10, n);
    lemma_dotted(short, 10, n);
    lemma_over_segment(key, 10, n, 2);
    lemma_over_segment(key, n + 1, m, 1);
    lemma_over_segment(short, 10, n, 1);
    lemma_over_segment(short, n + 1, m, 1);
    assert(slashes(key, n) == 1 + slashes(key, n + 1));
    assert(slashes(key, m) >= 1);
    assert(slashes(short, n) == 1 + slashes(short, n + 1));
    assert(slashes(short, m) == 0);
    assert(after_slashes(key, n, 2) == after_slashes(key, n + 1, 1));
    assert(after_slashes(key, m, 1) == after_slashes(key, m + 1, 0));
    assert(after_slashes(key, m + 1, 0) == m + 1);
    assert(after_slashes(short, n, 1) == after_slashes(short, n + 1, 0));
    assert(after_slashes(short, n + 1, 0) == n + 1);
    assert(split_point(key) == m + 1);
    assert(split_point(short) == n + 1);
    assert(prefix_of(key) =~= word + a + seq![47u8] + b + seq![47u8]);
    assert(suffix_of(key) =~= rest);
    assert(prefix_of(short) =~= word + a + seq![47u8]);
    assert(suffix_of(short) =~= b);
}

/// In the registry, a key without a further slash has the registry itself as its prefix.
pub proof fn law_prefix_of_short_key(a: Seq<u8>)
    requires
        unslashed(a),
    ensures
        ({
            let word = seq![47u8, 114u8, 101u8, 103u8, 105u8, 115u8, 116u8, 114u8, 121u8, 47u8];
            &&& prefix_of(word + a) == word
            &&& suffix_of(word + a) == a
        }),
{
    let word = registry();
    let key = word + a;
    let n = 10 + a.len();
    lemma_in_registry(a);
    assert forall|i: int| 10 <= i < n implies #[trigger] key[i] != 47u8 by {
        assert(key[i] == a[i - 10]);
    }
    lemma_over_segment(key, 10, n as int, 1);
    assert(slashes(key, n as int) == 0);
    assert(split_point(key) == 10);
    assert(prefix_of(key) =~= word);
    assert(suffix_of(key) =~= a);
}

/// A key is its prefix and what follows it.
pub proof fn law_prefix_starts_the_key(key: Seq<u8>)
    ensures
        prefix_of(key) + suffix_of(key) == key,
        prefix_of(key).is_prefix_of(key),
{
    lemma_split_point(key);
    assert(key.subrange(0, prefix_of(key).len() as int) =~= prefix_of(key));
}

// ----------------------------------------------------------------- ranges

/// A range to the end of a prefix is one whose end is that prefix with a zero digit in
/// place of its last slash.
pub proof fn law_end_of_prefix(start: Seq<u8>, end: Seq<u8>)
    ensures
        whole_prefix(start, end) == (suffix_of(end).len() > 0 && prefix_of(start).len() > 0
            && prefix_of(start).last() == 47u8 && end == prefix_of(start).drop_last().push(48u8)),
{
    let p = prefix_of(start);
    let e = suffix_of(end);
    lemma_split_point(end);
    assert(prefix_of(end) + e == end);
    if whole_prefix(start, end) {
        assert(p.last() == 47u8);
        assert(p.drop_last() =~= prefix_of(end) + e.drop_last());
        assert(e =~= e.drop_last().push(48u8));
        assert(end =~= p.drop_last().push(48u8));
    }
    if e.len() > 0 && p.len() > 0 && p.last() == 47u8 && end == p.drop_last().push(48u8) {
        assert(e.last() == end.last());
        assert(end.drop_last() =~= prefix_of(end) + e.drop_last());
        assert(end.drop_last() =~= p.drop_last());
        assert(p =~= prefix_of(end) + e.drop_last() + seq![47u8]);
    }
}

/// A range can be answered without an end, within one prefix, or up to the end of one.
pub proof fn law_answered_ranges(start: Seq<u8>, end: Seq<u8>)
    ensures
        end.len() == 0 ==> one_prefix(start, end),
        prefix_of(start) == prefix_of(end) ==> one_prefix(start, end),
        one_prefix(start, end) && end.len() > 0 && prefix_of(start) != prefix_of(end) ==> end
            == prefix_of(start).drop_last().push(48u8) && prefix_of(start).last() == 47u8,
{
    law_end_of_prefix(start, end);
}

/// The range from a prefix to its end takes in the keys of the prefix, all of them and no
/// others.
pub proof fn law_whole_prefix_is_selected(start: Seq<u8>, end: Seq<u8>, x: Seq<u8>)
    requires
        whole_prefix(start, end),
        start == prefix_of(start),
    ensures
        selected(x, start, end) == (prefix_of(x) == start),
{
    law_end_of_prefix(start, end);
    let p = start.drop_last();
    assert(start =~= p.push(47u8));
    assert(end == p.push(48u8));
    law_range_of_a_start(p, 47u8, x);
    if prefix_of(x) == start {
        law_prefix_starts_the_key(x);
    }
}

/// A range within one prefix whose end comes before its start is told apart from one that
/// is only empty.
pub proof fn law_inverted_range(start: Seq<u8>, end: Seq<u8>, x: Seq<u8>)
    ensures
        inverted(start, end) ==> !in_range(x, start, end) && end.len() > 0 && start != end,
        prefix_of(start) == prefix_of(end) && end.len() > 0 && !inverted(start, end) ==> start
            == end || lex_lt(start, end),
        !inverted(start, start),
{
    law_range(x, start, end);
    lex_total(start, end);
    lex_irreflexive(start);
    if lex_lt(end, start) {
        lex_asymmetric(end, start);
    }
}

/// Where a range ends, among what follows its prefix: at the one key, before the end, or
/// nowhere.
pub proof fn law_limits(start: Seq<u8>, end: Seq<u8>)
    ensures
        upper_bound(start, end) is Included == (end.len() == 0),
        upper_bound(start, end) is Unbounded == (end.len() > 0 && prefix_of(start) != prefix_of(
            end,
        )),
        upper_bound(start, end) matches BoundView::Included(k) ==> prefix_of(start) + k == start,
        upper_bound(start, end) matches BoundView::Excluded(k) ==> prefix_of(start) + k == end,
{
    lemma_split_point(start);
    lemma_split_point(end);
}

} // verus!
