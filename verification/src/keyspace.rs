//! How keys fall into prefixes, and which keys a range takes in.
//!
//! A prefix is as long as it can be while no range that Kubernetes asks for spans
//! two of them. Under `/registry/` it is two segments, or three where the second
//! one names an API group, which shows by a period in it. All other keys have the
//! empty prefix.

use crate::order::{bytes_equal, lex_le, lex_lt, lex_prefix, parts_at};
use crate::outside::{utf8_lossy, utf8_lossy_text};
use crate::rpc::status::{Code, Status, StatusView};
use vstd::prelude::*;
use vstd::slice::slice_subrange;
use vstd::string::*;

verus! {

/// The start of the keys that have a prefix of their own.
pub open spec fn registry() -> Seq<u8> {
    seq![47u8, 114u8, 101u8, 103u8, 105u8, 115u8, 116u8, 114u8, 121u8, 47u8]
}

/// The slash that separates segments.
pub const SLASH: u8 = 47;

/// The period that an API group has.
pub const PERIOD: u8 = 46;

/// The digit zero, which follows the slash among the bytes.
pub const ZERO: u8 = 48;

/// The position after the `k`-th slash from `from` on, or the end of the key where
/// there are fewer.
pub open spec fn after_slashes(key: Seq<u8>, from: int, k: nat) -> int
    decreases key.len() - from,
{
    if k == 0 || from >= key.len() {
        from
    } else if key[from] == SLASH {
        after_slashes(key, from + 1, (k - 1) as nat)
    } else {
        after_slashes(key, from + 1, k)
    }
}

/// The number of slashes from a position on.
pub open spec fn slashes(key: Seq<u8>, from: int) -> nat
    decreases key.len() - from,
{
    if from >= key.len() {
        0
    } else if key[from] == SLASH {
        1 + slashes(key, from + 1)
    } else {
        slashes(key, from + 1)
    }
}

/// A period stands from a position on, before the next slash.
pub open spec fn dotted(key: Seq<u8>, from: int) -> bool
    decreases key.len() - from,
{
    if from >= key.len() || key[from] == SLASH {
        false
    } else {
        key[from] == PERIOD || dotted(key, from + 1)
    }
}

/// The key starts with `/registry/`.
pub open spec fn in_registry(key: Seq<u8>) -> bool {
    registry().is_prefix_of(key)
}

/// The length of a key's prefix: up to the last of as many slashes as the prefix
/// has, or of those that there are.
pub open spec fn split_point(key: Seq<u8>) -> int {
    if !in_registry(key) {
        0
    } else {
        let want: nat = if dotted(key, registry().len() as int) {
            2
        } else {
            1
        };
        let have = slashes(key, registry().len() as int);
        after_slashes(
            key,
            registry().len() as int,
            if have < want {
                have
            } else {
                want
            },
        )
    }
}

/// The prefix of a key.
pub open spec fn prefix_of(key: Seq<u8>) -> Seq<u8> {
    key.take(split_point(key))
}

/// What follows the prefix in a key.
pub open spec fn suffix_of(key: Seq<u8>) -> Seq<u8> {
    key.skip(split_point(key))
}

proof fn lemma_after_slashes(key: Seq<u8>, from: int, k: nat)
    requires
        0 <= from <= key.len(),
    ensures
        from <= after_slashes(key, from, k) <= key.len(),
    decreases key.len() - from,
{
    if k == 0 || from >= key.len() {
    } else if key[from] == SLASH {
        lemma_after_slashes(key, from + 1, (k - 1) as nat);
    } else {
        lemma_after_slashes(key, from + 1, k);
    }
}

/// A prefix is a part of its key.
pub proof fn lemma_split_point(key: Seq<u8>)
    ensures
        0 <= split_point(key) <= key.len(),
        prefix_of(key) + suffix_of(key) == key,
{
    if in_registry(key) {
        let want: nat = if dotted(key, registry().len() as int) {
            2
        } else {
            1
        };
        let have = slashes(key, registry().len() as int);
        lemma_after_slashes(
            key,
            registry().len() as int,
            if have < want {
                have
            } else {
                want
            },
        );
    }
    assert(prefix_of(key) + suffix_of(key) =~= key);
}

/// A key is in the range from `start` to `end`: it is `start` where `end` is empty,
/// and else it is not before `start` and before `end`.
pub open spec fn in_range(key: Seq<u8>, start: Seq<u8>, end: Seq<u8>) -> bool {
    if end.len() == 0 {
        key == start
    } else {
        lex_le(start, key) && lex_lt(key, end)
    }
}

/// A key that a range asks for: it is in the range, and has the prefix of `start`.
pub open spec fn selected(key: Seq<u8>, start: Seq<u8>, end: Seq<u8>) -> bool {
    prefix_of(key) == prefix_of(start) && in_range(key, start, end)
}

/// `end` is what follows every key with the prefix of `start`: that prefix with a
/// zero in place of its last slash.
pub open spec fn whole_prefix(start: Seq<u8>, end: Seq<u8>) -> bool {
    let e = suffix_of(end);
    &&& e.len() > 0
    &&& e.last() == ZERO
    &&& prefix_of(start) == prefix_of(end) + e.drop_last() + seq![SLASH]
}

/// A range that can be answered: it stays within one prefix.
pub open spec fn one_prefix(start: Seq<u8>, end: Seq<u8>) -> bool {
    end.len() == 0 || prefix_of(start) == prefix_of(end) || whole_prefix(start, end)
}

/// A range within one prefix whose end comes before its start.
pub open spec fn inverted(start: Seq<u8>, end: Seq<u8>) -> bool {
    end.len() > 0 && prefix_of(start) == prefix_of(end) && lex_lt(end, start)
}

/// The limit of a range on one side.
#[derive(Debug, PartialEq)]
pub enum Bound {
    Included(Vec<u8>),
    Excluded(Vec<u8>),
    Unbounded,
}

/// What a [`Bound`] says.
#[verifier::ext_equal]
pub enum BoundView {
    Included(Seq<u8>),
    Excluded(Seq<u8>),
    Unbounded,
}

impl View for Bound {
    type V = BoundView;

    open spec fn view(&self) -> BoundView {
        match self {
            Bound::Included(k) => BoundView::Included(k@),
            Bound::Excluded(k) => BoundView::Excluded(k@),
            Bound::Unbounded => BoundView::Unbounded,
        }
    }
}

/// Where a range within one prefix ends, among what follows the prefix.
pub open spec fn upper_bound(start: Seq<u8>, end: Seq<u8>) -> BoundView {
    if end.len() == 0 {
        BoundView::Included(suffix_of(start))
    } else if prefix_of(start) == prefix_of(end) {
        BoundView::Excluded(suffix_of(end))
    } else {
        BoundView::Unbounded
    }
}

/// The status for a range that spans prefixes.
pub open spec fn span_error(start: Seq<u8>, end: Seq<u8>) -> StatusView {
    StatusView {
        code: Code::InvalidArgument,
        message: "Keys must be in the same prefix: start: "@ + utf8_lossy_text(prefix_of(start))
            + ", end: "@ + utf8_lossy_text(prefix_of(end)),
    }
}

fn starts_registry(key: &[u8]) -> (r: bool)
    ensures
        r == in_registry(key@),
{
    let ghost p = registry();
    let r = key.len() >= 10 && key[0] == 47 && key[1] == 114 && key[2] == 101 && key[3] == 103
        && key[4] == 105 && key[5] == 115 && key[6] == 116 && key[7] == 114 && key[8] == 121
        && key[9] == 47;
    proof {
        if r {
            assert(key@.subrange(0, 10) =~= p);
        } else if in_registry(key@) {
            assert(key@.subrange(0, 10) == p);
            assert forall|i: int| 0 <= i < 10 implies key@[i] == p[i] by {
                assert(key@.subrange(0, 10)[i] == key@[i]);
            }
        }
    }
    r
}

fn find_slashes(key: &[u8], from: usize, k: usize) -> (r: usize)
    requires
        from <= key@.len(),
    ensures
        r == after_slashes(key@, from as int, k as nat),
        r <= key@.len(),
    decreases key@.len() - from,
{
    proof {
        lemma_after_slashes(key@, from as int, k as nat);
    }
    let mut i: usize = from;
    let mut left: usize = k;
    while left > 0 && i < key.len()
        invariant
            i <= key@.len(),
            after_slashes(key@, i as int, left as nat) == after_slashes(
                key@,
                from as int,
                k as nat,
            ),
        decreases key@.len() - i,
    {
        if key[i] == SLASH {
            left -= 1;
        }
        i += 1;
    }
    i
}

fn count_slashes(key: &[u8], from: usize) -> (n: usize)
    requires
        from <= key@.len(),
    ensures
        n == slashes(key@, from as int),
        n <= key@.len() - from,
{
    let mut n: usize = 0;
    let mut i: usize = from;
    while i < key.len()
        invariant
            from <= i <= key@.len(),
            n <= i - from,
            n + slashes(key@, i as int) == slashes(key@, from as int),
        decreases key@.len() - i,
    {
        if key[i] == SLASH {
            n += 1;
        }
        i += 1;
    }
    n
}

fn find_period(key: &[u8], from: usize) -> (r: bool)
    requires
        from <= key@.len(),
    ensures
        r == dotted(key@, from as int),
{
    let mut i: usize = from;
    while i < key.len() && key[i] != SLASH
        invariant
            from <= i <= key@.len(),
            dotted(key@, i as int) == dotted(key@, from as int),
        decreases key@.len() - i,
    {
        if key[i] == PERIOD {
            return true;
        }
        i += 1;
    }
    false
}

/// Splits a key into its prefix and the rest.
pub fn prefix_split(key: &Vec<u8>) -> (r: (&[u8], &[u8]))
    ensures
        r.0@ == prefix_of(key@),
        r.1@ == suffix_of(key@),
{
    let k = key.as_slice();
    proof {
        lemma_split_point(key@);
    }
    let end: usize = if starts_registry(k) {
        let want: usize = if find_period(k, 10) {
            2
        } else {
            1
        };
        let have = count_slashes(k, 10);
        find_slashes(
            k,
            10,
            if have < want {
                have
            } else {
                want
            },
        )
    } else {
        0
    };
    (slice_subrange(k, 0, end), slice_subrange(k, end, k.len()))
}

/// `b` is `a` with its last byte, a zero, replaced by a slash.
fn ends_as_prefix(prefix: &[u8], end_prefix: &[u8], end_suffix: &[u8]) -> (r: bool)
    ensures
        r == (end_suffix@.len() > 0 && end_suffix@.last() == ZERO && prefix@ == end_prefix@
            + end_suffix@.drop_last() + seq![SLASH]),
{
    let n = end_suffix.len();
    if n == 0 || end_suffix[n - 1] != ZERO {
        return false;
    }
    let ghost whole = end_prefix@ + end_suffix@.drop_last() + seq![SLASH];
    if prefix.len() < end_prefix.len() || prefix.len() - end_prefix.len() != n {
        return false;
    }
    let m = end_prefix.len();
    let head = slice_subrange(prefix, 0, m);
    let tail = slice_subrange(prefix, m, prefix.len() - 1);
    let r = bytes_equal(head, end_prefix) && bytes_equal(tail, slice_subrange(end_suffix, 0, n - 1))
        && prefix[prefix.len() - 1] == SLASH;
    proof {
        assert(end_suffix@.subrange(0, n - 1) =~= end_suffix@.drop_last());
        assert(prefix@ =~= prefix@.subrange(0, m as int) + prefix@.subrange(
            m as int,
            prefix@.len() - 1,
        ) + seq![prefix@.last()]);
        if prefix@ == whole {
            assert(prefix@.subrange(0, m as int) =~= end_prefix@);
            assert(prefix@.subrange(m as int, prefix@.len() - 1) =~= end_suffix@.drop_last());
            assert(prefix@.last() == SLASH);
        }
    }
    r
}

/// The prefix that a range stays within, and the limits for the rest of the keys.
pub fn prefix_and_range_of_key<'a>(start: &'a Vec<u8>, end: &'a Vec<u8>) -> (r: Result<
    (&'a [u8], (Bound, Bound)),
    Status,
>)
    ensures
        r is Ok == one_prefix(start@, end@),
        r matches Ok((p, (lo, hi))) ==> {
            &&& p@ == prefix_of(start@)
            &&& lo@ == BoundView::Included(suffix_of(start@))
            &&& hi@ == upper_bound(start@, end@)
        },
        r matches Err(e) ==> e@ == span_error(start@, end@),
{
    let (start_prefix, start_suffix) = prefix_split(start);
    if end.len() == 0 {
        return Ok(
            (
                start_prefix,
                (
                    Bound::Included(vstd::slice::slice_to_vec(start_suffix)),
                    Bound::Included(vstd::slice::slice_to_vec(start_suffix)),
                ),
            ),
        );
    }
    let (end_prefix, end_suffix) = prefix_split(end);
    if !bytes_equal(start_prefix, end_prefix) {
        if ends_as_prefix(start_prefix, end_prefix, end_suffix) {
            return Ok(
                (
                    start_prefix,
                    (
                        Bound::Included(vstd::slice::slice_to_vec(start_suffix)),
                        Bound::Unbounded,
                    ),
                ),
            );
        }
        let mut message = "Keys must be in the same prefix: start: ".to_owned();
        message.append(utf8_lossy(start_prefix).as_str());
        message.append(", end: ");
        message.append(utf8_lossy(end_prefix).as_str());
        return Err(Status { code: Code::InvalidArgument, message });
    }
    Ok(
        (
            start_prefix,
            (
                Bound::Included(vstd::slice::slice_to_vec(start_suffix)),
                Bound::Excluded(vstd::slice::slice_to_vec(end_suffix)),
            ),
        ),
    )
}

/// Within a prefix, a range over keys is a range over what follows the prefix.
pub proof fn lemma_selected(key: Seq<u8>, start: Seq<u8>, end: Seq<u8>)
    requires
        one_prefix(start, end),
        prefix_of(key) == prefix_of(start),
    ensures
        selected(key, start, end) == (if end.len() == 0 {
            suffix_of(key) == suffix_of(start)
        } else {
            lex_le(suffix_of(start), suffix_of(key)) && (prefix_of(start) == prefix_of(end)
                ==> lex_lt(suffix_of(key), suffix_of(end)))
        }),
{
    let p = prefix_of(start);
    lemma_split_point(key);
    lemma_split_point(start);
    lemma_split_point(end);
    assert(key == p + suffix_of(key));
    assert(start == p + suffix_of(start));
    lex_prefix(p, suffix_of(start), suffix_of(key));
    if suffix_of(key) != suffix_of(start) {
        if key == start {
            assert(suffix_of(key) =~= suffix_of(start));
        }
    }
    if end.len() > 0 {
        if prefix_of(start) == prefix_of(end) {
            assert(end == p + suffix_of(end));
            lex_prefix(p, suffix_of(key), suffix_of(end));
        } else {
            let e = suffix_of(end);
            let m = p.len() - 1;
            assert(end =~= p.drop_last() + seq![ZERO]) by {
                assert(p.drop_last() =~= prefix_of(end) + e.drop_last());
                assert(e =~= e.drop_last() + seq![ZERO]);
            }
            assert forall|j: int| 0 <= j < m implies key[j] == end[j] by {
                assert(key[j] == p[j]);
                assert(end[j] == p.drop_last()[j]);
            }
            assert(key[m] == p[m]);
            assert(p[m] == SLASH);
            assert(end[m] == ZERO);
            assert(parts_at(key, end, m));
        }
    }
}

} // verus!
