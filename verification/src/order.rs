//! Lexicographic order, and the keys that ordered collections can have.

use vstd::prelude::*;
use vstd::string::*;
use vstd::utf8::*;

verus! {

/// `a` and `b` agree before position `i`, and there `a` ends or has the smaller
/// byte.
pub open spec fn parts_at(a: Seq<u8>, b: Seq<u8>, i: int) -> bool {
    &&& 0 <= i < b.len()
    &&& i <= a.len()
    &&& forall|j: int| 0 <= j < i ==> a[j] == b[j]
    &&& i == a.len() || a[i] < b[i]
}

/// `a` comes before `b` in lexicographic order.
pub open spec fn lex_lt(a: Seq<u8>, b: Seq<u8>) -> bool {
    exists|i: int| #[trigger] parts_at(a, b, i)
}

/// `a` comes before `b` or equals it.
pub open spec fn lex_le(a: Seq<u8>, b: Seq<u8>) -> bool {
    a == b || lex_lt(a, b)
}

/// No byte string comes before itself.
pub proof fn lex_irreflexive(a: Seq<u8>)
    ensures
        !lex_lt(a, a),
{
}

/// The order is transitive.
pub proof fn lex_transitive(a: Seq<u8>, b: Seq<u8>, c: Seq<u8>)
    requires
        lex_lt(a, b),
        lex_lt(b, c),
    ensures
        lex_lt(a, c),
{
    let i = choose|i: int| #[trigger] parts_at(a, b, i);
    let j = choose|j: int| #[trigger] parts_at(b, c, j);
    if i < j {
        assert(parts_at(a, c, i));
    } else {
        assert(parts_at(a, c, j));
    }
}

/// Where two byte strings first differ, one comes before the other.
proof fn lex_total_from(a: Seq<u8>, b: Seq<u8>, k: int)
    requires
        0 <= k <= a.len(),
        k <= b.len(),
        forall|j: int| 0 <= j < k ==> a[j] == b[j],
    ensures
        a == b || lex_lt(a, b) || lex_lt(b, a),
    decreases a.len() - k,
{
    if k == a.len() || k == b.len() {
        if a.len() == b.len() {
            assert(a =~= b);
        } else if k == a.len() {
            assert(parts_at(a, b, k));
        } else {
            assert(parts_at(b, a, k));
        }
    } else if a[k] < b[k] {
        assert(parts_at(a, b, k));
    } else if b[k] < a[k] {
        assert(parts_at(b, a, k));
    } else {
        lex_total_from(a, b, k + 1);
    }
}

/// Of two different byte strings one comes before the other.
pub proof fn lex_total(a: Seq<u8>, b: Seq<u8>)
    ensures
        a == b || lex_lt(a, b) || lex_lt(b, a),
{
    lex_total_from(a, b, 0);
}

/// A common prefix does not matter to the order.
pub proof fn lex_prefix(p: Seq<u8>, a: Seq<u8>, b: Seq<u8>)
    ensures
        lex_lt(p + a, p + b) == lex_lt(a, b),
{
    let n = p.len() as int;
    if lex_lt(a, b) {
        let i = choose|i: int| #[trigger] parts_at(a, b, i);
        assert forall|j: int| 0 <= j < n + i implies (p + a)[j] == (p + b)[j] by {
            if j >= n {
                assert(a[j - n] == b[j - n]);
            }
        }
        assert(parts_at(p + a, p + b, n + i));
    }
    if lex_lt(p + a, p + b) {
        let i = choose|i: int| #[trigger] parts_at(p + a, p + b, i);
        if i < n {
            assert((p + a)[i] == p[i] && (p + b)[i] == p[i]);
        }
        assert forall|j: int| 0 <= j < i - n implies a[j] == b[j] by {
            assert((p + a)[j + n] == (p + b)[j + n]);
        }
        if i - n < a.len() {
            assert((p + a)[i] == a[i - n]);
        }
        assert((p + b)[i] == b[i - n]);
        assert(parts_at(a, b, i - n));
    }
}

/// Whether `a` comes before `b`.
pub fn bytes_less(a: &[u8], b: &[u8]) -> (r: bool)
    ensures
        r == lex_lt(a@, b@),
{
    let mut i: usize = 0;
    while i < a.len() && i < b.len()
        invariant
            0 <= i <= a.len(),
            i <= b.len(),
            forall|j: int| 0 <= j < i ==> a@[j] == b@[j],
        decreases a.len() - i,
    {
        if a[i] < b[i] {
            assert(parts_at(a@, b@, i as int));
            return true;
        }
        if b[i] < a[i] {
            proof {
                assert(parts_at(b@, a@, i as int));
                lex_asymmetric(b@, a@);
            }
            return false;
        }
        i += 1;
    }
    if i < b.len() {
        assert(parts_at(a@, b@, i as int));
        true
    } else {
        proof {
            if lex_lt(a@, b@) {
                let k = choose|k: int| #[trigger] parts_at(a@, b@, k);
                assert(a@[k] == b@[k]);
            }
        }
        false
    }
}

/// Of two byte strings at most one comes before the other.
pub proof fn lex_asymmetric(a: Seq<u8>, b: Seq<u8>)
    requires
        lex_lt(a, b),
    ensures
        !lex_lt(b, a),
        a != b,
{
    if lex_lt(b, a) {
        lex_transitive(a, b, a);
    }
    lex_irreflexive(a);
}

/// Whether two byte strings are the same.
pub fn bytes_equal(a: &[u8], b: &[u8]) -> (r: bool)
    ensures
        r == (a@ == b@),
{
    if a.len() != b.len() {
        return false;
    }
    let mut i: usize = 0;
    while i < a.len()
        invariant
            0 <= i <= a.len(),
            a.len() == b.len(),
            forall|j: int| 0 <= j < i ==> a@[j] == b@[j],
        decreases a.len() - i,
    {
        if a[i] != b[i] {
            return false;
        }
        i += 1;
    }
    assert(a@ =~= b@);
    true
}

/// A type whose values are totally ordered by their views.
pub trait OrderedKey: View + Sized {
    /// `a` comes before `b`.
    spec fn before(a: Self::V, b: Self::V) -> bool;

    proof fn before_irreflexive(a: Self::V)
        ensures
            !Self::before(a, a),
    ;

    proof fn before_transitive(a: Self::V, b: Self::V, c: Self::V)
        requires
            Self::before(a, b),
            Self::before(b, c),
        ensures
            Self::before(a, c),
    ;

    proof fn before_total(a: Self::V, b: Self::V)
        ensures
            a == b || Self::before(a, b) || Self::before(b, a),
    ;

    /// Whether this value comes before the other.
    fn precedes(&self, other: &Self) -> (r: bool)
        ensures
            r == Self::before(self@, other@),
    ;
}

impl OrderedKey for Vec<u8> {
    open spec fn before(a: Seq<u8>, b: Seq<u8>) -> bool {
        lex_lt(a, b)
    }

    proof fn before_irreflexive(a: Seq<u8>) {
        lex_irreflexive(a);
    }

    proof fn before_transitive(a: Seq<u8>, b: Seq<u8>, c: Seq<u8>) {
        lex_transitive(a, b, c);
    }

    proof fn before_total(a: Seq<u8>, b: Seq<u8>) {
        lex_total(a, b);
    }

    fn precedes(&self, other: &Self) -> (r: bool) {
        bytes_less(self.as_slice(), other.as_slice())
    }
}

impl OrderedKey for u64 {
    open spec fn before(a: u64, b: u64) -> bool {
        a < b
    }

    proof fn before_irreflexive(a: u64) {
    }

    proof fn before_transitive(a: u64, b: u64, c: u64) {
    }

    proof fn before_total(a: u64, b: u64) {
    }

    fn precedes(&self, other: &Self) -> (r: bool) {
        *self < *other
    }
}

impl OrderedKey for i64 {
    open spec fn before(a: i64, b: i64) -> bool {
        a < b
    }

    proof fn before_irreflexive(a: i64) {
    }

    proof fn before_transitive(a: i64, b: i64, c: i64) {
    }

    proof fn before_total(a: i64, b: i64) {
    }

    fn precedes(&self, other: &Self) -> (r: bool) {
        *self < *other
    }
}

impl OrderedKey for (Vec<u8>, i64) {
    /// By the bytes, and by the number where these are the same.
    open spec fn before(a: (Seq<u8>, i64), b: (Seq<u8>, i64)) -> bool {
        lex_lt(a.0, b.0) || (a.0 == b.0 && a.1 < b.1)
    }

    proof fn before_irreflexive(a: (Seq<u8>, i64)) {
        lex_irreflexive(a.0);
    }

    proof fn before_transitive(a: (Seq<u8>, i64), b: (Seq<u8>, i64), c: (Seq<u8>, i64)) {
        if lex_lt(a.0, b.0) && lex_lt(b.0, c.0) {
            lex_transitive(a.0, b.0, c.0);
        }
    }

    proof fn before_total(a: (Seq<u8>, i64), b: (Seq<u8>, i64)) {
        lex_total(a.0, b.0);
    }

    fn precedes(&self, other: &Self) -> (r: bool) {
        if bytes_less(self.0.as_slice(), other.0.as_slice()) {
            true
        } else {
            bytes_equal(self.0.as_slice(), other.0.as_slice()) && self.1 < other.1
        }
    }
}

/// `a` comes before `b` in the order of their UTF-8 encodings, which is that of
/// `String`.
pub open spec fn text_lt(a: Seq<char>, b: Seq<char>) -> bool {
    lex_lt(encode_utf8(a), encode_utf8(b))
}

impl OrderedKey for String {
    open spec fn before(a: Seq<char>, b: Seq<char>) -> bool {
        text_lt(a, b)
    }

    proof fn before_irreflexive(a: Seq<char>) {
        lex_irreflexive(encode_utf8(a));
    }

    proof fn before_transitive(a: Seq<char>, b: Seq<char>, c: Seq<char>) {
        lex_transitive(encode_utf8(a), encode_utf8(b), encode_utf8(c));
    }

    proof fn before_total(a: Seq<char>, b: Seq<char>) {
        lex_total(encode_utf8(a), encode_utf8(b));
        encode_utf8_decode_utf8(a);
        encode_utf8_decode_utf8(b);
    }

    fn precedes(&self, other: &Self) -> (r: bool) {
        bytes_less(self.as_str().as_bytes(), other.as_str().as_bytes())
    }
}

} // verus!
