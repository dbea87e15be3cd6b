//! Reading and writing text: decimal numbers, trimming, splitting and searching.

use vstd::prelude::*;
use vstd::string::*;

verus! {

// -------------------------------------------------------------- writing

/// The character of a decimal digit.
pub open spec fn digit_char(d: int) -> char {
    (('0' as u32) + d) as char
}

/// A number in decimal digits, without leading zeros.
pub open spec fn decimal(n: nat) -> Seq<char>
    decreases n,
{
    if n < 10 {
        seq![digit_char(n as int)]
    } else {
        decimal(n / 10).push(digit_char((n % 10) as int))
    }
}

/// An integer in decimal digits, after a minus sign where it is negative.
pub open spec fn decimal_int(i: int) -> Seq<char> {
    if i < 0 {
        seq!['-'] + decimal((-i) as nat)
    } else {
        decimal(i as nat)
    }
}

fn digit(d: u64) -> (c: char)
    requires
        d < 10,
    ensures
        c == digit_char(d as int),
{
    if d == 0 {
        '0'
    } else if d == 1 {
        '1'
    } else if d == 2 {
        '2'
    } else if d == 3 {
        '3'
    } else if d == 4 {
        '4'
    } else if d == 5 {
        '5'
    } else if d == 6 {
        '6'
    } else if d == 7 {
        '7'
    } else if d == 8 {
        '8'
    } else {
        '9'
    }
}

/// Adds a number in decimal digits to a text.
pub fn push_decimal(s: &mut String, n: u64)
    ensures
        final(s)@ == old(s)@ + decimal(n as nat),
    decreases n,
{
    if n >= 10 {
        push_decimal(s, n / 10);
    }
    s.push(digit(n % 10));
    assert(s@ =~= old(s)@ + decimal(n as nat));
}

/// Adds an integer in decimal digits to a text.
pub fn push_integer(s: &mut String, i: i64)
    ensures
        final(s)@ == old(s)@ + decimal_int(i as int),
{
    let ghost before = s@;
    if i < 0 {
        s.push('-');
        let n: u64 = if i == i64::MIN {
            0x8000_0000_0000_0000u64
        } else {
            (-i) as u64
        };
        push_decimal(s, n);
        assert(n == -i);
        assert(s@ =~= before + decimal_int(i as int));
    } else {
        push_decimal(s, i as u64);
    }
}

/// Two texts, one after the other.
pub fn joined(a: &str, b: &str) -> (r: String)
    ensures
        r@ == a@ + b@,
{
    let mut r = a.to_owned();
    r.append(b);
    r
}

/// A text followed by an integer in decimal digits.
pub fn with_integer(a: &str, i: i64) -> (r: String)
    ensures
        r@ == a@ + decimal_int(i as int),
{
    let mut r = a.to_owned();
    push_integer(&mut r, i);
    r
}

/// A text followed by a number in decimal digits.
pub fn with_decimal(a: &str, n: u64) -> (r: String)
    ensures
        r@ == a@ + decimal(n as nat),
{
    let mut r = a.to_owned();
    push_decimal(&mut r, n);
    r
}

/// The character of a hexadecimal digit.
pub open spec fn hex_char(d: int) -> char {
    if d < 10 {
        digit_char(d)
    } else {
        (('a' as u32) + (d - 10)) as char
    }
}

/// A number in hexadecimal digits: as many as given, or more where it needs them.
pub open spec fn hexadecimal(n: nat, width: nat) -> Seq<char>
    decreases n, width,
{
    if n == 0 && width == 0 {
        Seq::empty()
    } else {
        hexadecimal(
            n / 16,
            if width == 0 {
                0
            } else {
                (width - 1) as nat
            },
        ).push(hex_char((n % 16) as int))
    }
}

fn hex_digit(d: u8) -> (c: char)
    requires
        d < 16,
    ensures
        c == hex_char(d as int),
{
    if d < 10 {
        digit(d as u64)
    } else if d == 10 {
        'a'
    } else if d == 11 {
        'b'
    } else if d == 12 {
        'c'
    } else if d == 13 {
        'd'
    } else if d == 14 {
        'e'
    } else {
        'f'
    }
}

/// Adds a number in hexadecimal digits to a text.
pub fn push_hexadecimal(s: &mut String, n: u128, width: u8)
    ensures
        final(s)@ == old(s)@ + hexadecimal(n as nat, width as nat),
    decreases n, width,
{
    let ghost before = s@;
    if n == 0 && width == 0 {
        assert(s@ =~= before + hexadecimal(0, 0));
        return ;
    }
    let rest: u8 = if width == 0 {
        0
    } else {
        width - 1
    };
    push_hexadecimal(s, n / 16, rest);
    s.push(hex_digit((n % 16) as u8));
    assert(s@ =~= before + hexadecimal(n as nat, width as nat));
}

// -------------------------------------------------------------- reading

/// The characters of a text.
pub fn chars_of(s: &str) -> (v: Vec<char>)
    ensures
        v@ == s@,
{
    let mut v: Vec<char> = Vec::new();
    for c in it: s.chars()
        invariant
            it.seq() == s@,
            v@ == s@.take(it.index() as int),
    {
        v.push(c);
        assert(v@ =~= s@.take(it.index() + 1));
    }
    assert(s@.take(s@.len() as int) =~= s@);
    v
}

/// The text of some characters.
pub fn text_of(v: &[char]) -> (s: String)
    ensures
        s@ == v@,
{
    let mut s = String::new();
    let mut i: usize = 0;
    while i < v.len()
        invariant
            i <= v@.len(),
            s@ == v@.take(i as int),
        decreases v@.len() - i,
    {
        s.push(v[i]);
        i += 1;
        assert(s@ =~= v@.take(i as int));
    }
    assert(v@.take(i as int) =~= v@);
    s
}

/// The characters from one position up to another.
pub fn part(v: &[char], from: usize, to: usize) -> (r: Vec<char>)
    requires
        from <= to <= v@.len(),
    ensures
        r@ == v@.subrange(from as int, to as int),
{
    let mut r: Vec<char> = Vec::new();
    let mut i: usize = from;
    while i < to
        invariant
            from <= i <= to <= v@.len(),
            r@ == v@.subrange(from as int, i as int),
        decreases to - i,
    {
        r.push(v[i]);
        i += 1;
        assert(r@ =~= v@.subrange(from as int, i as int));
    }
    r
}

/// Whether two runs of characters are the same.
pub fn chars_equal(a: &[char], b: &[char]) -> (r: bool)
    ensures
        r == (a@ == b@),
{
    if a.len() != b.len() {
        return false;
    }
    let mut i: usize = 0;
    while i < a.len()
        invariant
            i <= a@.len() == b@.len(),
            forall|j: int| 0 <= j < i ==> a@[j] == b@[j],
        decreases a@.len() - i,
    {
        if a[i] != b[i] {
            return false;
        }
        i += 1;
    }
    assert(a@ =~= b@);
    true
}

/// Whether two texts are the same.
pub fn text_equal(a: &str, b: &str) -> (r: bool)
    ensures
        r == (a@ == b@),
{
    let va = chars_of(a);
    let vb = chars_of(b);
    chars_equal(&va, &vb)
}

/// A character with the Unicode property White_Space.
pub open spec fn is_space(c: char) -> bool {
    let u = c as u32;
    ||| 0x9 <= u <= 0xd
    ||| u == 0x20
    ||| u == 0x85
    ||| u == 0xa0
    ||| u == 0x1680
    ||| 0x2000 <= u <= 0x200a
    ||| u == 0x2028
    ||| u == 0x2029
    ||| u == 0x202f
    ||| u == 0x205f
    ||| u == 0x3000
}

fn space(c: char) -> (r: bool)
    ensures
        r == is_space(c),
{
    let u: u32 = c as u32;
    (0x9 <= u && u <= 0xd) || u == 0x20 || u == 0x85 || u == 0xa0 || u == 0x1680 || (0x2000 <= u
        && u <= 0x200a) || u == 0x2028 || u == 0x2029 || u == 0x202f || u == 0x205f || u == 0x3000
}

/// A text without the white space at its ends.
pub open spec fn trimmed(s: Seq<char>) -> Seq<char>
    decreases s.len(),
{
    if s.len() == 0 {
        s
    } else if is_space(s[0]) {
        trimmed(s.skip(1))
    } else if is_space(s.last()) {
        trimmed(s.drop_last())
    } else {
        s
    }
}

/// Drops the white space at the ends.
pub fn trim(v: &[char]) -> (r: Vec<char>)
    ensures
        r@ == trimmed(v@),
{
    let mut from: usize = 0;
    let mut to: usize = v.len();
    assert(v@.subrange(0, to as int) =~= v@);
    while from < to && space(v[from])
        invariant
            from <= to == v@.len(),
            trimmed(v@.subrange(from as int, to as int)) == trimmed(v@),
        decreases to - from,
    {
        assert(v@.subrange(from as int, to as int).skip(1) =~= v@.subrange(from + 1, to as int));
        from += 1;
    }
    while from < to && space(v[to - 1])
        invariant
            from <= to <= v@.len(),
            from < to ==> !is_space(v@[from as int]),
            trimmed(v@.subrange(from as int, to as int)) == trimmed(v@),
        decreases to - from,
    {
        assert(v@.subrange(from as int, to as int).drop_last() =~= v@.subrange(
            from as int,
            to - 1,
        ));
        to -= 1;
    }
    part(v, from, to)
}

/// Where a character first stands, or the length where it does not stand at all.
pub open spec fn first_at(s: Seq<char>, c: char) -> nat
    decreases s.len(),
{
    if s.len() == 0 || s[0] == c {
        0
    } else {
        1 + first_at(s.skip(1), c)
    }
}

/// The first place of a character is where it does not stand before.
pub proof fn lemma_first_at(s: Seq<char>, c: char, i: int)
    requires
        0 <= i <= s.len(),
        forall|j: int| 0 <= j < i ==> s[j] != c,
        i == s.len() || s[i] == c,
    ensures
        first_at(s, c) == i,
    decreases s.len(),
{
    if i > 0 {
        assert forall|j: int| 0 <= j < i - 1 implies s.skip(1)[j] != c by {
            assert(s[j + 1] != c);
        }
        lemma_first_at(s.skip(1), c, i - 1);
    }
}

/// Finds where a character first stands from a position on.
pub fn find_from(v: &[char], from: usize, c: char) -> (i: usize)
    requires
        from <= v@.len(),
    ensures
        from <= i <= v@.len(),
        i - from == first_at(v@.skip(from as int), c),
        i < v@.len() ==> v@[i as int] == c,
{
    let mut i: usize = from;
    while i < v.len() && v[i] != c
        invariant
            from <= i <= v@.len(),
            forall|j: int| from <= j < i ==> v@[j] != c,
        decreases v@.len() - i,
    {
        i += 1;
    }
    proof {
        assert forall|j: int| 0 <= j < i - from implies v@.skip(from as int)[j] != c by {
            assert(v@[from + j] != c);
        }
        lemma_first_at(v@.skip(from as int), c, i - from);
    }
    i
}

/// The parts of a text between the places where a separator stands.
pub open spec fn pieces(s: Seq<char>, sep: char) -> Seq<Seq<char>>
    decreases s.len(),
    via pieces_decreases
{
    let i = first_at(s, sep) as int;
    if i >= s.len() {
        seq![s]
    } else {
        seq![s.take(i)] + pieces(s.skip(i + 1), sep)
    }
}

#[via_fn]
proof fn pieces_decreases(s: Seq<char>, sep: char) {
}

/// The views of some runs of characters.
pub open spec fn views(v: Seq<Vec<char>>) -> Seq<Seq<char>> {
    v.map_values(|p: Vec<char>| p@)
}

/// Splits at a separator.
pub fn split(v: &[char], sep: char) -> (r: Vec<Vec<char>>)
    ensures
        views(r@) == pieces(v@, sep),
{
    let mut r: Vec<Vec<char>> = Vec::new();
    let mut from: usize = 0;
    assert(v@.skip(0) =~= v@);
    assert(views(r@) + pieces(v@.skip(0), sep) =~= pieces(v@, sep));
    loop
        invariant
            from <= v@.len(),
            views(r@) + pieces(v@.skip(from as int), sep) == pieces(v@, sep),
        decreases v@.len() - from,
    {
        let i = find_from(v, from, sep);
        let piece = part(v, from, i);
        let ghost rest = v@.skip(from as int);
        assert(piece@ =~= rest.take(i - from));
        let ghost done = views(r@);
        r.push(piece);
        assert(views(r@) =~= done.push(rest.take(i - from)));
        if i >= v.len() {
            assert(rest.take(i - from) =~= rest);
            assert(views(r@) =~= done + pieces(rest, sep));
            return r;
        }
        proof {
            assert(rest.skip(i - from + 1) =~= v@.skip(i + 1));
            assert(done + pieces(rest, sep) =~= views(r@) + pieces(v@.skip(i + 1), sep));
        }
        from = i + 1;
    }
}

/// A decimal digit.
pub open spec fn is_digit(c: char) -> bool {
    '0' <= c <= '9'
}

/// Why a text is not a number.
#[derive(Debug, Clone, Copy, PartialEq, Eq, Structural)]
pub enum NumberError {
    Empty,
    InvalidDigit,
    PosOverflow,
    NegOverflow,
}

/// The number that decimal digits write, read from left to right and kept at or
/// below `max`. The first character that is no digit, or that takes the number
/// above `max`, decides the error, which is then `InvalidDigit` or `overflow`.
pub open spec fn scanned(s: Seq<char>, max: nat, overflow: NumberError) -> Result<nat, NumberError>
    decreases s.len(),
{
    if s.len() == 0 {
        Ok(0)
    } else {
        match scanned(s.drop_last(), max, overflow) {
            Err(e) => Err(e),
            Ok(n) => if !is_digit(s.last()) {
                Err(NumberError::InvalidDigit)
            } else if n * 10 + (s.last() as u32 - '0' as u32) > max {
                Err(overflow)
            } else {
                Ok((n * 10 + (s.last() as u32 - '0' as u32)) as nat)
            },
        }
    }
}

/// An error among the first characters stays the error of all of them.
proof fn lemma_scan_stops(s: Seq<char>, k: int, max: nat, overflow: NumberError)
    requires
        0 <= k <= s.len(),
        scanned(s.take(k), max, overflow) is Err,
    ensures
        scanned(s, max, overflow) == scanned(s.take(k), max, overflow),
    decreases s.len(),
{
    if k == s.len() {
        assert(s.take(k) =~= s);
    } else {
        assert(s.drop_last().take(k) =~= s.take(k));
        lemma_scan_stops(s.drop_last(), k, max, overflow);
    }
}

/// Reads decimal digits from a position on.
pub fn scan(v: &[char], from: usize, max: u64, overflow: NumberError) -> (r: Result<
    u64,
    NumberError,
>)
    requires
        from <= v@.len(),
    ensures
        match scanned(v@.skip(from as int), max as nat, overflow) {
            Err(e) => r == Err::<u64, NumberError>(e),
            Ok(n) => r is Ok && r->Ok_0 == n,
        },
{
    let ghost s = v@.skip(from as int);
    let mut n: u64 = 0;
    let mut i: usize = from;
    assert(s.take(0) =~= Seq::empty());
    while i < v.len()
        invariant
            from <= i <= v@.len(),
            s == v@.skip(from as int),
            n <= max,
            scanned(s.take(i - from), max as nat, overflow) == Ok::<nat, NumberError>(n as nat),
        decreases v@.len() - i,
    {
        let c = v[i];
        proof {
            assert(s[i - from] == v@[i as int]);
            assert(s.take(i - from + 1).drop_last() =~= s.take(i - from));
            assert(s.take(i - from + 1).last() == c);
        }
        if !('0' <= c && c <= '9') {
            proof {
                lemma_scan_stops(s, i - from + 1, max as nat, overflow);
            }
            return Err(NumberError::InvalidDigit);
        }
        let d: u64 = (c as u32 - '0' as u32) as u64;
        if d > max || n > (max - d) / 10 {
            proof {
                assert(n * 10 + d > max);
                lemma_scan_stops(s, i - from + 1, max as nat, overflow);
            }
            return Err(overflow);
        }
        n = n * 10 + d;
        i += 1;
    }
    assert(s.take(s.len() as int) =~= s);
    Ok(n)
}

/// A text read as a number of type `u64`: digits after an optional plus sign.
pub open spec fn unsigned_value(s: Seq<char>) -> Result<nat, NumberError> {
    if s.len() == 0 {
        Err(NumberError::Empty)
    } else if s.len() > 1 && s[0] == '+' {
        scanned(s.skip(1), u64::MAX as nat, NumberError::PosOverflow)
    } else {
        scanned(s, u64::MAX as nat, NumberError::PosOverflow)
    }
}

/// Reads a number, as `u64::from_str` does.
pub fn parse_unsigned(v: &[char]) -> (r: Result<u64, NumberError>)
    ensures
        match unsigned_value(v@) {
            Err(e) => r == Err::<u64, NumberError>(e),
            Ok(n) => r is Ok && r->Ok_0 == n,
        },
{
    if v.len() == 0 {
        return Err(NumberError::Empty);
    }
    assert(v@.skip(0) =~= v@);
    if v.len() > 1 && v[0] == '+' {
        scan(v, 1, u64::MAX, NumberError::PosOverflow)
    } else {
        scan(v, 0, u64::MAX, NumberError::PosOverflow)
    }
}

/// A text read as a number of type `i64`: digits after an optional sign.
pub open spec fn signed_value(s: Seq<char>) -> Result<int, NumberError> {
    if s.len() == 0 {
        Err(NumberError::Empty)
    } else if s.len() > 1 && s[0] == '-' {
        match scanned(s.skip(1), 0x8000_0000_0000_0000, NumberError::NegOverflow) {
            Err(e) => Err(e),
            Ok(n) => Ok(-(n as int)),
        }
    } else {
        let digits = if s.len() > 1 && s[0] == '+' {
            s.skip(1)
        } else {
            s
        };
        match scanned(digits, i64::MAX as nat, NumberError::PosOverflow) {
            Err(e) => Err(e),
            Ok(n) => Ok(n as int),
        }
    }
}

/// Reads a number, as `i64::from_str` does.
pub fn parse_signed(v: &[char]) -> (r: Result<i64, NumberError>)
    ensures
        match signed_value(v@) {
            Err(e) => r == Err::<i64, NumberError>(e),
            Ok(n) => r is Ok && r->Ok_0 == n,
        },
{
    if v.len() == 0 {
        return Err(NumberError::Empty);
    }
    assert(v@.skip(0) =~= v@);
    if v.len() > 1 && v[0] == '-' {
        match scan(v, 1, 0x8000_0000_0000_0000, NumberError::NegOverflow) {
            Err(e) => Err(e),
            Ok(n) => if n == 0x8000_0000_0000_0000 {
                Ok(i64::MIN)
            } else {
                Ok(-(n as i64))
            },
        }
    } else {
        let from: usize = if v.len() > 1 && v[0] == '+' {
            1
        } else {
            0
        };
        match scan(v, from, i64::MAX as u64, NumberError::PosOverflow) {
            Err(e) => Err(e),
            Ok(n) => Ok(n as i64),
        }
    }
}

/// `needle` stands in `s` at position `i`.
pub open spec fn stands_at(s: Seq<char>, needle: Seq<char>, i: int) -> bool {
    &&& 0 <= i
    &&& i + needle.len() <= s.len()
    &&& s.subrange(i, i + needle.len()) == needle
}

/// `needle` stands somewhere in `s`.
pub open spec fn stands_in(s: Seq<char>, needle: Seq<char>) -> bool {
    exists|i: int| #[trigger] stands_at(s, needle, i)
}

/// Whether a text stands in another.
pub fn contains_text(s: &str, needle: &str) -> (r: bool)
    ensures
        r == stands_in(s@, needle@),
{
    let a = chars_of(s);
    let b = chars_of(needle);
    if b.len() > a.len() {
        return false;
    }
    let mut i: usize = 0;
    while i <= a.len() - b.len()
        invariant
            a@ == s@,
            b@ == needle@,
            b@.len() <= a@.len(),
            i <= a@.len() - b@.len() + 1,
            forall|j: int| 0 <= j < i ==> !stands_at(s@, needle@, j),
        decreases a@.len() + 1 - i,
    {
        let piece = part(&a, i, i + b.len());
        if chars_equal(&piece, &b) {
            assert(stands_at(s@, needle@, i as int));
            return true;
        }
        if i == a.len() - b.len() {
            return false;
        }
        i += 1;
    }
    false
}

// ------------------------------------------------------------------- laws

/// A number is written in digits, and the first of several is no zero.
pub proof fn law_decimal_digits(n: nat)
    ensures
        decimal(n).len() >= 1,
        forall|i: int| 0 <= i < decimal(n).len() ==> is_digit(#[trigger] decimal(n)[i]),
        n >= 1 ==> decimal(n)[0] != '0',
    decreases n,
{
    if n >= 10 {
        law_decimal_digits(n / 10);
        let rest = decimal(n / 10);
        let last = digit_char((n % 10) as int);
        assert(is_digit(last));
        assert forall|i: int| 0 <= i < decimal(n).len() implies is_digit(
            #[trigger] decimal(n)[i],
        ) by {
            assert(decimal(n) == rest.push(last));
            if i < rest.len() {
                assert(decimal(n)[i] == rest[i]);
            }
        }
    } else {
        assert(is_digit(digit_char(n as int)));
    }
}

proof fn lemma_scan_decimal(n: nat, max: nat, overflow: NumberError)
    requires
        n <= max,
    ensures
        scanned(decimal(n), max, overflow) == Ok::<nat, NumberError>(n),
    decreases n,
{
    let s = decimal(n);
    if n >= 10 {
        lemma_scan_decimal(n / 10, max, overflow);
        assert(s.drop_last() =~= decimal(n / 10));
        assert(s.last() == digit_char((n % 10) as int));
    } else {
        assert(s.drop_last() =~= Seq::empty());
        assert(s.last() == digit_char(n as int));
        assert(scanned(s.drop_last(), max, overflow) == Ok::<nat, NumberError>(0));
    }
}

proof fn lemma_scan_too_large(n: nat, max: nat, overflow: NumberError)
    requires
        n > max,
    ensures
        scanned(decimal(n), max, overflow) == Err::<nat, NumberError>(overflow),
    decreases n,
{
    let s = decimal(n);
    if n >= 10 {
        assert(s.drop_last() =~= decimal(n / 10));
        assert(s.last() == digit_char((n % 10) as int));
        if n / 10 > max {
            lemma_scan_too_large(n / 10, max, overflow);
        } else {
            lemma_scan_decimal(n / 10, max, overflow);
        }
    } else {
        assert(s.drop_last() =~= Seq::empty());
        assert(s.last() == digit_char(n as int));
        assert(scanned(s.drop_last(), max, overflow) == Ok::<nat, NumberError>(0));
    }
}

/// A number that is written down reads as itself, also after a plus sign.
pub proof fn law_numbers_read_back(n: u64)
    ensures
        unsigned_value(decimal(n as nat)) == Ok::<nat, NumberError>(n as nat),
        unsigned_value(seq!['+'] + decimal(n as nat)) == Ok::<nat, NumberError>(n as nat),
{
    law_decimal_digits(n as nat);
    lemma_scan_decimal(n as nat, u64::MAX as nat, NumberError::PosOverflow);
    assert(is_digit(decimal(n as nat)[0]));
    assert((seq!['+'] + decimal(n as nat)).skip(1) =~= decimal(n as nat));
}

/// A number beyond the largest one does not read.
pub proof fn law_large_numbers_do_not_read(n: nat)
    requires
        n > u64::MAX,
    ensures
        unsigned_value(decimal(n)) == Err::<nat, NumberError>(NumberError::PosOverflow),
        signed_value(decimal(n)) == Err::<int, NumberError>(NumberError::PosOverflow),
        signed_value(seq!['-'] + decimal(n)) == Err::<int, NumberError>(NumberError::NegOverflow),
{
    law_decimal_digits(n);
    assert(is_digit(decimal(n)[0]));
    lemma_scan_too_large(n, u64::MAX as nat, NumberError::PosOverflow);
    lemma_scan_too_large(n, i64::MAX as nat, NumberError::PosOverflow);
    lemma_scan_too_large(n, 0x8000_0000_0000_0000, NumberError::NegOverflow);
    assert((seq!['-'] + decimal(n)).skip(1) =~= decimal(n));
}

/// An integer that is written down reads as itself.
pub proof fn law_integers_read_back(i: i64)
    ensures
        signed_value(decimal_int(i as int)) == Ok::<int, NumberError>(i as int),
{
    if i < 0 {
        let n = (-(i as int)) as nat;
        law_decimal_digits(n);
        lemma_scan_decimal(n, 0x8000_0000_0000_0000, NumberError::NegOverflow);
        assert((seq!['-'] + decimal(n)).skip(1) =~= decimal(n));
    } else {
        law_decimal_digits(i as nat);
        assert(is_digit(decimal(i as nat)[0]));
        lemma_scan_decimal(i as nat, i64::MAX as nat, NumberError::PosOverflow);
    }
}

/// Different numbers are written differently.
pub proof fn law_decimals_differ(a: u64, b: u64)
    requires
        a != b,
    ensures
        decimal(a as nat) != decimal(b as nat),
{
    law_numbers_read_back(a);
    law_numbers_read_back(b);
}

/// What reads as a number has digits alone, but for a sign.
pub proof fn law_numbers_are_digits(s: Seq<char>, i: int)
    requires
        unsigned_value(s) is Ok,
        0 <= i < s.len(),
    ensures
        is_digit(s[i]) || (i == 0 && s[0] == '+' && s.len() > 1),
{
    if s.len() > 1 && s[0] == '+' {
        lemma_scan_digits(s.skip(1), u64::MAX as nat, NumberError::PosOverflow);
        if i > 0 {
            assert(s.skip(1)[i - 1] == s[i]);
        }
    } else {
        lemma_scan_digits(s, u64::MAX as nat, NumberError::PosOverflow);
    }
}

proof fn lemma_scan_digits(s: Seq<char>, max: nat, overflow: NumberError)
    requires
        scanned(s, max, overflow) is Ok,
    ensures
        forall|i: int| 0 <= i < s.len() ==> is_digit(#[trigger] s[i]),
    decreases s.len(),
{
    if s.len() > 0 {
        lemma_scan_digits(s.drop_last(), max, overflow);
        assert forall|i: int| 0 <= i < s.len() implies is_digit(#[trigger] s[i]) by {
            if i < s.len() - 1 {
                assert(s.drop_last()[i] == s[i]);
            }
        }
    }
}

/// A text without white space at its ends stays as it is.
pub proof fn law_trimmed_fixed(s: Seq<char>)
    requires
        s.len() == 0 || (!is_space(s[0]) && !is_space(s.last())),
    ensures
        trimmed(s) == s,
{
}

/// Only white space goes: what is left stands in the text between white space, and has
/// none at its ends.
#[verifier::spinoff_prover]
#[verifier::rlimit(40)]
pub proof fn law_trimmed_is_inside(s: Seq<char>) -> (i: int)
    ensures
        0 <= i,
        i + trimmed(s).len() <= s.len(),
        trimmed(s) == s.subrange(i, i + trimmed(s).len()),
        forall|k: int| 0 <= k < i ==> is_space(#[trigger] s[k]),
        forall|k: int| i + trimmed(s).len() <= k < s.len() ==> is_space(#[trigger] s[k]),
        trimmed(s).len() > 0 ==> !is_space(trimmed(s)[0]) && !is_space(trimmed(s).last()),
    decreases s.len(),
{
    if s.len() == 0 {
        assert(trimmed(s) =~= s.subrange(0, 0));
        0
    } else if is_space(s[0]) {
        let t = s.skip(1);
        let i = law_trimmed_is_inside(t);
        assert(trimmed(s) =~= s.subrange(i + 1, i + 1 + trimmed(s).len()));
        assert forall|k: int| 0 <= k < i + 1 implies is_space(#[trigger] s[k]) by {
            if k > 0 {
                assert(t[k - 1] == s[k]);
            }
        }
        assert forall|k: int| i + 1 + trimmed(s).len() <= k < s.len() implies is_space(
            #[trigger] s[k],
        ) by {
            assert(t[k - 1] == s[k]);
        }
        i + 1
    } else if is_space(s.last()) {
        let t = s.drop_last();
        let i = law_trimmed_is_inside(t);
        assert(trimmed(s) =~= s.subrange(i, i + trimmed(s).len()));
        assert forall|k: int| 0 <= k < i implies is_space(#[trigger] s[k]) by {
            assert(t[k] == s[k]);
        }
        assert forall|k: int| i + trimmed(s).len() <= k < s.len() implies is_space(
            #[trigger] s[k],
        ) by {
            if k < s.len() - 1 {
                assert(t[k] == s[k]);
            }
        }
        i
    } else {
        assert(trimmed(s) =~= s.subrange(0, s.len() as int));
        0
    }
}

/// Some texts with a separator between each two of them.
pub open spec fn put_between(parts: Seq<Seq<char>>, sep: char) -> Seq<char>
    decreases parts.len(),
{
    if parts.len() == 0 {
        Seq::empty()
    } else if parts.len() == 1 {
        parts[0]
    } else {
        parts[0] + seq![sep] + put_between(parts.skip(1), sep)
    }
}

/// The pieces of a text, with the separator between them, are the text, and the
/// separator stands in none of them.
pub proof fn law_pieces_make_the_text(s: Seq<char>, sep: char)
    ensures
        pieces(s, sep).len() >= 1,
        put_between(pieces(s, sep), sep) == s,
        forall|i: int|
            0 <= i < pieces(s, sep).len() ==> !(#[trigger] pieces(s, sep)[i]).contains(sep),
    decreases s.len(),
{
    let i = first_at(s, sep) as int;
    lemma_before_first(s, sep);
    let all = pieces(s, sep);
    if i >= s.len() {
        assert(all =~= seq![s]);
    } else {
        let rest = s.skip(i + 1);
        law_pieces_make_the_text(rest, sep);
        let more = pieces(rest, sep);
        assert(all.skip(1) =~= more);
        assert(put_between(all, sep) =~= s.take(i) + seq![sep] + rest);
        assert(s =~= s.take(i) + seq![sep] + rest);
        assert forall|k: int| 0 <= k < all.len() implies !(#[trigger] all[k]).contains(sep) by {
            if k > 0 {
                assert(all[k] == more[k - 1]);
            } else if all[0].contains(sep) {
                let m = choose|m: int| 0 <= m < all[0].len() && all[0][m] == sep;
                assert(s[m] == sep);
            }
        }
    }
}

proof fn lemma_before_first(s: Seq<char>, c: char)
    ensures
        first_at(s, c) <= s.len(),
        forall|j: int| 0 <= j < first_at(s, c) ==> #[trigger] s[j] != c,
        first_at(s, c) < s.len() ==> s[first_at(s, c) as int] == c,
    decreases s.len(),
{
    if s.len() > 0 && s[0] != c {
        let t = s.skip(1);
        lemma_before_first(t, c);
        assert forall|j: int| 0 <= j < first_at(s, c) implies #[trigger] s[j] != c by {
            if j > 0 {
                assert(t[j - 1] == s[j]);
            }
        }
    }
}

proof fn lemma_hex_digits(n: nat, width: nat)
    ensures
        n == 0 && width == 0 ==> hexadecimal(n, width).len() == 0,
        n > 0 || width > 0 ==> {
            let less: nat = if width == 0 {
                0
            } else {
                (width - 1) as nat
            };
            &&& hexadecimal(n, width).len() > 0
            &&& hexadecimal(n, width).last() == hex_char((n % 16) as int)
            &&& hexadecimal(n, width).drop_last() == hexadecimal(n / 16, less)
        },
{
    if n > 0 || width > 0 {
        let less: nat = if width == 0 {
            0
        } else {
            (width - 1) as nat
        };
        let front = hexadecimal(n / 16, less);
        assert(front.push(hex_char((n % 16) as int)).drop_last() =~= front);
    }
}

/// Different numbers are written differently in hexadecimal digits.
pub proof fn law_hexadecimals_differ(a: nat, b: nat, width: nat)
    requires
        a != b,
    ensures
        hexadecimal(a, width) != hexadecimal(b, width),
    decreases a + b, width,
{
    lemma_hex_digits(a, width);
    lemma_hex_digits(b, width);
    if hexadecimal(a, width) == hexadecimal(b, width) {
        assert(hex_char((a % 16) as int) == hex_char((b % 16) as int));
        assert(a % 16 == b % 16);
        assert(a / 16 != b / 16);
        law_hexadecimals_differ(
            a / 16,
            b / 16,
            if width == 0 {
                0
            } else {
                (width - 1) as nat
            },
        );
    }
}

/// A text stands in another if and only if that is the text with something before it and
/// something behind it.
pub proof fn law_what_stands_in(a: Seq<char>, needle: Seq<char>, b: Seq<char>, s: Seq<char>)
    ensures
        stands_in(a + needle + b, needle),
        stands_in(s, needle) ==> exists|x: Seq<char>, y: Seq<char>|
            s == #[trigger] (x + needle + y),
{
    let t = a + needle + b;
    assert(stands_at(t, needle, a.len() as int)) by {
        assert(t.subrange(a.len() as int, (a.len() + needle.len()) as int) =~= needle);
    }
    if stands_in(s, needle) {
        let i = choose|i: int| #[trigger] stands_at(s, needle, i);
        let x = s.take(i);
        let y = s.skip(i + needle.len());
        assert(s =~= x + needle + y);
    }
}

} // verus!
