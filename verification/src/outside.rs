//! Items of other crates, and of the standard library where it has no
//! specification, that the library relies on. Verus believes these contracts.

use crate::text::decimal;
use bytes::Bytes;
use dashmap::{DashMap, DashSet};
use flate2::read::GzDecoder;
use flate2::write::GzEncoder;
use flate2::Compression;
use std::io::{Read, Write};
use std::time::{Duration, SystemTime, SystemTimeError};
use url::Url;
use vstd::prelude::*;

verus! {

// ---------------------------------------------------------------- bytes

/// `bytes::Bytes`, a shared, immutable run of bytes.
#[verifier::external_type_specification]
#[verifier::external_body]
pub struct ExBytes(Bytes);

/// The bytes that a `bytes::Bytes` holds.
pub uninterp spec fn bytes_contents(b: Bytes) -> Seq<u8>;

/// `<Bytes as From<Vec<u8>>>::from`: holds exactly the bytes of the vector.
#[verifier::external_body]
pub(crate) fn bytes_from_vec(v: Vec<u8>) -> (b: Bytes)
    ensures
        bytes_contents(b) == v@,
{
    Bytes::from(v)
}

/// `Bytes::new`: holds no byte.
#[verifier::external_body]
pub(crate) fn bytes_empty() -> (b: Bytes)
    ensures
        bytes_contents(b) == Seq::<u8>::empty(),
{
    Bytes::new()
}

/// `<Bytes as Clone>::clone`: the clone holds the same bytes.
#[verifier::external_body]
pub(crate) fn bytes_clone(b: &Bytes) -> (c: Bytes)
    ensures
        bytes_contents(c) == bytes_contents(*b),
{
    b.clone()
}

/// `Bytes::len`: how many bytes there are. As any run of bytes in memory, they are
/// no more than `isize::MAX`.
#[verifier::external_body]
pub(crate) fn bytes_len(b: &Bytes) -> (n: usize)
    ensures
        n == bytes_contents(*b).len(),
        n <= isize::MAX,
{
    b.len()
}

/// The bytes copied out, by `<[u8]>::to_vec` through the `Deref` of `Bytes`.
#[verifier::external_body]
pub(crate) fn bytes_to_vec(b: &Bytes) -> (v: Vec<u8>)
    ensures
        v@ == bytes_contents(*b),
{
    b.to_vec()
}

// -------------------------------------------------------------- dashmap

/// `dashmap::DashMap`, a hash map.
#[verifier::external_type_specification]
#[verifier::external_body]
#[verifier::reject_recursive_types(K)]
#[verifier::reject_recursive_types(V)]
#[verifier::reject_recursive_types(S)]
pub struct ExDashMap<K, V, S>(DashMap<K, V, S>);

/// What a `DashMap` from byte strings to positions holds.
pub uninterp spec fn index_contents(m: DashMap<Vec<u8>, usize>) -> Map<Seq<u8>, usize>;

/// `DashMap::new`: an empty map.
#[verifier::external_body]
pub(crate) fn index_new() -> (m: DashMap<Vec<u8>, usize>)
    ensures
        (index_contents(m) == Map::<Seq<u8>, usize>::empty()),
{
    DashMap::new()
}

/// `DashMap::get`: a copy of the value under the key, if there is one.
#[verifier::external_body]
pub(crate) fn index_get(m: &DashMap<Vec<u8>, usize>, key: &[u8]) -> (r: Option<usize>)
    ensures
        r == (if index_contents(*m).contains_key(key@) {
            Some(index_contents(*m)[key@])
        } else {
            None::<usize>
        }),
{
    m.get(key).map(|e| *e.value())
}

/// `DashMap::insert`: the key leads to the value, and every other key to what it
/// led to before.
#[verifier::external_body]
pub(crate) fn index_insert(m: &mut DashMap<Vec<u8>, usize>, key: Vec<u8>, value: usize)
    ensures
        index_contents(*final(m)) == index_contents(*old(m)).insert(key@, value),
{
    m.insert(key, value);
}

/// `dashmap::DashSet`, a hash set.
#[verifier::external_type_specification]
#[verifier::external_body]
#[verifier::reject_recursive_types(K)]
#[verifier::reject_recursive_types(S)]
pub struct ExDashSet<K, S>(DashSet<K, S>);

/// The byte strings that a `DashSet` holds.
pub uninterp spec fn byte_set_contents(s: DashSet<Vec<u8>>) -> Set<Seq<u8>>;

/// `DashSet::new`: an empty set.
#[verifier::external_body]
pub(crate) fn byte_set_new() -> (s: DashSet<Vec<u8>>)
    ensures
        byte_set_contents(s) == Set::<Seq<u8>>::empty(),
{
    DashSet::new()
}

/// `DashSet::insert`: the byte string is in the set, beside those that were there.
/// Returns whether it was not there before.
#[verifier::external_body]
pub(crate) fn byte_set_insert(s: &mut DashSet<Vec<u8>>, key: Vec<u8>) -> (new: bool)
    ensures
        new == !byte_set_contents(*old(s)).contains(key@),
        byte_set_contents(*final(s)) == byte_set_contents(*old(s)).insert(key@),
{
    s.insert(key)
}

/// `DashSet::contains`: whether the byte string is in the set.
#[verifier::external_body]
pub(crate) fn byte_set_contains(s: &DashSet<Vec<u8>>, key: &[u8]) -> (r: bool)
    ensures
        r == byte_set_contents(*s).contains(key@),
{
    s.contains(key)
}

// ------------------------------------------------------------------ std

/// `String::push`: the character is added at the end.
pub assume_specification[ String::push ](s: &mut String, c: char)
    ensures
        final(s)@ == old(s)@.push(c),
;

/// What `String::from_utf8_lossy` reads out of bytes.
pub uninterp spec fn utf8_lossy_text(bytes: Seq<u8>) -> Seq<char>;

/// `String::from_utf8_lossy`: the text of the bytes, with a replacement character
/// for what is not UTF-8. Which characters stand for malformed bytes is left
/// unsaid.
#[verifier::external_body]
pub(crate) fn utf8_lossy(bytes: &[u8]) -> (s: String)
    ensures
        s@ == utf8_lossy_text(bytes@),
{
    String::from_utf8_lossy(bytes).into_owned()
}

/// `std::time::SystemTime`, a point in time.
#[verifier::external_type_specification]
#[verifier::external_body]
pub struct ExSystemTime(SystemTime);

/// `std::time::SystemTimeError`, the error for a point in time that is not later.
#[verifier::external_type_specification]
#[verifier::external_body]
pub struct ExSystemTimeError(SystemTimeError);

/// `SystemTime::now`: the time of the machine. Nothing is known of it.
#[verifier::external_body]
pub(crate) fn time_now() -> (t: SystemTime) {
    SystemTime::now()
}

/// `SystemTime::duration_since` for the start of the Unix epoch. Nothing is known of
/// the span, nor of whether the time is before the epoch.
#[verifier::external_body]
pub(crate) fn time_since_epoch(t: &SystemTime) -> (r: Result<Duration, SystemTimeError>) {
    t.duration_since(SystemTime::UNIX_EPOCH)
}

/// `Duration::as_nanos`: the number of nanoseconds, of which a `Duration` holds no
/// more than `u64::MAX` seconds and a fraction of a second.
#[verifier::external_body]
pub(crate) fn duration_nanos(d: &Duration) -> (n: u128)
    ensures
        n <= u64::MAX * 1_000_000_000 + 999_999_999,
{
    d.as_nanos()
}

// ---------------------------------------------------------------- tonic

/// What `{:?}` writes of a `tonic::Status` with a code, given by its number, and a
/// message.
pub uninterp spec fn status_debug_text(code: i32, message: Seq<char>) -> Seq<char>;

/// The `Debug` of the `tonic::Status` that `Status::new` makes of a code and a
/// message, which depends on nothing else.
#[verifier::external_body]
pub(crate) fn status_debug(code: i32, message: &str) -> (s: String)
    ensures
        s@ == status_debug_text(code, message@),
{
    format!("{:?}", tonic::Status::new(tonic::Code::from_i32(code), message))
}

// ------------------------------------------------------------- openraft

/// The `Display` of the `openraft::CommittedLeaderId` of a term and a node, in the
/// build where a leader is told by both: the term after a `T`, a hyphen, and the
/// node after an `N`.
#[verifier::external_body]
pub(crate) fn leader_id_text(term: u64, node_id: u64) -> (s: String)
    ensures
        s@ == "T"@ + decimal(term as nat) + "-N"@ + decimal(node_id as nat),
{
    openraft::CommittedLeaderId::<u64>::new(term, node_id).to_string()
}

// --------------------------------------------------------------- flate2

/// The gzip member that `flate2` makes of bytes at its fast level, or the text of the
/// error, with whether it came at the end of the stream.
pub uninterp spec fn gzipped(data: Seq<u8>) -> Result<Seq<u8>, (bool, Seq<char>)>;

/// The bytes that `flate2` reads out of the first gzip member of some data, or the
/// text of the error.
pub uninterp spec fn gunzipped(data: Seq<u8>) -> Result<Seq<u8>, Seq<char>>;

/// `flate2::write::GzEncoder` over a vector, at the fast level: `write_all` of the
/// data and `finish`. What it makes of the data depends on nothing else, and
/// `flate2::read::GzDecoder` reads the data back out of it. That neither call fails
/// is left unsaid.
#[verifier::external_body]
pub(crate) fn gzip(data: &[u8]) -> (r: Result<Vec<u8>, (bool, String)>)
    ensures
        (match r {
            Ok(z) => gzipped(data@) == Ok::<Seq<u8>, (bool, Seq<char>)>(z@) && gunzipped(z@)
                == Ok::<Seq<u8>, Seq<char>>(data@),
            Err(e) => gzipped(data@) == Err::<Seq<u8>, (bool, Seq<char>)>((e.0, e.1@)),
        }),
{
    let mut encoder = GzEncoder::new(Vec::new(), Compression::fast());
    encoder.write_all(data).map_err(|e| (false, e.to_string()))?;
    encoder.finish().map_err(|e| (true, e.to_string()))
}

/// `flate2::read::GzDecoder` over bytes, read to the end. What comes out depends on
/// the bytes alone.
#[verifier::external_body]
pub(crate) fn gunzip(data: &[u8]) -> (r: Result<Vec<u8>, String>)
    ensures
        (match r {
            Ok(x) => gunzipped(data@) == Ok::<Seq<u8>, Seq<char>>(x@),
            Err(e) => gunzipped(data@) == Err::<Seq<u8>, Seq<char>>(e@),
        }),
{
    let mut out = Vec::new();
    GzDecoder::new(data).read_to_end(&mut out).map_err(|e| e.to_string())?;
    Ok(out)
}

// ------------------------------------------------------------------ url

/// What `Url::parse` reads in a text: the URL as it is written, its scheme, and
/// whether it has a host; or the text of the error.
pub uninterp spec fn parsed_url(s: Seq<char>) -> Result<(Seq<char>, Seq<char>, bool), Seq<char>>;

/// `Url::parse`, with `Url::as_str`, `Url::scheme` and whether `Url::host` is there.
/// They depend on the text alone.
#[verifier::external_body]
pub(crate) fn parse_url(s: &str) -> (r: Result<(String, String, bool), String>)
    ensures
        (match r {
            Ok(u) => parsed_url(s@) == Ok::<(Seq<char>, Seq<char>, bool), Seq<char>>(
                (u.0@, u.1@, u.2),
            ),
            Err(e) => parsed_url(s@) == Err::<(Seq<char>, Seq<char>, bool), Seq<char>>(e@),
        }),
{
    match Url::parse(s) {
        Ok(u) => Ok((u.as_str().to_owned(), u.scheme().to_owned(), u.host().is_some())),
        Err(e) => Err(e.to_string()),
    }
}

} // verus!
