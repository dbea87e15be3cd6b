//! Snapshots of a store, and the form in which they are kept.

use crate::outside::{gunzip, gunzipped, gzip, gzipped};
use crate::text::joined;
use vstd::prelude::*;

verus! {

/// What a snapshot is of.
#[derive(Clone, Copy, Debug)]
pub struct SnapshotMeta {
    pub revision: i64,
    pub timestamp_secs: u64,
    pub kv_count: usize,
}

/// A key in a snapshot.
#[derive(Debug)]
pub struct SnapshotEntry {
    pub key: Vec<u8>,
    pub value: Vec<u8>,
    pub create_revision: i64,
    pub mod_revision: i64,
    pub version: i64,
    pub lease: i64,
}

/// A snapshot of a store.
#[derive(Debug)]
pub struct StoreSnapshot {
    pub meta: SnapshotMeta,
    pub entries: Vec<SnapshotEntry>,
}

/// What is kept of a snapshot that has been written as JSON: that text, compressed.
pub open spec fn encoded(json: Result<Seq<u8>, Seq<char>>) -> Result<Seq<u8>, Seq<char>> {
    match json {
        Err(e) => Err("snapshot serialize: "@ + e),
        Ok(text) => packed(gzipped(text)),
    }
}

/// What is kept, given what the compression has made.
pub open spec fn packed(z: Result<Seq<u8>, (bool, Seq<char>)>) -> Result<Seq<u8>, Seq<char>> {
    match z {
        Ok(data) => Ok(data),
        Err(e) => Err(
            (if e.0 {
                "snapshot finish: "@
            } else {
                "snapshot compress: "@
            }) + e.1,
        ),
    }
}

/// The JSON text, given what the decompression has made.
pub open spec fn unpacked(x: Result<Seq<u8>, Seq<char>>) -> Result<Seq<u8>, Seq<char>> {
    match x {
        Ok(text) => Ok(text),
        Err(e) => Err("snapshot decompress: "@ + e),
    }
}

/// Bytes or an error, by their views.
pub open spec fn bytes_or_error(r: Result<Vec<u8>, String>) -> Result<Seq<u8>, Seq<char>> {
    match r {
        Ok(data) => Ok(data@),
        Err(e) => Err(e@),
    }
}

impl StoreSnapshot {
    /// What is kept of a snapshot, given what became of it as JSON. That text can be
    /// read back out of it.
    pub fn encode(json: Result<Vec<u8>, String>) -> (r: Result<Vec<u8>, String>)
        ensures
            bytes_or_error(r) == encoded(bytes_or_error(json)),
            r matches Ok(data) ==> unpacked(gunzipped(data@)) == bytes_or_error(json),
    {
        match json {
            Err(e) => Err(joined("snapshot serialize: ", e.as_str())),
            Ok(text) => Self::pack(gzip(text.as_slice())),
        }
    }

    /// What is kept, given what the compression has made: the error with whether it
    /// came at the end.
    pub fn pack(z: Result<Vec<u8>, (bool, String)>) -> (r: Result<Vec<u8>, String>)
        ensures
            bytes_or_error(r) == packed(
                match z {
                    Ok(data) => Ok(data@),
                    Err(e) => Err((e.0, e.1@)),
                },
            ),
    {
        match z {
            Ok(data) => Ok(data),
            Err(e) => {
                let head = if e.0 {
                    "snapshot finish: "
                } else {
                    "snapshot compress: "
                };
                Err(joined(head, e.1.as_str()))
            },
        }
    }

    /// The JSON text of what is kept of a snapshot.
    pub fn decode(data: &[u8]) -> (r: Result<Vec<u8>, String>)
        ensures
            bytes_or_error(r) == unpacked(gunzipped(data@)),
    {
        Self::unpack(gunzip(data))
    }

    /// The JSON text, given what the decompression has made.
    pub fn unpack(x: Result<Vec<u8>, String>) -> (r: Result<Vec<u8>, String>)
        ensures
            bytes_or_error(r) == unpacked(bytes_or_error(x)),
    {
        match x {
            Ok(text) => Ok(text),
            Err(e) => Err(joined("snapshot decompress: ", e.as_str())),
        }
    }
}

/// A snapshot is kept as it was compressed, and read as it was decompressed. What went
/// wrong is said behind the step at which it did.
pub proof fn law_snapshots_are_kept_as_they_are(data: Seq<u8>, error: Seq<char>)
    ensures
        packed(Ok(data)) == Ok::<Seq<u8>, Seq<char>>(data),
        unpacked(Ok(data)) == Ok::<Seq<u8>, Seq<char>>(data),
        packed(Err((true, error))) == Err::<Seq<u8>, Seq<char>>("snapshot finish: "@ + error),
        packed(Err((false, error))) == Err::<Seq<u8>, Seq<char>>("snapshot compress: "@ + error),
        unpacked(Err(error)) == Err::<Seq<u8>, Seq<char>>("snapshot decompress: "@ + error),
        encoded(Err(error)) == Err::<Seq<u8>, Seq<char>>("snapshot serialize: "@ + error),
        encoded(Ok(data)) is Ok == gzipped(data) is Ok,
        encoded(Ok(data)) is Ok ==> encoded(Ok(data))->Ok_0 == gzipped(data)->Ok_0,
{
}

} // verus!
