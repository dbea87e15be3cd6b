//! Key-value pairs as clients see them.

use crate::outside::{bytes_clone, bytes_contents};
use bytes::Bytes;
use vstd::prelude::*;

verus! {

/// A key with its value and the revisions that concern it.
#[derive(Debug)]
pub struct KeyValue {
    pub key: Vec<u8>,
    /// The revision that created the key.
    pub create_revision: i64,
    /// The revision of the last write.
    pub mod_revision: i64,
    /// How many writes there were since the key was created.
    pub version: i64,
    pub value: Bytes,
    pub lease: i64,
}

/// What a [`KeyValue`] says.
#[verifier::ext_equal]
pub struct KeyValueView {
    pub key: Seq<u8>,
    pub create_revision: int,
    pub mod_revision: int,
    pub version: int,
    pub value: Seq<u8>,
    pub lease: int,
}

impl View for KeyValue {
    type V = KeyValueView;

    open spec fn view(&self) -> KeyValueView {
        KeyValueView {
            key: self.key@,
            create_revision: self.create_revision as int,
            mod_revision: self.mod_revision as int,
            version: self.version as int,
            value: bytes_contents(self.value),
            lease: self.lease as int,
        }
    }
}

/// A copy of some bytes.
pub fn copy_bytes(v: &Vec<u8>) -> (r: Vec<u8>)
    ensures
        r@ == v@,
{
    vstd::slice::slice_to_vec(v.as_slice())
}

impl Clone for KeyValue {
    fn clone(&self) -> (r: KeyValue)
        ensures
            r@ == self@,
    {
        KeyValue {
            key: copy_bytes(&self.key),
            create_revision: self.create_revision,
            mod_revision: self.mod_revision,
            version: self.version,
            value: bytes_clone(&self.value),
            lease: self.lease,
        }
    }
}

/// The views of some key-value pairs.
pub open spec fn kv_views(kvs: Seq<KeyValue>) -> Seq<KeyValueView> {
    kvs.map_values(|kv: KeyValue| kv@)
}

/// The view of a pair that may be absent.
pub open spec fn opt_kv(kv: Option<KeyValue>) -> Option<KeyValueView> {
    match kv {
        Some(kv) => Some(kv@),
        None => None,
    }
}

/// A copy of a pair that may be absent.
pub fn copy_opt_kv(kv: &Option<KeyValue>) -> (r: Option<KeyValue>)
    ensures
        opt_kv(r) == opt_kv(*kv),
{
    match kv {
        Some(kv) => Some(kv.clone()),
        None => None,
    }
}

/// A changed pair, with what stood under its key before.
#[derive(Debug)]
pub struct KeyValueWithPrev {
    pub prev_kv: Option<KeyValue>,
    pub kv: KeyValue,
}

/// What a [`KeyValueWithPrev`] says.
#[verifier::ext_equal]
pub struct ChangeView {
    pub prev_kv: Option<KeyValueView>,
    pub kv: KeyValueView,
}

impl View for KeyValueWithPrev {
    type V = ChangeView;

    open spec fn view(&self) -> ChangeView {
        ChangeView { prev_kv: opt_kv(self.prev_kv), kv: self.kv@ }
    }
}

impl Clone for KeyValueWithPrev {
    fn clone(&self) -> (r: KeyValueWithPrev)
        ensures
            r@ == self@,
    {
        KeyValueWithPrev { prev_kv: copy_opt_kv(&self.prev_kv), kv: self.kv.clone() }
    }
}

/// The views of some changes.
pub open spec fn change_views(s: Seq<KeyValueWithPrev>) -> Seq<ChangeView> {
    s.map_values(|c: KeyValueWithPrev| c@)
}

/// What an event is about.
#[derive(Clone, Copy, Debug, PartialEq, Eq, Structural)]
pub enum EventType {
    Put,
    Delete,
}

/// The number of an event type.
pub open spec fn event_number(t: EventType) -> i32 {
    match t {
        EventType::Put => 0,
        EventType::Delete => 1,
    }
}

/// A change of a key as a watch tells it.
#[derive(Debug)]
pub struct Event {
    pub event_type: i32,
    pub kv: Option<KeyValue>,
    pub prev_kv: Option<KeyValue>,
}

/// A pair as election and lock responses spell it out, with a revision.
#[verifier::ext_equal]
pub struct FlatView {
    pub key: Seq<u8>,
    pub value: Seq<u8>,
    pub create_revision: int,
    pub mod_revision: int,
    pub version: int,
    pub lease: int,
    pub revision: int,
}

/// A pair spelled out, or nothing where there is no pair.
pub open spec fn flat(kv: Option<KeyValueView>, revision: int) -> FlatView {
    match kv {
        Some(kv) => FlatView {
            key: kv.key,
            value: kv.value,
            create_revision: kv.create_revision,
            mod_revision: kv.mod_revision,
            version: kv.version,
            lease: kv.lease,
            revision,
        },
        None => FlatView {
            key: Seq::empty(),
            value: Seq::empty(),
            create_revision: 0,
            mod_revision: 0,
            version: 0,
            lease: 0,
            revision,
        },
    }
}

} // verus!
