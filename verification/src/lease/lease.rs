//! A lease, and what can go wrong with one.

use crate::text::{decimal_int, law_integers_read_back, with_integer};
use vstd::prelude::*;
use vstd::string::*;

verus! {

/// The number of a lease.
pub type LeaseId = i64;

/// The number that stands for no lease.
pub const NO_LEASE: LeaseId = 0;

/// A lease: the keys that are attached to it go when it expires.
#[derive(Debug)]
pub struct Lease {
    pub id: LeaseId,
    /// The seconds for which it is granted and renewed.
    pub ttl: i64,
    pub remaining_ttl: i64,
    /// When it expires, in nanoseconds since the start of the Unix epoch.
    pub expiry: u128,
    pub keys: Vec<Vec<u8>>,
    pub checkpoint_ttl: Option<i64>,
}

/// What a [`Lease`] says.
#[verifier::ext_equal]
pub struct LeaseView {
    pub id: i64,
    pub ttl: i64,
    pub remaining_ttl: i64,
    pub expiry: int,
    pub keys: Seq<Seq<u8>>,
    pub checkpoint_ttl: Option<i64>,
}

/// The bytes of some keys.
pub open spec fn key_views(keys: Seq<Vec<u8>>) -> Seq<Seq<u8>> {
    keys.map_values(|k: Vec<u8>| k@)
}

impl View for Lease {
    type V = LeaseView;

    open spec fn view(&self) -> LeaseView {
        LeaseView {
            id: self.id,
            ttl: self.ttl,
            remaining_ttl: self.remaining_ttl,
            expiry: self.expiry as int,
            keys: key_views(self.keys@),
            checkpoint_ttl: self.checkpoint_ttl,
        }
    }
}

/// A copy of some keys.
pub fn copy_keys(keys: &Vec<Vec<u8>>) -> (r: Vec<Vec<u8>>)
    ensures
        key_views(r@) == key_views(keys@),
{
    let mut r: Vec<Vec<u8>> = Vec::new();
    let mut i: usize = 0;
    while i < keys.len()
        invariant
            i <= keys@.len(),
            key_views(r@) == key_views(keys@).take(i as int),
        decreases keys@.len() - i,
    {
        let ghost before = r@;
        r.push(crate::mvccpb::copy_bytes(&keys[i]));
        proof {
            assert(key_views(r@) =~= key_views(before).push(keys@[i as int]@));
            assert(key_views(keys@).take(i + 1) =~= key_views(keys@).take(i as int).push(
                keys@[i as int]@,
            ));
        }
        i += 1;
    }
    assert(key_views(keys@).take(keys@.len() as int) =~= key_views(keys@));
    r
}

impl Clone for Lease {
    fn clone(&self) -> (r: Lease)
        ensures
            r@ == self@,
    {
        Lease {
            id: self.id,
            ttl: self.ttl,
            remaining_ttl: self.remaining_ttl,
            expiry: self.expiry,
            keys: copy_keys(&self.keys),
            checkpoint_ttl: self.checkpoint_ttl,
        }
    }
}

/// What can go wrong with a lease.
#[derive(Clone, Copy, Debug, PartialEq, Eq, Structural)]
pub enum LeaseError {
    NotFound(LeaseId),
    Exists(LeaseId),
    TTLTooLarge,
}

impl LeaseError {
    /// The error in words.
    pub open spec fn spec_text(self) -> Seq<char> {
        match self {
            LeaseError::NotFound(id) => "lease not found: "@ + decimal_int(id as int),
            LeaseError::Exists(id) => "lease already exists: "@ + decimal_int(id as int),
            LeaseError::TTLTooLarge => "ttl too large"@,
        }
    }

    /// The error in words.
    pub fn text(&self) -> (r: String)
        ensures
            r@ == self.spec_text(),
    {
        match self {
            LeaseError::NotFound(id) => with_integer("lease not found: ", *id),
            LeaseError::Exists(id) => with_integer("lease already exists: ", *id),
            LeaseError::TTLTooLarge => "ttl too large".to_owned(),
        }
    }

    /// The name of the error, with the lease that it is about.
    pub open spec fn spec_name(self) -> Seq<char> {
        match self {
            LeaseError::NotFound(id) => "NotFound("@ + decimal_int(id as int) + ")"@,
            LeaseError::Exists(id) => "Exists("@ + decimal_int(id as int) + ")"@,
            LeaseError::TTLTooLarge => "TTLTooLarge"@,
        }
    }

    /// The name of the error, with the lease that it is about.
    pub fn name(&self) -> (r: String)
        ensures
            r@ == self.spec_name(),
    {
        match self {
            LeaseError::NotFound(id) => {
                let mut r = with_integer("NotFound(", *id);
                r.append(")");
                r
            },
            LeaseError::Exists(id) => {
                let mut r = with_integer("Exists(", *id);
                r.append(")");
                r
            },
            LeaseError::TTLTooLarge => "TTLTooLarge".to_owned(),
        }
    }
}

/// What is said of a lease names it: of different leases something different is said.
pub proof fn law_errors_name_the_lease(a: i64, b: i64)
    requires
        a != b,
    ensures
        LeaseError::NotFound(a).spec_text() != LeaseError::NotFound(b).spec_text(),
        LeaseError::Exists(a).spec_text() != LeaseError::Exists(b).spec_text(),
        LeaseError::Exists(a).spec_name() != LeaseError::Exists(b).spec_name(),
        LeaseError::NotFound(a).spec_name() != LeaseError::NotFound(b).spec_name(),
{
    let x = decimal_int(a as int);
    let y = decimal_int(b as int);
    law_integers_read_back(a);
    law_integers_read_back(b);
    assert(x != y);
    lemma_between("lease not found: "@, x, y, Seq::empty());
    lemma_between("lease already exists: "@, x, y, Seq::empty());
    lemma_between("Exists("@, x, y, ")"@);
    lemma_between("NotFound("@, x, y, ")"@);
    assert("lease not found: "@ + x + Seq::empty() =~= "lease not found: "@ + x);
    assert("lease not found: "@ + y + Seq::empty() =~= "lease not found: "@ + y);
    assert("lease already exists: "@ + x + Seq::empty() =~= "lease already exists: "@ + x);
    assert("lease already exists: "@ + y + Seq::empty() =~= "lease already exists: "@ + y);
}

proof fn lemma_between(head: Seq<char>, x: Seq<char>, y: Seq<char>, tail: Seq<char>)
    requires
        x != y,
    ensures
        head + x + tail != head + y + tail,
{
    let a = head + x + tail;
    let b = head + y + tail;
    if a == b {
        assert(a.len() == b.len());
        let n = head.len() as int;
        assert(a.subrange(n, n + x.len()) =~= x);
        assert(b.subrange(n, n + y.len()) =~= y);
    }
}

} // verus!
