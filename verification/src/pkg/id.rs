//! Numbers that are unique within a member.

use crate::clock::{is_time, now_nanos, NANOS};
use vstd::prelude::*;

verus! {

/// Makes numbers that are unique within a member. The top 24 bits of a number are
/// those of the member, the next 16 bits count seconds, and the last 24 bits count
/// the numbers.
#[derive(Debug)]
pub struct IdGenerator {
    member_id: u64,
    counter: u64,
}

/// The model of an [`IdGenerator`].
#[verifier::ext_equal]
pub struct IdGeneratorView {
    pub member_id: u64,
    pub counter: u64,
}

impl View for IdGenerator {
    type V = IdGeneratorView;

    closed spec fn view(&self) -> IdGeneratorView {
        IdGeneratorView { member_id: self.member_id, counter: self.counter }
    }
}

/// The number of a member, a second and a count.
pub open spec fn id_of(member_id: u64, secs: u64, counter: u64) -> int {
    (member_id % 0x100_0000) * 0x100_0000_0000 + (secs % 0x1_0000) * 0x100_0000 + counter
        % 0x100_0000
}

/// The count after another.
pub open spec fn next_count(counter: u64) -> u64 {
    if counter == u64::MAX {
        0
    } else {
        (counter + 1) as u64
    }
}

impl IdGenerator {
    /// The numbers of a member.
    pub fn new(member_id: u64) -> (r: IdGenerator)
        ensures
            r@ == (IdGeneratorView { member_id, counter: 0 }),
    {
        IdGenerator { member_id, counter: 0 }
    }

    /// The next number.
    pub fn next(&mut self) -> (id: u64)
        ensures
            final(self)@ == (IdGeneratorView {
                counter: next_count(old(self)@.counter),
                ..old(self)@
            }),
            exists|now: int| #[trigger]
                is_time(now) && id == id_of(
                    old(self)@.member_id,
                    (now / 1_000_000_000) as u64,
                    old(self)@.counter,
                ),
    {
        let now = now_nanos();
        assert(is_time(now as int));
        self.next_at((now / NANOS) as u64)
    }

    /// The next number, at a second.
    pub fn next_at(&mut self, secs: u64) -> (id: u64)
        ensures
            final(self)@ == (IdGeneratorView {
                counter: next_count(old(self)@.counter),
                ..old(self)@
            }),
            id == id_of(old(self)@.member_id, secs, old(self)@.counter),
    {
        let member = self.member_id;
        let counter = self.counter;
        self.counter = counter.wrapping_add(1);
        assert((member << 40) | ((secs & 0xFFFF) << 24) | (counter & 0xFF_FFFF) == (member
            % 0x100_0000) * 0x100_0000_0000 + (secs % 0x1_0000) * 0x100_0000 + counter
            % 0x100_0000) by (bit_vector);
        (member << 40) | ((secs & 0xFFFF) << 24) | (counter & 0xFF_FFFF)
    }
}

/// The parts of a number can be read back.
pub proof fn law_id_parts(member_id: u64, secs: u64, counter: u64)
    ensures
        ({
            let id = id_of(member_id, secs, counter);
            &&& 0 <= id <= u64::MAX
            &&& id / 0x100_0000_0000 == member_id % 0x100_0000
            &&& id / 0x100_0000 % 0x1_0000 == secs % 0x1_0000
            &&& id % 0x100_0000 == counter % 0x100_0000
        }),
{
}

/// Numbers of different members differ.
pub proof fn law_members_differ(a: u64, b: u64, s: u64, t: u64, m: u64, n: u64)
    requires
        a % 0x100_0000 != b % 0x100_0000,
    ensures
        id_of(a, s, m) != id_of(b, t, n),
{
    law_id_parts(a, s, m);
    law_id_parts(b, t, n);
}

/// The count after some numbers.
pub open spec fn count_after(counter: u64, n: nat) -> u64
    decreases n,
{
    if n == 0 {
        counter
    } else {
        next_count(count_after(counter, (n - 1) as nat))
    }
}

proof fn lemma_count_after(counter: u64, n: nat)
    ensures
        count_after(counter, n) == (counter + n) % 0x1_0000_0000_0000_0000,
    decreases n,
{
    if n > 0 {
        lemma_count_after(counter, (n - 1) as nat);
    }
}

/// Of fewer than two to the power of 24 numbers in a row no two are the same,
/// whatever the clock says.
pub proof fn law_ids_differ(member_id: u64, counter: u64, s: u64, t: u64, m: nat, n: nat)
    requires
        m < n < m + 0x100_0000,
    ensures
        id_of(member_id, s, count_after(counter, m)) != id_of(
            member_id,
            t,
            count_after(counter, n),
        ),
{
    lemma_count_after(counter, m);
    lemma_count_after(counter, n);
    law_id_parts(member_id, s, count_after(counter, m));
    law_id_parts(member_id, t, count_after(counter, n));
}

} // verus!
