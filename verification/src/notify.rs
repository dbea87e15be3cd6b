//! What a write sets off: a job that tells the watchers and the log.

use crate::mvccpb::{copy_bytes, ChangeView, KeyValueWithPrev};
use crate::outside::bytes_to_vec;
use vstd::prelude::*;
use vstd::string::*;
use vstd::utf8::*;

verus! {

/// How the write-ahead log treats a record.
#[derive(Clone, Copy, Debug, PartialEq, Eq, Structural)]
pub enum WalMode {
    /// Nothing is written.
    Off,
    /// Records are written in the background.
    Async,
    /// A write waits until its record is on disk.
    Sync,
}

/// A job for the notification of one write.
#[derive(Debug)]
pub struct NotifyJob {
    /// The revision of the write.
    pub rev: i64,
    /// The watchers to tell.
    pub watchers: Vec<i64>,
    /// What to tell them.
    pub msg: KeyValueWithPrev,
    /// The prefix of the key, as text.
    pub prefix_str: String,
    /// The size of the values in the message.
    pub watch_result_size: u64,
    /// The write waits for the log.
    pub wal_sync: bool,
}

/// What a [`NotifyJob`] says.
#[verifier::ext_equal]
pub struct JobView {
    pub rev: int,
    pub watchers: Seq<i64>,
    pub msg: ChangeView,
    pub prefix: Seq<char>,
    pub size: int,
    pub wal_sync: bool,
}

impl View for NotifyJob {
    type V = JobView;

    open spec fn view(&self) -> JobView {
        JobView {
            rev: self.rev as int,
            watchers: self.watchers@,
            msg: self.msg@,
            prefix: self.prefix_str@,
            size: self.watch_result_size as int,
            wal_sync: self.wal_sync,
        }
    }
}

/// The views of some jobs.
pub open spec fn job_views(jobs: Seq<NotifyJob>) -> Seq<JobView> {
    jobs.map_values(|j: NotifyJob| j@)
}

/// A record of the write-ahead log.
#[derive(Debug)]
pub struct WalRecord {
    pub prefix: Vec<u8>,
    pub rev: i64,
    pub key: Vec<u8>,
    pub value: Option<Vec<u8>>,
}

/// The value of a record.
pub open spec fn opt_vec(v: Option<Vec<u8>>) -> Option<Seq<u8>> {
    match v {
        Some(v) => Some(v@),
        None => None,
    }
}

/// The value that the log keeps of a change: none for a deletion, whose version is
/// zero. An empty value is kept as such.
pub open spec fn logged_value(msg: ChangeView) -> Option<Seq<u8>> {
    if msg.kv.version == 0 {
        None
    } else {
        Some(msg.kv.value)
    }
}

impl NotifyJob {
    /// The record that the log keeps of the write. That of a deletion has no value.
    pub fn wal_record(&self) -> (r: WalRecord)
        ensures
            r.prefix@ == encode_utf8(self@.prefix),
            r.rev == self@.rev,
            r.key@ == self@.msg.kv.key,
            opt_vec(r.value) == logged_value(self@.msg),
    {
        WalRecord {
            prefix: vstd::slice::slice_to_vec(self.prefix_str.as_str().as_bytes()),
            rev: self.rev,
            key: copy_bytes(&self.msg.kv.key),
            value: if self.msg.kv.version == 0 {
                None
            } else {
                Some(bytes_to_vec(&self.msg.kv.value))
            },
        }
    }
}

/// The state of the notification of writes: jobs go out in the order of their
/// revisions, and wait while an earlier one is missing.
#[verifier::ext_equal]
pub struct NotifierView {
    /// The revision that goes out next.
    pub next: int,
    /// The jobs that wait, by their revisions.
    pub spool: Seq<JobView>,
}

/// A job is put among those that wait, behind those that do not come later.
pub open spec fn spooled(spool: Seq<JobView>, job: JobView) -> Seq<JobView>
    decreases spool.len(),
{
    if spool.len() == 0 || spool.last().rev <= job.rev {
        spool.push(job)
    } else {
        spooled(spool.drop_last(), job).push(spool.last())
    }
}

/// How many jobs at the front of those that wait go out, from a revision on.
pub open spec fn ready(spool: Seq<JobView>, next: int) -> nat
    decreases spool.len(),
{
    if spool.len() == 0 || spool[0].rev != next {
        0
    } else {
        1 + ready(spool.skip(1), next + 1)
    }
}

impl NotifierView {
    /// The jobs that go out when a job arrives.
    pub open spec fn sent(self, job: JobView) -> Seq<JobView> {
        if job.rev > self.next {
            Seq::empty()
        } else {
            seq![job] + self.spool.take(ready(self.spool, self.next + 1) as int)
        }
    }

    /// The state after a job arrived.
    pub open spec fn after(self, job: JobView) -> NotifierView {
        if job.rev > self.next {
            NotifierView { next: self.next, spool: spooled(self.spool, job) }
        } else {
            let n = ready(self.spool, self.next + 1);
            NotifierView { next: self.next + 1 + n, spool: self.spool.skip(n as int) }
        }
    }

    /// The jobs that wait come after the next revision, one for each revision.
    pub open spec fn tidy(self) -> bool {
        &&& forall|i: int| 0 <= i < self.spool.len() ==> (#[trigger] self.spool[i]).rev > self.next
        &&& forall|i: int, j: int|
            #![trigger self.spool[i], self.spool[j]]
            0 <= i < j < self.spool.len() ==> self.spool[i].rev < self.spool[j].rev
    }
}

/// Sends the notification of writes in the order of their revisions.
#[derive(Debug)]
pub struct Notifier {
    next_rev: i64,
    job_spool: Vec<NotifyJob>,
}

impl View for Notifier {
    type V = NotifierView;

    closed spec fn view(&self) -> NotifierView {
        NotifierView { next: self.next_rev as int, spool: job_views(self.job_spool@) }
    }
}

proof fn lemma_ready(spool: Seq<JobView>, next: int)
    ensures
        ready(spool, next) <= spool.len(),
        forall|i: int| 0 <= i < ready(spool, next) ==> (#[trigger] spool[i]).rev == next + i,
        ready(spool, next) < spool.len() ==> spool[ready(spool, next) as int].rev != next + ready(
            spool,
            next,
        ),
    decreases spool.len(),
{
    if spool.len() > 0 && spool[0].rev == next {
        let rest = spool.skip(1);
        lemma_ready(rest, next + 1);
        assert forall|i: int| 0 <= i < ready(spool, next) implies (#[trigger] spool[i]).rev == next
            + i by {
            if i > 0 {
                assert(rest[i - 1] == spool[i]);
            }
        }
        if ready(spool, next) < spool.len() {
            assert(rest[ready(rest, next + 1) as int] == spool[ready(spool, next) as int]);
        }
    }
}

proof fn lemma_ready_is(spool: Seq<JobView>, next: int, n: nat)
    requires
        n <= spool.len(),
        forall|i: int| 0 <= i < n ==> (#[trigger] spool[i]).rev == next + i,
        n < spool.len() ==> spool[n as int].rev != next + n,
    ensures
        ready(spool, next) == n,
{
    lemma_ready(spool, next);
    let m = ready(spool, next);
    if m < n {
        assert(spool[m as int].rev == next + m);
    } else if n < m {
        assert(spool[n as int].rev == next + n);
    }
}

proof fn lemma_spooled(spool: Seq<JobView>, job: JobView, p: int)
    requires
        0 <= p <= spool.len(),
        p > 0 ==> spool[p - 1].rev <= job.rev,
        forall|i: int| p <= i < spool.len() ==> (#[trigger] spool[i]).rev > job.rev,
    ensures
        spooled(spool, job) == spool.insert(p, job),
    decreases spool.len(),
{
    if spool.len() == p {
        assert(spool.insert(p, job) =~= spool.push(job));
    } else {
        lemma_spooled(spool.drop_last(), job, p);
        assert(spool.insert(p, job) =~= spool.drop_last().insert(p, job).push(spool.last()));
    }
}

impl Notifier {
    /// Nothing was sent yet: the first revision goes out first.
    pub fn new() -> (r: Notifier)
        ensures
            r@ == (NotifierView { next: 1, spool: Seq::<JobView>::empty() }),
    {
        let r = Notifier { next_rev: 1, job_spool: Vec::new() };
        assert(r@.spool =~= Seq::empty());
        r
    }

    /// The revisions up to one are not sent: the next one goes out first.
    pub fn starting_after(rev: i64) -> (r: Notifier)
        requires
            rev < i64::MAX,
        ensures
            r@ == (NotifierView { next: rev + 1, spool: Seq::<JobView>::empty() }),
    {
        let r = Notifier { next_rev: rev + 1, job_spool: Vec::new() };
        assert(r@.spool =~= Seq::empty());
        r
    }

    /// The last revision that watchers have been told of.
    pub fn progress(&self) -> (r: i64)
        requires
            self@.next >= 0,
        ensures
            r == self@.next - 1,
    {
        self.next_rev - 1
    }

    /// Takes a job and returns those that go out now, in their order.
    pub fn offer(&mut self, job: NotifyJob) -> (sent: Vec<NotifyJob>)
        requires
            old(self)@.next + old(self)@.spool.len() < i64::MAX,
        ensures
            job_views(sent@) == old(self)@.sent(job@),
            final(self)@ == old(self)@.after(job@),
    {
        let ghost before = self@;
        let ghost j = job@;
        let mut sent: Vec<NotifyJob> = Vec::new();
        if job.rev > self.next_rev {
            let mut p: usize = self.job_spool.len();
            while p > 0 && self.job_spool[p - 1].rev > job.rev
                invariant
                    p <= self.job_spool@.len(),
                    self@ == before,
                    forall|i: int|
                        p <= i < self.job_spool@.len() ==> (#[trigger] before.spool[i]).rev > j.rev,
                    j == job@,
                decreases p,
            {
                p -= 1;
            }
            self.job_spool.insert(p, job);
            proof {
                lemma_spooled(before.spool, j, p as int);
                assert(self@.spool =~= before.spool.insert(p as int, j));
                assert(job_views(sent@) =~= Seq::empty());
            }
            return sent;
        }
        sent.push(job);
        self.next_rev = self.next_rev + 1;
        let mut n: usize = 0;
        while n < self.job_spool.len() && self.job_spool[n].rev == self.next_rev
            invariant
                n <= self.job_spool@.len(),
                self@.spool == before.spool,
                self.next_rev == before.next + 1 + n,
                before.next + before.spool.len() < i64::MAX,
                forall|i: int| 0 <= i < n ==> (#[trigger] before.spool[i]).rev == before.next + 1 + i,
            decreases self.job_spool@.len() - n,
        {
            assert(before.spool[n as int].rev == self.job_spool@[n as int].rev);
            self.next_rev = self.next_rev + 1;
            n += 1;
        }
        proof {
            if n < before.spool.len() {
                assert(before.spool[n as int].rev == self.job_spool@[n as int].rev);
            }
            lemma_ready_is(before.spool, before.next + 1, n as nat);
        }
        let ghost all = self.job_spool@;
        let rest = self.job_spool.split_off(n);
        sent.append(&mut self.job_spool);
        self.job_spool = rest;
        proof {
            assert(job_views(sent@) =~= seq![j] + before.spool.take(n as int));
            assert(self@.spool =~= before.spool.skip(n as int));
        }
        sent
    }
}

/// Jobs go out in the order of their revisions without a gap: what a job sets free
/// are the revisions from the next one on, one after the other, and the rest waits.
pub proof fn law_sent_in_order(s: NotifierView, job: JobView)
    requires
        s.tidy(),
        job.rev >= s.next,
        forall|i: int| 0 <= i < s.spool.len() ==> (#[trigger] s.spool[i]).rev != job.rev,
    ensures
        s.after(job).tidy(),
        forall|i: int|
            0 <= i < s.sent(job).len() ==> (#[trigger] s.sent(job)[i]).rev == s.next + i,
        s.after(job).next == s.next + s.sent(job).len(),
        s.sent(job).to_multiset().add(s.after(job).spool.to_multiset())
            =~= s.spool.to_multiset().insert(job),
{
    broadcast use vstd::seq_lib::group_to_multiset_ensures;

    let t = s.after(job);
    if job.rev > s.next {
        let p = lemma_place(s.spool, job);
        lemma_spooled(s.spool, job, p);
        assert forall|i: int| 0 <= i < t.spool.len() implies (#[trigger] t.spool[i]).rev
            > t.next by {
            if i < p {
                assert(t.spool[i] == s.spool[i]);
            } else if i > p {
                assert(t.spool[i] == s.spool[i - 1]);
            }
        }
        assert forall|i: int, j: int|
            #![trigger t.spool[i], t.spool[j]]
            0 <= i < j < t.spool.len() implies t.spool[i].rev < t.spool[j].rev by {
            let a = if i < p { i } else { i - 1 };
            let b = if j < p { j } else { j - 1 };
            if i != p {
                assert(t.spool[i] == s.spool[a]);
            }
            if j != p {
                assert(t.spool[j] == s.spool[b]);
            }
            if j == p && i < p - 1 {
                assert(s.spool[i].rev < s.spool[p - 1].rev);
            }
        }
        assert(s.sent(job).to_multiset() =~= vstd::multiset::Multiset::empty());
        lemma_insert_multiset(s.spool, p, job);
    } else {
        let n = ready(s.spool, s.next + 1);
        lemma_ready(s.spool, s.next + 1);
        let first = s.spool.take(n as int);
        assert(s.spool =~= first + t.spool);
        vstd::seq_lib::lemma_multiset_commutative(first, t.spool);
        vstd::seq_lib::lemma_multiset_commutative(seq![job], first);
        assert(seq![job].to_multiset() =~= vstd::multiset::Multiset::empty().insert(job)) by {
            assert(seq![job] =~= Seq::<JobView>::empty().push(job));
        }
        assert forall|i: int| 0 <= i < s.sent(job).len() implies (#[trigger] s.sent(job)[i]).rev
            == s.next + i by {
            if i > 0 {
                assert(s.sent(job)[i] == s.spool[i - 1]);
            }
        }
        assert forall|i: int| 0 <= i < t.spool.len() implies (#[trigger] t.spool[i]).rev
            > t.next by {
            assert(t.spool[i] == s.spool[i + n]);
            if n > 0 {
                assert(s.spool[n - 1].rev < s.spool[n as int].rev);
            }
            if i > 0 {
                assert(s.spool[n as int].rev < s.spool[i + n].rev);
            }
        }
    }
}

/// The jobs that go out when some jobs arrive, one after the other.
pub open spec fn all_sent(s: NotifierView, jobs: Seq<JobView>) -> Seq<JobView>
    decreases jobs.len(),
{
    if jobs.len() == 0 {
        Seq::empty()
    } else {
        s.sent(jobs[0]) + all_sent(s.after(jobs[0]), jobs.skip(1))
    }
}

/// The state after some jobs arrived, one after the other.
pub open spec fn after_all(s: NotifierView, jobs: Seq<JobView>) -> NotifierView
    decreases jobs.len(),
{
    if jobs.len() == 0 {
        s
    } else {
        after_all(s.after(jobs[0]), jobs.skip(1))
    }
}

/// Jobs that arrive are those of different revisions that did not go out and do not
/// wait.
pub open spec fn arriving(s: NotifierView, jobs: Seq<JobView>) -> bool {
    &&& forall|k: int| 0 <= k < jobs.len() ==> (#[trigger] jobs[k]).rev >= s.next
    &&& forall|k: int, i: int|
        #![trigger jobs[k], s.spool[i]]
        0 <= k < jobs.len() && 0 <= i < s.spool.len() ==> s.spool[i].rev != jobs[k].rev
    &&& forall|k: int, l: int|
        #![trigger jobs[k], jobs[l]]
        0 <= k < l < jobs.len() ==> jobs[k].rev != jobs[l].rev
}

/// What is sent or waits after a job arrived, was waiting or is that job.
proof fn lemma_from(s: NotifierView, job: JobView, x: JobView)
    requires
        s.tidy(),
        job.rev >= s.next,
        forall|i: int| 0 <= i < s.spool.len() ==> (#[trigger] s.spool[i]).rev != job.rev,
        s.sent(job).contains(x) || s.after(job).spool.contains(x),
    ensures
        x == job || s.spool.contains(x),
{
    broadcast use vstd::seq_lib::group_to_multiset_ensures;

    law_sent_in_order(s, job);
    let before = s.spool.to_multiset().insert(job);
    assert(s.sent(job).to_multiset().add(s.after(job).spool.to_multiset()).count(x) > 0);
    assert(before.count(x) > 0);
    if x != job {
        assert(s.spool.to_multiset().count(x) > 0);
    }
}

/// After a job arrived, the others still arrive.
proof fn lemma_arriving(s: NotifierView, jobs: Seq<JobView>)
    requires
        s.tidy(),
        arriving(s, jobs),
        jobs.len() > 0,
    ensures
        arriving(s.after(jobs[0]), jobs.skip(1)),
{
    let job = jobs[0];
    let rest = jobs.skip(1);
    let t = s.after(job);
    law_sent_in_order(s, job);
    assert forall|k: int| 0 <= k < rest.len() implies (#[trigger] rest[k]).rev >= t.next by {
        assert(rest[k] == jobs[k + 1]);
        let n: int = rest[k].rev - s.next;
        if rest[k].rev < t.next {
            let x = s.sent(job)[n];
            assert(x.rev == rest[k].rev);
            assert(s.sent(job).contains(x));
            lemma_from(s, job, x);
            if x != job {
                let i = choose|i: int| 0 <= i < s.spool.len() && s.spool[i] == x;
                assert(s.spool[i].rev != jobs[k + 1].rev);
            }
        }
    }
    assert forall|k: int, i: int|
        #![trigger rest[k], t.spool[i]]
        0 <= k < rest.len() && 0 <= i < t.spool.len() implies t.spool[i].rev != rest[k].rev by {
        assert(rest[k] == jobs[k + 1]);
        let x = t.spool[i];
        assert(t.spool.contains(x));
        lemma_from(s, job, x);
        if x != job {
            let o = choose|o: int| 0 <= o < s.spool.len() && s.spool[o] == x;
            assert(s.spool[o].rev != jobs[k + 1].rev);
        }
    }
    assert forall|k: int, l: int|
        #![trigger rest[k], rest[l]]
        0 <= k < l < rest.len() implies rest[k].rev != rest[l].rev by {
        assert(rest[k] == jobs[k + 1]);
        assert(rest[l] == jobs[l + 1]);
    }
}

/// In whatever order the jobs arrive, they go out in the order of their revisions,
/// without a gap and each one once, and those that wait are the others.
pub proof fn law_arrival_does_not_matter(s: NotifierView, jobs: Seq<JobView>)
    requires
        s.tidy(),
        arriving(s, jobs),
    ensures
        after_all(s, jobs).tidy(),
        forall|i: int|
            0 <= i < all_sent(s, jobs).len() ==> (#[trigger] all_sent(s, jobs)[i]).rev == s.next
                + i,
        after_all(s, jobs).next == s.next + all_sent(s, jobs).len(),
        all_sent(s, jobs).to_multiset().add(after_all(s, jobs).spool.to_multiset())
            =~= s.spool.to_multiset().add(jobs.to_multiset()),
    decreases jobs.len(),
{
    broadcast use vstd::seq_lib::group_to_multiset_ensures;

    if jobs.len() > 0 {
        let job = jobs[0];
        let rest = jobs.skip(1);
        let t = s.after(job);
        law_sent_in_order(s, job);
        lemma_arriving(s, jobs);
        law_arrival_does_not_matter(t, rest);
        let first = s.sent(job);
        let then = all_sent(t, rest);
        assert forall|i: int| 0 <= i < all_sent(s, jobs).len() implies (#[trigger] all_sent(
            s,
            jobs,
        )[i]).rev == s.next + i by {
            if i < first.len() {
                assert(all_sent(s, jobs)[i] == first[i]);
            } else {
                assert(all_sent(s, jobs)[i] == then[i - first.len()]);
            }
        }
        vstd::seq_lib::lemma_multiset_commutative(first, then);
        assert(jobs =~= seq![job] + rest);
        vstd::seq_lib::lemma_multiset_commutative(seq![job], rest);
        assert(seq![job].to_multiset() =~= vstd::multiset::Multiset::empty().insert(job)) by {
            assert(seq![job] =~= Seq::<JobView>::empty().push(job));
        }
        let waiting = t.spool.to_multiset();
        let left = after_all(t, rest).spool.to_multiset();
        assert(first.to_multiset().add(waiting) == s.spool.to_multiset().insert(job));
        assert(then.to_multiset().add(left) == waiting.add(rest.to_multiset()));
        assert(all_sent(s, jobs).to_multiset() == first.to_multiset().add(then.to_multiset()));
        assert(jobs.to_multiset() == seq![job].to_multiset().add(rest.to_multiset()));
        assert forall|x: JobView|
            all_sent(s, jobs).to_multiset().add(left).count(x) == s.spool.to_multiset().add(
                jobs.to_multiset(),
            ).count(x) by {
            assert(first.to_multiset().add(waiting).count(x) == s.spool.to_multiset().insert(
                job,
            ).count(x));
            assert(then.to_multiset().add(left).count(x) == waiting.add(rest.to_multiset()).count(
                x,
            ));
        }
    } else {
        assert(jobs.to_multiset() =~= vstd::multiset::Multiset::empty());
        assert(all_sent(s, jobs).to_multiset() =~= vstd::multiset::Multiset::empty());
    }
}

/// No job waits for ever: once the jobs of all revisions up to one have arrived, all
/// of them have gone out.
pub proof fn law_all_go_out(s: NotifierView, jobs: Seq<JobView>, upto: int)
    requires
        s.tidy(),
        arriving(s, jobs),
        forall|rev: int|
            #![trigger has_revision(s.spool, rev)]
            s.next <= rev <= upto ==> has_revision(s.spool, rev) || has_revision(jobs, rev),
    ensures
        after_all(s, jobs).next > upto,
{
    broadcast use vstd::seq_lib::group_to_multiset_ensures;

    law_arrival_does_not_matter(s, jobs);
    let t = after_all(s, jobs);
    let sent = all_sent(s, jobs);
    if t.next <= upto {
        assert(has_revision(s.spool, t.next) || has_revision(jobs, t.next));
        let x = if has_revision(s.spool, t.next) {
            s.spool[choose|i: int| 0 <= i < s.spool.len() && #[trigger] s.spool[i].rev == t.next]
        } else {
            jobs[choose|i: int| 0 <= i < jobs.len() && #[trigger] jobs[i].rev == t.next]
        };
        assert(s.spool.contains(x) || jobs.contains(x));
        assert(s.spool.to_multiset().add(jobs.to_multiset()).count(x) > 0);
        assert(sent.to_multiset().count(x) > 0 || t.spool.to_multiset().count(x) > 0);
        if sent.contains(x) {
            let i = choose|i: int| 0 <= i < sent.len() && sent[i] == x;
            assert(sent[i].rev == s.next + i);
        } else {
            let i = choose|i: int| 0 <= i < t.spool.len() && t.spool[i] == x;
            assert(t.spool[i].rev > t.next);
        }
    }
}

/// One of some jobs has a revision.
pub open spec fn has_revision(jobs: Seq<JobView>, rev: int) -> bool {
    exists|i: int| 0 <= i < jobs.len() && #[trigger] jobs[i].rev == rev
}

proof fn lemma_place(spool: Seq<JobView>, job: JobView) -> (p: int)
    ensures
        0 <= p <= spool.len(),
        p > 0 ==> spool[p - 1].rev <= job.rev,
        forall|i: int| p <= i < spool.len() ==> (#[trigger] spool[i]).rev > job.rev,
    decreases spool.len(),
{
    if spool.len() == 0 || spool.last().rev <= job.rev {
        spool.len() as int
    } else {
        let p = lemma_place(spool.drop_last(), job);
        if p > 0 {
            assert(spool.drop_last()[p - 1] == spool[p - 1]);
        }
        assert forall|i: int| p <= i < spool.len() implies (#[trigger] spool[i]).rev > job.rev by {
            if i < spool.len() - 1 {
                assert(spool.drop_last()[i] == spool[i]);
            }
        }
        p
    }
}

proof fn lemma_insert_multiset(spool: Seq<JobView>, p: int, job: JobView)
    requires
        0 <= p <= spool.len(),
    ensures
        spool.insert(p, job).to_multiset() =~= spool.to_multiset().insert(job),
{
    broadcast use vstd::seq_lib::group_to_multiset_ensures;

    let a = spool.take(p);
    let b = spool.skip(p);
    assert(spool =~= a + b);
    assert(spool.insert(p, job) =~= a.push(job) + b);
    vstd::seq_lib::lemma_multiset_commutative(a, b);
    vstd::seq_lib::lemma_multiset_commutative(a.push(job), b);
}

/// When a job goes out: at once if its revision has come, before those that it sets free,
/// and not while an earlier revision is missing. Then it waits.
pub proof fn law_when_a_job_goes_out(s: NotifierView, job: JobView)
    ensures
        job.rev <= s.next ==> s.sent(job).len() > 0 && s.sent(job)[0] == job,
        job.rev > s.next ==> {
            &&& s.sent(job).len() == 0
            &&& s.after(job).next == s.next
            &&& s.after(job).spool.contains(job)
            &&& s.after(job).spool.len() == s.spool.len() + 1
        },
{
    if job.rev > s.next {
        let p = lemma_place(s.spool, job);
        lemma_spooled(s.spool, job, p);
        assert(s.after(job).spool[p] == job);
    }
}

/// The log keeps the value of a change that has one, be it empty, and none for a deletion.
pub proof fn law_logged_values(msg: ChangeView)
    ensures
        msg.kv.version != 0 ==> logged_value(msg) == Some(msg.kv.value),
        msg.kv.version == 0 ==> logged_value(msg) is None,
{
}

} // verus!
