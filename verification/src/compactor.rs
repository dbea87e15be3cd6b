//! The schedule of automatic compactions.

use crate::rpc::status::Status;
use crate::store::{Store, StoreView};
use crate::text::{
    chars_of, decimal, decimal_int, is_digit, is_space, law_decimal_digits,
    law_integers_read_back, law_numbers_read_back, law_trimmed_fixed, law_trimmed_is_inside,
    parse_signed, parse_unsigned, signed_value, text_of, trim, trimmed, unsigned_value,
};
use vstd::prelude::*;
use vstd::string::*;

verus! {

/// When a compaction takes place.
#[derive(Clone, Copy, Debug, PartialEq, Eq, Structural)]
pub enum CompactorMode {
    /// After a fixed time, up to the last revision.
    Periodic,
    /// When there are as many new revisions as are retained.
    Revision,
}

/// What a schedule comes to.
#[derive(Clone, Copy, Debug, PartialEq, Eq, Structural)]
pub enum Schedule {
    /// It runs already.
    Running,
    /// Nothing is to be done.
    Disabled,
    /// Once per so many seconds, the first time after them.
    Every(u64),
    /// Once per second, if there are so many new revisions.
    Revisions(i64),
}

/// What became of a compaction that was due.
#[derive(Debug)]
pub enum Compaction {
    /// The schedule is paused.
    Paused,
    /// There are too few new revisions.
    NotYet,
    /// The store is compacted to a revision.
    Done(i64),
    Failed(Status),
}

/// A schedule of compactions.
///
/// For [`CompactorMode::Periodic`] the retention is a time such as `1h30m`, and for
/// [`CompactorMode::Revision`] a number of revisions. Zero, and a text that cannot be
/// read, disable it.
#[derive(Debug)]
pub struct Compactor {
    mode: CompactorMode,
    retention: String,
    last_compacted: i64,
    paused: bool,
    running: bool,
}

/// The model of a [`Compactor`].
#[verifier::ext_equal]
pub struct CompactorView {
    pub mode: CompactorMode,
    pub retention: Seq<char>,
    pub last_compacted: int,
    pub paused: bool,
    pub running: bool,
}

impl View for Compactor {
    type V = CompactorView;

    closed spec fn view(&self) -> CompactorView {
        CompactorView {
            mode: self.mode,
            retention: self.retention@,
            last_compacted: self.last_compacted as int,
            paused: self.paused,
            running: self.running,
        }
    }
}

/// The seconds of a unit of time.
pub open spec fn unit_seconds(c: char) -> Option<nat> {
    if c == 'h' {
        Some(3600)
    } else if c == 'm' {
        Some(60)
    } else if c == 's' {
        Some(1)
    } else {
        None
    }
}

/// A text in quotes, after some words.
pub open spec fn quoted(words: Seq<char>, s: Seq<char>) -> Seq<char> {
    words + s + "'"@
}

/// What a time reads as from some position on, after digits and seconds that were
/// read: seconds, or an error. Nothing where the seconds go beyond a `u64` in sum.
pub open spec fn read_rest(s: Seq<char>, i: int, digits: Seq<char>, total: nat) -> Option<
    Result<nat, Seq<char>>,
>
    decreases s.len() - i,
{
    if i >= s.len() {
        if digits.len() > 0 {
            Some(Err(quoted("incomplete duration string: '"@, s)))
        } else {
            Some(Ok(total))
        }
    } else if is_digit(s[i]) {
        read_rest(s, i + 1, digits.push(s[i]), total)
    } else if digits.len() == 0 {
        Some(Err(quoted("invalid duration string: '"@, s)))
    } else {
        match unsigned_value(digits) {
            Err(_) => Some(Err(quoted("invalid duration string: '"@, s))),
            Ok(n) => match unit_seconds(s[i]) {
                None => Some(Err(quoted("unknown duration suffix: '"@, seq![s[i]]))),
                Some(unit) => if n * unit > u64::MAX {
                    Some(Err("duration overflow"@))
                } else if total + n * unit > u64::MAX {
                    None
                } else {
                    read_rest(s, i + 1, Seq::empty(), total + n * unit)
                },
            },
        }
    }
}

/// What a time such as `1h30m` reads as.
pub open spec fn duration_of(text: Seq<char>) -> Option<Result<nat, Seq<char>>> {
    let s = trimmed(text);
    if s.len() == 0 || s == "0"@ {
        Some(Ok(0))
    } else {
        read_rest(s, 0, Seq::empty(), 0)
    }
}

fn in_quotes(words: &str, s: &Vec<char>) -> (r: String)
    ensures
        r@ == quoted(words@, s@),
{
    let mut r = words.to_owned();
    r.append(text_of(s).as_str());
    r.append("'");
    r
}

/// Reads a time such as `1h30m`: numbers of hours (`h`), minutes (`m`) and seconds
/// (`s`). Returns the seconds, or nothing where their sum goes beyond a `u64`.
pub fn read_duration(text: &str) -> (r: Option<Result<u64, String>>)
    ensures
        match duration_of(text@) {
            None => r is None,
            Some(Ok(n)) => r matches Some(Ok(x)) && x == n,
            Some(Err(e)) => r matches Some(Err(x)) && x@ == e,
        },
{
    let all = chars_of(text);
    let s = trim(&all);
    proof {
        reveal_strlit("0");
    }
    if s.len() == 0 {
        return Some(Ok(0));
    }
    if s.len() == 1 && s[0] == '0' {
        assert(s@ =~= "0"@);
        return Some(Ok(0));
    }
    assert(s@ != "0"@);
    let mut digits: Vec<char> = Vec::new();
    let mut total: u64 = 0;
    let mut i: usize = 0;
    assert(digits@ =~= Seq::empty());
    while i < s.len()
        invariant
            i <= s@.len(),
            duration_of(text@) == read_rest(s@, i as int, digits@, total as nat),
        decreases s@.len() - i,
    {
        let c = s[i];
        if '0' <= c && c <= '9' {
            digits.push(c);
        } else {
            if digits.len() == 0 {
                return Some(Err(in_quotes("invalid duration string: '", &s)));
            }
            let n = match parse_unsigned(&digits) {
                Ok(n) => n,
                Err(_) => {
                    return Some(Err(in_quotes("invalid duration string: '", &s)));
                },
            };
            let unit: u64 = if c == 'h' {
                3600
            } else if c == 'm' {
                60
            } else if c == 's' {
                1
            } else {
                let mut one: Vec<char> = Vec::new();
                one.push(c);
                assert(one@ =~= seq![c]);
                return Some(Err(in_quotes("unknown duration suffix: '", &one)));
            };
            let more = match n.checked_mul(unit) {
                Some(more) => more,
                None => {
                    return Some(Err("duration overflow".to_owned()));
                },
            };
            total = match total.checked_add(more) {
                Some(sum) => sum,
                None => {
                    return None;
                },
            };
            digits = Vec::new();
            assert(digits@ =~= Seq::empty());
        }
        i += 1;
    }
    if digits.len() > 0 {
        return Some(Err(in_quotes("incomplete duration string: '", &s)));
    }
    Some(Ok(total))
}

/// Reads a time such as `1h30m`: numbers of hours (`h`), minutes (`m`) and seconds
/// (`s`). Returns the seconds.
pub fn parse_duration(text: &str) -> (r: Result<u64, String>)
    requires
        duration_of(text@) is Some,
    ensures
        match duration_of(text@)->0 {
            Ok(n) => r matches Ok(x) && x == n,
            Err(e) => r matches Err(x) && x@ == e,
        },
{
    match read_duration(text) {
        Some(r) => r,
        None => {
            assert(false);
            Ok(0)
        },
    }
}

/// The schedule of a mode and a retention.
pub open spec fn schedule_of(mode: CompactorMode, retention: Seq<char>) -> Schedule {
    match mode {
        CompactorMode::Periodic => match duration_of(retention) {
            Some(Ok(n)) => if n == 0 {
                Schedule::Disabled
            } else {
                Schedule::Every(n as u64)
            },
            _ => Schedule::Disabled,
        },
        CompactorMode::Revision => match signed_value(retention) {
            Ok(n) => if n == 0 {
                Schedule::Disabled
            } else {
                Schedule::Revisions(n as i64)
            },
            Err(_) => Schedule::Disabled,
        },
    }
}

/// A compaction is due: in a schedule by revisions there are enough new ones.
pub open spec fn is_due(schedule: Schedule, current: int, last: int) -> bool {
    match schedule {
        Schedule::Every(_) => true,
        Schedule::Revisions(n) => current - last >= n,
        _ => false,
    }
}

/// A compactor and the store that it works on, when a tick comes or is over.
#[verifier::ext_equal]
pub struct Tick {
    pub compactor: CompactorView,
    pub store: StoreView,
}

/// What a tick does: where a compaction is due, the store is compacted to its last
/// revision.
pub open spec fn ticked(a: Tick, schedule: Schedule, r: Compaction, b: Tick) -> bool {
    let h = a.store.history;
    let rev = h.current();
    let due = is_due(schedule, rev, a.compactor.last_compacted);
    let works = h.compacted < rev;
    &&& r is Paused == a.compactor.paused
    &&& r is NotYet == (!a.compactor.paused && !due)
    &&& r is Done == (!a.compactor.paused && due && works)
    &&& r matches Compaction::Done(n) ==> {
        &&& n == rev
        &&& b.compactor == (CompactorView { last_compacted: rev, ..a.compactor })
        &&& b.store == (StoreView { history: h.after_compaction(rev), ..a.store })
    }
    &&& !(r is Done) ==> b == a
    &&& r matches Compaction::Failed(e) ==> e@ == (if rev < 1 {
        crate::store::compacted_error()
    } else {
        crate::store::compact_failed_error()
    })
}

/// How a schedule starts: unless it runs already, with what is compacted in the store.
pub open spec fn run_started(
    a: CompactorView,
    s: StoreView,
    r: Schedule,
    b: CompactorView,
) -> bool {
    &&& r == (if a.running {
        Schedule::Running
    } else {
        schedule_of(a.mode, a.retention)
    })
    &&& b == (if a.running {
        a
    } else {
        CompactorView { running: true, last_compacted: s.history.compacted as int, ..a }
    })
}

impl Compactor {
    /// The revision up to which it has compacted is not negative.
    pub closed spec fn wf(&self) -> bool {
        self.last_compacted >= 0
    }

    /// A schedule that does not run yet.
    pub fn new(mode: CompactorMode, retention: &str, store: &Store) -> (r: Compactor)
        requires
            store.wf(),
        ensures
            r.wf(),
            r@ == (CompactorView {
                mode,
                retention: retention@,
                last_compacted: store@.history.compacted as int,
                paused: false,
                running: false,
            }),
    {
        Compactor {
            mode,
            retention: retention.to_owned(),
            last_compacted: store.compacted_revision(),
            paused: false,
            running: false,
        }
    }

    /// Starts the schedule, unless it runs already, and tells what it is.
    pub fn run(&mut self, store: &Store) -> (r: Schedule)
        requires
            old(self).wf(),
            store.wf(),
            !old(self)@.running && old(self)@.mode is Periodic ==> duration_of(
                old(self)@.retention,
            ) is Some,
        ensures
            final(self).wf(),
            run_started(old(self)@, store@, r, final(self)@),
    {
        if self.running {
            return Schedule::Running;
        }
        self.running = true;
        self.last_compacted = store.compacted_revision();
        match self.mode {
            CompactorMode::Periodic => match parse_duration(self.retention.as_str()) {
                Ok(n) => if n == 0 {
                    Schedule::Disabled
                } else {
                    Schedule::Every(n)
                },
                Err(_) => Schedule::Disabled,
            },
            CompactorMode::Revision => {
                let chars = chars_of(self.retention.as_str());
                match parse_signed(&chars) {
                    Ok(n) => if n == 0 {
                        Schedule::Disabled
                    } else {
                        Schedule::Revisions(n)
                    },
                    Err(_) => Schedule::Disabled,
                }
            },
        }
    }

    /// Compacts the store to its last revision, if that is due.
    pub fn tick(&mut self, store: &mut Store, schedule: Schedule) -> (r: Compaction)
        requires
            old(self).wf(),
            old(store).wf(),
        ensures
            final(self).wf(),
            final(store).wf(),
            ticked(
                Tick { compactor: old(self)@, store: old(store)@ },
                schedule,
                r,
                Tick { compactor: final(self)@, store: final(store)@ },
            ),
    {
        if self.paused {
            return Compaction::Paused;
        }
        proof {
            store.lemma_wf();
        }
        let current = store.current_revision();
        let due = match schedule {
            Schedule::Every(_) => true,
            Schedule::Revisions(n) => current - self.last_compacted >= n,
            _ => false,
        };
        if !due {
            return Compaction::NotYet;
        }
        match store.compact(current) {
            Ok(()) => {
                self.last_compacted = current;
                Compaction::Done(current)
            },
            Err(e) => Compaction::Failed(e),
        }
    }

    /// Stops the schedule. Returns whether it ran.
    pub fn stop(&mut self) -> (ran: bool)
        requires
            old(self).wf(),
        ensures
            final(self).wf(),
            ran == old(self)@.running,
            final(self)@ == (CompactorView { running: false, ..old(self)@ }),
    {
        let ran = self.running;
        self.running = false;
        ran
    }

    /// Pauses the schedule without stopping it.
    pub fn pause(&mut self)
        requires
            old(self).wf(),
        ensures
            final(self).wf(),
            final(self)@ == (CompactorView { paused: true, ..old(self)@ }),
    {
        self.paused = true;
    }

    /// Goes on with a schedule that was paused.
    pub fn resume(&mut self)
        requires
            old(self).wf(),
        ensures
            final(self).wf(),
            final(self)@ == (CompactorView { paused: false, ..old(self)@ }),
    {
        self.paused = false;
    }
}

// ------------------------------------------------------------------- laws

/// A tick that was made.
pub struct TickMade {
    pub before: Tick,
    pub result: Compaction,
    pub after: Tick,
}

impl TickMade {
    /// The tick was made in a schedule.
    pub open spec fn made(self, schedule: Schedule) -> bool {
        ticked(self.before, schedule, self.result, self.after)
    }
}

/// A tick of a compactor, and the next one of the same. Between them it may be paused,
/// resumed or stopped, and the store may be written to and compacted by others.
pub open spec fn same_compactor(ticks: Seq<TickMade>, i: int) -> bool {
    ticks[i + 1].before.compactor.last_compacted == ticks[i].after.compactor.last_compacted
}

/// The ticks of one compactor, one after the other.
pub open spec fn one_compactor(schedule: Schedule, ticks: Seq<TickMade>) -> bool {
    &&& forall|i: int| 0 <= i < ticks.len() ==> (#[trigger] ticks[i]).made(schedule)
    &&& forall|i: int| 0 <= i < ticks.len() - 1 ==> #[trigger] same_compactor(ticks, i)
}

proof fn lemma_last_compacted(schedule: Schedule, ticks: Seq<TickMade>, i: int, j: int)
    requires
        one_compactor(schedule, ticks),
        0 <= i < j < ticks.len(),
        forall|k: int| i < k < j ==> !((#[trigger] ticks[k]).result is Done),
    ensures
        ticks[j].before.compactor.last_compacted == ticks[i].after.compactor.last_compacted,
    decreases j - i,
{
    assert(same_compactor(ticks, j - 1));
    if i + 1 < j {
        lemma_last_compacted(schedule, ticks, i, j - 1);
        assert(ticks[j - 1].made(schedule));
        assert(!(ticks[j - 1].result is Done));
    }
}

/// In a schedule by revisions, two compactions of one compactor with none between them
/// are at least as many revisions apart as are retained.
pub proof fn law_compactions_are_apart(n: i64, ticks: Seq<TickMade>, i: int, j: int)
    requires
        one_compactor(Schedule::Revisions(n), ticks),
        0 <= i < j < ticks.len(),
        ticks[i].result is Done,
        ticks[j].result is Done,
        forall|k: int| i < k < j ==> !((#[trigger] ticks[k]).result is Done),
    ensures
        ticks[j].result->Done_0 - ticks[i].result->Done_0 >= n,
{
    lemma_last_compacted(Schedule::Revisions(n), ticks, i, j);
    assert(ticks[i].made(Schedule::Revisions(n)));
    assert(ticks[j].made(Schedule::Revisions(n)));
}

/// In a schedule by revisions a tick compacts exactly when there are enough revisions
/// since the last compaction: with one fewer it waits, and changes nothing.
pub proof fn law_compacts_once_enough(a: Tick, n: i64, r: Compaction, b: Tick, fresh: int)
    requires
        ticked(a, Schedule::Revisions(n), r, b),
        !a.compactor.paused,
        a.store.history.compacted < a.store.history.current(),
        a.store.history.current() == a.compactor.last_compacted + fresh,
    ensures
        fresh >= n ==> r == Compaction::Done(a.store.history.current() as i64),
        fresh < n ==> r is NotYet && b == a,
{
}

/// What a tick compacts is the store alone, to its last revision: what is there stays,
/// with its revisions, and nobody is told. The revisions before the last one are gone.
pub proof fn law_tick_keeps_what_is_there(a: Tick, schedule: Schedule, r: Compaction, b: Tick)
    requires
        ticked(a, schedule, r, b),
        a.store.history.valid(),
    ensures
        b.store.history.current() == a.store.history.current(),
        b.store.history.latest == a.store.history.latest,
        b.store.watchers == a.store.watchers,
        b.store.jobs == a.store.jobs,
        b.store.progress == a.store.progress,
        b.compactor.paused == a.compactor.paused,
        b.compactor.running == a.compactor.running,
        r is Done ==> {
            &&& b.store.history.log.len() == 1
            &&& b.store.history.log[0] == a.store.history.log.last()
            &&& b.compactor.last_compacted == a.store.history.current()
        },
        !(r is Done) ==> b == a,
{
}

/// A schedule by time compacts at every tick at which there is something to compact,
/// and no schedule does while it is paused, or where it is disabled.
pub proof fn law_when_ticks_compact(a: Tick, schedule: Schedule, r: Compaction, b: Tick)
    requires
        ticked(a, schedule, r, b),
    ensures
        a.compactor.paused ==> r is Paused && b == a,
        !a.compactor.paused && schedule is Every ==> (r is Done) == (a.store.history.log.len()
            > 0),
        !a.compactor.paused && (schedule is Disabled || schedule is Running) ==> r is NotYet,
        r is Done ==> r->Done_0 == a.store.history.compacted + a.store.history.log.len(),
{
}

/// What a schedule by revisions retains is the number that is written down: zero
/// disables it.
pub proof fn law_retained_revisions(n: i64)
    ensures
        schedule_of(CompactorMode::Revision, decimal_int(n as int)) == (if n == 0 {
            Schedule::Disabled
        } else {
            Schedule::Revisions(n)
        }),
{
    law_integers_read_back(n);
}

proof fn lemma_digits_read(s: Seq<char>, i: int, done: Seq<char>, more: Seq<char>, total: nat)
    requires
        0 <= i,
        i + more.len() <= s.len(),
        s.subrange(i, i + more.len()) == more,
        forall|k: int| 0 <= k < more.len() ==> is_digit(#[trigger] more[k]),
    ensures
        read_rest(s, i, done, total) == read_rest(s, i + more.len(), done + more, total),
    decreases more.len(),
{
    if more.len() == 0 {
        assert(done + more =~= done);
    } else {
        let rest = more.skip(1);
        assert(s.subrange(i, i + more.len())[0] == s[i]);
        assert(s[i] == more[0]);
        assert(s.subrange(i + 1, i + 1 + rest.len()) =~= rest) by {
            assert forall|k: int| 0 <= k < rest.len() implies s[i + 1 + k] == rest[k] by {
                assert(s.subrange(i, i + more.len())[k + 1] == s[i + 1 + k]);
            }
        }
        assert forall|k: int| 0 <= k < rest.len() implies is_digit(#[trigger] rest[k]) by {
            assert(rest[k] == more[k + 1]);
        }
        lemma_digits_read(s, i + 1, done.push(s[i]), rest, total);
        assert(done.push(s[i]) + rest =~= done + more);
    }
}

/// A part of a time: a number and a unit.
proof fn lemma_part_read(s: Seq<char>, i: int, n: u64, unit: char, total: nat)
    requires
        0 <= i,
        i + decimal(n as nat).len() < s.len(),
        s.subrange(i, i + decimal(n as nat).len()) == decimal(n as nat),
        s[i + decimal(n as nat).len()] == unit,
        unit_seconds(unit) is Some,
        total + n * unit_seconds(unit)->0 <= u64::MAX,
        !is_digit(unit),
    ensures
        read_rest(s, i, Seq::empty(), total) == read_rest(
            s,
            i + decimal(n as nat).len() + 1,
            Seq::empty(),
            (total + n * unit_seconds(unit)->0) as nat,
        ),
{
    let d = decimal(n as nat);
    law_decimal_digits(n as nat);
    law_numbers_read_back(n);
    lemma_digits_read(s, i, Seq::empty(), d, total);
    assert(Seq::<char>::empty() + d =~= d);
}

/// A time reads as the sum of its parts: an hour has 3600 seconds, a minute 60.
#[verifier::spinoff_prover]
#[verifier::rlimit(40)]
pub proof fn law_durations_add_up(hours: u64, minutes: u64, seconds: u64)
    requires
        hours * 3600 + minutes * 60 + seconds <= u64::MAX,
    ensures
        duration_of(
            decimal(hours as nat) + seq!['h'] + decimal(minutes as nat) + seq!['m'] + decimal(
                seconds as nat,
            ) + seq!['s'],
        ) == Some::<Result<nat, Seq<char>>>(Ok((hours * 3600 + minutes * 60 + seconds) as nat)),
        duration_of(decimal(minutes as nat) + seq!['m']) == Some::<Result<nat, Seq<char>>>(
            Ok((minutes * 60) as nat),
        ),
{
    let a = decimal(hours as nat);
    let b = decimal(minutes as nat);
    let c = decimal(seconds as nat);
    law_decimal_digits(hours as nat);
    law_decimal_digits(minutes as nat);
    law_decimal_digits(seconds as nat);
    reveal_strlit("0");
    let s = a + seq!['h'] + b + seq!['m'] + c + seq!['s'];
    let i: int = a.len() as int + 1;
    let j: int = i + b.len() + 1;
    assert(s.subrange(0, a.len() as int) =~= a);
    assert(s.subrange(i, i + b.len()) =~= b);
    assert(s.subrange(j, j + c.len()) =~= c);
    assert(s[0] == a[0]);
    law_trimmed_fixed(s);
    lemma_part_read(s, 0, hours, 'h', 0);
    lemma_part_read(s, i, minutes, 'm', (hours * 3600) as nat);
    assert(seconds * unit_seconds('s')->0 == seconds) by (nonlinear_arith)
        requires
            unit_seconds('s') == Some(1nat),
    ;
    lemma_part_read(s, j, seconds, 's', (hours * 3600 + minutes * 60) as nat);
    let t = b + seq!['m'];
    assert(t.subrange(0, b.len() as int) =~= b);
    assert(t[0] == b[0]);
    law_trimmed_fixed(t);
    lemma_part_read(t, 0, minutes, 'm', 0);
}

/// A schedule starts once. It starts from what is compacted in the store, so that in a
/// schedule by revisions the first compaction comes once there are enough revisions after
/// that.
pub proof fn law_schedule_starts(
    a: CompactorView,
    s: StoreView,
    r: Schedule,
    b: CompactorView,
    store: StoreView,
    c: Compaction,
    end: Tick,
)
    requires
        run_started(a, s, r, b),
        ticked(Tick { compactor: b, store }, r, c, end),
    ensures
        a.running ==> r is Running && b == a,
        b.running,
        b.paused == a.paused,
        b.retention == a.retention,
        b.mode == a.mode,
        !a.running ==> r == schedule_of(a.mode, a.retention),
        r matches Schedule::Revisions(n) ==> (!a.paused ==> (c is NotYet) == (
        store.history.compacted + store.history.log.len() < s.history.compacted + n)),
{
}

proof fn lemma_read_further(s: Seq<char>, u: Seq<char>, i: int, digits: Seq<char>, total: nat)
    requires
        0 <= i <= s.len(),
        read_rest(s, i, digits, total) matches Some(Ok(_)),
    ensures
        read_rest(s + u, i, digits, total) == read_rest(
            s + u,
            s.len() as int,
            Seq::empty(),
            read_rest(s, i, digits, total)->0->Ok_0,
        ),
    decreases s.len() - i,
{
    let all = s + u;
    if i < s.len() {
        assert(all[i] == s[i]);
        if is_digit(s[i]) {
            lemma_read_further(s, u, i + 1, digits.push(s[i]), total);
        } else {
            let n = unsigned_value(digits)->Ok_0;
            let unit = unit_seconds(s[i])->0;
            lemma_read_further(s, u, i + 1, Seq::empty(), (total + n * unit) as nat);
        }
    } else {
        assert(digits =~= Seq::empty());
    }
}

/// A time with one more part behind it is longer by that part, whatever parts it has. With
/// digits behind it that have no unit it is no time.
pub proof fn law_one_more_part(s: Seq<char>, seconds: nat, n: u64, unit: char)
    requires
        s.len() > 0,
        trimmed(s) == s,
        s != "0"@,
        duration_of(s) == Some::<Result<nat, Seq<char>>>(Ok(seconds)),
        unit == 'h' || unit == 'm' || unit == 's',
        seconds + n * 3600 <= u64::MAX,
    ensures
        duration_of(s + decimal(n as nat) + seq![unit]) == Some::<Result<nat, Seq<char>>>(
            Ok(
                (seconds + n * (if unit == 'h' {
                    3600int
                } else if unit == 'm' {
                    60
                } else {
                    1
                })) as nat,
            ),
        ),
        duration_of(s + decimal(n as nat)) matches Some(Err(_)),
{
    let d = decimal(n as nat);
    let u = d + seq![unit];
    let t = s + u;
    let m = s.len() as int;
    reveal_strlit("0");
    law_decimal_digits(n as nat);
    assert(s + d + seq![unit] =~= t);
    assert(s.len() > 0 && !is_space(s[0])) by {
        let i = law_trimmed_is_inside(s);
    }
    assert(t[0] == s[0]);
    assert(t.last() == unit);
    law_trimmed_fixed(t);
    assert(t.len() > 1);
    lemma_read_further(s, u, 0, Seq::empty(), 0);
    assert(t.subrange(m, m + d.len()) =~= d);
    assert(t[m + d.len()] == unit);
    assert(n * unit_seconds(unit)->0 <= n * 3600) by (nonlinear_arith)
        requires
            unit_seconds(unit)->0 <= 3600,
            n >= 0,
    ;
    lemma_part_read(t, m, n, unit, seconds);
    assert(n * 1 == n);
    let x = s + d;
    assert(is_digit(d.last()));
    assert(x[0] == s[0]);
    assert(x.last() == d.last());
    law_trimmed_fixed(x);
    lemma_read_further(s, d, 0, Seq::empty(), 0);
    assert(x.subrange(m, m + d.len()) =~= d);
    lemma_digits_read(x, m, Seq::empty(), d, seconds);
    assert(Seq::<char>::empty() + d =~= d);
}

/// What is no time: digits without a unit, but for a zero, a unit without digits, and a
/// unit that there is not.
pub proof fn law_refused_durations(n: u64, c: char, rest: Seq<char>)
    requires
        !is_digit(c),
        !is_space(c),
    ensures
        n > 0 ==> (duration_of(decimal(n as nat)) matches Some(Err(_))),
        rest.len() == 0 || !is_space(rest.last()) ==> (duration_of(
            seq![c] + rest,
        ) matches Some(Err(_))),
        c != 'h' && c != 'm' && c != 's' ==> (duration_of(
            decimal(n as nat) + seq![c],
        ) matches Some(Err(_))),
        duration_of(Seq::empty()) == Some::<Result<nat, Seq<char>>>(Ok(0)),
        duration_of("0"@) == Some::<Result<nat, Seq<char>>>(Ok(0)),
{
    reveal_strlit("0");
    let d = decimal(n as nat);
    law_decimal_digits(n as nat);
    law_numbers_read_back(n);
    assert(is_digit(d[0]) && is_digit(d.last()));
    law_trimmed_fixed(d);
    law_trimmed_fixed("0"@);
    assert(d.subrange(0, d.len() as int) =~= d);
    lemma_digits_read(d, 0, Seq::empty(), d, 0);
    assert(Seq::<char>::empty() + d =~= d);
    if n > 0 {
        assert(d[0] != '0');
    }
    let w = seq![c] + rest;
    if rest.len() == 0 || !is_space(rest.last()) {
        assert(w[0] == c);
        assert(w.last() == (if rest.len() == 0 {
            c
        } else {
            rest.last()
        }));
        law_trimmed_fixed(w);
        assert(w != "0"@) by {
            assert(is_digit("0"@[0]));
        }
    }
    let t = d + seq![c];
    assert(t[0] == d[0]);
    assert(t.last() == c);
    law_trimmed_fixed(t);
    assert(t.subrange(0, d.len() as int) =~= d);
    lemma_digits_read(t, 0, Seq::empty(), d, 0);
    assert(t[d.len() as int] == c);
}

/// A schedule by time has the seconds that are written down: none disables it, and so does
/// what is no time.
pub proof fn law_periods(text: Seq<char>, seconds: u64)
    ensures
        duration_of(text) == Some::<Result<nat, Seq<char>>>(Ok(seconds as nat)) ==> schedule_of(
            CompactorMode::Periodic,
            text,
        ) == (if seconds == 0 {
            Schedule::Disabled
        } else {
            Schedule::Every(seconds)
        }),
        (duration_of(text) matches Some(Err(_))) ==> schedule_of(CompactorMode::Periodic, text)
            == Schedule::Disabled,
        signed_value(text) is Err ==> schedule_of(CompactorMode::Revision, text)
            == Schedule::Disabled,
{
}

} // verus!
