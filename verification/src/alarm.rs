//! The alarms that members of the cluster have raised.

use vstd::prelude::*;

verus! {

/// What an alarm is about.
#[derive(Clone, Copy, Debug, PartialEq, Eq, Hash, Structural)]
pub enum AlarmType {
    NoAlarm,
    NoSpace,
    Corrupt,
}

/// An alarm that a member has raised.
#[derive(Clone, Copy, Debug, PartialEq, Eq, Structural)]
pub struct AlarmMember {
    pub member_id: u64,
    pub alarm_type: AlarmType,
}

/// The active alarms. A member raises an alarm of a type once.
#[derive(Debug)]
pub struct AlarmStore {
    alarms: Vec<AlarmMember>,
}

/// Of some alarms those of a type.
pub open spec fn of_type(s: Set<AlarmMember>, alarm_type: AlarmType) -> Set<AlarmMember> {
    s.filter(|a: AlarmMember| a.alarm_type == alarm_type)
}

/// A list that holds each member of a set once.
pub open spec fn lists(v: Seq<AlarmMember>, s: Set<AlarmMember>) -> bool {
    v.no_duplicates() && v.to_set() == s
}

/// An alarm was raised: it is active, and all active ones of its type are told.
pub open spec fn raised(
    s: Set<AlarmMember>,
    member_id: u64,
    alarm_type: AlarmType,
    r: Seq<AlarmMember>,
    t: Set<AlarmMember>,
) -> bool {
    &&& t == s.insert(AlarmMember { member_id, alarm_type })
    &&& lists(r, of_type(t, alarm_type))
}

/// An alarm was taken back: it is not active, and all active ones are told.
pub open spec fn taken_back(
    s: Set<AlarmMember>,
    member_id: u64,
    alarm_type: AlarmType,
    r: Seq<AlarmMember>,
    t: Set<AlarmMember>,
) -> bool {
    &&& t == s.remove(AlarmMember { member_id, alarm_type })
    &&& lists(r, t)
}

impl View for AlarmStore {
    type V = Set<AlarmMember>;

    closed spec fn view(&self) -> Set<AlarmMember> {
        self.alarms@.to_set()
    }
}

impl AlarmStore {
    /// No alarm stands twice.
    pub closed spec fn wf(&self) -> bool {
        self.alarms@.no_duplicates()
    }

    /// No alarm is active.
    pub fn new() -> (r: AlarmStore)
        ensures
            r.wf(),
            r@ == Set::<AlarmMember>::empty(),
    {
        let r = AlarmStore { alarms: Vec::new() };
        assert(r@ =~= Set::empty());
        r
    }

    fn position(&self, alarm: AlarmMember) -> (r: Option<usize>)
        ensures
            r is Some == self@.contains(alarm),
            r matches Some(i) ==> i < self.alarms@.len() && self.alarms@[i as int] == alarm,
    {
        let mut i: usize = 0;
        while i < self.alarms.len()
            invariant
                i <= self.alarms@.len(),
                forall|j: int| 0 <= j < i ==> self.alarms@[j] != alarm,
            decreases self.alarms@.len() - i,
        {
            if self.alarms[i] == alarm {
                assert(self.alarms@.contains(alarm));
                return Some(i);
            }
            i += 1;
        }
        None
    }

    /// The alarms of a type.
    fn alarms_of(&self, alarm_type: AlarmType) -> (r: Vec<AlarmMember>)
        requires
            self.wf(),
        ensures
            lists(r@, of_type(self@, alarm_type)),
    {
        let mut r: Vec<AlarmMember> = Vec::new();
        let mut i: usize = 0;
        while i < self.alarms.len()
            invariant
                self.wf(),
                i <= self.alarms@.len(),
                r@.no_duplicates(),
                forall|a: AlarmMember| #[trigger]
                    r@.contains(a) <==> a.alarm_type == alarm_type && exists|j: int|
                        0 <= j < i && self.alarms@[j] == a,
            decreases self.alarms@.len() - i,
        {
            let ghost before = r@;
            let a = self.alarms[i];
            if a.alarm_type == alarm_type {
                r.push(a);
                proof {
                    assert(!before.contains(a));
                    assert forall|x: AlarmMember| #[trigger]
                        r@.contains(x) <==> x.alarm_type == alarm_type && exists|j: int|
                            0 <= j < i + 1 && self.alarms@[j] == x by {
                        if x == a {
                            assert(r@[r@.len() - 1] == x);
                            assert(self.alarms@[i as int] == x);
                        } else {
                            assert(before.contains(x) <==> r@.contains(x)) by {
                                if before.contains(x) {
                                    let k = choose|k: int| 0 <= k < before.len() && before[k] == x;
                                    assert(r@[k] == x);
                                }
                            }
                        }
                    }
                }
            } else {
                assert forall|x: AlarmMember| #[trigger]
                    r@.contains(x) <==> x.alarm_type == alarm_type && exists|j: int|
                        0 <= j < i + 1 && self.alarms@[j] == x by {
                    if r@.contains(x) {
                        let j = choose|j: int| 0 <= j < i && self.alarms@[j] == x;
                        assert(self.alarms@[j] == x);
                    }
                }
            }
            i += 1;
        }
        proof {
            assert forall|a: AlarmMember| r@.to_set().contains(a) <==> of_type(
                self@,
                alarm_type,
            ).contains(a) by {
                assert(r@.to_set().contains(a) <==> r@.contains(a));
            }
            assert(r@.to_set() =~= of_type(self@, alarm_type));
        }
        r
    }

    /// Raises an alarm for a member. Returns all active alarms of its type.
    pub fn activate(&mut self, member_id: u64, alarm_type: AlarmType) -> (r: Vec<AlarmMember>)
        requires
            old(self).wf(),
        ensures
            final(self).wf(),
            raised(old(self)@, member_id, alarm_type, r@, final(self)@),
    {
        let alarm = AlarmMember { member_id, alarm_type };
        let ghost before = self.alarms@;
        if self.position(alarm).is_none() {
            self.alarms.push(alarm);
            proof {
                assert forall|a: AlarmMember| self@.contains(a) <==> old(self)@.insert(
                    alarm,
                ).contains(a) by {
                    if before.contains(a) {
                        let k = choose|k: int| 0 <= k < before.len() && before[k] == a;
                        assert(self.alarms@[k] == a);
                    }
                    assert(self.alarms@[before.len() as int] == alarm);
                }
            }
        }
        assert(self@ =~= old(self)@.insert(alarm));
        self.alarms_of(alarm_type)
    }

    /// Takes an alarm of a member back. Returns all alarms that stay active.
    pub fn deactivate(&mut self, member_id: u64, alarm_type: AlarmType) -> (r: Vec<AlarmMember>)
        requires
            old(self).wf(),
        ensures
            final(self).wf(),
            taken_back(old(self)@, member_id, alarm_type, r@, final(self)@),
    {
        let alarm = AlarmMember { member_id, alarm_type };
        let ghost before = self.alarms@;
        if let Some(i) = self.position(alarm) {
            let _ = self.alarms.remove(i);
            proof {
                assert forall|a: AlarmMember| self@.contains(a) <==> old(self)@.remove(
                    alarm,
                ).contains(a) by {
                    if self.alarms@.contains(a) {
                        let k = choose|k: int| 0 <= k < self.alarms@.len() && self.alarms@[k] == a;
                        let m = if k < i {
                            k
                        } else {
                            k + 1
                        };
                        assert(before[m] == a);
                    }
                    if before.contains(a) && a != alarm {
                        let k = choose|k: int| 0 <= k < before.len() && before[k] == a;
                        let m = if k < i {
                            k
                        } else {
                            k - 1
                        };
                        assert(self.alarms@[m] == a);
                    }
                }
            }
        }
        assert(self@ =~= old(self)@.remove(alarm));
        self.get_alarms()
    }

    /// All active alarms.
    pub fn get_alarms(&self) -> (r: Vec<AlarmMember>)
        requires
            self.wf(),
        ensures
            lists(r@, self@),
    {
        vstd::slice::slice_to_vec(self.alarms.as_slice())
    }

    /// Whether any member has raised an alarm of a type.
    pub fn is_active(&self, alarm_type: AlarmType) -> (r: bool)
        ensures
            r == exists|id: u64| #[trigger]
                self@.contains(AlarmMember { member_id: id, alarm_type }),
    {
        let mut i: usize = 0;
        while i < self.alarms.len()
            invariant
                i <= self.alarms@.len(),
                forall|j: int| 0 <= j < i ==> self.alarms@[j].alarm_type != alarm_type,
            decreases self.alarms@.len() - i,
        {
            if self.alarms[i].alarm_type == alarm_type {
                proof {
                    let a = self.alarms@[i as int];
                    assert(self.alarms@.contains(a));
                    assert(self@.contains(AlarmMember { member_id: a.member_id, alarm_type }));
                }
                return true;
            }
            i += 1;
        }
        false
    }

    /// The alarms of a list, each once.
    pub fn from_members(members: &Vec<AlarmMember>) -> (r: AlarmStore)
        ensures
            r.wf(),
            r@ == members@.to_set(),
    {
        let mut r = AlarmStore::new();
        let mut i: usize = 0;
        assert(members@.take(0).to_set() =~= Set::empty());
        while i < members.len()
            invariant
                r.wf(),
                i <= members@.len(),
                r@ == members@.take(i as int).to_set(),
            decreases members@.len() - i,
        {
            let a = members[i];
            let _ = r.activate(a.member_id, a.alarm_type);
            proof {
                let done = members@.take(i as int);
                let more = members@.take(i + 1);
                assert(more =~= done.push(a));
                assert forall|x: AlarmMember| more.to_set().contains(x) <==> done.to_set().insert(
                    a,
                ).contains(x) by {
                    if done.contains(x) {
                        let k = choose|k: int| 0 <= k < done.len() && done[k] == x;
                        assert(more[k] == x);
                    }
                    assert(more[done.len() as int] == a);
                }
                assert(more.to_set() =~= done.to_set().insert(a));
            }
            i += 1;
        }
        assert(members@.take(members@.len() as int) =~= members@);
        r
    }
}

/// A list of the alarms of a store gives the same alarms back.
pub proof fn law_alarms_survive_a_list(alarms: Set<AlarmMember>, list: Seq<AlarmMember>)
    requires
        lists(list, alarms),
    ensures
        list.to_set() == alarms,
{
}

/// An alarm that was raised is active until it is taken back, and other alarms do
/// not change it.
pub proof fn law_alarm_stays(alarms: Set<AlarmMember>, a: AlarmMember, other: AlarmMember)
    requires
        a != other,
    ensures
        alarms.insert(a).contains(a),
        alarms.insert(a).insert(other).contains(a),
        alarms.insert(a).remove(other).contains(a),
        !alarms.insert(a).remove(a).contains(a),
{
}

/// The alarms of a type are those that were raised with it. A list of alarms holds each
/// of them, and none twice.
pub proof fn law_alarms_of_a_type(
    alarms: Set<AlarmMember>,
    alarm_type: AlarmType,
    list: Seq<AlarmMember>,
    a: AlarmMember,
)
    requires
        lists(list, of_type(alarms, alarm_type)),
    ensures
        of_type(alarms, alarm_type).contains(a) == (alarms.contains(a) && a.alarm_type
            == alarm_type),
        list.contains(a) == (alarms.contains(a) && a.alarm_type == alarm_type),
        forall|i: int, j: int|
            #![trigger list[i], list[j]]
            0 <= i < j < list.len() ==> list[i] != list[j],
{
    assert(list.to_set().contains(a) == list.contains(a));
}

/// What raising an alarm and taking it back do: the one alarm comes and goes, and no other.
/// To take it back undoes that it was raised, unless it was active before.
pub proof fn law_alarm_comes_and_goes(
    s: Set<AlarmMember>,
    member_id: u64,
    alarm_type: AlarmType,
    up: Seq<AlarmMember>,
    t: Set<AlarmMember>,
    down: Seq<AlarmMember>,
    u: Set<AlarmMember>,
    a: AlarmMember,
)
    requires
        raised(s, member_id, alarm_type, up, t),
        taken_back(t, member_id, alarm_type, down, u),
    ensures
        ({
            let own = a.member_id == member_id && a.alarm_type == alarm_type;
            &&& t.contains(a) == (own || s.contains(a))
            &&& u.contains(a) == (!own && s.contains(a))
            &&& up.contains(a) == (a.alarm_type == alarm_type && t.contains(a))
            &&& down.contains(a) == u.contains(a)
            &&& !s.contains(AlarmMember { member_id, alarm_type }) ==> u == s
        }),
{
    assert(up.to_set().contains(a) == up.contains(a));
    assert(down.to_set().contains(a) == down.contains(a));
    if !s.contains(AlarmMember { member_id, alarm_type }) {
        assert(u =~= s);
    }
}

} // verus!
