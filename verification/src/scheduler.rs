use vstd::prelude::*;

use crate::clock::{weekday_index_of_day, INSTANT_MAX, NOW_MIN, NOW_MAX};
use crate::message::SimpleMessage;
use crate::schedule::{
    Schedule, ScheduleType, Todo, Effect, ScheduleView, TriggerView, TodoView, ExceptionView,
    schedule_views, effect_views, exception_views, wf_schedules, wf_schedule, sized_schedules,
    schedule_pass, LIST_MAX,
};

verus! {

/// Mathematical content of the scheduler: the schedule collection in order,
/// and the watermark.
pub ghost struct SchedulerView {
    pub schedules: Seq<ScheduleView>,
    pub timestamp: int,
}

/// Validity of the scheduler state.
pub open spec fn wf_scheduler(s: SchedulerView) -> bool {
    wf_schedules(s.schedules) && 0 <= s.timestamp <= INSTANT_MAX
}

/// The smallest index whose schedule carries the given identifier, or the
/// length of the list when none does.
pub open spec fn index_of_id(s: Seq<ScheduleView>, id: Seq<char>) -> int
    decreases s.len(),
{
    if s.len() == 0 {
        0
    } else if s[0].id == id {
        0
    } else {
        1 + index_of_id(s.drop_first(), id)
    }
}

/// `index_of_id` finds the first match: everything before it differs, and
/// it matches unless it is the length.
pub proof fn lemma_index_of_id(s: Seq<ScheduleView>, id: Seq<char>)
    ensures
        0 <= index_of_id(s, id) <= s.len(),
        index_of_id(s, id) < s.len() ==> s[index_of_id(s, id)].id == id,
        forall|j: int| 0 <= j < index_of_id(s, id) ==> (#[trigger] s[j].id) != id,
    decreases s.len(),
{
    if s.len() > 0 && s[0].id != id {
        lemma_index_of_id(s.drop_first(), id);
        assert forall|j: int| 0 <= j < index_of_id(s, id) implies (#[trigger] s[j].id) != id by {
            if j > 0 {
                assert(s[j] == s.drop_first()[j - 1]);
            }
        }
    }
}

/// Outcome of injecting a one-time exception into a named weekly rule.
#[derive(Debug, PartialEq, Eq, Structural)]
pub enum ExceptionOutcome {
    Success,
    EventNotFound,
    UnvalidDate,
    PassedDate,
}

impl ExceptionOutcome {
    /// The user-facing text of this outcome.
    pub fn message(&self) -> (r: String)
        ensures
            self is Success ==> r@ == "休み登録成功"@,
            self is EventNotFound ==> r@ == "イベントが見つかりません"@,
            self is UnvalidDate ==> r@ == "不正な日付です"@,
            self is PassedDate ==> r@ == "過去の日付です"@,
    {
        match self {
            ExceptionOutcome::Success => "休み登録成功".to_owned(),
            ExceptionOutcome::EventNotFound => "イベントが見つかりません".to_owned(),
            ExceptionOutcome::UnvalidDate => "不正な日付です".to_owned(),
            ExceptionOutcome::PassedDate => "過去の日付です".to_owned(),
        }
    }
}

/// What injecting an exception does to the scheduler state: the first
/// schedule carrying the name must be a weekly rule; the day must fall on
/// the rule's weekday; the resulting instant must not lie in the past.
/// On success the entry joins the rule's exception list.
pub open spec fn add_exception_result(
    sv: SchedulerView,
    name: Seq<char>,
    day: int,
    reason: Option<Seq<char>>,
    now: int,
) -> (SchedulerView, ExceptionOutcome) {
    let i = index_of_id(sv.schedules, name);
    if i >= sv.schedules.len() {
        (sv, ExceptionOutcome::EventNotFound)
    } else {
        let found = sv.schedules[i];
        match found.schedule_type {
            TriggerView::OneTime { .. } => (sv, ExceptionOutcome::EventNotFound),
            TriggerView::Weekly { weekday, time, exception } => {
                if weekday_index_of_day(day) != weekday.index() {
                    (sv, ExceptionOutcome::UnvalidDate)
                } else {
                    let dt = day * 86400 + time - 32400;
                    if dt < now {
                        (sv, ExceptionOutcome::PassedDate)
                    } else {
                        let entry = ExceptionView {
                            id: "休み"@,
                            todo: match reason {
                                Some(text) => TodoView::SendMessage {
                                    contents: crate::message::SimpleMessageView {
                                        type_: "text"@,
                                        text,
                                    },
                                },
                                None => TodoView::Nothing,
                            },
                            datetime: dt,
                        };
                        let updated = ScheduleView {
                            id: found.id,
                            todo: found.todo,
                            schedule_type: TriggerView::Weekly {
                                weekday,
                                time,
                                exception: exception.push(entry),
                            },
                        };
                        (
                            SchedulerView {
                                schedules: sv.schedules.update(i, updated),
                                timestamp: sv.timestamp,
                            },
                            ExceptionOutcome::Success,
                        )
                    }
                }
            }
        }
    }
}

/// Owner of the schedule collection and the watermark; evaluation,
/// injection and persistence all go through it.
#[derive(Debug)]
pub struct Scheduler {
    schedules: Vec<Schedule>,
    timestamp: i64,
}

impl View for Scheduler {
    type V = SchedulerView;

    closed spec fn view(&self) -> SchedulerView {
        SchedulerView {
            schedules: schedule_views(self.schedules@),
            timestamp: self.timestamp as int,
        }
    }
}

impl Default for Scheduler {
    /// An empty collection with the watermark at the epoch.
    fn default() -> (r: Self)
        ensures
            r@.schedules == Seq::<ScheduleView>::empty(),
            r@.timestamp == 0,
    {
        let r = Scheduler { schedules: Vec::new(), timestamp: 0 };
        proof {
            assert(schedule_views(Seq::<Schedule>::empty()) =~= Seq::<ScheduleView>::empty());
        }
        r
    }
}

impl Scheduler {
    /// A scheduler over the given collection and watermark, as loading the
    /// persisted document and watermark assembles it.
    pub fn new(schedules: Vec<Schedule>, timestamp: i64) -> (r: Self)
        ensures
            r@.schedules == schedule_views(schedules@),
            r@.timestamp == timestamp as int,
    {
        Scheduler { schedules, timestamp }
    }

    /// The schedule collection, in order.
    pub fn schedules(&self) -> (r: &Vec<Schedule>)
        ensures
            schedule_views(r@) == self@.schedules,
    {
        &self.schedules
    }

    /// The watermark: every instant at or before it has been claimed by a
    /// past poll window.
    pub fn timestamp(&self) -> (r: i64)
        ensures
            r as int == self@.timestamp,
    {
        self.timestamp
    }

    /// Whether the scheduler state is valid: watermark in range and every
    /// schedule well-formed.
    pub fn wf_check(&self) -> (r: bool)
        ensures
            r == wf_scheduler(self@),
    {
        if !(0 <= self.timestamp && self.timestamp <= INSTANT_MAX) {
            return false;
        }
        let mut i: usize = 0;
        while i < self.schedules.len()
            invariant
                i <= self.schedules.len(),
                0 <= self.timestamp <= INSTANT_MAX,
                forall|j: int| 0 <= j < i ==> wf_schedule(#[trigger] self@.schedules[j]),
            decreases self.schedules.len() - i,
        {
            if !self.schedules[i].wf() {
                proof {
                    assert(!wf_schedule(self@.schedules[i as int]));
                }
                return false;
            }
            i += 1;
        }
        true
    }

    /// Whether one evaluation pass may run at `now`: the state is valid and
    /// small enough, and `now` lies in the supported range at or after the
    /// watermark.
    pub fn ready(&self, now: i64) -> (r: bool)
        ensures
            r == (wf_scheduler(self@) && sized_schedules(self@.schedules) && self@.schedules.len()
                <= LIST_MAX / 2 && self@.timestamp <= now && NOW_MIN <= now <= NOW_MAX),
    {
        if !(0 <= self.timestamp && self.timestamp <= INSTANT_MAX && self.timestamp <= now
            && NOW_MIN <= now && now <= NOW_MAX && self.schedules.len() <= LIST_MAX / 2) {
            return false;
        }
        let mut i: usize = 0;
        while i < self.schedules.len()
            invariant
                i <= self.schedules.len(),
                0 <= self.timestamp <= INSTANT_MAX,
                self.timestamp <= now,
                NOW_MIN <= now <= NOW_MAX,
                self.schedules.len() <= LIST_MAX / 2,
                forall|j: int| 0 <= j < i ==> wf_schedule(#[trigger] self@.schedules[j])
                    && sized_schedule_at(self@.schedules, j),
            decreases self.schedules.len() - i,
        {
            let s = &self.schedules[i];
            let sized = match &s.schedule_type {
                ScheduleType::Weekly { exception, .. } => exception.len() <= LIST_MAX,
                ScheduleType::OneTime { .. } => true,
            };
            if !(s.wf() && sized) {
                proof {
                    assert(!wf_schedule(self@.schedules[i as int]) || !sized_schedule_at(
                        self@.schedules,
                        i as int,
                    ));
                }
                return false;
            }
            i += 1;
        }
        true
    }

    /// One evaluation pass at `now`: the watermark advances to `now` and
    /// the whole collection is walked for the window `(old watermark, now]`.
    /// Returns how many schedules fired; any positive count obliges the
    /// caller to re-persist the document.
    pub fn check(&mut self, now: i64, fresh: &mut Vec<u64>, effects: &mut Vec<Effect>) -> (fired:
        u64)
        requires
            wf_scheduler(old(self)@),
            sized_schedules(old(self)@.schedules),
            old(self)@.schedules.len() <= LIST_MAX / 2,
            old(self)@.timestamp <= now,
            NOW_MIN <= now <= NOW_MAX,
        ensures
            ({
                let sp = schedule_pass(
                    old(self)@.schedules,
                    old(self)@.timestamp,
                    now as int,
                    old(fresh)@,
                );
                &&& final(self)@.timestamp == now as int
                &&& final(self)@.schedules == sp.kept
                &&& wf_scheduler(final(self)@)
                &&& fired as nat == sp.fired
                &&& effect_views(final(effects)@) == effect_views(old(effects)@) + sp.effects
                &&& final(fresh)@ == sp.fresh
            }),
    {
        let last = self.timestamp;
        self.timestamp = now;
        Schedule::check_schedules(&mut self.schedules, last, now, fresh, effects)
    }

    /// Appends a new schedule; the caller persists the document afterwards.
    pub fn push(&mut self, schedule: Schedule)
        ensures
            final(self)@.schedules == old(self)@.schedules.push(schedule@),
            final(self)@.timestamp == old(self)@.timestamp,
    {
        self.schedules.push(schedule);
        proof {
            assert(schedule_views(self.schedules@) =~= old(self)@.schedules.push(schedule@));
        }
    }

    /// The first schedule carrying the given identifier, if any.
    pub fn get(&self, name: &str) -> (r: Option<&Schedule>)
        ensures
            ({
                let i = index_of_id(self@.schedules, name@);
                if i < self@.schedules.len() {
                    r is Some && r.unwrap()@ == self@.schedules[i]
                } else {
                    r is None
                }
            }),
    {
        proof {
            lemma_index_of_id(self@.schedules, name@);
        }
        let mut i: usize = 0;
        while i < self.schedules.len()
            invariant
                i <= self.schedules.len(),
                forall|j: int| 0 <= j < i ==> (#[trigger] self@.schedules[j].id) != name@,
            decreases self.schedules.len() - i,
        {
            if crate::codec::str_eq(self.schedules[i].id.as_str(), name) {
                proof {
                    lemma_index_of_first(self@.schedules, name@, i as int);
                }
                return Some(&self.schedules[i]);
            }
            i += 1;
        }
        proof {
            lemma_index_of_id(self@.schedules, name@);
        }
        None
    }

    /// A mutable borrow of the first schedule carrying the given
    /// identifier, if any.
    pub fn get_mut(&mut self, name: &str) -> (r: Option<&mut Schedule>)
        ensures
            ({
                let i = index_of_id(old(self)@.schedules, name@);
                if i < old(self)@.schedules.len() {
                    r is Some
                } else {
                    r is None && final(self)@ == old(self)@
                }
            }),
            ({
                let i = index_of_id(old(self)@.schedules, name@);
                r matches Some(m) ==> {
                    &&& (*m)@ == old(self)@.schedules[i]
                    &&& final(self)@.schedules == old(self)@.schedules.update(i, (*final(m))@)
                    &&& final(self)@.timestamp == old(self)@.timestamp
                }
            }),
    {
        proof {
            lemma_index_of_id(self@.schedules, name@);
        }
        let mut i: usize = 0;
        while i < self.schedules.len()
            invariant
                self@ == old(self)@,
                i <= self.schedules.len(),
                forall|j: int| 0 <= j < i ==> (#[trigger] self@.schedules[j].id) != name@,
            decreases self.schedules.len() - i,
        {
            if crate::codec::str_eq(self.schedules[i].id.as_str(), name) {
                proof {
                    lemma_index_of_first(self@.schedules, name@, i as int);
                }
                let r = &mut self.schedules[i];
                return Some(r);
            }
            i += 1;
        }
        proof {
            lemma_index_of_id(self@.schedules, name@);
        }
        None
    }

    /// Injects a one-time exception for the `day`-th civil day (in the
    /// schedule's local time zone) into the weekly rule named `name`, as
    /// `add_exception_result` describes: the day must fall on the rule's
    /// weekday and the occurrence must not lie in the past. A given reason
    /// becomes a message sent in place of the cancelled occurrence.
    pub fn add_exception(&mut self, name: &str, day: i64, reason: Option<&str>, now: i64) -> (r:
        ExceptionOutcome)
        requires
            0 <= now,
            0 <= day,
            day * 86400 + 86400 <= INSTANT_MAX,
            wf_scheduler(old(self)@),
        ensures
            ({
                let out = add_exception_result(
                    old(self)@,
                    name@,
                    day as int,
                    match reason {
                        Some(t) => Some(t@),
                        None => None,
                    },
                    now as int,
                );
                &&& final(self)@ == out.0
                &&& r == out.1
                &&& wf_scheduler(final(self)@)
            }),
    {
        proof {
            lemma_index_of_id(self@.schedules, name@);
        }
        let mut i: usize = 0;
        let found: usize;
        loop
            invariant_except_break
                self@ == old(self)@,
                wf_scheduler(self@),
                0 <= now,
                0 <= day,
                day * 86400 + 86400 <= INSTANT_MAX,
                i <= self.schedules.len(),
                forall|j: int| 0 <= j < i ==> (#[trigger] self@.schedules[j].id) != name@,
            ensures
                self@ == old(self)@,
                wf_scheduler(self@),
                0 <= now,
                0 <= day,
                day * 86400 + 86400 <= INSTANT_MAX,
                found == index_of_id(self@.schedules, name@),
                found < self.schedules.len(),
            decreases self.schedules.len() - i,
        {
            if i >= self.schedules.len() {
                proof {
                    lemma_index_of_id(self@.schedules, name@);
                }
                return ExceptionOutcome::EventNotFound;
            }
            if crate::codec::str_eq(self.schedules[i].id.as_str(), name) {
                proof {
                    lemma_index_of_first(self@.schedules, name@, i as int);
                }
                found = i;
                break;
            }
            i += 1;
        }
        let wd: crate::clock::Weekday;
        let time_v: u32;
        match &self.schedules[found].schedule_type {
            ScheduleType::OneTime { .. } => {
                return ExceptionOutcome::EventNotFound;
            }
            ScheduleType::Weekly { weekday, time, .. } => {
                wd = *weekday;
                time_v = *time;
            }
        }
        if (day + 3) % 7 != wd.num_days_from_monday() as i64 {
            return ExceptionOutcome::UnvalidDate;
        }
        let dt = day * 86400 + time_v as i64 - 32400;
        if dt < now {
            return ExceptionOutcome::PassedDate;
        }
        let todo = match reason {
            Some(text) => Todo::SendMessage { contents: SimpleMessage::new(text) },
            None => Todo::Nothing,
        };
        let entry = crate::schedule::ExceptionEntry { id: "休み".to_owned(), todo, datetime: dt };
        let ghost entry_v = entry@;
        {
            let s = &mut self.schedules[found];
            if let ScheduleType::Weekly { exception, .. } = &mut s.schedule_type {
                exception.push(entry);
            }
        }
        proof {
            let sv = old(self)@;
            let i = found as int;
            let found_v = sv.schedules[i];
            let old_exc = match found_v.schedule_type {
                TriggerView::Weekly { weekday: _, time: _, exception } => exception,
                TriggerView::OneTime { .. } => Seq::empty(),
            };
            let updated = ScheduleView {
                id: found_v.id,
                todo: found_v.todo,
                schedule_type: TriggerView::Weekly {
                    weekday: wd,
                    time: time_v as int,
                    exception: old_exc.push(entry_v),
                },
            };
            assert(exception_views(old(self).schedules@[i].schedule_type->Weekly_exception@.push(
                entry,
            )) =~= old_exc.push(entry_v));
            assert(self@.schedules =~= sv.schedules.update(i, updated));
            assert(wf_scheduler(self@)) by {
                assert forall|j: int| 0 <= j < self@.schedules.len() implies wf_schedule(
                    #[trigger] self@.schedules[j],
                ) by {
                    if j != i {
                        assert(self@.schedules[j] == sv.schedules[j]);
                    } else {
                        assert(crate::schedule::wf_exception(entry_v));
                        assert forall|k: int| 0 <= k < old_exc.push(entry_v).len() implies
                            crate::schedule::wf_exception(
                            #[trigger] old_exc.push(entry_v)[k],
                        ) by {
                            if k < old_exc.len() {
                                assert(old_exc.push(entry_v)[k] == old_exc[k]);
                            }
                        }
                    }
                }
            }
        }
        ExceptionOutcome::Success
    }
}

/// Size bound of one schedule in a collection.
pub open spec fn sized_schedule_at(s: Seq<ScheduleView>, i: int) -> bool {
    crate::schedule::sized_schedule(s[i])
}

/// `index_of_id` equals a position that matches while everything before it
/// does not.
pub proof fn lemma_index_of_first(s: Seq<ScheduleView>, id: Seq<char>, i: int)
    requires
        0 <= i < s.len(),
        s[i].id == id,
        forall|j: int| 0 <= j < i ==> (#[trigger] s[j].id) != id,
    ensures
        index_of_id(s, id) == i,
    decreases s.len(),
{
    if i > 0 {
        assert(s[0].id != id);
        assert forall|j: int| 0 <= j < i - 1 implies (#[trigger] s.drop_first()[j].id) != id by {
            assert(s.drop_first()[j] == s[j + 1]);
        }
        assert(s.drop_first()[i - 1] == s[i]);
        lemma_index_of_first(s.drop_first(), id, i - 1);
    }
}

impl Scheduler {
    /// Assembles a scheduler from a persisted document and a watermark, as
    /// startup does; a malformed document yields nothing.
    pub fn from_document(text: &str, timestamp: i64) -> (r: Option<Scheduler>)
        ensures
            match r {
                Some(sc) => crate::codec::parse_document_spec(text@) == Some(sc@.schedules)
                    && wf_schedules(sc@.schedules) && sc@.timestamp == timestamp as int,
                None => crate::codec::parse_document_spec(text@) is None,
            },
    {
        match crate::codec::parse_document(text) {
            None => None,
            Some(schedules) => Some(Scheduler::new(schedules, timestamp)),
        }
    }

    /// The canonical document text of the schedule collection, as the
    /// caller persists it after a pass that fired.
    pub fn document(&self) -> (r: String)
        requires
            wf_schedules(self@.schedules),
        ensures
            r@ == crate::codec::render_document_spec(self@.schedules),
    {
        crate::codec::render_document(&self.schedules)
    }
}

} // verus!
