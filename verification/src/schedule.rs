use vstd::prelude::*;

use crate::clock::{Weekday, weekly_occurrence, fires_in_window, INSTANT_MAX, NOW_MIN, NOW_MAX};
use crate::message::{SimpleMessage, SimpleMessageView};
use crate::digits::dec_digits;

verus! {

/// Largest hour offset a follow-up attendance check may use.
pub const HOUR_MAX: i64 = 100_000;

/// Largest schedule or exception list the walks accept, so that counting
/// fired entries can never overflow.
pub const LIST_MAX: usize = 0x1000_0000;

/// Mathematical content of an action.
pub ghost enum TodoView {
    CreateAttendanceCheck { hour: int },
    SendAttendanceInfo { attendance_id: Seq<char> },
    Test,
    SendMessage { contents: SimpleMessageView },
    Nothing,
}

/// Mathematical content of a one-time override entry under a weekly rule.
pub ghost struct ExceptionView {
    pub id: Seq<char>,
    pub todo: TodoView,
    pub datetime: int,
}

/// Mathematical content of a trigger rule.
pub ghost enum TriggerView {
    OneTime { datetime: int },
    Weekly { weekday: Weekday, time: int, exception: Seq<ExceptionView> },
}

/// Mathematical content of a schedule.
pub ghost struct ScheduleView {
    pub id: Seq<char>,
    pub todo: TodoView,
    pub schedule_type: TriggerView,
}

/// Mathematical content of an outbound request an evaluation pass emits.
pub ghost enum EffectView {
    AnnounceAttendanceCheck { attendance_id: Seq<char>, finishing: int, event_name: Seq<char> },
    QueryAttendance { attendance_id: Seq<char> },
    Push { contents: SimpleMessageView },
}

/// The side-effecting operation bound to a schedule.
#[derive(Debug)]
pub enum Todo {
    CreateAttendanceCheck { hour: i64 },
    SendAttendanceInfo { attendance_id: String },
    Test,
    SendMessage { contents: SimpleMessage },
    Nothing,
}

/// A one-time override of a single occurrence of a weekly rule.
#[derive(Debug)]
pub struct ExceptionEntry {
    pub id: String,
    pub todo: Todo,
    pub datetime: i64,
}

/// A trigger rule: a single instant, or a weekly repetition with one-time
/// overrides for individual occurrences.
#[derive(Debug)]
pub enum ScheduleType {
    OneTime { datetime: i64 },
    Weekly { weekday: Weekday, time: u32, exception: Vec<ExceptionEntry> },
}

/// An identified pair of trigger rule and action.
#[derive(Debug)]
pub struct Schedule {
    pub id: String,
    pub todo: Todo,
    pub schedule_type: ScheduleType,
}

/// An outbound request recorded while a pass runs; the caller performs it
/// after the pass, fire-and-forget.
#[derive(Debug)]
pub enum Effect {
    AnnounceAttendanceCheck { attendance_id: String, finishing: i64, event_name: String },
    QueryAttendance { attendance_id: String },
    Push { contents: SimpleMessage },
}

impl View for Todo {
    type V = TodoView;

    open spec fn view(&self) -> TodoView {
        match self {
            Todo::CreateAttendanceCheck { hour } => TodoView::CreateAttendanceCheck {
                hour: *hour as int,
            },
            Todo::SendAttendanceInfo { attendance_id } => TodoView::SendAttendanceInfo {
                attendance_id: attendance_id@,
            },
            Todo::Test => TodoView::Test,
            Todo::SendMessage { contents } => TodoView::SendMessage { contents: contents@ },
            Todo::Nothing => TodoView::Nothing,
        }
    }
}

impl View for ExceptionEntry {
    type V = ExceptionView;

    open spec fn view(&self) -> ExceptionView {
        ExceptionView { id: self.id@, todo: self.todo@, datetime: self.datetime as int }
    }
}

/// The views of a list of exception entries.
pub open spec fn exception_views(s: Seq<ExceptionEntry>) -> Seq<ExceptionView> {
    s.map_values(|e: ExceptionEntry| e@)
}

impl View for ScheduleType {
    type V = TriggerView;

    open spec fn view(&self) -> TriggerView {
        match self {
            ScheduleType::OneTime { datetime } => TriggerView::OneTime {
                datetime: *datetime as int,
            },
            ScheduleType::Weekly { weekday, time, exception } => TriggerView::Weekly {
                weekday: *weekday,
                time: *time as int,
                exception: exception_views(exception@),
            },
        }
    }
}

impl View for Schedule {
    type V = ScheduleView;

    open spec fn view(&self) -> ScheduleView {
        ScheduleView { id: self.id@, todo: self.todo@, schedule_type: self.schedule_type@ }
    }
}

/// The views of a list of schedules.
pub open spec fn schedule_views(s: Seq<Schedule>) -> Seq<ScheduleView> {
    s.map_values(|e: Schedule| e@)
}

impl View for Effect {
    type V = EffectView;

    open spec fn view(&self) -> EffectView {
        match self {
            Effect::AnnounceAttendanceCheck { attendance_id, finishing, event_name } => {
                EffectView::AnnounceAttendanceCheck {
                    attendance_id: attendance_id@,
                    finishing: *finishing as int,
                    event_name: event_name@,
                }
            }
            Effect::QueryAttendance { attendance_id } => EffectView::QueryAttendance {
                attendance_id: attendance_id@,
            },
            Effect::Push { contents } => EffectView::Push { contents: contents@ },
        }
    }
}

/// The views of a list of effects.
pub open spec fn effect_views(s: Seq<Effect>) -> Seq<EffectView> {
    s.map_values(|e: Effect| e@)
}

/// An instant the scheduler may store.
pub open spec fn wf_instant(t: int) -> bool {
    0 <= t <= INSTANT_MAX
}

/// Validity of an action: hour offsets stay in the range whose follow-up
/// instants the instant range can absorb.
pub open spec fn wf_todo(t: TodoView) -> bool {
    match t {
        TodoView::CreateAttendanceCheck { hour } => 0 <= hour <= HOUR_MAX,
        _ => true,
    }
}

/// Validity of an exception entry.
pub open spec fn wf_exception(e: ExceptionView) -> bool {
    wf_todo(e.todo) && wf_instant(e.datetime)
}

/// Validity of a list of exception entries.
pub open spec fn wf_exceptions(s: Seq<ExceptionView>) -> bool {
    forall|i: int| 0 <= i < s.len() ==> wf_exception(#[trigger] s[i])
}

/// Validity of a trigger rule.
pub open spec fn wf_trigger(t: TriggerView) -> bool {
    match t {
        TriggerView::OneTime { datetime } => wf_instant(datetime),
        TriggerView::Weekly { weekday: _, time, exception } => 0 <= time < 86400
            && wf_exceptions(exception),
    }
}

/// Validity of a schedule.
pub open spec fn wf_schedule(s: ScheduleView) -> bool {
    wf_todo(s.todo) && wf_trigger(s.schedule_type)
}

/// Validity of a list of schedules.
pub open spec fn wf_schedules(s: Seq<ScheduleView>) -> bool {
    forall|i: int| 0 <= i < s.len() ==> wf_schedule(#[trigger] s[i])
}

impl Todo {
    /// Whether this action is valid.
    pub fn wf(&self) -> (r: bool)
        ensures
            r == wf_todo(self@),
    {
        match self {
            Todo::CreateAttendanceCheck { hour } => 0 <= *hour && *hour <= HOUR_MAX,
            _ => true,
        }
    }
}

impl ScheduleType {
    /// A weekly rule with an empty exception list.
    pub fn _weekly(weekday: Weekday, time: u32) -> (r: Self)
        ensures
            r@ == (TriggerView::Weekly {
                weekday,
                time: time as int,
                exception: Seq::<ExceptionView>::empty(),
            }),
    {
        let r = ScheduleType::Weekly { weekday, time, exception: Vec::new() };
        proof {
            assert(exception_views(Seq::<ExceptionEntry>::empty())
                =~= Seq::<ExceptionView>::empty());
        }
        r
    }

    /// Whether this trigger rule is valid.
    pub fn wf(&self) -> (r: bool)
        ensures
            r == wf_trigger(self@),
    {
        match self {
            ScheduleType::OneTime { datetime } => 0 <= *datetime && *datetime <= INSTANT_MAX,
            ScheduleType::Weekly { weekday, time, exception } => {
                if *time >= 86400 {
                    return false;
                }
                let mut i: usize = 0;
                while i < exception.len()
                    invariant
                        i <= exception.len(),
                        *time < 86400,
                        self@ == (TriggerView::Weekly {
                            weekday: *weekday,
                            time: *time as int,
                            exception: exception_views(exception@),
                        }),
                        forall|j: int| 0 <= j < i ==> wf_exception(
                            #[trigger] exception_views(exception@)[j],
                        ),
                    decreases exception.len() - i,
                {
                    let e = &exception[i];
                    if !(e.todo.wf() && 0 <= e.datetime && e.datetime <= INSTANT_MAX) {
                        proof {
                            assert(!wf_exception(exception_views(exception@)[i as int]));
                        }
                        return false;
                    }
                    i += 1;
                }
                true
            }
        }
    }

    /// The occurrence, if any, a poll window `(last, now]` claims for this
    /// rule, together with the instant it nominates.
    pub fn check(&self, last: i64, now: i64) -> (r: (bool, i64))
        requires
            NOW_MIN <= now <= NOW_MAX,
            wf_trigger(self@),
        ensures
            r.0 == trigger_check_spec(self@, last as int, now as int).0,
            r.1 == trigger_check_spec(self@, last as int, now as int).1,
    {
        match self {
            ScheduleType::OneTime { datetime } => (last < *datetime && *datetime <= now, *datetime),
            ScheduleType::Weekly { weekday, time, .. } => {
                let target = crate::clock::weekly_occurrence_at(*weekday, *time, now);
                (last < target && target <= now, target)
            }
        }
    }

    /// Whether a fired schedule with this rule is consumed: a one-time rule
    /// is single-use, a weekly rule recurs indefinitely.
    pub fn delete_check(&self) -> (r: bool)
        ensures
            r == (self@ is OneTime),
    {
        match self {
            ScheduleType::OneTime { .. } => true,
            ScheduleType::Weekly { .. } => false,
        }
    }
}

/// What a trigger rule answers for the poll window `(last, now]`: whether
/// its one candidate occurrence fell inside the window, and that instant.
pub open spec fn trigger_check_spec(t: TriggerView, last: int, now: int) -> (bool, int) {
    match t {
        TriggerView::OneTime { datetime } => (fires_in_window(datetime, last, now), datetime),
        TriggerView::Weekly { weekday, time, .. } => {
            let occ = weekly_occurrence(weekday, time, now);
            (fires_in_window(occ, last, now), occ)
        }
    }
}

/// The attendance identifier derived from one fresh random value.
pub open spec fn attendance_tag(n: u64) -> Seq<char> {
    "attendance"@ + dec_digits(n as nat)
}

/// The follow-up schedule a fired attendance check enqueues: close out the
/// check at `datetime` by reporting its outcome.
pub open spec fn chained_schedule(attendance_id: Seq<char>, datetime: int) -> ScheduleView {
    ScheduleView {
        id: Seq::<char>::empty(),
        todo: TodoView::SendAttendanceInfo { attendance_id },
        schedule_type: TriggerView::OneTime { datetime },
    }
}

/// What executing an action yields: requests to perform, at most one
/// follow-up schedule, and the fresh values left over.
pub ghost struct TodoOutcome {
    pub effects: Seq<EffectView>,
    pub chained: Option<ScheduleView>,
    pub fresh: Seq<u64>,
}

/// Executing an action of a schedule named `sid` that fired at `time`,
/// drawing fresh random values from the back of `fresh`.
pub open spec fn todo_outcome(t: TodoView, sid: Seq<char>, time: int, fresh: Seq<u64>) -> TodoOutcome {
    match t {
        TodoView::CreateAttendanceCheck { hour } => {
            if fresh.len() == 0 {
                TodoOutcome { effects: Seq::empty(), chained: None, fresh }
            } else {
                let aid = attendance_tag(fresh.last());
                let finishing = time + hour * 3600;
                TodoOutcome {
                    effects: seq![
                        EffectView::AnnounceAttendanceCheck {
                            attendance_id: aid,
                            finishing,
                            event_name: sid,
                        },
                    ],
                    chained: Some(chained_schedule(aid, finishing)),
                    fresh: fresh.drop_last(),
                }
            }
        }
        TodoView::SendAttendanceInfo { attendance_id } => TodoOutcome {
            effects: seq![EffectView::QueryAttendance { attendance_id }],
            chained: None,
            fresh,
        },
        TodoView::SendMessage { contents } => TodoOutcome {
            effects: seq![EffectView::Push { contents }],
            chained: None,
            fresh,
        },
        TodoView::Test => TodoOutcome { effects: Seq::empty(), chained: None, fresh },
        TodoView::Nothing => TodoOutcome { effects: Seq::empty(), chained: None, fresh },
    }
}

/// Builds the attendance identifier string for one fresh value.
fn attendance_id_string(n: u64) -> (r: String)
    ensures
        r@ == attendance_tag(n),
{
    let mut s = "attendance".to_owned();
    crate::digits::push_dec_u64(n, &mut s);
    s
}

impl Todo {
    /// Executes this action for the schedule named `schedule_id`, fired at
    /// `time`: records the outbound requests, consumes a fresh random value
    /// for a new attendance check, and returns the follow-up schedule if the
    /// action chains one.
    pub fn execute(&self, schedule_id: &str, time: i64, fresh: &mut Vec<u64>, effects: &mut Vec<
        Effect,
    >) -> (r: Option<Schedule>)
        requires
            wf_todo(self@),
            0 <= time,
            time + 3600 * HOUR_MAX <= INSTANT_MAX,
        ensures
            ({
                let out = todo_outcome(self@, schedule_id@, time as int, old(fresh)@);
                &&& final(fresh)@ == out.fresh
                &&& effect_views(final(effects)@) == effect_views(old(effects)@) + out.effects
                &&& (r is Some <==> out.chained is Some)
                &&& (r is Some ==> r.unwrap()@ == out.chained.unwrap() && wf_schedule(
                    r.unwrap()@,
                ))
            }),
    {
        match self {
            Todo::CreateAttendanceCheck { hour } => {
                let n = match fresh.pop() {
                    Some(x) => x,
                    None => {
                        proof {
                            assert(effect_views(effects@) =~= effect_views(effects@)
                                + Seq::<EffectView>::empty());
                        }
                        return None;
                    }
                };
                let aid = attendance_id_string(n);
                let finishing = time + *hour * 3600;
                effects.push(
                    Effect::AnnounceAttendanceCheck {
                        attendance_id: aid.clone(),
                        finishing,
                        event_name: schedule_id.to_owned(),
                    },
                );
                let chained = Schedule {
                    id: String::new(),
                    todo: Todo::SendAttendanceInfo { attendance_id: aid },
                    schedule_type: ScheduleType::OneTime { datetime: finishing },
                };
                proof {
                    let out = todo_outcome(self@, schedule_id@, time as int, old(fresh)@);
                    assert(effect_views(effects@) =~= effect_views(old(effects)@) + out.effects);
                }
                Some(chained)
            }
            Todo::SendAttendanceInfo { attendance_id } => {
                effects.push(Effect::QueryAttendance { attendance_id: attendance_id.clone() });
                proof {
                    let out = todo_outcome(self@, schedule_id@, time as int, old(fresh)@);
                    assert(effect_views(effects@) =~= effect_views(old(effects)@) + out.effects);
                }
                None
            }
            Todo::SendMessage { contents } => {
                effects.push(Effect::Push { contents: contents.clone() });
                proof {
                    let out = todo_outcome(self@, schedule_id@, time as int, old(fresh)@);
                    assert(effect_views(effects@) =~= effect_views(old(effects)@) + out.effects);
                }
                None
            }
            Todo::Test => {
                proof {
                    assert(effect_views(effects@) =~= effect_views(effects@)
                        + Seq::<EffectView>::empty());
                }
                None
            }
            Todo::Nothing => {
                proof {
                    assert(effect_views(effects@) =~= effect_views(effects@)
                        + Seq::<EffectView>::empty());
                }
                None
            }
        }
    }
}

/// Weight of an action in the pass-termination measure: executing an
/// attendance-check action is the one way a pass appends new work.
pub open spec fn chains_weight(t: TodoView) -> nat {
    if t is CreateAttendanceCheck {
        1nat
    } else {
        0nat
    }
}

/// Total chaining weight of a list of exception entries.
pub open spec fn exc_chain_count(s: Seq<ExceptionView>) -> nat
    decreases s.len(),
{
    if s.len() == 0 {
        0nat
    } else {
        chains_weight(s[0].todo) + exc_chain_count(s.drop_first())
    }
}

/// Total chaining weight of a list of schedules.
pub open spec fn sched_chain_count(s: Seq<ScheduleView>) -> nat
    decreases s.len(),
{
    if s.len() == 0 {
        0nat
    } else {
        chains_weight(s[0].todo) + sched_chain_count(s.drop_first())
    }
}

/// Chaining weight adds over concatenation of exception lists.
pub proof fn lemma_exc_chain_count_concat(a: Seq<ExceptionView>, b: Seq<ExceptionView>)
    ensures
        exc_chain_count(a + b) == exc_chain_count(a) + exc_chain_count(b),
    decreases a.len(),
{
    if a.len() == 0 {
        assert(a + b =~= b);
    } else {
        assert((a + b).drop_first() =~= a.drop_first() + b);
        assert((a + b)[0] == a[0]);
        lemma_exc_chain_count_concat(a.drop_first(), b);
    }
}

/// Chaining weight adds over concatenation of schedule lists.
pub proof fn lemma_sched_chain_count_concat(a: Seq<ScheduleView>, b: Seq<ScheduleView>)
    ensures
        sched_chain_count(a + b) == sched_chain_count(a) + sched_chain_count(b),
    decreases a.len(),
{
    if a.len() == 0 {
        assert(a + b =~= b);
    } else {
        assert((a + b).drop_first() =~= a.drop_first() + b);
        assert((a + b)[0] == a[0]);
        lemma_sched_chain_count_concat(a.drop_first(), b);
    }
}

/// The follow-up schedule of an execution, reinterpreted as exception
/// entries of the list being walked.
pub open spec fn chained_exceptions(c: Option<ScheduleView>) -> Seq<ExceptionView> {
    match c {
        None => Seq::empty(),
        Some(s) => seq![
            ExceptionView {
                id: s.id,
                todo: s.todo,
                datetime: match s.schedule_type {
                    TriggerView::OneTime { datetime } => datetime,
                    TriggerView::Weekly { .. } => 0,
                },
            },
        ],
    }
}

/// The follow-up schedule of an execution as a list of schedules.
pub open spec fn chained_schedules(c: Option<ScheduleView>) -> Seq<ScheduleView> {
    match c {
        None => Seq::empty(),
        Some(s) => seq![s],
    }
}

/// What one batch walk over a list of exception entries yields.
pub ghost struct ExceptionPass {
    pub kept: Seq<ExceptionView>,
    pub fired: nat,
    pub effects: Seq<EffectView>,
    pub fresh: Seq<u64>,
}

/// The batch walk over an exception list for the poll window `(last, now]`:
/// entries are visited in order; a fired entry executes its action and is
/// removed; a follow-up schedule is appended to the same list and visited
/// within the same pass.
pub open spec fn exception_pass(
    items: Seq<ExceptionView>,
    last: int,
    now: int,
    fresh: Seq<u64>,
) -> ExceptionPass
    decreases items.len() + exc_chain_count(items),
{
    if items.len() == 0 {
        ExceptionPass { kept: Seq::empty(), fired: 0, effects: Seq::empty(), fresh }
    } else {
        let head = items[0];
        if fires_in_window(head.datetime, last, now) {
            let out = todo_outcome(head.todo, head.id, head.datetime, fresh);
            let rest_in = items.drop_first() + chained_exceptions(out.chained);
            proof {
                let h = items[0];
                let o = todo_outcome(h.todo, h.id, h.datetime, fresh);
                lemma_exc_chain_count_concat(items.drop_first(), chained_exceptions(o.chained));
                if o.chained is Some {
                    assert(chains_weight(h.todo) == 1);
                    assert(exc_chain_count(chained_exceptions(o.chained)) == 0) by {
                        let ce = chained_exceptions(o.chained);
                        assert(ce.drop_first() =~= Seq::<ExceptionView>::empty());
                        assert(exc_chain_count(Seq::<ExceptionView>::empty()) == 0);
                        assert(chains_weight(ce[0].todo) == 0);
                    }
                }
            }
            let rest = exception_pass(rest_in, last, now, out.fresh);
            ExceptionPass {
                kept: rest.kept,
                fired: rest.fired + 1,
                effects: out.effects + rest.effects,
                fresh: rest.fresh,
            }
        } else {
            let rest = exception_pass(items.drop_first(), last, now, fresh);
            ExceptionPass {
                kept: seq![head] + rest.kept,
                fired: rest.fired,
                effects: rest.effects,
                fresh: rest.fresh,
            }
        }
    }
}

/// What evaluating a single schedule yields: whether it fired, the schedule
/// as it stands afterwards, and any follow-up.
pub ghost struct ScheduleStep {
    pub fired: bool,
    pub kept: ScheduleView,
    pub chained: Option<ScheduleView>,
    pub effects: Seq<EffectView>,
    pub fresh: Seq<u64>,
}

/// Evaluating one schedule for the poll window `(last, now]`. For a weekly
/// rule the exception list is walked first; if any exception fired, the
/// pass is handled by the override and the base rule is not evaluated.
pub open spec fn schedule_step(s: ScheduleView, last: int, now: int, fresh: Seq<u64>) -> ScheduleStep {
    match s.schedule_type {
        TriggerView::Weekly { weekday, time, exception } => {
            let ep = exception_pass(exception, last, now, fresh);
            let kept = ScheduleView {
                id: s.id,
                todo: s.todo,
                schedule_type: TriggerView::Weekly { weekday, time, exception: ep.kept },
            };
            if ep.fired > 0 {
                ScheduleStep { fired: true, kept, chained: None, effects: ep.effects, fresh: ep.fresh }
            } else {
                let occ = weekly_occurrence(weekday, time, now);
                if fires_in_window(occ, last, now) {
                    let out = todo_outcome(s.todo, s.id, occ, ep.fresh);
                    ScheduleStep {
                        fired: true,
                        kept,
                        chained: out.chained,
                        effects: ep.effects + out.effects,
                        fresh: out.fresh,
                    }
                } else {
                    ScheduleStep {
                        fired: false,
                        kept,
                        chained: None,
                        effects: ep.effects,
                        fresh: ep.fresh,
                    }
                }
            }
        }
        TriggerView::OneTime { datetime } => {
            if fires_in_window(datetime, last, now) {
                let out = todo_outcome(s.todo, s.id, datetime, fresh);
                ScheduleStep {
                    fired: true,
                    kept: s,
                    chained: out.chained,
                    effects: out.effects,
                    fresh: out.fresh,
                }
            } else {
                ScheduleStep { fired: false, kept: s, chained: None, effects: Seq::empty(), fresh }
            }
        }
    }
}

/// What one batch walk over the schedule collection yields.
pub ghost struct SchedulePass {
    pub kept: Seq<ScheduleView>,
    pub fired: nat,
    pub effects: Seq<EffectView>,
    pub fresh: Seq<u64>,
}

/// The batch walk over the schedule collection for the poll window
/// `(last, now]`: schedules are visited in order; a fired one-time schedule
/// is removed in place, a weekly schedule always stays; a follow-up
/// schedule is appended to the same collection and visited within the same
/// pass.
pub open spec fn schedule_pass(
    items: Seq<ScheduleView>,
    last: int,
    now: int,
    fresh: Seq<u64>,
) -> SchedulePass
    decreases items.len() + sched_chain_count(items),
{
    if items.len() == 0 {
        SchedulePass { kept: Seq::empty(), fired: 0, effects: Seq::empty(), fresh }
    } else {
        let head = items[0];
        let st = schedule_step(head, last, now, fresh);
        let removed = st.fired && head.schedule_type is OneTime;
        let rest_in = items.drop_first() + chained_schedules(st.chained);
        proof {
            let h = items[0];
            let s1 = schedule_step(h, last, now, fresh);
            lemma_sched_chain_count_concat(items.drop_first(), chained_schedules(s1.chained));
            if s1.chained is Some {
                assert(chains_weight(h.todo) == 1);
                assert(sched_chain_count(chained_schedules(s1.chained)) == 0) by {
                    let cs = chained_schedules(s1.chained);
                    assert(cs.drop_first() =~= Seq::<ScheduleView>::empty());
                    assert(sched_chain_count(Seq::<ScheduleView>::empty()) == 0);
                    assert(chains_weight(cs[0].todo) == 0);
                }
            }
        }
        let rest = schedule_pass(rest_in, last, now, st.fresh);
        SchedulePass {
            kept: (if removed {
                Seq::empty()
            } else {
                seq![st.kept]
            }) + rest.kept,
            fired: rest.fired + (if st.fired {
                1nat
            } else {
                0nat
            }),
            effects: st.effects + rest.effects,
            fresh: rest.fresh,
        }
    }
}

/// The chaining weight of a list never exceeds its length.
pub proof fn lemma_exc_chain_count_le(s: Seq<ExceptionView>)
    ensures
        exc_chain_count(s) <= s.len(),
    decreases s.len(),
{
    if s.len() > 0 {
        lemma_exc_chain_count_le(s.drop_first());
    }
}

/// The chaining weight of a list never exceeds its length.
pub proof fn lemma_sched_chain_count_le(s: Seq<ScheduleView>)
    ensures
        sched_chain_count(s) <= s.len(),
    decreases s.len(),
{
    if s.len() > 0 {
        lemma_sched_chain_count_le(s.drop_first());
    }
}

/// A batch walk over a valid exception list keeps only valid entries, fires
/// at most once per visited entry, and hands back a prefix of the fresh
/// values it was given.
pub proof fn lemma_exception_pass_wf(items: Seq<ExceptionView>, last: int, now: int, fresh: Seq<u64>)
    requires
        wf_exceptions(items),
        now <= NOW_MAX,
    ensures
        wf_exceptions(exception_pass(items, last, now, fresh).kept),
        exception_pass(items, last, now, fresh).fired <= items.len() + exc_chain_count(items),
    decreases items.len() + exc_chain_count(items),
{
    if items.len() == 0 {
    } else {
        let head = items[0];
        assert(wf_exception(head));
        if fires_in_window(head.datetime, last, now) {
            let out = todo_outcome(head.todo, head.id, head.datetime, fresh);
            let tail = items.drop_first();
            let ce = chained_exceptions(out.chained);
            let rest_in = tail + ce;
            lemma_exc_chain_count_concat(tail, ce);
            if out.chained is Some {
                assert(chains_weight(head.todo) == 1);
                assert(exc_chain_count(ce) == 0) by {
                    assert(ce.drop_first() =~= Seq::<ExceptionView>::empty());
                    assert(exc_chain_count(Seq::<ExceptionView>::empty()) == 0);
                    assert(chains_weight(ce[0].todo) == 0);
                }
                assert(wf_exception(ce[0])) by {
                    let hour = match head.todo {
                        TodoView::CreateAttendanceCheck { hour } => hour,
                        _ => 0,
                    };
                    assert(0 <= hour <= HOUR_MAX);
                    assert(ce[0].datetime == head.datetime + hour * 3600);
                    assert(0 <= head.datetime <= now);
                }
            }
            assert(wf_exceptions(rest_in)) by {
                assert forall|i: int| 0 <= i < rest_in.len() implies wf_exception(
                    #[trigger] rest_in[i],
                ) by {
                    if i < tail.len() {
                        assert(rest_in[i] == items[i + 1]);
                    } else {
                        assert(rest_in[i] == ce[i - tail.len()]);
                    }
                }
            }
            lemma_exception_pass_wf(rest_in, last, now, out.fresh);
        } else {
            let tail = items.drop_first();
            assert(wf_exceptions(tail)) by {
                assert forall|i: int| 0 <= i < tail.len() implies wf_exception(
                    #[trigger] tail[i],
                ) by {
                    assert(tail[i] == items[i + 1]);
                }
            }
            lemma_exception_pass_wf(tail, last, now, fresh);
            let rest = exception_pass(tail, last, now, fresh);
            let kept = seq![head] + rest.kept;
            assert(wf_exceptions(kept)) by {
                assert forall|i: int| 0 <= i < kept.len() implies wf_exception(
                    #[trigger] kept[i],
                ) by {
                    if i == 0 {
                        assert(kept[0] == head);
                    } else {
                        assert(kept[i] == rest.kept[i - 1]);
                    }
                }
            }
        }
    }
}

/// Evaluating one valid schedule yields a valid schedule, and a valid
/// follow-up if it chains one.
pub proof fn lemma_schedule_step_wf(s: ScheduleView, last: int, now: int, fresh: Seq<u64>)
    requires
        wf_schedule(s),
        NOW_MIN <= now <= NOW_MAX,
    ensures
        wf_schedule(schedule_step(s, last, now, fresh).kept),
        schedule_step(s, last, now, fresh).chained is Some ==> wf_schedule(
            schedule_step(s, last, now, fresh).chained.unwrap(),
        ),
{
    let st = schedule_step(s, last, now, fresh);
    match s.schedule_type {
        TriggerView::Weekly { weekday, time, exception } => {
            lemma_exception_pass_wf(exception, last, now, fresh);
            let ep = exception_pass(exception, last, now, fresh);
            if ep.fired == 0 {
                let occ = weekly_occurrence(weekday, time, now);
                if fires_in_window(occ, last, now) {
                    crate::clock::lemma_weekly_occurrence_bounds(weekday, time, now);
                    let out = todo_outcome(s.todo, s.id, occ, ep.fresh);
                    if out.chained is Some {
                        let hour = match s.todo {
                            TodoView::CreateAttendanceCheck { hour } => hour,
                            _ => 0,
                        };
                        assert(0 <= hour <= HOUR_MAX);
                        assert(out.chained.unwrap().schedule_type == (TriggerView::OneTime {
                            datetime: occ + hour * 3600,
                        }));
                    }
                }
            }
        }
        TriggerView::OneTime { datetime } => {
            if fires_in_window(datetime, last, now) {
                let out = todo_outcome(s.todo, s.id, datetime, fresh);
                if out.chained is Some {
                    let hour = match s.todo {
                        TodoView::CreateAttendanceCheck { hour } => hour,
                        _ => 0,
                    };
                    assert(0 <= hour <= HOUR_MAX);
                    assert(out.chained.unwrap().schedule_type == (TriggerView::OneTime {
                        datetime: datetime + hour * 3600,
                    }));
                }
            }
        }
    }
}

/// A batch walk over a valid schedule collection keeps only valid
/// schedules and fires at most once per visited schedule.
pub proof fn lemma_schedule_pass_wf(items: Seq<ScheduleView>, last: int, now: int, fresh: Seq<u64>)
    requires
        wf_schedules(items),
        NOW_MIN <= now <= NOW_MAX,
    ensures
        wf_schedules(schedule_pass(items, last, now, fresh).kept),
        schedule_pass(items, last, now, fresh).fired <= items.len() + sched_chain_count(items),
    decreases items.len() + sched_chain_count(items),
{
    if items.len() == 0 {
    } else {
        let head = items[0];
        assert(wf_schedule(head));
        let st = schedule_step(head, last, now, fresh);
        lemma_schedule_step_wf(head, last, now, fresh);
        let removed = st.fired && head.schedule_type is OneTime;
        let tail = items.drop_first();
        let cs = chained_schedules(st.chained);
        let rest_in = tail + cs;
        lemma_sched_chain_count_concat(tail, cs);
        if st.chained is Some {
            assert(chains_weight(head.todo) == 1);
            assert(sched_chain_count(cs) == 0) by {
                assert(cs.drop_first() =~= Seq::<ScheduleView>::empty());
                assert(sched_chain_count(Seq::<ScheduleView>::empty()) == 0);
                assert(chains_weight(cs[0].todo) == 0);
            }
        }
        assert(wf_schedules(rest_in)) by {
            assert forall|i: int| 0 <= i < rest_in.len() implies wf_schedule(
                #[trigger] rest_in[i],
            ) by {
                if i < tail.len() {
                    assert(rest_in[i] == items[i + 1]);
                } else {
                    assert(rest_in[i] == cs[i - tail.len()]);
                }
            }
        }
        lemma_schedule_pass_wf(rest_in, last, now, st.fresh);
        let rest = schedule_pass(rest_in, last, now, st.fresh);
        let kept_head: Seq<ScheduleView> = if removed {
            Seq::empty()
        } else {
            seq![st.kept]
        };
        let kept = kept_head + rest.kept;
        assert(wf_schedules(kept)) by {
            assert forall|i: int| 0 <= i < kept.len() implies wf_schedule(#[trigger] kept[i]) by {
                if i < kept_head.len() {
                    assert(kept[i] == st.kept);
                } else {
                    assert(kept[i] == rest.kept[i - kept_head.len()]);
                }
            }
        }
    }
}

/// Walks the exception list in place from `index` for the poll window
/// `(last, now]`, exactly as `exception_pass` describes: a fired entry
/// executes its action and is removed without advancing the index, and a
/// follow-up schedule is appended to the same list and visited within the
/// same pass. Returns how many entries fired.
pub fn check_exceptions(
    items: &mut Vec<ExceptionEntry>,
    index: usize,
    last: i64,
    now: i64,
    fresh: &mut Vec<u64>,
    effects: &mut Vec<Effect>,
) -> (count: u64)
    requires
        index <= old(items).len(),
        old(items).len() <= LIST_MAX,
        wf_exceptions(exception_views(old(items)@).skip(index as int)),
        NOW_MIN <= now <= NOW_MAX,
    ensures
        ({
            let ep = exception_pass(
                exception_views(old(items)@).skip(index as int),
                last as int,
                now as int,
                old(fresh)@,
            );
            &&& exception_views(final(items)@) == exception_views(old(items)@).take(index as int)
                + ep.kept
            &&& count as nat == ep.fired
            &&& effect_views(final(effects)@) == effect_views(old(effects)@) + ep.effects
            &&& final(fresh)@ == ep.fresh
        }),
    decreases items@.len() - index + exc_chain_count(exception_views(items@).skip(index as int)),
{
    let ghost v0 = items@;
    let ghost pre = exception_views(v0).skip(index as int);
    let ghost e0 = effect_views(effects@);
    if index >= items.len() {
        proof {
            assert(pre =~= Seq::<ExceptionView>::empty());
            assert(exception_views(v0).take(index as int) =~= exception_views(v0));
            assert(e0 =~= e0 + Seq::<EffectView>::empty());
        }
        return 0;
    }
    proof {
        assert(pre[0] == exception_views(v0)[index as int]);
        assert(wf_exception(pre[0]));
    }
    let dt = items[index].datetime;
    if last < dt && dt <= now {
        let chained = {
            let e = &items[index];
            e.todo.execute(e.id.as_str(), dt, fresh, effects)
        };
        let ghost o = todo_outcome(pre[0].todo, pre[0].id, pre[0].datetime, old(fresh)@);
        let ghost ce = chained_exceptions(o.chained);
        if let Some(c) = chained {
            let entry = if let Schedule {
                id,
                todo,
                schedule_type: ScheduleType::OneTime { datetime },
            } = c {
                ExceptionEntry { id, todo, datetime }
            } else {
                proof {
                    assert(false);
                }
                ExceptionEntry { id: String::new(), todo: Todo::Nothing, datetime: 0 }
            };
            proof {
                assert(entry@ == ce[0]);
            }
            items.push(entry);
        }
        items.remove(index);
        let ghost rest_in = pre.drop_first() + ce;
        proof {
            assert(exception_views(items@).skip(index as int) =~= rest_in);
            assert(exception_views(items@).take(index as int) =~= exception_views(v0).take(
                index as int,
            ));
            assert(wf_exceptions(rest_in)) by {
                assert forall|i: int| 0 <= i < rest_in.len() implies wf_exception(
                    #[trigger] rest_in[i],
                ) by {
                    if i < pre.len() - 1 {
                        assert(rest_in[i] == pre[i + 1]);
                    } else {
                        assert(rest_in[i] == ce[0]);
                    }
                }
            }
            lemma_exc_chain_count_concat(pre.drop_first(), ce);
            if o.chained is Some {
                assert(chains_weight(pre[0].todo) == 1);
                assert(exc_chain_count(ce) == 0) by {
                    assert(ce.drop_first() =~= Seq::<ExceptionView>::empty());
                    assert(exc_chain_count(Seq::<ExceptionView>::empty()) == 0);
                    assert(chains_weight(ce[0].todo) == 0);
                }
            }
        }
        let rest = check_exceptions(items, index, last, now, fresh, effects);
        proof {
            lemma_exception_pass_wf(rest_in, last as int, now as int, o.fresh);
            lemma_exc_chain_count_le(rest_in);
            let restp = exception_pass(rest_in, last as int, now as int, o.fresh);
            assert(rest as nat == restp.fired);
            let ep = exception_pass(pre, last as int, now as int, old(fresh)@);
            assert(ep.kept == restp.kept && ep.fired == restp.fired + 1 && ep.effects == o.effects
                + restp.effects && ep.fresh == restp.fresh);
            assert(effect_views(effects@) =~= e0 + ep.effects);
        }
        rest + 1
    } else {
        proof {
            assert(exception_views(v0).skip(index as int + 1) =~= pre.drop_first());
            assert(wf_exceptions(pre.drop_first())) by {
                assert forall|i: int| 0 <= i < pre.len() - 1 implies wf_exception(
                    #[trigger] pre.drop_first()[i],
                ) by {
                    assert(pre.drop_first()[i] == pre[i + 1]);
                }
            }
        }
        let rest = check_exceptions(items, index + 1, last, now, fresh, effects);
        proof {
            let restp = exception_pass(pre.drop_first(), last as int, now as int, old(fresh)@);
            let ep = exception_pass(pre, last as int, now as int, old(fresh)@);
            assert(ep.kept == seq![pre[0]] + restp.kept && ep.fired == restp.fired);
            assert(exception_views(v0).take(index as int + 1) =~= exception_views(v0).take(
                index as int,
            ) + seq![pre[0]]);
            assert(exception_views(final(items)@) =~= exception_views(v0).take(index as int)
                + ep.kept);
        }
        rest
    }
}

/// Size bound a schedule must meet before a pass: a weekly exception list
/// no longer than the walks accept.
pub open spec fn sized_schedule(s: ScheduleView) -> bool {
    match s.schedule_type {
        TriggerView::Weekly { weekday: _, time: _, exception } => exception.len() <= LIST_MAX,
        TriggerView::OneTime { datetime: _ } => true,
    }
}

/// Size bound for a whole collection.
pub open spec fn sized_schedules(s: Seq<ScheduleView>) -> bool {
    forall|i: int| 0 <= i < s.len() ==> sized_schedule(#[trigger] s[i])
}

impl Schedule {
    /// Whether this schedule is valid.
    pub fn wf(&self) -> (r: bool)
        ensures
            r == wf_schedule(self@),
    {
        self.todo.wf() && self.schedule_type.wf()
    }

    /// Evaluates this schedule for the poll window `(last, now]`, exactly
    /// as `schedule_step` describes. For a weekly rule the exception list
    /// is walked first; if any exception fired, the pass is handled by the
    /// override and the base rule is not evaluated. Returns whether the
    /// schedule fired, and any follow-up schedule its action produced.
    pub fn check(&mut self, last: i64, now: i64, fresh: &mut Vec<u64>, effects: &mut Vec<Effect>)
        -> (r: (bool, Option<Schedule>))
        requires
            wf_schedule(old(self)@),
            sized_schedule(old(self)@),
            NOW_MIN <= now <= NOW_MAX,
        ensures
            ({
                let st = schedule_step(old(self)@, last as int, now as int, old(fresh)@);
                &&& final(self)@ == st.kept
                &&& wf_schedule(final(self)@)
                &&& r.0 == st.fired
                &&& (r.1 is Some <==> st.chained is Some)
                &&& (r.1 is Some ==> r.1.unwrap()@ == st.chained.unwrap() && wf_schedule(
                    r.1.unwrap()@,
                ))
                &&& effect_views(final(effects)@) == effect_views(old(effects)@) + st.effects
                &&& final(fresh)@ == st.fresh
            }),
    {
        let ghost st = schedule_step(old(self)@, last as int, now as int, old(fresh)@);
        let ghost e0 = effect_views(effects@);
        if let ScheduleType::Weekly { exception, .. } = &mut self.schedule_type {
            proof {
                let pre = exception_views(exception@);
                assert(pre.skip(0) =~= pre);
                lemma_exception_pass_wf(pre, last as int, now as int, fresh@);
            }
            let fired_count = check_exceptions(exception, 0, last, now, fresh, effects);
            if fired_count > 0 {
                proof {
                    let exo = match old(self)@.schedule_type {
                        TriggerView::Weekly { weekday: _, time: _, exception } => exception,
                        TriggerView::OneTime { .. } => Seq::empty(),
                    };
                    let ep = exception_pass(exo, last as int, now as int, old(fresh)@);
                    assert(exo.skip(0) == exo && exo.take(0) =~= Seq::<ExceptionView>::empty());
                    assert(exception_views(exception@) =~= Seq::<
                        ExceptionView,
                    >::empty() + ep.kept);
                    assert(exception_views(exception@) =~= ep.kept);
                    assert(self@ == st.kept);
                }
                return (true, None);
            }
        }
        proof {
            assert(trigger_check_spec(self@.schedule_type, last as int, now as int)
                == trigger_check_spec(old(self)@.schedule_type, last as int, now as int));
        }
        let checked = self.schedule_type.check(last, now);
        let fired = checked.0;
        let fired_time = checked.1;
        if fired {
            proof {
                match old(self)@.schedule_type {
                    TriggerView::Weekly { weekday, time, exception: _ } => {
                        crate::clock::lemma_weekly_occurrence_bounds(
                            weekday,
                            time,
                            now as int,
                        );
                    }
                    TriggerView::OneTime { .. } => {}
                }
            }
            let follow = self.todo.execute(self.id.as_str(), fired_time, fresh, effects);
            proof {
                assert(effect_views(effects@) =~= e0 + st.effects);
            }
            return (true, follow);
        }
        proof {
            assert(effect_views(effects@) =~= e0 + st.effects);
        }
        (false, None)
    }
}

/// Walks the schedule collection in place from `index` for the poll window
/// `(last, now]`, exactly as `schedule_pass` describes.
fn check_schedules_from(
    schedules: &mut Vec<Schedule>,
    index: usize,
    last: i64,
    now: i64,
    fresh: &mut Vec<u64>,
    effects: &mut Vec<Effect>,
) -> (count: u64)
    requires
        index <= old(schedules).len(),
        old(schedules)@.len() + sched_chain_count(
            schedule_views(old(schedules)@).skip(index as int),
        ) <= LIST_MAX,
        wf_schedules(schedule_views(old(schedules)@).skip(index as int)),
        sized_schedules(schedule_views(old(schedules)@).skip(index as int)),
        NOW_MIN <= now <= NOW_MAX,
    ensures
        ({
            let sp = schedule_pass(
                schedule_views(old(schedules)@).skip(index as int),
                last as int,
                now as int,
                old(fresh)@,
            );
            &&& schedule_views(final(schedules)@) == schedule_views(old(schedules)@).take(
                index as int,
            ) + sp.kept
            &&& count as nat == sp.fired
            &&& effect_views(final(effects)@) == effect_views(old(effects)@) + sp.effects
            &&& final(fresh)@ == sp.fresh
        }),
    decreases schedules@.len() - index + sched_chain_count(
        schedule_views(schedules@).skip(index as int),
    ),
{
    let ghost v0 = schedules@;
    let ghost pre = schedule_views(v0).skip(index as int);
    let ghost e0 = effect_views(effects@);
    if index >= schedules.len() {
        proof {
            assert(pre =~= Seq::<ScheduleView>::empty());
            assert(schedule_views(v0).take(index as int) =~= schedule_views(v0));
            assert(e0 =~= e0 + Seq::<EffectView>::empty());
        }
        return 0;
    }
    proof {
        assert(pre[0] == schedule_views(v0)[index as int]);
        assert(wf_schedule(pre[0]) && sized_schedule(pre[0]));
    }
    let ghost st = schedule_step(pre[0], last as int, now as int, fresh@);
    let checked = schedules[index].check(last, now, fresh, effects);
    let fired = checked.0;
    let follow = checked.1;
    let delete_flag = schedules[index].schedule_type.delete_check();
    proof {
        assert(schedule_views(schedules@) =~= schedule_views(v0).update(index as int, st.kept));
        assert(delete_flag == (pre[0].schedule_type is OneTime)) by {
            match pre[0].schedule_type {
                TriggerView::Weekly { .. } => {}
                TriggerView::OneTime { .. } => {}
            }
        }
        if st.chained is Some {
            assert(chains_weight(pre[0].todo) == 1);
        }
    }
    let ghost cs = chained_schedules(st.chained);
    if let Some(o) = follow {
        proof {
            assert(o@ == cs[0]);
            assert(sized_schedule(cs[0]) && wf_schedule(cs[0]));
        }
        schedules.push(o);
    }
    let ghost rest_in = pre.drop_first() + cs;
    proof {
        lemma_sched_chain_count_concat(pre.drop_first(), cs);
        if st.chained is Some {
            assert(sched_chain_count(cs) == 0) by {
                assert(cs.drop_first() =~= Seq::<ScheduleView>::empty());
                assert(sched_chain_count(Seq::<ScheduleView>::empty()) == 0);
                assert(chains_weight(cs[0].todo) == 0);
            }
        }
        assert(wf_schedules(rest_in) && sized_schedules(rest_in)) by {
            assert forall|i: int| 0 <= i < rest_in.len() implies wf_schedule(#[trigger] rest_in[i])
                && sized_schedule(rest_in[i]) by {
                if i < pre.len() - 1 {
                    assert(rest_in[i] == pre[i + 1]);
                } else {
                    assert(rest_in[i] == cs[0]);
                }
            }
        }
    }
    let rest: u64;
    if fired && delete_flag {
        schedules.remove(index);
        proof {
            assert(schedule_views(schedules@).skip(index as int) =~= rest_in);
            assert(schedule_views(schedules@).take(index as int) =~= schedule_views(v0).take(
                index as int,
            ));
        }
        rest = check_schedules_from(schedules, index, last, now, fresh, effects);
        proof {
            lemma_schedule_pass_wf(rest_in, last as int, now as int, st.fresh);
            lemma_sched_chain_count_le(rest_in);
            let restp = schedule_pass(rest_in, last as int, now as int, st.fresh);
            let sp = schedule_pass(pre, last as int, now as int, old(fresh)@);
            assert(sp.kept == Seq::<ScheduleView>::empty() + restp.kept && sp.fired == restp.fired
                + 1 && sp.effects == st.effects + restp.effects && sp.fresh == restp.fresh);
            assert(Seq::<ScheduleView>::empty() + restp.kept =~= restp.kept);
            assert(effect_views(effects@) =~= e0 + sp.effects);
        }
        return rest + 1;
    } else {
        proof {
            assert(schedule_views(schedules@).skip(index as int + 1) =~= rest_in);
            assert(schedule_views(schedules@).take(index as int + 1) =~= schedule_views(v0).take(
                index as int,
            ) + seq![st.kept]);
        }
        rest = check_schedules_from(schedules, index + 1, last, now, fresh, effects);
        proof {
            lemma_schedule_pass_wf(rest_in, last as int, now as int, st.fresh);
            lemma_sched_chain_count_le(rest_in);
            let restp = schedule_pass(rest_in, last as int, now as int, st.fresh);
            let sp = schedule_pass(pre, last as int, now as int, old(fresh)@);
            assert(sp.kept == seq![st.kept] + restp.kept && sp.fired == restp.fired + (if st.fired {
                1nat
            } else {
                0nat
            }) && sp.effects == st.effects + restp.effects && sp.fresh == restp.fresh);
            assert(schedule_views(final(schedules)@) =~= schedule_views(v0).take(index as int)
                + sp.kept);
            assert(effect_views(effects@) =~= e0 + sp.effects);
        }
        if fired {
            return rest + 1;
        } else {
            return rest;
        }
    }
}

impl Schedule {
    /// Walks the whole collection for the poll window `(last, now]`, as
    /// `schedule_pass` describes: fired one-time schedules are removed in
    /// place, follow-ups are appended and visited within the same pass.
    /// Returns how many schedules fired.
    pub fn check_schedules(
        schedules: &mut Vec<Schedule>,
        last: i64,
        now: i64,
        fresh: &mut Vec<u64>,
        effects: &mut Vec<Effect>,
    ) -> (count: u64)
        requires
            old(schedules).len() <= LIST_MAX / 2,
            wf_schedules(schedule_views(old(schedules)@)),
            sized_schedules(schedule_views(old(schedules)@)),
            NOW_MIN <= now <= NOW_MAX,
        ensures
            ({
                let sp = schedule_pass(
                    schedule_views(old(schedules)@),
                    last as int,
                    now as int,
                    old(fresh)@,
                );
                &&& schedule_views(final(schedules)@) == sp.kept
                &&& wf_schedules(sp.kept)
                &&& count as nat == sp.fired
                &&& effect_views(final(effects)@) == effect_views(old(effects)@) + sp.effects
                &&& final(fresh)@ == sp.fresh
            }),
    {
        let ghost pre = schedule_views(schedules@);
        proof {
            assert(pre.skip(0) =~= pre);
            assert(pre.take(0) =~= Seq::<ScheduleView>::empty());
            lemma_sched_chain_count_le(pre);
            lemma_schedule_pass_wf(pre, last as int, now as int, fresh@);
        }
        let count = check_schedules_from(schedules, 0, last, now, fresh, effects);
        proof {
            let sp = schedule_pass(pre, last as int, now as int, old(fresh)@);
            assert(Seq::<ScheduleView>::empty() + sp.kept =~= sp.kept);
        }
        count
    }
}

/// An exception list in which some entry's instant falls inside the poll
/// window always reports at least one firing.
pub proof fn lemma_exception_fires_counted(
    items: Seq<ExceptionView>,
    last: int,
    now: int,
    fresh: Seq<u64>,
    k: int,
)
    requires
        0 <= k < items.len(),
        fires_in_window(items[k].datetime, last, now),
    ensures
        exception_pass(items, last, now, fresh).fired > 0,
    decreases items.len() + exc_chain_count(items),
{
    let head = items[0];
    if !fires_in_window(head.datetime, last, now) {
        assert(k != 0);
        assert(items.drop_first()[k - 1] == items[k]);
        lemma_exception_fires_counted(items.drop_first(), last, now, fresh, k - 1);
    }
}

/// Exception override: when any nested exception of a weekly rule fires in
/// the window, the pass is handled by the override alone. The schedule
/// counts as fired, no follow-up is chained, only the exception walk's
/// requests are emitted — the base weekly action is not executed — and the
/// weekly rule itself stays, unchanged but for its exception list.
pub proof fn lemma_exception_overrides_base(
    s: ScheduleView,
    last: int,
    now: int,
    fresh: Seq<u64>,
    k: int,
)
    requires
        s.schedule_type is Weekly,
        0 <= k < weekly_exceptions(s.schedule_type).len(),
        fires_in_window(weekly_exceptions(s.schedule_type)[k].datetime, last, now),
    ensures
        ({
            let st = schedule_step(s, last, now, fresh);
            let ep = exception_pass(weekly_exceptions(s.schedule_type), last, now, fresh);
            &&& st.fired
            &&& st.chained is None
            &&& st.effects == ep.effects
            &&& st.fresh == ep.fresh
            &&& same_weekly_rule(st.kept, s)
            &&& weekly_exceptions(st.kept.schedule_type) == ep.kept
        }),
{
    lemma_exception_fires_counted(weekly_exceptions(s.schedule_type), last, now, fresh, k);
}

/// The exception list of a weekly rule, empty for a one-time rule.
pub open spec fn weekly_exceptions(t: TriggerView) -> Seq<ExceptionView> {
    match t {
        TriggerView::Weekly { weekday: _, time: _, exception } => exception,
        TriggerView::OneTime { .. } => Seq::empty(),
    }
}

/// Two schedules carry the same weekly rule: same identifier, same action,
/// same weekday and time of day.
pub open spec fn same_weekly_rule(a: ScheduleView, b: ScheduleView) -> bool {
    &&& a.id == b.id
    &&& a.todo == b.todo
    &&& match (a.schedule_type, b.schedule_type) {
        (
            TriggerView::Weekly { weekday: w1, time: t1, exception: _ },
            TriggerView::Weekly { weekday: w2, time: t2, exception: _ },
        ) => w1 == w2 && t1 == t2,
        _ => false,
    }
}

/// Chained scheduling: executing an attendance-check action at `time`
/// chains exactly one follow-up schedule, a one-time trigger at
/// `time + hour` hours whose action reports the attendance outcome.
pub proof fn lemma_chained_attendance_check(hour: int, sid: Seq<char>, time: int, fresh: Seq<u64>)
    requires
        fresh.len() > 0,
    ensures
        ({
            let out = todo_outcome(TodoView::CreateAttendanceCheck { hour }, sid, time, fresh);
            &&& out.chained == Some(
                chained_schedule(attendance_tag(fresh.last()), time + hour * 3600),
            )
            &&& out.chained.unwrap().schedule_type == (TriggerView::OneTime {
                datetime: time + hour * 3600,
            })
            &&& out.chained.unwrap().todo == (TodoView::SendAttendanceInfo {
                attendance_id: attendance_tag(fresh.last()),
            })
        }),
{
}

/// Removal invariant, first half: after a pass, no one-time schedule whose
/// instant fell inside the window remains in the collection.
pub proof fn lemma_fired_one_time_removed(
    items: Seq<ScheduleView>,
    last: int,
    now: int,
    fresh: Seq<u64>,
)
    ensures
        ({
            let kept = schedule_pass(items, last, now, fresh).kept;
            forall|j: int| 0 <= j < kept.len() ==> match (#[trigger] kept[j]).schedule_type {
                TriggerView::OneTime { datetime } => !fires_in_window(datetime, last, now),
                TriggerView::Weekly { .. } => true,
            }
        }),
    decreases items.len() + sched_chain_count(items),
{
    if items.len() == 0 {
    } else {
        let head = items[0];
        let st = schedule_step(head, last, now, fresh);
        let removed = st.fired && head.schedule_type is OneTime;
        let cs = chained_schedules(st.chained);
        let rest_in = items.drop_first() + cs;
        lemma_sched_chain_count_concat(items.drop_first(), cs);
        if st.chained is Some {
            assert(chains_weight(head.todo) == 1);
            assert(sched_chain_count(cs) == 0) by {
                assert(cs.drop_first() =~= Seq::<ScheduleView>::empty());
                assert(sched_chain_count(Seq::<ScheduleView>::empty()) == 0);
                assert(chains_weight(cs[0].todo) == 0);
            }
        }
        lemma_fired_one_time_removed(rest_in, last, now, st.fresh);
        let rest = schedule_pass(rest_in, last, now, st.fresh);
        let kept_head: Seq<ScheduleView> = if removed {
            Seq::empty()
        } else {
            seq![st.kept]
        };
        let kept = kept_head + rest.kept;
        assert forall|j: int| 0 <= j < kept.len() implies match (#[trigger] kept[j]).schedule_type {
            TriggerView::OneTime { datetime } => !fires_in_window(datetime, last, now),
            TriggerView::Weekly { .. } => true,
        } by {
            if j < kept_head.len() {
                assert(kept[j] == st.kept);
            } else {
                assert(kept[j] == rest.kept[j - kept_head.len()]);
            }
        }
    }
}

/// Removal invariant, second half: every weekly schedule survives a pass,
/// with its identifier, action, weekday and time of day unchanged.
pub proof fn lemma_weekly_persists(
    items: Seq<ScheduleView>,
    last: int,
    now: int,
    fresh: Seq<u64>,
    k: int,
)
    requires
        0 <= k < items.len(),
        items[k].schedule_type is Weekly,
    ensures
        ({
            let kept = schedule_pass(items, last, now, fresh).kept;
            exists|j: int| 0 <= j < kept.len() && same_weekly_rule(#[trigger] kept[j], items[k])
        }),
    decreases items.len() + sched_chain_count(items),
{
    let head = items[0];
    let st = schedule_step(head, last, now, fresh);
    let removed = st.fired && head.schedule_type is OneTime;
    let cs = chained_schedules(st.chained);
    let rest_in = items.drop_first() + cs;
    lemma_sched_chain_count_concat(items.drop_first(), cs);
    if st.chained is Some {
        assert(chains_weight(head.todo) == 1);
        assert(sched_chain_count(cs) == 0) by {
            assert(cs.drop_first() =~= Seq::<ScheduleView>::empty());
            assert(sched_chain_count(Seq::<ScheduleView>::empty()) == 0);
            assert(chains_weight(cs[0].todo) == 0);
        }
    }
    let rest = schedule_pass(rest_in, last, now, st.fresh);
    let kept_head: Seq<ScheduleView> = if removed {
        Seq::empty()
    } else {
        seq![st.kept]
    };
    let kept = kept_head + rest.kept;
    assert(schedule_pass(items, last, now, fresh).kept == kept);
    if k == 0 {
        assert(!removed);
        assert(same_weekly_rule(st.kept, items[0]));
        assert(kept[0] == st.kept);
        assert(same_weekly_rule(kept[0], items[k]));
    } else {
        assert(rest_in[k - 1] == items[k]);
        lemma_weekly_persists(rest_in, last, now, st.fresh, k - 1);
        let j0 = choose|j: int| 0 <= j < rest.kept.len() && same_weekly_rule(
            #[trigger] rest.kept[j],
            rest_in[k - 1],
        );
        assert(kept[j0 + kept_head.len()] == rest.kept[j0]);
        assert(same_weekly_rule(kept[j0 + kept_head.len()], items[k]));
    }
}

/// Attending-count threshold below which the close-out of an attendance
/// check sends an alert.
pub const ATTENDANCE_ALERT_THRESHOLD: usize = 4;

/// The alert a finished attendance check sends when too few responded as
/// attending: a message exactly when the count is below the threshold.
pub fn attendance_alert(attend: usize) -> (r: Option<SimpleMessage>)
    ensures
        r is Some <==> attend < ATTENDANCE_ALERT_THRESHOLD,
        r is Some ==> r.unwrap()@.text == "今のところ卓が立たなさそうです！！！やばいです！！！"@
            && r.unwrap()@.type_ == "text"@,
{
    if attend < ATTENDANCE_ALERT_THRESHOLD {
        Some(SimpleMessage::new("今のところ卓が立たなさそうです！！！やばいです！！！"))
    } else {
        None
    }
}

/// The ad hoc event schedule a command registers: announce the attendance
/// check `hour` hours before the event's instant, unless that announcement
/// moment already lies in the past.
pub fn event_schedule(name: &str, date: i64, hour: i64, now: i64) -> (r: Option<Schedule>)
    requires
        0 <= hour <= HOUR_MAX,
        0 <= date <= INSTANT_MAX,
        0 <= now,
    ensures
        r is Some <==> date - hour * 3600 >= now,
        r is Some ==> r.unwrap()@ == (ScheduleView {
            id: name@,
            todo: TodoView::CreateAttendanceCheck { hour: hour as int },
            schedule_type: TriggerView::OneTime { datetime: date - hour * 3600 },
        }) && wf_schedule(r.unwrap()@),
{
    let send = date - hour * 3600;
    if send < now {
        return None;
    }
    Some(
        Schedule {
            id: name.to_owned(),
            todo: Todo::CreateAttendanceCheck { hour },
            schedule_type: ScheduleType::OneTime { datetime: send },
        },
    )
}

/// An unfired one-time schedule survives the pass unchanged.
pub proof fn lemma_unfired_one_time_kept(
    items: Seq<ScheduleView>,
    last: int,
    now: int,
    fresh: Seq<u64>,
    k: int,
)
    requires
        0 <= k < items.len(),
        items[k].schedule_type matches TriggerView::OneTime { datetime } && !fires_in_window(
            datetime,
            last,
            now,
        ),
    ensures
        ({
            let kept = schedule_pass(items, last, now, fresh).kept;
            exists|j: int| 0 <= j < kept.len() && #[trigger] kept[j] == items[k]
        }),
    decreases items.len() + sched_chain_count(items),
{
    let head = items[0];
    let st = schedule_step(head, last, now, fresh);
    let removed = st.fired && head.schedule_type is OneTime;
    let cs = chained_schedules(st.chained);
    let rest_in = items.drop_first() + cs;
    lemma_sched_chain_count_concat(items.drop_first(), cs);
    if st.chained is Some {
        assert(chains_weight(head.todo) == 1);
        assert(sched_chain_count(cs) == 0) by {
            assert(cs.drop_first() =~= Seq::<ScheduleView>::empty());
            assert(sched_chain_count(Seq::<ScheduleView>::empty()) == 0);
            assert(chains_weight(cs[0].todo) == 0);
        }
    }
    let rest = schedule_pass(rest_in, last, now, st.fresh);
    let kept_head: Seq<ScheduleView> = if removed {
        Seq::empty()
    } else {
        seq![st.kept]
    };
    let kept = kept_head + rest.kept;
    assert(schedule_pass(items, last, now, fresh).kept == kept);
    if k == 0 {
        assert(!st.fired && st.kept == head);
        assert(kept[0] == items[0]);
    } else {
        assert(rest_in[k - 1] == items[k]);
        lemma_unfired_one_time_kept(rest_in, last, now, st.fresh, k - 1);
        let j0 = choose|j: int| 0 <= j < rest.kept.len() && #[trigger] rest.kept[j] == rest_in[k
            - 1];
        assert(kept[j0 + kept_head.len()] == items[k]);
    }
}

/// Chained scheduling across a whole pass: when the schedule the walk is
/// visiting is a one-time attendance check that fires, its follow-up — a
/// one-time report at `hour` hours past the firing instant — is appended
/// to the collection being walked and visited within the same pass; and
/// since that instant lies beyond `now`, the follow-up survives the pass,
/// reachable by a subsequent evaluation.
pub proof fn lemma_chained_check_survives_pass(
    items: Seq<ScheduleView>,
    last: int,
    now: int,
    fresh: Seq<u64>,
)
    requires
        items.len() >= 1,
        fresh.len() >= 1,
        items[0].schedule_type matches TriggerView::OneTime { datetime } && fires_in_window(
            datetime,
            last,
            now,
        ) && ({
            let t = items[0].todo;
            t matches TodoView::CreateAttendanceCheck { hour } && datetime + hour * 3600 > now
        }),
    ensures
        ({
            let datetime = match items[0].schedule_type {
                TriggerView::OneTime { datetime } => datetime,
                TriggerView::Weekly { .. } => 0,
            };
            let hour = match items[0].todo {
                TodoView::CreateAttendanceCheck { hour } => hour,
                _ => 0,
            };
            let follow = chained_schedule(attendance_tag(fresh.last()), datetime + hour * 3600);
            let kept = schedule_pass(items, last, now, fresh).kept;
            exists|j: int| 0 <= j < kept.len() && #[trigger] kept[j] == follow
        }),
{
    let head = items[0];
    let datetime = match head.schedule_type {
        TriggerView::OneTime { datetime } => datetime,
        TriggerView::Weekly { .. } => 0,
    };
    let hour = match head.todo {
        TodoView::CreateAttendanceCheck { hour } => hour,
        _ => 0,
    };
    let follow = chained_schedule(attendance_tag(fresh.last()), datetime + hour * 3600);
    let st = schedule_step(head, last, now, fresh);
    assert(st.fired && st.chained == Some(follow));
    let cs = chained_schedules(st.chained);
    let rest_in = items.drop_first() + cs;
    lemma_sched_chain_count_concat(items.drop_first(), cs);
    assert(chains_weight(head.todo) == 1);
    assert(sched_chain_count(cs) == 0) by {
        assert(cs.drop_first() =~= Seq::<ScheduleView>::empty());
        assert(sched_chain_count(Seq::<ScheduleView>::empty()) == 0);
        assert(chains_weight(cs[0].todo) == 0);
    }
    // The follow-up stands at the tail of the very collection the rest of
    // the pass walks, and its instant lies past the window.
    assert(rest_in[rest_in.len() - 1] == follow);
    assert(!fires_in_window(datetime + hour * 3600, last, now));
    lemma_unfired_one_time_kept(rest_in, last, now, st.fresh, rest_in.len() - 1);
    let rest = schedule_pass(rest_in, last, now, st.fresh);
    let j0 = choose|j: int| 0 <= j < rest.kept.len() && #[trigger] rest.kept[j] == rest_in[
        rest_in.len() - 1];
    let kept = schedule_pass(items, last, now, fresh).kept;
    assert(kept == Seq::<ScheduleView>::empty() + rest.kept);
    assert(kept[j0] == follow);
}

} // verus!
