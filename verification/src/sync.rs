//! Reconciling the tasks of each day with the records of the remote
//! time-tracking service.

use crate::tasks::{entry_views, TaskEntry, TaskEntryView, TaskTable};
use crate::time::{Date, Duration};
use vstd::prelude::*;
use vstd::string::StringExecFns;

verus! {

/// Whether a run changes the remote service or only says what it would do.
#[derive(Clone, Copy, Debug, PartialEq, Eq, Structural)]
pub enum RunMode {
    Normal,
    DryRun,
}

impl Default for RunMode {
    fn default() -> (mode: RunMode)
        ensures
            mode == RunMode::Normal,
    {
        RunMode::Normal
    }
}

/// A time record as the remote service holds it.
pub struct RemoteRecord {
    pub date: Date,
    /// The task as the remote service names it.
    pub task_id: String,
    pub record_id: u64,
    pub duration: Duration,
}

/// The mathematical value of a [`RemoteRecord`]; the duration in nanoseconds.
pub struct RemoteRecordView {
    pub date: int,
    pub task_id: Seq<char>,
    pub record_id: u64,
    pub duration: nat,
}

impl View for RemoteRecord {
    type V = RemoteRecordView;

    open spec fn view(&self) -> RemoteRecordView {
        RemoteRecordView {
            date: self.date@,
            task_id: self.task_id@,
            record_id: self.record_id,
            duration: self.duration@,
        }
    }
}

/// The views of a list of records, element by element.
pub open spec fn record_views(records: Seq<RemoteRecord>) -> Seq<RemoteRecordView> {
    records.map_values(|record: RemoteRecord| record@)
}

/// Whether `record` is the record of `task_id` on `date`.
pub open spec fn is_for(record: RemoteRecordView, date: int, task_id: Seq<char>) -> bool {
    record.date == date && record.task_id == task_id
}

/// The first record of `task_id` on `date` among `records`.
pub open spec fn first_record(records: Seq<RemoteRecordView>, date: int, task_id: Seq<char>) -> Option<
    RemoteRecordView,
>
    decreases records.len(),
{
    if records.len() == 0 {
        None
    } else {
        match first_record(records.drop_last(), date, task_id) {
            Some(record) => Some(record),
            None => if is_for(records.last(), date, task_id) {
                Some(records.last())
            } else {
                None
            },
        }
    }
}

/// The records that an index keeps of `records`: for each day and task the
/// first, in the order of `records`.
pub open spec fn indexed(records: Seq<RemoteRecordView>) -> Seq<RemoteRecordView>
    decreases records.len(),
{
    if records.len() == 0 {
        Seq::empty()
    } else {
        let before = indexed(records.drop_last());
        if first_record(before, records.last().date, records.last().task_id) is Some {
            before
        } else {
            before.push(records.last())
        }
    }
}

/// A record found among the first records is the record found among all.
pub proof fn lemma_first_record_stays(
    records: Seq<RemoteRecordView>,
    n: int,
    date: int,
    task_id: Seq<char>,
)
    requires
        0 <= n <= records.len(),
        first_record(records.take(n), date, task_id) is Some,
    ensures
        first_record(records, date, task_id) == first_record(records.take(n), date, task_id),
    decreases records.len() - n,
{
    if n < records.len() {
        assert(records.drop_last().take(n) == records.take(n));
        lemma_first_record_stays(records.drop_last(), n, date, task_id);
    } else {
        assert(records.take(n) == records);
    }
}

/// What is found is a record of the day and task asked for, and where nothing
/// is found there is no such record.
pub proof fn lemma_first_record_is_for(records: Seq<RemoteRecordView>, date: int, task_id: Seq<char>)
    ensures
        match first_record(records, date, task_id) {
            Some(record) => is_for(record, date, task_id) && records.contains(record),
            None => forall|i: int| 0 <= i < records.len() ==> !is_for(#[trigger] records[i], date, task_id),
        },
    decreases records.len(),
{
    if records.len() > 0 {
        let front = records.drop_last();
        lemma_first_record_is_for(front, date, task_id);
        match first_record(front, date, task_id) {
            Some(record) => {
                let i = choose|i: int| 0 <= i < front.len() && front[i] == record;
                assert(records[i] == record);
            },
            None => {
                if is_for(records.last(), date, task_id) {
                    assert(records[records.len() - 1] == records.last());
                } else {
                    assert forall|i: int| 0 <= i < records.len() implies !is_for(
                        #[trigger] records[i],
                        date,
                        task_id,
                    ) by {
                        if i < front.len() {
                            assert(front[i] == records[i]);
                        }
                    }
                }
            },
        }
    }
}

/// Of the records of one day and task the first wins: an index answers as the
/// records it was built from would, and keeps one record for each day and
/// task.
pub proof fn law_first_record_wins(records: Seq<RemoteRecordView>, date: int, task_id: Seq<char>)
    ensures
        first_record(indexed(records), date, task_id) == first_record(records, date, task_id),
        forall|i: int, j: int|
            0 <= i < j < indexed(records).len() ==> !is_for(
                #[trigger] indexed(records)[j],
                (#[trigger] indexed(records)[i]).date,
                indexed(records)[i].task_id,
            ),
    decreases records.len(),
{
    if records.len() > 0 {
        let front = records.drop_last();
        let last = records.last();
        let before = indexed(front);
        law_first_record_wins(front, date, task_id);
        law_first_record_wins(front, last.date, last.task_id);
        lemma_first_record_is_for(before, last.date, last.task_id);
        lemma_first_record_is_for(front, last.date, last.task_id);
        lemma_first_record_is_for(front, date, task_id);
        if first_record(before, last.date, last.task_id) is None {
            let after = before.push(last);
            assert(after.drop_last() == before);
            assert(after.last() == last);
            assert forall|i: int, j: int| 0 <= i < j < after.len() implies !is_for(
                #[trigger] after[j],
                (#[trigger] after[i]).date,
                after[i].task_id,
            ) by {
                if j < before.len() {
                    assert(!is_for(before[j], before[i].date, before[i].task_id));
                } else {
                    assert(!is_for(before[i], last.date, last.task_id));
                }
            }
        } else {
            if is_for(last, date, task_id) {
                assert(first_record(front, date, task_id) is Some);
            }
        }
    }
}

/// The remote records of a span of time, one for each day and task.
pub struct RecordIndex {
    records: Vec<RemoteRecord>,
}

impl View for RecordIndex {
    /// The records kept, in the order in which they came.
    type V = Seq<RemoteRecordView>;

    closed spec fn view(&self) -> Seq<RemoteRecordView> {
        record_views(self.records@)
    }
}

impl RecordIndex {
    /// The index of `records`: of the records of one day and task the first
    /// is kept, the later ones are passed over.
    pub fn build(records: &Vec<RemoteRecord>) -> (index: RecordIndex)
        ensures
            index@ == indexed(record_views(records@)),
    {
        let ghost all = record_views(records@);
        let mut index = RecordIndex { records: Vec::new() };
        assert(index@ == Seq::<RemoteRecordView>::empty());
        let mut i: usize = 0;
        while i < records.len()
            invariant
                i <= records.len(),
                all == record_views(records@),
                index@ == indexed(all.take(i as int)),
            decreases records.len() - i,
        {
            let record = &records[i];
            proof {
                assert(all.take(i + 1).drop_last() == all.take(i as int));
                assert(all.take(i + 1).last() == record@);
            }
            if index.get(record.date, &record.task_id).is_none() {
                let ghost before = index@;
                index.records.push(
                    RemoteRecord {
                        date: record.date,
                        task_id: record.task_id.clone(),
                        record_id: record.record_id,
                        duration: record.duration,
                    },
                );
                assert(index@ == before.push(record@));
            }
            i += 1;
        }
        assert(all.take(records.len() as int) == all);
        index
    }

    /// The record of `task_id` on `date`.
    pub fn get(&self, date: Date, task_id: &String) -> (found: Option<&RemoteRecord>)
        ensures
            match found {
                Some(record) => first_record(self@, date@, task_id@) == Some(record@),
                None => first_record(self@, date@, task_id@) is None,
            },
    {
        let mut i: usize = 0;
        while i < self.records.len()
            invariant
                i <= self.records.len(),
                first_record(self@.take(i as int), date@, task_id@) is None,
            decreases self.records.len() - i,
        {
            let record = &self.records[i];
            proof {
                assert(self@.take(i + 1).drop_last() == self@.take(i as int));
                assert(self@.take(i + 1).last() == record@);
            }
            if record.date.days == date.days && record.task_id == *task_id {
                proof {
                    lemma_first_record_stays(self@, i + 1, date@, task_id@);
                }
                return Some(record);
            }
            i += 1;
        }
        assert(self@.take(self.records.len() as int) == self@);
        None
    }
}

/// The name under which the remote service knows the task `task_id`: the id
/// behind the tag `as:`.
pub open spec fn remote_ref(task_id: Seq<char>) -> Seq<char> {
    seq!['a', 's', ':'] + task_id
}

/// The name under which the remote service knows a task.
pub fn remote_task_ref(task_id: &str) -> (name: String)
    ensures
        name@ == remote_ref(task_id@),
{
    proof {
        reveal_strlit("as:");
        assert("as:"@ =~= seq!['a', 's', ':']);
    }
    let mut name = String::from_str("as:");
    name.append(task_id);
    name
}

/// What is done about one task on one day.
#[derive(Clone, Copy, Debug, PartialEq, Eq, Structural)]
pub enum Action {
    /// Dry run: the facts name no task, so nothing would be sent.
    WouldSkip,
    /// Dry run: a new record would be made.
    WouldAdd,
    /// Dry run: the record `record_id` would be brought up to date.
    WouldUpdate { record_id: u64 },
    /// A new record is to be made.
    Add,
    /// The record `record_id` is to be brought up to date.
    Update { record_id: u64 },
}

/// Facts that name no task cannot be sent to the remote service.
#[derive(Clone, Copy, Debug, PartialEq, Eq, Structural)]
pub struct MissingTaskReference {}

/// Whether an action changes what the remote service holds.
pub open spec fn sends(action: Action) -> bool {
    action is Add || action is Update
}

/// What is done about a task on a day: whether its facts name a task,
/// which record the remote service holds for it on that day, and the mode of
/// the run decide.
pub open spec fn decision(has_task: bool, existing: Option<u64>, mode: RunMode) -> Result<
    Action,
    MissingTaskReference,
> {
    if !has_task {
        match mode {
            RunMode::DryRun => Ok(Action::WouldSkip),
            RunMode::Normal => Err(MissingTaskReference {  }),
        }
    } else {
        match (existing, mode) {
            (None, RunMode::DryRun) => Ok(Action::WouldAdd),
            (None, RunMode::Normal) => Ok(Action::Add),
            (Some(record_id), RunMode::DryRun) => Ok(Action::WouldUpdate { record_id }),
            (Some(record_id), RunMode::Normal) => Ok(Action::Update { record_id }),
        }
    }
}

/// Decides what is done about a task on a day.
pub fn decide(has_task: bool, existing: Option<u64>, mode: RunMode) -> (decided: Result<
    Action,
    MissingTaskReference,
>)
    ensures
        decided == decision(has_task, existing, mode),
{
    if !has_task {
        match mode {
            RunMode::DryRun => Ok(Action::WouldSkip),
            RunMode::Normal => Err(MissingTaskReference {  }),
        }
    } else {
        match (existing, mode) {
            (None, RunMode::DryRun) => Ok(Action::WouldAdd),
            (None, RunMode::Normal) => Ok(Action::Add),
            (Some(record_id), RunMode::DryRun) => Ok(Action::WouldUpdate { record_id }),
            (Some(record_id), RunMode::Normal) => Ok(Action::Update { record_id }),
        }
    }
}

impl Action {
    /// Whether the action changes what the remote service holds.
    pub fn is_sent(&self) -> (sent: bool)
        ensures
            sent == sends(*self),
    {
        match self {
            Action::Add => true,
            Action::Update { .. } => true,
            _ => false,
        }
    }
}

/// What is done about one task of a day.
pub struct Step {
    /// The task as the remote service names it; absent where the facts name
    /// no task.
    pub task_ref: Option<String>,
    pub title: Option<String>,
    pub duration: Duration,
    pub action: Action,
}

/// The mathematical value of a [`Step`]; the duration in nanoseconds.
pub struct StepView {
    pub task_ref: Option<Seq<char>>,
    pub title: Option<Seq<char>>,
    pub duration: nat,
    pub action: Action,
}

impl View for Step {
    type V = StepView;

    open spec fn view(&self) -> StepView {
        StepView {
            task_ref: match self.task_ref {
                Some(name) => Some(name@),
                None => None,
            },
            title: match self.title {
                Some(title) => Some(title@),
                None => None,
            },
            duration: self.duration@,
            action: self.action,
        }
    }
}

/// The views of a list of steps, element by element.
pub open spec fn step_views(steps: Seq<Step>) -> Seq<StepView> {
    steps.map_values(|step: Step| step@)
}

/// The id of a record that may be absent.
pub open spec fn record_id_of(record: Option<RemoteRecordView>) -> Option<u64> {
    match record {
        Some(record) => Some(record.record_id),
        None => None,
    }
}

/// The step for one entry of a day's tasks, or the reason why there is none.
pub open spec fn step_for(
    entry: TaskEntryView,
    day: int,
    index: Seq<RemoteRecordView>,
    mode: RunMode,
) -> Result<StepView, MissingTaskReference> {
    match entry.task_id {
        None => match decision(false, None, mode) {
            Ok(action) => Ok(
                StepView {
                    task_ref: None,
                    title: entry.data.title,
                    duration: entry.data.duration,
                    action,
                },
            ),
            Err(missing) => Err(missing),
        },
        Some(task_id) => match decision(
            true,
            record_id_of(first_record(index, day, remote_ref(task_id))),
            mode,
        ) {
            Ok(action) => Ok(
                StepView {
                    task_ref: Some(remote_ref(task_id)),
                    title: entry.data.title,
                    duration: entry.data.duration,
                    action,
                },
            ),
            Err(missing) => Err(missing),
        },
    }
}

/// The steps for the tasks of a day, the tasks taken in their order, and
/// whether the run stops: the first task without a step ends the list and
/// stops the run.
pub open spec fn planned(
    entries: Seq<TaskEntryView>,
    day: int,
    index: Seq<RemoteRecordView>,
    mode: RunMode,
) -> (Seq<StepView>, bool)
    decreases entries.len(),
{
    if entries.len() == 0 {
        (Seq::empty(), false)
    } else {
        let (steps, stopped) = planned(entries.drop_last(), day, index, mode);
        if stopped {
            (steps, true)
        } else {
            match step_for(entries.last(), day, index, mode) {
                Ok(step) => (steps.push(step), false),
                Err(_) => (steps, true),
            }
        }
    }
}

/// The nanoseconds of all steps together.
pub open spec fn time_of(steps: Seq<StepView>) -> nat
    decreases steps.len(),
{
    if steps.len() == 0 {
        0
    } else {
        time_of(steps.drop_last()) + steps.last().duration
    }
}

/// Once the run stops among the first tasks, the later tasks change nothing.
pub proof fn lemma_stopped_stays(
    entries: Seq<TaskEntryView>,
    n: int,
    day: int,
    index: Seq<RemoteRecordView>,
    mode: RunMode,
)
    requires
        0 <= n <= entries.len(),
        planned(entries.take(n), day, index, mode).1,
    ensures
        planned(entries, day, index, mode) == planned(entries.take(n), day, index, mode),
    decreases entries.len() - n,
{
    if n < entries.len() {
        assert(entries.drop_last().take(n) == entries.take(n));
        lemma_stopped_stays(entries.drop_last(), n, day, index, mode);
    } else {
        assert(entries.take(n) == entries);
    }
}

/// A dry run sends nothing to the remote service and never stops.
pub proof fn law_dry_run_sends_nothing(
    entries: Seq<TaskEntryView>,
    day: int,
    index: Seq<RemoteRecordView>,
)
    ensures
        !planned(entries, day, index, RunMode::DryRun).1,
        planned(entries, day, index, RunMode::DryRun).0.len() == entries.len(),
        forall|i: int|
            0 <= i < entries.len() ==> !sends(
                (#[trigger] planned(entries, day, index, RunMode::DryRun).0[i]).action,
            ),
    decreases entries.len(),
{
    if entries.len() > 0 {
        law_dry_run_sends_nothing(entries.drop_last(), day, index);
    }
}

/// A normal run stops at the first task whose facts name no task, and only
/// there; every step before it is sent.
pub proof fn law_normal_run_stops_at_unlinked(
    entries: Seq<TaskEntryView>,
    day: int,
    index: Seq<RemoteRecordView>,
)
    ensures
        planned(entries, day, index, RunMode::Normal).1 <==> exists|i: int|
            0 <= i < entries.len() && (#[trigger] entries[i]).task_id is None,
        forall|i: int|
            0 <= i < planned(entries, day, index, RunMode::Normal).0.len() ==> sends(
                (#[trigger] planned(entries, day, index, RunMode::Normal).0[i]).action,
            ),
    decreases entries.len(),
{
    if entries.len() > 0 {
        let front = entries.drop_last();
        law_normal_run_stops_at_unlinked(front, day, index);
        if exists|i: int| 0 <= i < front.len() && (#[trigger] front[i]).task_id is None {
            let i = choose|i: int| 0 <= i < front.len() && (#[trigger] front[i]).task_id is None;
            assert(entries[i].task_id is None);
        }
        if exists|i: int| 0 <= i < entries.len() && (#[trigger] entries[i]).task_id is None {
            let i = choose|i: int| 0 <= i < entries.len() && (#[trigger] entries[i]).task_id is None;
            if i < front.len() {
                assert(front[i].task_id is None);
            }
        }
        if entries.last().task_id is None {
            assert(entries[entries.len() - 1].task_id is None);
        }
    }
}

/// What is done about the tasks of one day.
pub struct DayPlan {
    pub day: Date,
    /// One step for each task, in the order of the tasks, up to the task at
    /// which the run stops.
    pub steps: Vec<Step>,
    /// The durations of the steps together; absent where they pass what a
    /// [`Duration`] holds.
    pub total: Option<Duration>,
    /// Whether the run stops at this day, for facts that name no task.
    pub stopped: bool,
}

/// Whether `total` is the sum of `nanos` nanoseconds, as far as a
/// [`Duration`] holds it.
pub open spec fn totals(total: Option<Duration>, nanos: nat) -> bool {
    match total {
        Some(total) => total@ == nanos,
        None => nanos / 1_000_000_000 > u64::MAX,
    }
}

/// Decides, for every task of `day`, what is done about it: nothing is
/// sent in a dry run; in a normal run a task without a record on that day
/// gets a new record, a task with one has its record brought up to date, and
/// facts that name no task stop the run.
pub fn reconcile_day(day: Date, tasks: &TaskTable, index: &RecordIndex, mode: RunMode) -> (plan:
    DayPlan)
    ensures
        plan.day == day,
        step_views(plan.steps@) == planned(tasks@, day@, index@, mode).0,
        plan.stopped == planned(tasks@, day@, index@, mode).1,
        totals(plan.total, time_of(step_views(plan.steps@))),
{
    let entries = tasks.entries();
    let mut steps: Vec<Step> = Vec::new();
    let mut total: Option<Duration> = Some(Duration::from_secs(0));
    let mut i: usize = 0;
    while i < entries.len()
        invariant
            i <= entries.len(),
            entry_views(entries@) == tasks@,
            planned(tasks@.take(i as int), day@, index@, mode) == (step_views(steps@), false),
            totals(total, time_of(step_views(steps@))),
        decreases entries.len() - i,
    {
        let entry: &TaskEntry = &entries[i];
        proof {
            assert(tasks@.take(i + 1).drop_last() == tasks@.take(i as int));
            assert(tasks@.take(i + 1).last() == entry@);
        }
        let (task_ref, existing) = match &entry.task_id {
            Some(task_id) => {
                let name = remote_task_ref(task_id.as_str());
                let existing = match index.get(day, &name) {
                    Some(record) => Some(record.record_id),
                    None => None,
                };
                (Some(name), existing)
            },
            None => (None, None),
        };
        match decide(entry.task_id.is_some(), existing, mode) {
            Err(_) => {
                proof {
                    lemma_stopped_stays(tasks@, i + 1, day@, index@, mode);
                }
                return DayPlan { day, steps, total, stopped: true };
            },
            Ok(action) => {
                let title = match &entry.data.title {
                    Some(title) => Some(title.clone()),
                    None => None,
                };
                let ghost before = step_views(steps@);
                let step = Step { task_ref, title, duration: entry.data.duration, action };
                assert(Ok::<StepView, MissingTaskReference>(step@) == step_for(
                    entry@,
                    day@,
                    index@,
                    mode,
                ));
                steps.push(step);
                proof {
                    assert(step_views(steps@) == before.push(step@));
                    assert(step_views(steps@).drop_last() == before);
                }
                total = match total {
                    Some(so_far) => so_far.checked_add(&entry.data.duration),
                    None => None,
                };
            },
        }
        i += 1;
    }
    assert(tasks@.take(entries.len() as int) == tasks@);
    DayPlan { day, steps, total, stopped: false }
}

/// A run over the days of a span, one day at a time in rising order: for each
/// day the caller adds up the facts of that day and hands the tasks in, and
/// gets back what is to be done about them.
pub struct Reconciler {
    mode: RunMode,
    index: RecordIndex,
    day: Date,
    last: Date,
    finished: bool,
}

impl Reconciler {
    /// The mode of the run.
    pub closed spec fn mode(&self) -> RunMode {
        self.mode
    }

    /// The remote records that the run goes by.
    pub closed spec fn index(&self) -> Seq<RemoteRecordView> {
        self.index@
    }

    /// The last day of the span.
    pub closed spec fn last_day(&self) -> int {
        self.last@
    }

    /// The day whose tasks are awaited; `None` once the run is over.
    pub closed spec fn awaited(&self) -> Option<int> {
        if self.finished || self.day@ > self.last@ {
            None
        } else {
            Some(self.day@)
        }
    }

    /// A run over the days from `from` to `to`, both included, against the
    /// remote records `records` of that span.
    pub fn new(from: Date, to: Date, mode: RunMode, records: &Vec<RemoteRecord>) -> (run: Reconciler)
        ensures
            run.mode() == mode,
            run.index() == indexed(record_views(records@)),
            run.last_day() == to@,
            run.awaited() == if from@ <= to@ {
                Some(from@)
            } else {
                None
            },
    {
        Reconciler { mode, index: RecordIndex::build(records), day: from, last: to, finished: false }
    }

    /// The day whose tasks are awaited; `None` once the run is over.
    pub fn current_day(&self) -> (day: Option<Date>)
        ensures
            match day {
                Some(day) => self.awaited() == Some(day@),
                None => self.awaited() is None,
            },
    {
        if self.finished || self.day.days > self.last.days {
            None
        } else {
            Some(self.day)
        }
    }

    /// Takes the tasks of the awaited day and says what is to be done about
    /// them. The run then awaits the next day, or is over: after the last day
    /// of the span, and at once where the plan says that the run stops.
    /// Where no day is awaited nothing changes.
    pub fn reconcile(&mut self, tasks: &TaskTable) -> (plan: Option<DayPlan>)
        ensures
            final(self).mode() == old(self).mode(),
            final(self).index() == old(self).index(),
            final(self).last_day() == old(self).last_day(),
            match old(self).awaited() {
                None => plan is None && final(self).awaited() is None,
                Some(day) => plan matches Some(plan) && plan.day@ == day && step_views(plan.steps@)
                    == planned(tasks@, day, old(self).index(), old(self).mode()).0 && plan.stopped
                    == planned(tasks@, day, old(self).index(), old(self).mode()).1 && totals(
                    plan.total,
                    time_of(step_views(plan.steps@)),
                ) && final(self).awaited() == if !plan.stopped && day < old(self).last_day() {
                    Some(day + 1)
                } else {
                    None
                },
            },
    {
        if self.finished || self.day.days > self.last.days {
            return None;
        }
        let plan = reconcile_day(self.day, tasks, &self.index, self.mode);
        if plan.stopped || self.day.days == self.last.days {
            self.finished = true;
        } else {
            self.day = Date { days: self.day.days + 1 };
        }
        Some(plan)
    }
}

} // verus!
