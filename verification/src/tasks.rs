//! Per-task totals: what the facts of a span of time add up to for each task.

use crate::enrichment::{
    comments_of, extract, item_texts, option_text, task_in, TaskLink, TaskLinkView,
};
use crate::hamster::{elapsed, fact_views, measurable, HamsterFact, HamsterFactView};
use crate::lines::line_views;
use crate::mdast::{markdown_tree, MdNodeView};
use crate::time::{Duration, Timestamp};
use crate::unique::{law_unique_keeps_distinct, unique};
use crate::utils::unique_lines;
use vstd::prelude::*;

verus! {

/// What the facts of one task add up to.
pub struct TaskData {
    /// The label of the task's link; the facts without a task have none.
    pub title: Option<String>,
    pub duration: Duration,
    pub comments: Vec<String>,
}

/// A task and what its facts add up to; `task_id` is `None` for the facts
/// that name no task.
pub struct TaskEntry {
    pub task_id: Option<String>,
    pub data: TaskData,
}

/// The mathematical value of a [`TaskData`]; the duration in nanoseconds.
pub struct TaskDataView {
    pub title: Option<Seq<char>>,
    pub duration: nat,
    pub comments: Seq<Seq<char>>,
}

/// The mathematical value of a [`TaskEntry`].
pub struct TaskEntryView {
    pub task_id: Option<Seq<char>>,
    pub data: TaskDataView,
}

impl View for TaskData {
    type V = TaskDataView;

    open spec fn view(&self) -> TaskDataView {
        TaskDataView {
            title: option_text(self.title),
            duration: self.duration@,
            comments: line_views(self.comments@),
        }
    }
}

impl View for TaskEntry {
    type V = TaskEntryView;

    open spec fn view(&self) -> TaskEntryView {
        TaskEntryView { task_id: option_text(self.task_id), data: self.data@ }
    }
}

/// The views of a list of entries, element by element.
pub open spec fn entry_views(entries: Seq<TaskEntry>) -> Seq<TaskEntryView> {
    entries.map_values(|entry: TaskEntry| entry@)
}

/// What one fact adds to its task: the task it names, how long it lasted in
/// nanoseconds, and its comments.
pub struct Contribution {
    pub task_id: Option<Seq<char>>,
    pub title: Option<Seq<char>>,
    pub duration: nat,
    pub comments: Seq<Seq<char>>,
}

/// The contribution of a fact with the task `task`, the duration `duration`
/// and the comments `comments`.
pub open spec fn contribution(
    task: Option<TaskLinkView>,
    duration: nat,
    comments: Seq<Seq<char>>,
) -> Contribution {
    match task {
        Some(task) => Contribution {
            task_id: Some(task.task_id),
            title: Some(task.link_title),
            duration,
            comments,
        },
        None => Contribution { task_id: None, title: None, duration, comments },
    }
}

/// Whether `table` has an entry for `task_id`.
pub open spec fn has_task(table: Seq<TaskEntryView>, task_id: Option<Seq<char>>) -> bool {
    exists|i: int| 0 <= i < table.len() && (#[trigger] table[i]).task_id == task_id
}

/// A place of `table` that holds the entry for `task_id`.
pub open spec fn place_of(table: Seq<TaskEntryView>, task_id: Option<Seq<char>>) -> int {
    choose|i: int| 0 <= i < table.len() && (#[trigger] table[i]).task_id == task_id
}

/// Whether no two entries of `table` are for the same task.
pub open spec fn distinct_tasks(table: Seq<TaskEntryView>) -> bool {
    forall|i: int, j: int|
        0 <= i < j < table.len() ==> (#[trigger] table[i]).task_id != (#[trigger] table[j]).task_id
}

/// The entry that the first fact of a task makes.
pub open spec fn seeded(share: Contribution) -> TaskEntryView {
    TaskEntryView {
        task_id: share.task_id,
        data: TaskDataView {
            title: share.title,
            duration: share.duration,
            comments: unique(share.comments),
        },
    }
}

/// An entry after one more fact of its task: the title stays, the durations
/// add up, and the comments are merged without repetitions.
pub open spec fn merged(entry: TaskEntryView, share: Contribution) -> TaskEntryView {
    TaskEntryView {
        task_id: entry.task_id,
        data: TaskDataView {
            title: entry.data.title,
            duration: entry.data.duration + share.duration,
            comments: unique(entry.data.comments + unique(share.comments)),
        },
    }
}

/// `table` after one more fact: its task's entry is merged with it, or a new
/// entry is added behind the others.
pub open spec fn upsert(table: Seq<TaskEntryView>, share: Contribution) -> Seq<TaskEntryView> {
    if has_task(table, share.task_id) {
        let i = place_of(table, share.task_id);
        table.update(i, merged(table[i], share))
    } else {
        table.push(seeded(share))
    }
}

/// The table that a run of contributions builds, from an empty one.
pub open spec fn tally(shares: Seq<Contribution>) -> Seq<TaskEntryView>
    decreases shares.len(),
{
    if shares.len() == 0 {
        Seq::empty()
    } else {
        upsert(tally(shares.drop_last()), shares.last())
    }
}

/// The nanoseconds that the facts of `task_id` among `shares` lasted together.
pub open spec fn time_spent(shares: Seq<Contribution>, task_id: Option<Seq<char>>) -> nat
    decreases shares.len(),
{
    if shares.len() == 0 {
        0
    } else if shares.last().task_id == task_id {
        time_spent(shares.drop_last(), task_id) + shares.last().duration
    } else {
        time_spent(shares.drop_last(), task_id)
    }
}

/// Whether a fact of `task_id` is among `shares`.
pub open spec fn names_task(shares: Seq<Contribution>, task_id: Option<Seq<char>>) -> bool {
    exists|i: int| 0 <= i < shares.len() && (#[trigger] shares[i]).task_id == task_id
}

/// Adding a fact keeps the tasks of a table distinct, and the table then has
/// the tasks it had and the task of the fact.
pub proof fn lemma_upsert_tasks(table: Seq<TaskEntryView>, share: Contribution)
    requires
        distinct_tasks(table),
    ensures
        distinct_tasks(upsert(table, share)),
        forall|task_id: Option<Seq<char>>|
            has_task(upsert(table, share), task_id) <==> has_task(table, task_id) || task_id
                == share.task_id,
{
    let after = upsert(table, share);
    if has_task(table, share.task_id) {
        let at = place_of(table, share.task_id);
        assert forall|i: int| 0 <= i < table.len() implies (#[trigger] after[i]).task_id
            == table[i].task_id by {}
        assert forall|task_id: Option<Seq<char>>|
            has_task(after, task_id) <==> has_task(table, task_id) || task_id
                == share.task_id by {
            if has_task(after, task_id) {
                let i = choose|i: int| 0 <= i < after.len() && (#[trigger] after[i]).task_id == task_id;
                assert(table[i].task_id == task_id);
            }
            if has_task(table, task_id) {
                let i = choose|i: int| 0 <= i < table.len() && (#[trigger] table[i]).task_id == task_id;
                assert(after[i].task_id == task_id);
            }
        }
        assert forall|i: int, j: int| 0 <= i < j < after.len() implies (#[trigger] after[i]).task_id
            != (#[trigger] after[j]).task_id by {
            assert(table[i].task_id != table[j].task_id);
        }
    } else {
        assert forall|i: int| 0 <= i < table.len() implies (#[trigger] after[i]) == table[i] by {}
        assert forall|task_id: Option<Seq<char>>|
            has_task(after, task_id) <==> has_task(table, task_id) || task_id
                == share.task_id by {
            if has_task(after, task_id) {
                let i = choose|i: int| 0 <= i < after.len() && (#[trigger] after[i]).task_id == task_id;
                if i < table.len() {
                    assert(table[i].task_id == task_id);
                }
            }
            if has_task(table, task_id) {
                let i = choose|i: int| 0 <= i < table.len() && (#[trigger] table[i]).task_id == task_id;
                assert(after[i].task_id == task_id);
            }
            if task_id == share.task_id {
                assert(after[table.len() as int].task_id == task_id);
            }
        }
        assert forall|i: int, j: int| 0 <= i < j < after.len() implies (#[trigger] after[i]).task_id
            != (#[trigger] after[j]).task_id by {
            if j < table.len() {
                assert(table[i].task_id != table[j].task_id);
            } else {
                assert(table[i].task_id != share.task_id);
            }
        }
    }
}

/// A table built from contributions has one entry for each task that a fact
/// names, and no other.
pub proof fn lemma_tally_tasks(shares: Seq<Contribution>)
    ensures
        distinct_tasks(tally(shares)),
        forall|task_id: Option<Seq<char>>|
            has_task(tally(shares), task_id) <==> names_task(shares, task_id),
    decreases shares.len(),
{
    if shares.len() > 0 {
        let front = shares.drop_last();
        lemma_tally_tasks(front);
        lemma_upsert_tasks(tally(front), shares.last());
        assert forall|task_id: Option<Seq<char>>|
            has_task(tally(shares), task_id) <==> names_task(shares, task_id) by {
            if names_task(shares, task_id) {
                let i = choose|i: int| 0 <= i < shares.len() && (#[trigger] shares[i]).task_id == task_id;
                if i < front.len() {
                    assert(front[i].task_id == task_id);
                }
            }
            if names_task(front, task_id) {
                let i = choose|i: int| 0 <= i < front.len() && (#[trigger] front[i]).task_id == task_id;
                assert(shares[i].task_id == task_id);
            }
            if task_id == shares.last().task_id {
                assert(shares[shares.len() - 1].task_id == task_id);
            }
        }
    }
}

/// The duration of a task's entry is the sum of the durations of the facts that
/// name the task.
pub proof fn law_durations_add_up(shares: Seq<Contribution>, task_id: Option<Seq<char>>)
    requires
        names_task(shares, task_id),
    ensures
        has_task(tally(shares), task_id),
        tally(shares)[place_of(tally(shares), task_id)].data.duration == time_spent(
            shares,
            task_id,
        ),
    decreases shares.len(),
{
    lemma_tally_tasks(shares);
    let front = shares.drop_last();
    let last = shares.last();
    let before = tally(front);
    let after = tally(shares);
    let at = place_of(after, task_id);
    lemma_tally_tasks(front);
    lemma_upsert_tasks(before, last);
    if names_task(front, task_id) {
        law_durations_add_up(front, task_id);
        let was = place_of(before, task_id);
        if has_task(before, last.task_id) {
            assert(after[was].task_id == task_id);
            if at != was {
                if at < was {
                    assert(after[at].task_id != after[was].task_id);
                } else {
                    assert(after[was].task_id != after[at].task_id);
                }
            }
        } else {
            assert(after[was] == before[was]);
            if at != was {
                if at < was {
                    assert(after[at].task_id != after[was].task_id);
                } else {
                    assert(after[was].task_id != after[at].task_id);
                }
            }
        }
    } else {
        lemma_time_spent_none(front, task_id);
        let i = choose|i: int| 0 <= i < shares.len() && (#[trigger] shares[i]).task_id == task_id;
        if i < front.len() {
            assert(front[i].task_id == task_id);
        }
        assert(last.task_id == task_id);
        assert(after[before.len() as int].task_id == task_id);
        if at != before.len() {
            assert(after[at].task_id != after[before.len() as int].task_id);
        }
    }
}

/// No time is spent on a task that no fact names.
pub proof fn lemma_time_spent_none(shares: Seq<Contribution>, task_id: Option<Seq<char>>)
    requires
        !names_task(shares, task_id),
    ensures
        time_spent(shares, task_id) == 0,
    decreases shares.len(),
{
    if shares.len() > 0 {
        let front = shares.drop_last();
        assert(shares[shares.len() - 1].task_id != task_id);
        if names_task(front, task_id) {
            let i = choose|i: int| 0 <= i < front.len() && (#[trigger] front[i]).task_id == task_id;
            assert(shares[i].task_id == task_id);
        }
        lemma_time_spent_none(front, task_id);
    }
}

/// The view of a task reference that may be absent.
pub open spec fn task_view(task: Option<TaskLink>) -> Option<TaskLinkView> {
    match task {
        Some(task) => Some(task@),
        None => None,
    }
}

/// Whether `table` can take `share`: the duration of its task's entry must
/// stay within what a [`Duration`] holds.
pub open spec fn fits(table: Seq<TaskEntryView>, share: Contribution) -> bool {
    has_task(table, share.task_id) ==> (table[place_of(table, share.task_id)].data.duration
        + share.duration) / 1_000_000_000 <= u64::MAX
}

/// The nanoseconds of all entries of `table` together.
pub open spec fn total_time(table: Seq<TaskEntryView>) -> nat
    decreases table.len(),
{
    if table.len() == 0 {
        0
    } else {
        total_time(table.drop_last()) + table.last().data.duration
    }
}

/// The tasks of a span of time, each with what its facts add up to, in the
/// order in which the first fact of each task came. No task has two entries.
pub struct TaskTable {
    entries: Vec<TaskEntry>,
}

impl View for TaskTable {
    type V = Seq<TaskEntryView>;

    closed spec fn view(&self) -> Seq<TaskEntryView> {
        entry_views(self.entries@)
    }
}

fn same_task(one: &Option<String>, other: &Option<String>) -> (same: bool)
    ensures
        same == (option_text(*one) == option_text(*other)),
{
    match (one, other) {
        (Some(one), Some(other)) => *one == *other,
        (None, None) => true,
        _ => false,
    }
}

fn copy_lines(lines: &Vec<String>) -> (copy: Vec<String>)
    ensures
        line_views(copy@) == line_views(lines@),
{
    let mut copy: Vec<String> = Vec::new();
    let mut i: usize = 0;
    while i < lines.len()
        invariant
            i <= lines.len(),
            line_views(copy@) == line_views(lines@).take(i as int),
        decreases lines.len() - i,
    {
        let ghost before = line_views(copy@);
        copy.push(lines[i].clone());
        assert(line_views(copy@) == before.push(lines[i as int]@));
        assert(line_views(lines@).take(i + 1) == before.push(lines[i as int]@));
        i += 1;
    }
    assert(line_views(lines@).take(lines.len() as int) == line_views(lines@));
    copy
}

impl TaskTable {
    #[verifier::type_invariant]
    spec fn tasks_are_distinct(self) -> bool {
        distinct_tasks(entry_views(self.entries@))
    }

    /// A table without entries.
    pub fn new() -> (table: TaskTable)
        ensures
            table@ == Seq::<TaskEntryView>::empty(),
    {
        let table = TaskTable { entries: Vec::new() };
        assert(table@ == Seq::<TaskEntryView>::empty());
        table
    }

    /// The entries, in the order in which the first fact of each task came.
    pub fn entries(&self) -> (entries: &Vec<TaskEntry>)
        ensures
            entry_views(entries@) == self@,
            distinct_tasks(self@),
    {
        proof {
            use_type_invariant(self);
        }
        &self.entries
    }

    /// The place of the entry for `task_id`, if there is one.
    pub fn find(&self, task_id: &Option<String>) -> (place: Option<usize>)
        ensures
            match place {
                Some(i) => has_task(self@, option_text(*task_id)) && i == place_of(
                    self@,
                    option_text(*task_id),
                ),
                None => !has_task(self@, option_text(*task_id)),
            },
    {
        proof {
            use_type_invariant(self);
        }
        let mut i: usize = 0;
        while i < self.entries.len()
            invariant
                i <= self.entries.len(),
                distinct_tasks(self@),
                self@ == entry_views(self.entries@),
                forall|k: int| 0 <= k < i ==> (#[trigger] self@[k]).task_id != option_text(*task_id),
            decreases self.entries.len() - i,
        {
            if same_task(&self.entries[i].task_id, task_id) {
                proof {
                    assert(self@[i as int].task_id == option_text(*task_id));
                    let at = place_of(self@, option_text(*task_id));
                    if at < i {
                        assert(self@[at].task_id != self@[i as int].task_id);
                    } else if i < at {
                        assert(self@[i as int].task_id != self@[at].task_id);
                    }
                }
                return Some(i);
            }
            i += 1;
        }
        None
    }

    /// Adds one fact: the task it names, how long it lasted and its comments.
    /// The first fact of a task makes the task's entry, with the task's title
    /// and the fact's comments without repetitions; a later one adds its
    /// duration to the entry and merges its comments into it. Nothing is added
    /// where the duration of the entry would pass what a [`Duration`] holds.
    pub fn add(&mut self, task: Option<TaskLink>, duration: Duration, comments: Vec<String>) -> (added:
        bool)
        ensures
            added == fits(
                old(self)@,
                contribution(task_view(task), duration@, line_views(comments@)),
            ),
            added ==> final(self)@ == upsert(
                old(self)@,
                contribution(task_view(task), duration@, line_views(comments@)),
            ),
            !added ==> final(self)@ == old(self)@,
    {
        proof {
            use_type_invariant(&*self);
        }
        let ghost share = contribution(task_view(task), duration@, line_views(comments@));
        let ghost before = self@;
        let (task_id, title) = match task {
            Some(task) => (Some(task.task_id), Some(task.link_title)),
            None => (None, None),
        };
        let comments = unique_lines(comments);
        match self.find(&task_id) {
            None => {
                let mut entries = self.take_entries();
                entries.push(TaskEntry { task_id, data: TaskData { title, duration, comments } });
                proof {
                    assert(entry_views(entries@) == before.push(seeded(share)));
                    lemma_upsert_tasks(before, share);
                }
                *self = TaskTable { entries };
                true
            },
            Some(at) => {
                let entry = &self.entries[at];
                assert(entry@ == before[at as int]);
                match entry.data.duration.checked_add(&duration) {
                    None => false,
                    Some(total) => {
                        let mut all = copy_lines(&entry.data.comments);
                        let mut more = comments;
                        assert(line_views(all@ + more@) == line_views(all@) + line_views(more@));
                        all.append(&mut more);
                        let title = match &entry.data.title {
                            Some(title) => Some(title.clone()),
                            None => None,
                        };
                        let merged_entry = TaskEntry {
                            task_id,
                            data: TaskData { title, duration: total, comments: unique_lines(all) },
                        };
                        assert(merged_entry@ == merged(before[at as int], share));
                        let mut entries = self.take_entries();
                        entries.set(at, merged_entry);
                        proof {
                            assert(entry_views(entries@) == before.update(
                                at as int,
                                merged(before[at as int], share),
                            ));
                            lemma_upsert_tasks(before, share);
                        }
                        *self = TaskTable { entries };
                        true
                    },
                }
            },
        }
    }

    /// Hands the entries out and leaves the table empty.
    fn take_entries(&mut self) -> (entries: Vec<TaskEntry>)
        ensures
            entry_views(entries@) == old(self)@,
            distinct_tasks(old(self)@),
            final(self)@ == Seq::<TaskEntryView>::empty(),
    {
        proof {
            use_type_invariant(&*self);
        }
        let mut taken = TaskTable::new();
        core::mem::swap(self, &mut taken);
        taken.entries
    }

    /// The durations of all entries together, unless they pass what a
    /// [`Duration`] holds.
    pub fn total_duration(&self) -> (total: Option<Duration>)
        ensures
            match total {
                Some(total) => total@ == total_time(self@),
                None => total_time(self@) / 1_000_000_000 > u64::MAX,
            },
    {
        let mut total = Duration::from_secs(0);
        let mut i: usize = 0;
        while i < self.entries.len()
            invariant
                i <= self.entries.len(),
                self@ == entry_views(self.entries@),
                total@ == total_time(self@.take(i as int)),
            decreases self.entries.len() - i,
        {
            proof {
                assert(self@.take(i + 1).drop_last() == self@.take(i as int));
                assert(self@.take(i + 1).last() == self.entries[i as int]@);
            }
            match total.checked_add(&self.entries[i].data.duration) {
                Some(sum) => {
                    total = sum;
                },
                None => {
                    proof {
                        lemma_total_time_grows(self@, i + 1);
                    }
                    return None;
                },
            }
            i += 1;
        }
        assert(self@.take(self.entries.len() as int) == self@);
        Some(total)
    }
}

/// The total of a table is at least the total of its first `n` entries.
pub proof fn lemma_total_time_grows(table: Seq<TaskEntryView>, n: int)
    requires
        0 <= n <= table.len(),
    ensures
        total_time(table.take(n)) <= total_time(table),
    decreases table.len() - n,
{
    if n < table.len() {
        lemma_total_time_grows(table, n + 1);
        assert(table.take(n + 1).drop_last() == table.take(n));
    } else {
        assert(table.take(n) == table);
    }
}

/// Why the facts of a span of time could not be added up.
#[derive(Clone, Copy, Debug, PartialEq, Eq, Structural)]
pub enum AggregateError {
    /// The fact would have ended before it started, or lasted longer than a
    /// [`Duration`] holds.
    Unmeasurable { id: i64 },
    /// The description of the fact could not be read as markdown.
    ParseFailure { id: i64 },
    /// With the fact, its task would have lasted longer than a [`Duration`]
    /// holds.
    Overflow { id: i64 },
}

/// What a fact adds to its task, given the tree of its description.
pub open spec fn share_of(fact: HamsterFactView, tree: MdNodeView, at: int) -> Contribution {
    contribution(task_in(tree), elapsed(fact, at) as nat, comments_of(tree, fact.activity))
}

/// `table` after the fact `fact`, measured at the instant `at`.
pub open spec fn with_fact(table: Seq<TaskEntryView>, fact: HamsterFactView, at: int) -> Result<
    Seq<TaskEntryView>,
    AggregateError,
> {
    if !measurable(fact, at) {
        Err(AggregateError::Unmeasurable { id: fact.id })
    } else {
        match markdown_tree(fact.description) {
            None => Err(AggregateError::ParseFailure { id: fact.id }),
            Some(tree) => if fits(table, share_of(fact, tree, at)) {
                Ok(upsert(table, share_of(fact, tree, at)))
            } else {
                Err(AggregateError::Overflow { id: fact.id })
            },
        }
    }
}

/// The table that `facts` add up to at the instant `at`, the facts taken in
/// their order; the first fact that cannot be added stops the run with its
/// error.
pub open spec fn aggregated(facts: Seq<HamsterFactView>, at: int) -> Result<
    Seq<TaskEntryView>,
    AggregateError,
>
    decreases facts.len(),
{
    if facts.len() == 0 {
        Ok(Seq::empty())
    } else {
        match aggregated(facts.drop_last(), at) {
            Ok(table) => with_fact(table, facts.last(), at),
            Err(error) => Err(error),
        }
    }
}

/// The places of the facts whose description names no task, in rising order.
pub open spec fn unlinked(facts: Seq<HamsterFactView>) -> Seq<int>
    decreases facts.len(),
{
    if facts.len() == 0 {
        Seq::empty()
    } else {
        let before = unlinked(facts.drop_last());
        match markdown_tree(facts.last().description) {
            Some(tree) => if task_in(tree) is None {
                before.push(facts.len() - 1)
            } else {
                before
            },
            None => before,
        }
    }
}

/// What a fact adds to its task: [`share_of`] with the tree of its
/// description; of a fact whose description cannot be read, only its duration.
pub open spec fn share_at(fact: HamsterFactView, at: int) -> Contribution {
    match markdown_tree(fact.description) {
        Some(tree) => share_of(fact, tree, at),
        None => contribution(None, elapsed(fact, at) as nat, Seq::empty()),
    }
}

/// What each of `facts` adds to its task, in the order of the facts.
pub open spec fn shares(facts: Seq<HamsterFactView>, at: int) -> Seq<Contribution> {
    Seq::new(facts.len(), |i: int| share_at(facts[i], at))
}

/// Where the facts can be added up, each of them can be measured and read,
/// and the table is the one that their contributions build.
pub proof fn lemma_aggregated_is_tally(facts: Seq<HamsterFactView>, at: int)
    requires
        aggregated(facts, at) is Ok,
    ensures
        aggregated(facts, at) == Ok::<Seq<TaskEntryView>, AggregateError>(tally(shares(facts, at))),
        forall|i: int|
            0 <= i < facts.len() ==> measurable(#[trigger] facts[i], at) && markdown_tree(
                facts[i].description,
            ) is Some,
    decreases facts.len(),
{
    if facts.len() == 0 {
        assert(shares(facts, at) == Seq::<Contribution>::empty());
    } else {
        let front = facts.drop_last();
        lemma_aggregated_is_tally(front, at);
        assert(shares(facts, at).drop_last() == shares(front, at));
        assert(shares(facts, at).last() == share_at(facts.last(), at));
        assert forall|i: int| 0 <= i < facts.len() implies measurable(#[trigger] facts[i], at)
            && markdown_tree(facts[i].description) is Some by {
            if i < front.len() {
                assert(front[i] == facts[i]);
            }
        }
    }
}

/// For each task, the duration that the facts add up to is the sum of what
/// each fact of the task lasted: up to its end, or up to `at` while it runs.
pub proof fn law_task_duration_is_sum_of_facts(facts: Seq<HamsterFactView>, at: int, i: int)
    requires
        aggregated(facts, at) is Ok,
        0 <= i < facts.len(),
    ensures
        has_task(aggregated(facts, at)->Ok_0, share_at(facts[i], at).task_id),
        aggregated(facts, at)->Ok_0[place_of(
            aggregated(facts, at)->Ok_0,
            share_at(facts[i], at).task_id,
        )].data.duration == time_spent(shares(facts, at), share_at(facts[i], at).task_id),
{
    lemma_aggregated_is_tally(facts, at);
    assert(shares(facts, at)[i].task_id == share_at(facts[i], at).task_id);
    law_durations_add_up(shares(facts, at), share_at(facts[i], at).task_id);
}

/// Where every fact lasts at least as long in `later` as in `sooner`, no task
/// has less time spent on it; and a task has more where one of its facts
/// lasts longer.
pub proof fn lemma_time_spent_grows(
    sooner: Seq<Contribution>,
    later: Seq<Contribution>,
    task_id: Option<Seq<char>>,
)
    requires
        sooner.len() == later.len(),
        forall|k: int|
            0 <= k < sooner.len() ==> (#[trigger] sooner[k]).task_id == later[k].task_id
                && sooner[k].duration <= later[k].duration,
    ensures
        time_spent(sooner, task_id) <= time_spent(later, task_id),
        (exists|k: int|
            0 <= k < sooner.len() && (#[trigger] sooner[k]).task_id == task_id && sooner[k].duration
                < later[k].duration) ==> time_spent(sooner, task_id) < time_spent(later, task_id),
    decreases sooner.len(),
{
    if sooner.len() > 0 {
        let n = sooner.len() - 1;
        assert(sooner[n].task_id == later[n].task_id);
        assert forall|k: int| 0 <= k < n implies (#[trigger] sooner.drop_last()[k]).task_id
            == later.drop_last()[k].task_id && sooner.drop_last()[k].duration
            <= later.drop_last()[k].duration by {
            assert(sooner[k].task_id == later[k].task_id);
        }
        lemma_time_spent_grows(sooner.drop_last(), later.drop_last(), task_id);
        if exists|k: int|
            0 <= k < sooner.len() && (#[trigger] sooner[k]).task_id == task_id && sooner[k].duration
                < later[k].duration {
            let k = choose|k: int|
                0 <= k < sooner.len() && (#[trigger] sooner[k]).task_id == task_id
                    && sooner[k].duration < later[k].duration;
            if k < n {
                assert(sooner.drop_last()[k].task_id == task_id);
                assert(sooner.drop_last()[k].duration < later.drop_last()[k].duration);
            }
        }
    }
}

/// A fact that is still running counts up to the instant at which the facts
/// are added up: at a later instant its task has lasted longer.
pub proof fn law_running_fact_follows_the_clock(
    facts: Seq<HamsterFactView>,
    i: int,
    sooner: int,
    later: int,
)
    requires
        0 <= i < facts.len(),
        facts[i].end_time is None,
        sooner < later,
        aggregated(facts, sooner) is Ok,
        aggregated(facts, later) is Ok,
    ensures
        share_at(facts[i], sooner).duration == sooner - facts[i].start_time,
        share_at(facts[i], later).duration == later - facts[i].start_time,
        share_at(facts[i], sooner).task_id == share_at(facts[i], later).task_id,
        aggregated(facts, sooner)->Ok_0[place_of(
            aggregated(facts, sooner)->Ok_0,
            share_at(facts[i], sooner).task_id,
        )].data.duration < aggregated(facts, later)->Ok_0[place_of(
            aggregated(facts, later)->Ok_0,
            share_at(facts[i], later).task_id,
        )].data.duration,
{
    let task_id = share_at(facts[i], sooner).task_id;
    lemma_aggregated_is_tally(facts, sooner);
    lemma_aggregated_is_tally(facts, later);
    law_task_duration_is_sum_of_facts(facts, sooner, i);
    law_task_duration_is_sum_of_facts(facts, later, i);
    let first = shares(facts, sooner);
    let second = shares(facts, later);
    assert forall|k: int| 0 <= k < first.len() implies (#[trigger] first[k]).task_id
        == second[k].task_id && first[k].duration <= second[k].duration by {
        assert(measurable(facts[k], sooner));
        assert(measurable(facts[k], later));
    }
    assert(measurable(facts[i], sooner));
    assert(measurable(facts[i], later));
    assert(first[i].task_id == task_id && first[i].duration < second[i].duration);
    lemma_time_spent_grows(first, second, task_id);
}

/// A fact whose description lists nothing is commented by the name of its
/// activity alone, whether or not the description links to a task.
pub proof fn law_fact_without_items_is_commented_by_activity(fact: HamsterFactView, at: int)
    requires
        measurable(fact, at),
        markdown_tree(fact.description) matches Some(tree) && item_texts(tree).len() == 0,
    ensures
        share_at(fact, at).comments == seq![fact.activity],
        aggregated(seq![fact], at) matches Ok(table) && table.len() == 1 && table[0].data.comments
            == seq![fact.activity],
{
    let facts = seq![fact];
    assert(facts.drop_last() == Seq::<HamsterFactView>::empty());
    assert(facts.last() == fact);
    let empty = Seq::<TaskEntryView>::empty();
    let tree = markdown_tree(fact.description)->Some_0;
    let share = share_of(fact, tree, at);
    assert(share.comments == seq![fact.activity]);
    assert(!has_task(empty, share.task_id));
    assert(seq![fact.activity].no_duplicates());
    law_unique_keeps_distinct(seq![fact.activity]);
    assert(aggregated(facts.drop_last(), at) == Ok::<Seq<TaskEntryView>, AggregateError>(empty));
    assert(with_fact(empty, fact, at) == Ok::<Seq<TaskEntryView>, AggregateError>(
        empty.push(seeded(share)),
    ));
    assert(aggregated(facts, at) == with_fact(empty, fact, at));
}

/// Places as plain numbers.
pub open spec fn places(at: Seq<usize>) -> Seq<int> {
    at.map_values(|i: usize| i as int)
}

/// An error among the first facts is the error of the whole run.
pub proof fn lemma_error_stays(facts: Seq<HamsterFactView>, n: int, at: int)
    requires
        0 <= n <= facts.len(),
        aggregated(facts.take(n), at) is Err,
    ensures
        aggregated(facts, at) == aggregated(facts.take(n), at),
    decreases facts.len() - n,
{
    if n < facts.len() {
        assert(facts.drop_last().take(n) == facts.take(n));
        lemma_error_stays(facts.drop_last(), n, at);
    } else {
        assert(facts.take(n) == facts);
    }
}

/// The tasks of a span of time, and the facts that could not be filed under a
/// task.
pub struct Aggregation {
    pub tasks: TaskTable,
    /// The places, among the facts, of those that name no task.
    pub unlinked: Vec<usize>,
}

/// Adds up the facts of a span of time by task. A fact that is still running
/// is measured up to `at`. The facts that name no task share one entry, and
/// their places are listed.
pub fn aggregate(facts: &Vec<HamsterFact>, at: Timestamp) -> (outcome: Result<
    Aggregation,
    AggregateError,
>)
    ensures
        match outcome {
            Ok(found) => aggregated(fact_views(facts@), at@) == Ok::<
                Seq<TaskEntryView>,
                AggregateError,
            >(found.tasks@) && places(found.unlinked@) == unlinked(fact_views(facts@)),
            Err(error) => aggregated(fact_views(facts@), at@) == Err::<
                Seq<TaskEntryView>,
                AggregateError,
            >(error),
        },
{
    let ghost all = fact_views(facts@);
    let mut tasks = TaskTable::new();
    let mut unlinked_at: Vec<usize> = Vec::new();
    let mut i: usize = 0;
    while i < facts.len()
        invariant
            i <= facts.len(),
            all == fact_views(facts@),
            aggregated(all.take(i as int), at@) == Ok::<Seq<TaskEntryView>, AggregateError>(tasks@),
            places(unlinked_at@) == unlinked(all.take(i as int)),
        decreases facts.len() - i,
    {
        let fact = &facts[i];
        proof {
            assert(all.take(i + 1).drop_last() == all.take(i as int));
            assert(all.take(i + 1).last() == fact@);
        }
        let duration = match fact.duration(at) {
            Some(duration) => duration,
            None => {
                proof {
                    lemma_error_stays(all, i + 1, at@);
                }
                return Err(AggregateError::Unmeasurable { id: fact.id });
            },
        };
        let parsed = match extract(fact.description.as_str()) {
            Ok(parsed) => parsed,
            Err(_) => {
                proof {
                    lemma_error_stays(all, i + 1, at@);
                }
                return Err(AggregateError::ParseFailure { id: fact.id });
            },
        };
        let task = parsed.task();
        let comments = parsed.comments(&fact.activity);
        let ghost found = places(unlinked_at@);
        if task.is_none() {
            unlinked_at.push(i);
            assert(places(unlinked_at@) == found.push(i as int));
        }
        if !tasks.add(task, duration, comments) {
            proof {
                lemma_error_stays(all, i + 1, at@);
            }
            return Err(AggregateError::Overflow { id: fact.id });
        }
        i += 1;
    }
    assert(all.take(facts.len() as int) == all);
    Ok(Aggregation { tasks, unlinked: unlinked_at })
}

} // verus!
