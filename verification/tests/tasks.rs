use hamcli::enrichment::TaskLink;
use hamcli::hamster::{database_path, filter_by_category, HamsterFact};
use hamcli::tasks::{aggregate, AggregateError, TaskTable};
use hamcli::time::{Duration, Timestamp};
use hamcli::utils::DurationFormatting;

const NOON: i64 = 1_715_515_200;

fn at(secs: i64) -> Timestamp {
    Timestamp { secs, nanos: 0 }
}

fn fact(id: i64, start: i64, end: Option<i64>, description: &str) -> HamsterFact {
    HamsterFact {
        id,
        start_time: at(start),
        end_time: end.map(at),
        description: String::from(description),
        activity: String::from("working"),
        category: String::from("Work"),
    }
}

fn fact_in(id: i64, category: &str) -> HamsterFact {
    HamsterFact {
        id,
        start_time: at(NOON),
        end_time: Some(at(NOON + 60)),
        description: String::from("[T](https://x/1/f)"),
        activity: String::from("working"),
        category: String::from(category),
    }
}

fn link(id: &str, title: &str) -> Option<TaskLink> {
    Some(TaskLink {
        link_title: String::from(title),
        href: format!("https://x/{id}/f"),
        task_id: String::from(id),
    })
}

fn lines(texts: &[&str]) -> Vec<String> {
    texts.iter().map(|text| text.to_string()).collect()
}

#[test]
fn two_records_of_one_task_add_up() {
    let facts = vec![
        fact(1, NOON, Some(NOON + 30 * 60), "[T](https://x/1/f)\n- draft\n- review"),
        fact(2, NOON + 3600, Some(NOON + 3600 + 45 * 60), "[T](https://x/1/f)\n- publish"),
    ];
    let found = aggregate(&facts, at(NOON + 7200)).unwrap();
    let entries = found.tasks.entries();
    assert_eq!(entries.len(), 1);
    assert_eq!(entries[0].task_id, Some(String::from("1")));
    assert_eq!(entries[0].data.title, Some(String::from("T")));
    assert_eq!(entries[0].data.duration.as_secs(), 75 * 60);
    assert_eq!(entries[0].data.duration.as_hhmm(), "1:15");
    assert_eq!(entries[0].data.comments, ["draft", "review", "publish"]);
    assert!(found.unlinked.is_empty());
}

#[test]
fn comments_of_one_task_are_merged_without_repetitions() {
    let facts = vec![
        fact(1, NOON, Some(NOON + 60), "[T](https://x/1/f)\n- b\n- a\n- b"),
        fact(2, NOON + 60, Some(NOON + 120), "[T](https://x/1/f)\n- c\n- a\n- d"),
    ];
    let found = aggregate(&facts, at(NOON + 7200)).unwrap();
    assert_eq!(found.tasks.entries()[0].data.comments, ["b", "a", "c", "d"]);
}

#[test]
fn tasks_come_in_the_order_of_their_first_facts() {
    let facts = vec![
        fact(1, NOON, Some(NOON + 60), "[Two](https://x/2/f)"),
        fact(2, NOON + 60, Some(NOON + 180), "[One](https://x/1/f)"),
        fact(3, NOON + 180, Some(NOON + 480), "[Two again](https://x/2/f)"),
    ];
    let found = aggregate(&facts, at(NOON + 7200)).unwrap();
    let entries = found.tasks.entries();
    assert_eq!(entries.len(), 2);
    assert_eq!(entries[0].task_id, Some(String::from("2")));
    assert_eq!(entries[0].data.title, Some(String::from("Two")));
    assert_eq!(entries[0].data.duration.as_secs(), 360);
    assert_eq!(entries[0].data.comments, ["working"]);
    assert_eq!(entries[1].task_id, Some(String::from("1")));
    assert_eq!(entries[1].data.duration.as_secs(), 120);
    assert_eq!(found.tasks.total_duration().unwrap().as_secs(), 480);
}

#[test]
fn facts_without_task_share_one_entry_and_are_listed() {
    let facts = vec![
        fact(1, NOON, Some(NOON + 60), "no link here"),
        fact(2, NOON + 60, Some(NOON + 120), "[T](https://x/1/f)"),
        fact(3, NOON + 120, Some(NOON + 240), "[odd](https://x/task/abc/f)\n- note"),
    ];
    let found = aggregate(&facts, at(NOON + 7200)).unwrap();
    let entries = found.tasks.entries();
    assert_eq!(entries.len(), 2);
    assert_eq!(entries[0].task_id, None);
    assert_eq!(entries[0].data.title, None);
    assert_eq!(entries[0].data.duration.as_secs(), 180);
    assert_eq!(entries[0].data.comments, ["working", "note"]);
    assert_eq!(entries[1].task_id, Some(String::from("1")));
    assert_eq!(found.unlinked, [0, 2]);
}

#[test]
fn running_fact_is_measured_up_to_now() {
    let facts = vec![
        fact(1, NOON, Some(NOON + 600), "[T](https://x/1/f)"),
        fact(2, NOON + 600, None, "[T](https://x/1/f)"),
    ];
    let sooner = aggregate(&facts, at(NOON + 900)).unwrap();
    let later = aggregate(&facts, at(NOON + 1500)).unwrap();
    assert_eq!(sooner.tasks.entries()[0].data.duration.as_secs(), 900);
    assert_eq!(later.tasks.entries()[0].data.duration.as_secs(), 1500);
}

#[test]
fn running_fact_counts_nanoseconds() {
    let facts = vec![fact(1, NOON, None, "[T](https://x/1/f)")];
    let found = aggregate(&facts, Timestamp { secs: NOON + 1, nanos: 500 }).unwrap();
    let duration = found.tasks.entries()[0].data.duration;
    assert_eq!(duration.as_secs(), 1);
    assert_eq!(duration.subsec_nanos(), 500);
}

#[test]
fn no_facts_no_tasks() {
    let found = aggregate(&Vec::new(), at(NOON)).unwrap();
    assert!(found.tasks.entries().is_empty());
    assert!(found.unlinked.is_empty());
    assert_eq!(found.tasks.total_duration().unwrap().as_secs(), 0);
}

#[test]
fn fact_that_ends_before_it_starts_cannot_be_measured() {
    let facts = vec![
        fact(1, NOON, Some(NOON + 60), "[T](https://x/1/f)"),
        fact(7, NOON, Some(NOON - 1), "[T](https://x/1/f)"),
    ];
    assert_eq!(aggregate(&facts, at(NOON)).err(), Some(AggregateError::Unmeasurable { id: 7 }));
}

#[test]
fn running_fact_that_starts_after_now_cannot_be_measured() {
    let facts = vec![fact(3, NOON + 1, None, "[T](https://x/1/f)")];
    assert_eq!(aggregate(&facts, at(NOON)).err(), Some(AggregateError::Unmeasurable { id: 3 }));
}

#[test]
fn durations_past_what_fits_are_an_overflow() {
    let facts = vec![
        fact(1, i64::MIN, Some(0), "[T](https://x/1/f)"),
        fact(2, i64::MIN, Some(0), "[U](https://x/2/f)"),
        fact(9, i64::MIN, Some(0), "[T](https://x/1/f)"),
    ];
    assert_eq!(aggregate(&facts, at(0)).err(), Some(AggregateError::Overflow { id: 9 }));
}

#[test]
fn table_add_seeds_then_merges() {
    let mut table = TaskTable::new();
    assert!(table.add(link("5", "Five"), Duration::from_secs(10), lines(&["x", "y", "x"])));
    assert!(table.add(None, Duration::from_secs(1), lines(&["z"])));
    assert!(table.add(link("5", "Other title"), Duration::from_secs(20), lines(&["y", "w"])));
    let entries = table.entries();
    assert_eq!(entries.len(), 2);
    assert_eq!(entries[0].task_id, Some(String::from("5")));
    assert_eq!(entries[0].data.title, Some(String::from("Five")));
    assert_eq!(entries[0].data.duration.as_secs(), 30);
    assert_eq!(entries[0].data.comments, ["x", "y", "w"]);
    assert_eq!(entries[1].task_id, None);
    assert_eq!(entries[1].data.comments, ["z"]);
    assert_eq!(table.find(&Some(String::from("5"))), Some(0));
    assert_eq!(table.find(&None), Some(1));
    assert_eq!(table.find(&Some(String::from("6"))), None);
}

#[test]
fn table_add_refuses_what_does_not_fit() {
    let mut table = TaskTable::new();
    assert!(table.add(link("5", "Five"), Duration::from_secs(u64::MAX), lines(&["x"])));
    assert!(!table.add(link("5", "Five"), Duration::from_secs(1), lines(&["y"])));
    assert_eq!(table.entries()[0].data.duration.as_secs(), u64::MAX);
    assert_eq!(table.entries()[0].data.comments, ["x"]);
    assert!(table.add(link("6", "Six"), Duration::from_secs(1), lines(&["y"])));
    assert!(table.total_duration().is_none());
}

#[test]
fn filter_by_category_keeps_the_order() {
    let facts = vec![fact_in(1, "Work"), fact_in(2, "Sports"), fact_in(3, "Work"), fact_in(4, "work")];
    let kept: Vec<i64> = filter_by_category(facts, Some(String::from("Work")))
        .into_iter()
        .map(|fact| fact.id)
        .collect();
    assert_eq!(kept, [1, 3]);
}

#[test]
fn filter_without_category_keeps_all() {
    let facts = vec![fact_in(1, "Work"), fact_in(2, "Sports")];
    let kept: Vec<i64> = filter_by_category(facts, None).into_iter().map(|fact| fact.id).collect();
    assert_eq!(kept, [1, 2]);
}

#[test]
fn filter_by_a_category_that_no_fact_has() {
    let facts = vec![fact_in(1, "Work"), fact_in(2, "Sports")];
    assert!(filter_by_category(facts, Some(String::from("Rest"))).is_empty());
}

#[test]
fn tasks_of_one_category_add_up() {
    let facts = vec![fact_in(1, "Work"), fact_in(2, "Sports"), fact_in(3, "Work")];
    let kept = filter_by_category(facts, Some(String::from("Work")));
    let found = aggregate(&kept, at(NOON)).unwrap();
    assert_eq!(found.tasks.entries().len(), 1);
    assert_eq!(found.tasks.entries()[0].data.duration.as_secs(), 120);
}

#[test]
fn database_path_prefers_what_was_asked_for() {
    assert_eq!(
        database_path(Some(String::from("/tmp/a.db")), Some(String::from("/home/u/h.db"))),
        Ok(String::from("/tmp/a.db"))
    );
    assert_eq!(database_path(Some(String::from("/tmp/a.db")), None), Ok(String::from("/tmp/a.db")));
    assert_eq!(
        database_path(None, Some(String::from("/home/u/h.db"))),
        Ok(String::from("/home/u/h.db"))
    );
    assert_eq!(
        database_path(None, None),
        Err(String::from("Hamster database path wasn't supplied, $HOME is not set - I give up"))
    );
}

#[test]
fn fact_duration_uses_the_end_where_there_is_one() {
    let done = fact(1, NOON, Some(NOON + 90), "x");
    assert_eq!(done.duration(at(NOON + 10_000)).unwrap().as_secs(), 90);
    let running = fact(2, NOON, None, "x");
    assert_eq!(running.duration(at(NOON + 10_000)).unwrap().as_secs(), 10_000);
    assert_eq!(running.duration(at(NOON + 20_000)).unwrap().as_secs(), 20_000);
    assert!(running.duration(at(NOON - 1)).is_none());
}
