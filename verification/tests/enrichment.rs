use chrono::{Local, NaiveDate, NaiveDateTime, NaiveTime, TimeDelta};
use hamcli::enrichment::{extract, resolve, HamsterEnrichedData};
use hamcli::hamster::HamsterFact;
use hamcli::time::Timestamp;

fn get_fact(
    activity: Option<String>,
    description: Option<String>,
    category: Option<String>,
) -> HamsterFact {
    let timezone = Local::now().timezone();
    let start_time = NaiveDateTime::new(
        NaiveDate::from_ymd_opt(2024, 5, 12).unwrap(),
        NaiveTime::from_hms_opt(10, 33, 0).unwrap(),
    )
    .and_local_timezone(timezone)
    .unwrap();
    let end_time = start_time + TimeDelta::new(3600, 0).unwrap();
    HamsterFact {
        id: 1,
        start_time: Timestamp {
            secs: start_time.timestamp(),
            nanos: start_time.timestamp_subsec_nanos(),
        },
        end_time: Some(Timestamp {
            secs: end_time.timestamp(),
            nanos: end_time.timestamp_subsec_nanos(),
        }),
        description: description.unwrap_or(String::from("default description")),
        activity: activity.unwrap_or(String::from("running and jumping")),
        category: category.unwrap_or(String::from("Sports")),
    }
}

fn get_fact_with_descr(description: String) -> HamsterFact {
    get_fact(None, Some(description), None)
}

#[test]
fn ensure_task_extracted_correctly() {
    let fact = get_fact_with_descr(String::from(
        "[Some task](https://example.com/task/123456/f)",
    ));

    let extracted_task = fact.task().unwrap().unwrap();

    assert_eq!(extracted_task.link_title, String::from("Some task"));
    assert_eq!(
        extracted_task.href,
        String::from("https://example.com/task/123456/f")
    );
    assert_eq!(extracted_task.task_id, String::from("123456"));
}

#[test]
fn simple_comments_extracted_correctly() {
    let fact = get_fact_with_descr(String::from(
        "[Some task](https://example.com/task/123456/f)\n\
        + some running\n\
        - some jumping",
    ));
    let comments = fact.comments().unwrap();
    assert_eq!(comments, ["some running", "some jumping"]);
}

#[test]
fn hierarchical_comments_extracted_correctly() {
    let fact = get_fact_with_descr(String::from(
        "[Some task](https://example.com/task/123456/f)\n\
        + some running\n  + running left\n    + running left with shouting\n  - running right\n\
        - some jumping",
    ));
    let comments = fact.comments().unwrap();
    assert_eq!(
        comments,
        [
            "some running",
            "running left",
            "running left with shouting",
            "running right",
            "some jumping"
        ]
    );
}

#[test]
fn activity_is_used_if_no_comments_found() {
    let fact = get_fact(
        Some(String::from("some activity")),
        Some(String::from("just a regular description")),
        None,
    );
    let comments = fact.comments().unwrap();
    assert_eq!(comments, ["some activity"]);

    let fact = get_fact(
        Some(String::from("some activity")),
        Some(String::from(
            "[Some task](https://example.com/task/123456/f)\n",
        )),
        None,
    );
    let comments = fact.comments().unwrap();
    assert_eq!(comments, ["some activity"]);
}

#[test]
fn resolve_finds_the_digits_before_slash_f() {
    assert_eq!(resolve("https://x/task/123456/f"), Some(String::from("123456")));
    assert_eq!(resolve("https://x/1/f"), Some(String::from("1")));
}

#[test]
fn resolve_finds_nothing_without_digits() {
    assert_eq!(resolve("https://x/task/abc/f"), None);
    assert_eq!(resolve("https://x/task//f"), None);
    assert_eq!(resolve(""), None);
}

#[test]
fn resolve_wants_the_slash_before_and_slash_f_after() {
    assert_eq!(resolve("https://x/task/123456"), None);
    assert_eq!(resolve("https://x/task/123456/"), None);
    assert_eq!(resolve("https://x/task/123456/g"), None);
    assert_eq!(resolve("123456/f"), None);
    assert_eq!(resolve("https://x/t12/f"), None);
}

#[test]
fn resolve_takes_the_leftmost_match() {
    assert_eq!(resolve("https://x/12/f/34/f"), Some(String::from("12")));
    assert_eq!(resolve("https://x/12/34/f"), Some(String::from("34")));
    assert_eq!(resolve("https://x/1/foo/2/f"), Some(String::from("1")));
}

#[test]
fn task_of_a_description_without_link_is_absent() {
    let fact = get_fact_with_descr(String::from("just a regular description"));
    assert!(fact.task().unwrap().is_none());
}

#[test]
fn task_of_a_link_of_another_shape_is_absent() {
    let fact = get_fact_with_descr(String::from("[Some task](https://example.com/task/abc/f)"));
    assert!(fact.task().unwrap().is_none());
}

#[test]
fn task_comes_from_the_first_link() {
    let fact = get_fact_with_descr(String::from(
        "[first](https://example.com/1/f) and [second](https://example.com/2/f)",
    ));
    let task = fact.task().unwrap().unwrap();
    assert_eq!(task.link_title, "first");
    assert_eq!(task.task_id, "1");
}

#[test]
fn task_is_not_sought_past_a_first_link_of_another_shape() {
    let fact = get_fact_with_descr(String::from(
        "[first](https://example.com/none) and [second](https://example.com/2/f)",
    ));
    assert!(fact.task().unwrap().is_none());
}

#[test]
fn task_link_inside_a_list_item_counts() {
    let fact = get_fact_with_descr(String::from("- see [T](https://x/77/f)\n- other"));
    let task = fact.task().unwrap().unwrap();
    assert_eq!(task.task_id, "77");
    assert_eq!(task.link_title, "T");
    assert_eq!(task.href, "https://x/77/f");
}

#[test]
fn record_with_link_and_two_items() {
    let fact = get_fact_with_descr(String::from("[T](https://x/1/f)\n+ a\n- b"));
    let task = fact.task().unwrap().unwrap();
    assert_eq!(task.task_id, "1");
    assert_eq!(task.link_title, "T");
    assert_eq!(fact.comments().unwrap(), ["a", "b"]);
}

#[test]
fn hierarchical_list_reads_top_to_bottom() {
    let fact = get_fact_with_descr(String::from("+ a\n  + a1\n    + a1a\n  - a2\n- b"));
    assert_eq!(fact.comments().unwrap(), ["a", "a1", "a1a", "a2", "b"]);
}

#[test]
fn link_without_items_falls_back_to_the_activity() {
    let fact = get_fact(
        Some(String::from("writing")),
        Some(String::from("[T](https://x/1/f)")),
        None,
    );
    assert_eq!(fact.comments().unwrap(), ["writing"]);
    assert_eq!(fact.task().unwrap().unwrap().task_id, "1");
}

#[test]
fn parsed_description_hands_out_link_and_items() {
    let parsed = extract("[Some task](https://example.com/task/123456/f)\n- one\n- two").unwrap();
    assert_eq!(
        parsed.first_link(),
        Some((String::from("Some task"), String::from("https://example.com/task/123456/f")))
    );
    assert_eq!(parsed.list_item_texts(), ["one", "two"]);
    assert_eq!(parsed.comments(&String::from("activity")), ["one", "two"]);
}

#[test]
fn parsed_description_without_link_or_items() {
    let parsed = extract("nothing to see").unwrap();
    assert_eq!(parsed.first_link(), None);
    assert!(parsed.list_item_texts().is_empty());
    assert!(parsed.task().is_none());
    assert_eq!(parsed.comments(&String::from("activity")), ["activity"]);
}

#[test]
fn text_outside_list_items_is_no_comment() {
    let parsed = extract("intro\n\n- item\n\noutro").unwrap();
    assert_eq!(parsed.list_item_texts(), ["item"]);
}

#[test]
fn items_of_a_list_inside_a_quote_are_comments() {
    let parsed = extract("> - quoted item").unwrap();
    assert_eq!(parsed.list_item_texts(), ["quoted item"]);
}
