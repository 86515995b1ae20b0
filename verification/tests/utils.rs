use chrono::{Datelike, NaiveDate};
use hamcli::mdast::{parse, Link, MdNode, Text};
use hamcli::time::{Date, Duration, Timestamp};
use hamcli::utils::{
    decimal_string, unique_lines, week_start, DurationFormatting, LinkText, MarkdownProcessing,
};

fn day(year: i32, month: u32, day: u32) -> Date {
    Date { days: NaiveDate::from_ymd_opt(year, month, day).unwrap().num_days_from_ce() }
}

fn lines(texts: &[&str]) -> Vec<String> {
    texts.iter().map(|text| text.to_string()).collect()
}

#[test]
fn week_start_works() {
    assert_eq!(
        week_start(Date {
            days: NaiveDate::from_ymd_opt(2024, 04, 26).unwrap().num_days_from_ce()
        }),
        Date { days: NaiveDate::from_ymd_opt(2024, 04, 22).unwrap().num_days_from_ce() }
    )
}

#[test]
fn duration_as_hhmm_works() {
    assert_eq!(Duration::new(0, 0).as_hhmm(), String::from("0:00"));
    assert_eq!(Duration::new(60, 0).as_hhmm(), String::from("0:01"));
    assert_eq!(Duration::new(65, 0).as_hhmm(), String::from("0:01"));
    assert_eq!(Duration::new(600, 0).as_hhmm(), String::from("0:10"));
    assert_eq!(Duration::new(4000, 0).as_hhmm(), String::from("1:06"));
    assert_eq!(Duration::new(3600 * 10, 0).as_hhmm(), String::from("10:00"));
    assert_eq!(
        Duration::new(3600 * 100, 1).as_hhmm(),
        String::from("100:00")
    );
}

#[test]
fn texts_extracted_correctly() {
    let markdown = String::from(
        "- first item\n\
        - second item\n - item 2.1\n    - item 2.1.1\n  - item 2.2\n\
        - item 3",
    );
    let root_node = parse(&markdown).unwrap();
    assert_eq!(
        root_node
            .texts()
            .into_iter()
            .map(|text| text.value.clone())
            .collect::<Vec<String>>(),
        vec![
            "first item",
            "second item",
            "item 2.1",
            "item 2.1.1",
            "item 2.2",
            "item 3"
        ]
    );
}

#[test]
fn week_start_of_a_monday_is_that_monday() {
    assert_eq!(week_start(day(2024, 4, 22)), day(2024, 4, 22));
}

#[test]
fn week_start_of_a_sunday_is_six_days_before() {
    assert_eq!(week_start(day(2024, 4, 28)), day(2024, 4, 22));
}

#[test]
fn week_start_crosses_a_year() {
    assert_eq!(week_start(day(2025, 1, 1)), day(2024, 12, 30));
}

#[test]
fn week_start_of_day_one_is_day_one() {
    assert_eq!(week_start(Date { days: 1 }), Date { days: 1 });
}

#[test]
fn week_start_before_day_one() {
    // Day 0 is the Sunday before the Monday that is day 1.
    assert_eq!(week_start(Date { days: 0 }), Date { days: -6 });
    assert_eq!(week_start(Date { days: -6 }), Date { days: -6 });
    assert_eq!(week_start(Date { days: -7 }), Date { days: -13 });
}

#[test]
fn week_start_agrees_with_the_calendar_over_a_month() {
    for offset in 0..31u64 {
        let date = NaiveDate::from_ymd_opt(2023, 12, 15)
            .unwrap()
            .checked_add_days(chrono::Days::new(offset))
            .unwrap();
        let monday = date
            .checked_sub_days(chrono::Days::new(date.weekday().num_days_from_monday() as u64))
            .unwrap();
        assert_eq!(
            week_start(Date { days: date.num_days_from_ce() }),
            Date { days: monday.num_days_from_ce() }
        );
    }
}

#[test]
fn date_checked_add_days_counts_on() {
    assert_eq!(Date { days: 10 }.checked_add_days(1), Some(Date { days: 11 }));
    assert_eq!(day(2024, 4, 22).checked_add_days(7), Some(day(2024, 4, 29)));
    assert_eq!(Date { days: -3 }.checked_add_days(0), Some(Date { days: -3 }));
    assert_eq!(Date { days: i32::MAX - 1 }.checked_add_days(1), Some(Date { days: i32::MAX }));
    assert_eq!(Date { days: i32::MAX }.checked_add_days(1), None);
    assert_eq!(Date { days: 1 }.checked_add_days(u32::MAX), None);
}

#[test]
fn decimal_string_writes_digits() {
    assert_eq!(decimal_string(0), "0");
    assert_eq!(decimal_string(7), "7");
    assert_eq!(decimal_string(10), "10");
    assert_eq!(decimal_string(1234567890), "1234567890");
    assert_eq!(decimal_string(u64::MAX), "18446744073709551615");
}

#[test]
fn as_hhmm_pads_minutes_and_not_hours() {
    assert_eq!(Duration::from_secs(59).as_hhmm(), "0:00");
    assert_eq!(Duration::from_secs(9 * 60).as_hhmm(), "0:09");
    assert_eq!(Duration::from_secs(59 * 60 + 59).as_hhmm(), "0:59");
    assert_eq!(Duration::from_secs(75 * 60).as_hhmm(), "1:15");
    assert_eq!(Duration::from_secs(u64::MAX).as_hhmm(), "5124095576030431:00");
}

#[test]
fn duration_minutes_drops_the_seconds_past_the_minute() {
    assert_eq!(Duration::new(119, 999_999_999).duration_minutes(), 1);
    assert_eq!(Duration::new(120, 0).duration_minutes(), 2);
}

#[test]
fn duration_new_carries_nanoseconds() {
    let span = Duration::new(1, 2_500_000_000);
    assert_eq!(span.as_secs(), 3);
    assert_eq!(span.subsec_nanos(), 500_000_000);
}

#[test]
fn duration_checked_add_carries_and_overflows() {
    let sum = Duration::new(1, 600_000_000).checked_add(&Duration::new(2, 700_000_000)).unwrap();
    assert_eq!(sum.as_secs(), 4);
    assert_eq!(sum.subsec_nanos(), 300_000_000);
    assert!(Duration::from_secs(u64::MAX).checked_add(&Duration::from_secs(1)).is_none());
    assert!(Duration::new(u64::MAX, 999_999_999).checked_add(&Duration::new(0, 1)).is_none());
}

#[test]
fn timestamp_duration_since_subtracts() {
    let earlier = Timestamp { secs: 100, nanos: 900_000_000 };
    let later = Timestamp { secs: 103, nanos: 100_000_000 };
    let span = later.duration_since(&earlier).unwrap();
    assert_eq!(span.as_secs(), 2);
    assert_eq!(span.subsec_nanos(), 200_000_000);
    assert!(earlier.duration_since(&later).is_none());
    assert_eq!(earlier.duration_since(&earlier).unwrap().as_secs(), 0);
}

#[test]
fn timestamp_duration_since_before_the_epoch() {
    let earlier = Timestamp { secs: -10, nanos: 0 };
    let later = Timestamp { secs: 5, nanos: 1 };
    let span = later.duration_since(&earlier).unwrap();
    assert_eq!(span.as_secs(), 15);
    assert_eq!(span.subsec_nanos(), 1);
}

#[test]
fn timestamp_duration_since_over_the_whole_range() {
    let earliest = Timestamp { secs: i64::MIN, nanos: 0 };
    let latest = Timestamp { secs: i64::MAX, nanos: 0 };
    assert_eq!(latest.duration_since(&earliest).unwrap().as_secs(), u64::MAX);
    let past = Timestamp { secs: i64::MAX, nanos: 1_000_000_000 };
    assert!(past.duration_since(&earliest).is_none());
}

#[test]
fn unique_lines_keeps_first_occurrences_in_order() {
    assert_eq!(unique_lines(lines(&["b", "a", "b", "a"])), lines(&["b", "a"]));
    assert_eq!(unique_lines(lines(&["c", "a", "b", "a", "c", "d"])), lines(&["c", "a", "b", "d"]));
}

#[test]
fn unique_lines_of_nothing_is_nothing() {
    assert_eq!(unique_lines(Vec::new()), Vec::<String>::new());
}

#[test]
fn unique_lines_keeps_an_empty_line_once() {
    assert_eq!(unique_lines(lines(&["", "x", ""])), lines(&["", "x"]));
    assert_eq!(unique_lines(lines(&[""])), lines(&[""]));
}

#[test]
fn unique_lines_tells_lines_apart_by_every_character() {
    assert_eq!(
        unique_lines(lines(&["run", "Run", "run ", "run", "rün", "rün"])),
        lines(&["run", "Run", "run ", "rün"])
    );
}

#[test]
fn unique_lines_twice_is_unique_lines_once() {
    let once = unique_lines(lines(&["x", "y", "x", "z", "y", "x"]));
    assert_eq!(unique_lines(once.clone()), once);
}

#[test]
fn unique_lines_leaves_distinct_lines_alone() {
    let distinct = lines(&["zeta", "alpha", "mid", "beta"]);
    assert_eq!(unique_lines(distinct.clone()), distinct);
}

#[test]
fn unique_lines_merges_two_lists() {
    let first = lines(&["b", "a", "b"]);
    let second = lines(&["c", "a", "d", "c"]);
    let mut both = unique_lines(first);
    both.extend(unique_lines(second));
    assert_eq!(unique_lines(both), lines(&["b", "a", "c", "d"]));
}

#[test]
fn flatten_tree_lists_a_node_before_its_children() {
    let tree = MdNode::Root {
        children: vec![
            MdNode::List {
                children: vec![MdNode::ListItem {
                    children: vec![MdNode::Text(Text { value: String::from("one") })],
                }],
            },
            MdNode::Text(Text { value: String::from("two") }),
        ],
    };
    let kinds: Vec<&str> = tree
        .flatten_tree()
        .into_iter()
        .map(|node| match node {
            MdNode::Root { .. } => "root",
            MdNode::List { .. } => "list",
            MdNode::ListItem { .. } => "item",
            MdNode::Link(_) => "link",
            MdNode::Text(_) => "text",
            MdNode::Other { .. } => "other",
        })
        .collect();
    assert_eq!(kinds, ["root", "list", "item", "text", "text"]);
}

#[test]
fn links_are_found_below_other_nodes() {
    let tree = parse("some *[inner](https://example.com/a)* and [outer](https://example.com/b)")
        .unwrap();
    let targets: Vec<String> = tree.links().into_iter().map(|link| link.url.clone()).collect();
    assert_eq!(targets, ["https://example.com/a", "https://example.com/b"]);
}

#[test]
fn link_text_joins_text_children() {
    let link = Link {
        children: vec![
            MdNode::Text(Text { value: String::from("Some ") }),
            MdNode::Text(Text { value: String::from("task") }),
        ],
        url: String::from("https://example.com"),
    };
    assert_eq!(link.text(), "Some task");
}

#[test]
fn link_text_starts_afresh_after_a_child_that_is_not_text() {
    let link = Link {
        children: vec![
            MdNode::Text(Text { value: String::from("before ") }),
            MdNode::Other { children: vec![MdNode::Text(Text { value: String::from("bold") })] },
            MdNode::Text(Text { value: String::from(" after") }),
        ],
        url: String::from("https://example.com"),
    };
    assert_eq!(link.text(), " after");
}

#[test]
fn link_text_of_a_link_without_children_is_empty() {
    let link = Link { children: Vec::new(), url: String::from("https://example.com") };
    assert_eq!(link.text(), "");
}
