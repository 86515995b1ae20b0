//! Helpers shared by extraction and reporting: weeks, durations as hours and
//! minutes, walking a syntax tree, link labels, lines without repetitions.

use crate::lines::{
    is_head, lemma_heads_by_number, lemma_ordered_by_text, line_views, numbered_view,
    sort_by_number, sort_by_text, texts_of,
};
use crate::mdast::{flatten, flatten_all, nodes_view, Link, LinkView, MdNode, MdNodeView, Text};
use crate::time::{Date, Duration};
use crate::unique::unique;
use vstd::prelude::*;
use vstd::string::StringExecFns;

verus! {

/// How many days `date` lies past the Monday of its week.
pub open spec fn days_from_monday(date: Date) -> int {
    (date@ - 1) % 7
}

/// The Monday of the week that `date` lies in.
pub fn week_start(date: Date) -> (monday: Date)
    requires
        date@ - 6 >= i32::MIN,
    ensures
        monday@ == date@ - days_from_monday(date),
        days_from_monday(monday) == 0,
        monday@ <= date@ < monday@ + 7,
{
    // 2_147_483_653 is a multiple of 7 that lifts every `i32` above zero.
    let lifted: i64 = date.days as i64 - 1 + 2_147_483_653;
    let past_monday: i64 = lifted % 7;
    Date { days: (date.days as i64 - past_monday) as i32 }
}

/// The character of a decimal digit.
pub open spec fn digit(d: nat) -> char {
    if d == 0 {
        '0'
    } else if d == 1 {
        '1'
    } else if d == 2 {
        '2'
    } else if d == 3 {
        '3'
    } else if d == 4 {
        '4'
    } else if d == 5 {
        '5'
    } else if d == 6 {
        '6'
    } else if d == 7 {
        '7'
    } else if d == 8 {
        '8'
    } else {
        '9'
    }
}

/// `n` in decimal digits, without leading zeros.
pub open spec fn decimal(n: nat) -> Seq<char>
    decreases n,
{
    if n < 10 {
        seq![digit(n)]
    } else {
        decimal(n / 10).push(digit(n % 10))
    }
}

/// `n` in decimal digits, at least two of them.
pub open spec fn two_digits(n: nat) -> Seq<char> {
    if n < 10 {
        seq!['0'] + decimal(n)
    } else {
        decimal(n)
    }
}

/// A count of minutes as hours and minutes: the hours in decimal, a colon,
/// and the minutes past the hour in two digits.
pub open spec fn hhmm(minutes: nat) -> Seq<char> {
    decimal(minutes / 60) + seq![':'] + two_digits(minutes % 60)
}

fn digit_str(d: u64) -> (text: &'static str)
    requires
        d < 10,
    ensures
        text@ == seq![digit(d as nat)],
{
    proof {
        reveal_strlit("0");
        reveal_strlit("1");
        reveal_strlit("2");
        reveal_strlit("3");
        reveal_strlit("4");
        reveal_strlit("5");
        reveal_strlit("6");
        reveal_strlit("7");
        reveal_strlit("8");
        reveal_strlit("9");
    }
    let text = if d == 0 {
        "0"
    } else if d == 1 {
        "1"
    } else if d == 2 {
        "2"
    } else if d == 3 {
        "3"
    } else if d == 4 {
        "4"
    } else if d == 5 {
        "5"
    } else if d == 6 {
        "6"
    } else if d == 7 {
        "7"
    } else if d == 8 {
        "8"
    } else {
        "9"
    };
    assert(text@ =~= seq![digit(d as nat)]);
    text
}

/// Writes `n` in decimal digits.
pub fn decimal_string(n: u64) -> (text: String)
    ensures
        text@ == decimal(n as nat),
    decreases n,
{
    if n < 10 {
        String::from_str(digit_str(n))
    } else {
        let mut text = decimal_string(n / 10);
        text.append(digit_str(n % 10));
        assert(decimal((n / 10) as nat) + seq![digit((n % 10) as nat)] == decimal(n as nat));
        text
    }
}

/// Spans of time shown as hours and minutes.
pub trait DurationFormatting {
    /// The whole minutes of the span.
    spec fn minutes(&self) -> nat;

    /// The whole minutes of the span.
    fn duration_minutes(&self) -> (minutes: u64)
        ensures
            minutes == self.minutes(),
    ;

    /// The span as `h:mm`: whole hours, then the minutes past the hour.
    fn as_hhmm(&self) -> (text: String)
        ensures
            text@ == hhmm(self.minutes()),
    {
        let minutes_total = self.duration_minutes();
        let hours = minutes_total / 60;
        let minutes = minutes_total % 60;
        proof {
            reveal_strlit(":");
            reveal_strlit("0");
            assert(":"@ =~= seq![':']);
            assert("0"@ =~= seq!['0']);
        }
        let mut text = decimal_string(hours);
        text.append(":");
        if minutes < 10 {
            text.append("0");
        }
        text.append(decimal_string(minutes).as_str());
        assert(text@ =~= hhmm(minutes_total as nat));
        text
    }
}

impl DurationFormatting for Duration {
    open spec fn minutes(&self) -> nat {
        self@ / 60_000_000_000
    }

    fn duration_minutes(&self) -> (minutes: u64) {
        self.as_secs() / 60
    }
}

/// The views of borrowed nodes, element by element.
pub open spec fn node_views(nodes: Seq<&MdNode>) -> Seq<MdNodeView> {
    nodes.map_values(|node: &MdNode| node@)
}

/// The views of borrowed links, element by element.
pub open spec fn link_views(links: Seq<&Link>) -> Seq<LinkView> {
    links.map_values(|link: &Link| link@)
}

/// The values of borrowed text nodes, element by element.
pub open spec fn text_views(texts: Seq<&Text>) -> Seq<Seq<char>> {
    texts.map_values(|text: &Text| text@)
}

/// The links among `nodes`, in their order.
pub open spec fn links_in(nodes: Seq<MdNodeView>) -> Seq<LinkView>
    decreases nodes.len(),
{
    if nodes.len() == 0 {
        Seq::empty()
    } else {
        let before = links_in(nodes.drop_last());
        match nodes.last() {
            MdNodeView::Link(link) => before.push(link),
            _ => before,
        }
    }
}

/// The values of the text nodes among `nodes`, in their order.
pub open spec fn texts_in(nodes: Seq<MdNodeView>) -> Seq<Seq<char>>
    decreases nodes.len(),
{
    if nodes.len() == 0 {
        Seq::empty()
    } else {
        let before = texts_in(nodes.drop_last());
        match nodes.last() {
            MdNodeView::Text(value) => before.push(value),
            _ => before,
        }
    }
}

/// The label that a link's children spell: the values of its text children
/// joined in order, starting afresh after every child that is not text.
pub open spec fn label_of(children: Seq<MdNodeView>) -> Seq<char>
    decreases children.len(),
{
    if children.len() == 0 {
        Seq::empty()
    } else {
        match children.last() {
            MdNodeView::Text(value) => label_of(children.drop_last()) + value,
            _ => Seq::empty(),
        }
    }
}

/// Walking a syntax tree as a flat list.
pub trait MarkdownProcessing {
    /// The nodes of the tree, each before its children, children in order.
    spec fn flattened(&self) -> Seq<MdNodeView>;

    /// Every node of the tree in pre-order.
    fn flatten_tree(&self) -> (nodes: Vec<&MdNode>)
        ensures
            node_views(nodes@) == self.flattened(),
    ;

    /// The links of the tree in pre-order.
    fn links(&self) -> (links: Vec<&Link>)
        ensures
            link_views(links@) == links_in(self.flattened()),
    {
        let nodes = self.flatten_tree();
        let mut links: Vec<&Link> = Vec::new();
        let mut i: usize = 0;
        while i < nodes.len()
            invariant
                i <= nodes.len(),
                link_views(links@) == links_in(node_views(nodes@).take(i as int)),
            decreases nodes.len() - i,
        {
            let node: &MdNode = nodes[i];
            proof {
                let seen = node_views(nodes@).take(i + 1);
                assert(seen.drop_last() == node_views(nodes@).take(i as int));
                assert(seen.last() == node@);
            }
            let ghost found = links@;
            match node {
                MdNode::Link(link) => {
                    links.push(link);
                    assert(link_views(links@) == link_views(found).push(link@));
                },
                _ => {},
            }
            i += 1;
        }
        proof {
            assert(node_views(nodes@).take(nodes.len() as int) == node_views(nodes@));
        }
        links
    }

    /// The text nodes of the tree in pre-order.
    fn texts(&self) -> (texts: Vec<&Text>)
        ensures
            text_views(texts@) == texts_in(self.flattened()),
    {
        let nodes = self.flatten_tree();
        let mut texts: Vec<&Text> = Vec::new();
        let mut i: usize = 0;
        while i < nodes.len()
            invariant
                i <= nodes.len(),
                text_views(texts@) == texts_in(node_views(nodes@).take(i as int)),
            decreases nodes.len() - i,
        {
            let node: &MdNode = nodes[i];
            proof {
                let seen = node_views(nodes@).take(i + 1);
                assert(seen.drop_last() == node_views(nodes@).take(i as int));
                assert(seen.last() == node@);
            }
            let ghost found = texts@;
            match node {
                MdNode::Text(text) => {
                    texts.push(text);
                    assert(text_views(texts@) == text_views(found).push(text@));
                },
                _ => {},
            }
            i += 1;
        }
        proof {
            assert(node_views(nodes@).take(nodes.len() as int) == node_views(nodes@));
        }
        texts
    }
}

impl MarkdownProcessing for MdNode {
    open spec fn flattened(&self) -> Seq<MdNodeView> {
        flatten(self@)
    }

    fn flatten_tree(&self) -> (nodes: Vec<&MdNode>)
        decreases self,
    {
        let mut nodes: Vec<&MdNode> = Vec::new();
        nodes.push(self);
        let children: &Vec<MdNode> = match self {
            MdNode::Root { children } => children,
            MdNode::List { children } => children,
            MdNode::ListItem { children } => children,
            MdNode::Link(link) => &link.children,
            MdNode::Text(_) => { return nodes; },
            MdNode::Other { children } => children,
        };
        assert(node_views(nodes@) == seq![self@]);
        assert(flatten(self@) == seq![self@] + flatten_all(nodes_view(children@)));
        let mut i: usize = 0;
        while i < children.len()
            invariant
                i <= children.len(),
                forall|k: int| 0 <= k < children.len() ==> decreases_to!(self => children[k]),
                node_views(nodes@) == seq![self@] + flatten_all(nodes_view(children@).take(i as int)),
            decreases children.len() - i,
        {
            let mut below = children[i].flatten_tree();
            proof {
                let seen = nodes_view(children@).take(i + 1);
                assert(seen.drop_last() == nodes_view(children@).take(i as int));
                assert(seen.last() == children[i as int]@);
                assert(node_views(nodes@ + below@) == node_views(nodes@) + node_views(below@));
            }
            nodes.append(&mut below);
            i += 1;
        }
        proof {
            assert(nodes_view(children@).take(children.len() as int) == nodes_view(children@));
        }
        nodes
    }
}

/// The text that a link shows.
pub trait LinkText {
    /// The label as a sequence of characters.
    spec fn label(&self) -> Seq<char>;

    /// The label as a string.
    fn text(&self) -> (text: String)
        ensures
            text@ == self.label(),
    ;
}

impl LinkText for Link {
    open spec fn label(&self) -> Seq<char> {
        label_of(self@.children)
    }

    fn text(&self) -> (text: String) {
        let mut text = String::new();
        let mut i: usize = 0;
        while i < self.children.len()
            invariant
                i <= self.children.len(),
                text@ == label_of(nodes_view(self.children@).take(i as int)),
            decreases self.children.len() - i,
        {
            proof {
                let seen = nodes_view(self.children@).take(i + 1);
                assert(seen.drop_last() == nodes_view(self.children@).take(i as int));
                assert(seen.last() == self.children[i as int]@);
            }
            match &self.children[i] {
                MdNode::Text(part) => {
                    text.append(part.value.as_str());
                },
                _ => {
                    text = String::new();
                },
            }
            i += 1;
        }
        proof {
            assert(nodes_view(self.children@).take(self.children.len() as int) == nodes_view(
                self.children@,
            ));
        }
        text
    }
}

/// Drops repeated lines: of each distinct line the first occurrence stays, and
/// the lines that stay keep their order.
///
/// The lines are numbered and sorted by text, so that equal lines stand side
/// by side; of each run the head is kept; the heads are then sorted back by
/// their numbers.
pub fn unique_lines(lines: Vec<String>) -> (kept: Vec<String>)
    ensures
        line_views(kept@) == unique(line_views(lines@)),
{
    let ghost given = line_views(lines@);
    let mut by_text: Vec<(usize, String)> = Vec::new();
    let mut i: usize = 0;
    while i < lines.len()
        invariant
            i <= lines.len(),
            by_text.len() == i,
            given == line_views(lines@),
            forall|k: int|
                0 <= k < i ==> #[trigger] numbered_view(by_text@)[k] == (k, given[k]),
        decreases lines.len() - i,
    {
        let ghost numbered = numbered_view(by_text@);
        by_text.push((i, lines[i].clone()));
        assert(numbered_view(by_text@) == numbered.push((i as int, given[i as int])));
        i += 1;
    }
    let ghost numbered = numbered_view(by_text@);
    sort_by_text(&mut by_text);
    let ghost sorted = numbered_view(by_text@);
    proof {
        lemma_ordered_by_text(given, numbered, sorted);
    }

    let mut unique: Vec<(usize, String)> = Vec::new();
    let ghost mut heads: Seq<int> = Seq::empty();
    let mut k: usize = 0;
    while k < by_text.len()
        invariant
            k <= by_text.len(),
            sorted == numbered_view(by_text@),
            heads.len() == unique.len(),
            forall|m: int|
                0 <= m < heads.len() ==> 0 <= #[trigger] heads[m] < k && is_head(sorted, heads[m])
                    && numbered_view(unique@)[m] == sorted[heads[m]],
            forall|a: int, b: int|
                0 <= a < b < heads.len() ==> #[trigger] heads[a] < #[trigger] heads[b],
            forall|p: int| 0 <= p < k && #[trigger] is_head(sorted, p) ==> heads.contains(p),
        decreases by_text.len() - k,
    {
        let starts_run = if k == 0 {
            true
        } else {
            !(by_text[k].1 == by_text[k - 1].1)
        };
        assert(starts_run == is_head(sorted, k as int));
        if starts_run {
            let ghost before = heads;
            unique.push((by_text[k].0, by_text[k].1.clone()));
            proof {
                heads = heads.push(k as int);
                assert forall|p: int| 0 <= p < k + 1 && #[trigger] is_head(sorted, p) implies heads.contains(
                    p,
                ) by {
                    if p < k {
                        let m = choose|m: int| 0 <= m < before.len() && before[m] == p;
                        assert(heads[m] == p);
                    } else {
                        assert(heads[before.len() as int] == p);
                    }
                }
            }
        }
        k += 1;
    }
    let ghost picked = numbered_view(unique@);
    sort_by_number(&mut unique);
    let ghost ordered = numbered_view(unique@);
    proof {
        lemma_heads_by_number(given, sorted, heads, picked, ordered);
    }

    let mut kept: Vec<String> = Vec::new();
    let mut m: usize = 0;
    while m < unique.len()
        invariant
            m <= unique.len(),
            kept.len() == m,
            ordered == numbered_view(unique@),
            forall|j: int| 0 <= j < m ==> #[trigger] kept@[j]@ == ordered[j].1,
        decreases unique.len() - m,
    {
        kept.push(unique[m].1.clone());
        m += 1;
    }
    assert(line_views(kept@) =~= texts_of(ordered));
    kept
}

} // verus!
