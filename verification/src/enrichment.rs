//! What a fact's description says: the task it belongs to and its comments.

use crate::hamster::HamsterFact;
use crate::lines::line_views;
use crate::mdast::{
    flatten, markdown_tree, nodes_view, parse, Link, LinkView, MdNode, MdNodeView, ParseFailure,
};
use crate::utils::{label_of, link_views, links_in, text_views, texts_in, LinkText, MarkdownProcessing};
use vstd::prelude::*;

verus! {

/// The task that a fact refers to, as its description links to it.
pub struct TaskLink {
    pub link_title: String,
    pub href: String,
    pub task_id: String,
}

/// The mathematical value of a [`TaskLink`].
pub struct TaskLinkView {
    pub link_title: Seq<char>,
    pub href: Seq<char>,
    pub task_id: Seq<char>,
}

impl View for TaskLink {
    type V = TaskLinkView;

    open spec fn view(&self) -> TaskLinkView {
        TaskLinkView { link_title: self.link_title@, href: self.href@, task_id: self.task_id@ }
    }
}

/// Why a regular expression was turned down.
#[verifier::external_type_specification]
#[verifier::external_body]
pub struct ExRegexError(regex::Error);

/// What the `regex` crate finds for a pattern in a text: `None` where
/// `regex::Regex::new` turns the pattern down; else what the group named
/// `group` holds in the leftmost match that `regex::Regex::captures` finds in
/// `haystack`, `Some(None)` where nothing matches or the match has no such
/// group.
pub uninterp spec fn regex_capture(pattern: Seq<char>, group: Seq<char>, haystack: Seq<char>) -> Option<Option<Seq<char>>>;

/// Compiles `pattern` with `regex::Regex::new`, searches `haystack` with
/// `regex::Regex::captures` and reads the group `group` of the match with
/// `regex::Captures::name`. Matching is a function of the three texts alone:
/// what comes back is [`regex_capture`] of them.
#[verifier::external_body]
fn capture_group(pattern: &str, group: &str, haystack: &str) -> (found: Result<
    Option<String>,
    regex::Error,
>)
    ensures
        match found {
            Ok(Some(text)) => regex_capture(pattern@, group@, haystack@) == Some(Some(text@)),
            Ok(None) => regex_capture(pattern@, group@, haystack@) == Some(None::<Seq<char>>),
            Err(_) => regex_capture(pattern@, group@, haystack@) is None,
        },
{
    let regex = regex::Regex::new(pattern)?;
    let captures = regex.captures(haystack);
    Ok(captures.and_then(|found| found.name(group)).map(|part| part.as_str().to_string()))
}

/// The task id that a link target names: the run of digits that follows a
/// slash and is followed by `/f`, as the pattern `\/(?<task_id>\d+)\/f`
/// finds it. A target of another shape names no task.
pub open spec fn task_id_in(href: Seq<char>) -> Option<Seq<char>> {
    match regex_capture("\\/(?<task_id>\\d+)\\/f"@, "task_id"@, href) {
        Some(found) => found,
        None => None,
    }
}

/// Finds the task id in a link target.
pub fn resolve(href: &str) -> (task_id: Option<String>)
    ensures
        match task_id {
            Some(id) => task_id_in(href@) == Some(id@),
            None => task_id_in(href@) is None,
        },
{
    match capture_group("\\/(?<task_id>\\d+)\\/f", "task_id", href) {
        Ok(found) => found,
        Err(_) => None,
    }
}

/// The first link of a tree in pre-order, if it has one.
pub open spec fn first_link(tree: MdNodeView) -> Option<LinkView> {
    let links = links_in(flatten(tree));
    if links.len() == 0 {
        None
    } else {
        Some(links[0])
    }
}

/// The task that a link refers to, given the task id found in its target.
pub open spec fn task_of(link: LinkView, task_id: Option<Seq<char>>) -> Option<TaskLinkView> {
    match task_id {
        Some(id) => Some(
            TaskLinkView { link_title: label_of(link.children), href: link.url, task_id: id },
        ),
        None => None,
    }
}

/// The task that a description refers to: that of its first link, where the
/// link's target names a task.
pub open spec fn task_in(tree: MdNodeView) -> Option<TaskLinkView> {
    match first_link(tree) {
        Some(link) => task_of(link, task_id_in(link.url)),
        None => None,
    }
}

/// The texts below list items: every text node that has a list item above it,
/// in pre-order.
pub open spec fn item_texts(node: MdNodeView) -> Seq<Seq<char>>
    decreases node, 0int,
{
    match node {
        MdNodeView::ListItem { children } => texts_in(flatten(node)),
        MdNodeView::Text(_) => Seq::empty(),
        MdNodeView::Root { children } => item_texts_all(children),
        MdNodeView::List { children } => item_texts_all(children),
        MdNodeView::Link(link) => item_texts_all(link.children),
        MdNodeView::Other { children } => item_texts_all(children),
    }
}

/// The [`item_texts`] of `nodes`, one after the other.
pub open spec fn item_texts_all(nodes: Seq<MdNodeView>) -> Seq<Seq<char>>
    decreases nodes, 1int,
{
    if nodes.len() == 0 {
        Seq::empty()
    } else {
        item_texts_all(nodes.drop_last()) + item_texts(nodes.last())
    }
}

/// The comments of a fact: the texts of its description's list items, or the
/// name of the activity alone where the description lists nothing.
pub open spec fn comments_of(tree: MdNodeView, activity: Seq<char>) -> Seq<Seq<char>> {
    if item_texts(tree).len() == 0 {
        seq![activity]
    } else {
        item_texts(tree)
    }
}

/// Builds the task reference of a link from the task id found in its target.
pub fn task_link(link: &Link, task_id: Option<String>) -> (task: Option<TaskLink>)
    ensures
        match task {
            Some(task) => task_of(link@, option_text(task_id)) == Some(task@),
            None => task_of(link@, option_text(task_id)) is None,
        },
{
    match task_id {
        Some(task_id) => Some(TaskLink { link_title: link.text(), href: link.url.clone(), task_id }),
        None => None,
    }
}

/// The text of a string that may be absent.
pub open spec fn option_text(text: Option<String>) -> Option<Seq<char>> {
    match text {
        Some(text) => Some(text@),
        None => None,
    }
}

/// A description read as markdown.
pub struct ParsedDescription {
    pub tree: MdNode,
}

impl View for ParsedDescription {
    type V = MdNodeView;

    open spec fn view(&self) -> MdNodeView {
        self.tree@
    }
}

/// Reads a description as markdown.
pub fn extract(description: &str) -> (parsed: Result<ParsedDescription, ParseFailure>)
    ensures
        match parsed {
            Ok(parsed) => markdown_tree(description@) == Some(parsed@),
            Err(_) => markdown_tree(description@) is None,
        },
{
    match parse(description) {
        Ok(tree) => Ok(ParsedDescription { tree }),
        Err(failure) => Err(failure),
    }
}

impl ParsedDescription {
    /// The label and the target of the first link of the description.
    pub fn first_link(&self) -> (found: Option<(String, String)>)
        ensures
            match found {
                Some((title, href)) => first_link(self@) matches Some(link) && title@ == label_of(
                    link.children,
                ) && href@ == link.url,
                None => first_link(self@) is None,
            },
    {
        let links = self.tree.links();
        if links.len() == 0 {
            None
        } else {
            let link: &Link = links[0];
            assert(link_views(links@)[0] == link@);
            Some((link.text(), link.url.clone()))
        }
    }

    /// The task that the description refers to.
    pub fn task(&self) -> (task: Option<TaskLink>)
        ensures
            match task {
                Some(task) => task_in(self@) == Some(task@),
                None => task_in(self@) is None,
            },
    {
        let links = self.tree.links();
        if links.len() == 0 {
            None
        } else {
            let link: &Link = links[0];
            assert(link_views(links@)[0] == link@);
            task_link(link, resolve(link.url.as_str()))
        }
    }

    /// The texts of the description's list items, in reading order.
    pub fn list_item_texts(&self) -> (texts: Vec<String>)
        ensures
            line_views(texts@) == item_texts(self@),
    {
        texts_below_items(&self.tree)
    }

    /// The comments that the description gives a fact of the activity
    /// `activity`: its list items, or the activity's name where it has none.
    pub fn comments(&self, activity: &String) -> (comments: Vec<String>)
        ensures
            line_views(comments@) == comments_of(self@, activity@),
    {
        let texts = self.list_item_texts();
        if texts.len() == 0 {
            let mut comments: Vec<String> = Vec::new();
            comments.push(activity.clone());
            assert(line_views(comments@) == seq![activity@]);
            comments
        } else {
            texts
        }
    }
}

/// Collects the texts below the list items of `node`.
pub fn texts_below_items(node: &MdNode) -> (texts: Vec<String>)
    ensures
        line_views(texts@) == item_texts(node@),
    decreases node,
{
    let mut texts: Vec<String> = Vec::new();
    let children: &Vec<MdNode> = match node {
        MdNode::ListItem { children } => {
            let found = node.texts();
            let mut i: usize = 0;
            while i < found.len()
                invariant
                    i <= found.len(),
                    line_views(texts@) == text_views(found@).take(i as int),
                decreases found.len() - i,
            {
                let ghost before = line_views(texts@);
                texts.push(found[i].value.clone());
                assert(line_views(texts@) == before.push(found[i as int]@));
                assert(text_views(found@).take(i + 1) == before.push(found[i as int]@));
                i += 1;
            }
            assert(text_views(found@).take(found.len() as int) == text_views(found@));
            return texts;
        },
        MdNode::Text(_) => {
            return texts;
        },
        MdNode::Root { children } => children,
        MdNode::List { children } => children,
        MdNode::Link(link) => &link.children,
        MdNode::Other { children } => children,
    };
    assert(item_texts(node@) == item_texts_all(nodes_view(children@)));
    let mut i: usize = 0;
    while i < children.len()
        invariant
            i <= children.len(),
            forall|k: int| 0 <= k < children.len() ==> decreases_to!(node => children[k]),
            line_views(texts@) == item_texts_all(nodes_view(children@).take(i as int)),
        decreases children.len() - i,
    {
        let mut below = texts_below_items(&children[i]);
        proof {
            let seen = nodes_view(children@).take(i + 1);
            assert(seen.drop_last() == nodes_view(children@).take(i as int));
            assert(seen.last() == children[i as int]@);
            assert(line_views(texts@ + below@) == line_views(texts@) + line_views(below@));
        }
        texts.append(&mut below);
        i += 1;
    }
    assert(nodes_view(children@).take(children.len() as int) == nodes_view(children@));
    texts
}

/// What a fact's description tells about it.
pub trait HamsterEnrichedData {
    /// The task that the fact refers to, if its description links to one.
    fn task(&self) -> Result<Option<TaskLink>, ParseFailure>;

    /// The comments of the fact.
    fn comments(&self) -> Result<Vec<String>, ParseFailure>;
}

impl HamsterEnrichedData for HamsterFact {
    fn task(&self) -> (task: Result<Option<TaskLink>, ParseFailure>)
        ensures
            match task {
                Ok(Some(task)) => markdown_tree(self.description@) matches Some(tree) && task_in(
                    tree,
                ) == Some(task@),
                Ok(None) => markdown_tree(self.description@) matches Some(tree) && task_in(tree)
                    is None,
                Err(_) => markdown_tree(self.description@) is None,
            },
    {
        match extract(self.description.as_str()) {
            Ok(parsed) => Ok(parsed.task()),
            Err(failure) => Err(failure),
        }
    }

    fn comments(&self) -> (comments: Result<Vec<String>, ParseFailure>)
        ensures
            match comments {
                Ok(comments) => markdown_tree(self.description@) matches Some(tree) && line_views(
                    comments@,
                ) == comments_of(tree, self.activity@),
                Err(_) => markdown_tree(self.description@) is None,
            },
    {
        match extract(self.description.as_str()) {
            Ok(parsed) => Ok(parsed.comments(&self.activity)),
            Err(failure) => Err(failure),
        }
    }
}

} // verus!
