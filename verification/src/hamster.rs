//! Activity facts as the time tracker records them.

use crate::time::{Duration, Timestamp};
use vstd::prelude::*;
use vstd::string::StringExecFns;

verus! {

/// One tracked activity.
pub struct HamsterFact {
    pub id: i64,
    pub start_time: Timestamp,
    /// Absent while the activity is still running.
    pub end_time: Option<Timestamp>,
    /// Markdown: may hold a link to the task and lists of comments.
    pub description: String,
    pub activity: String,
    pub category: String,
}

/// The mathematical value of a [`HamsterFact`]; instants in nanoseconds since
/// the Unix epoch.
pub struct HamsterFactView {
    pub id: i64,
    pub start_time: int,
    pub end_time: Option<int>,
    pub description: Seq<char>,
    pub activity: Seq<char>,
    pub category: Seq<char>,
}

impl View for HamsterFact {
    type V = HamsterFactView;

    open spec fn view(&self) -> HamsterFactView {
        HamsterFactView {
            id: self.id,
            start_time: self.start_time@,
            end_time: match self.end_time {
                Some(end) => Some(end@),
                None => None,
            },
            description: self.description@,
            activity: self.activity@,
            category: self.category@,
        }
    }
}

/// The views of a list of facts, element by element.
pub open spec fn fact_views(facts: Seq<HamsterFact>) -> Seq<HamsterFactView> {
    facts.map_values(|fact: HamsterFact| fact@)
}

/// How long a fact has lasted at the instant `at`, in nanoseconds: up to its
/// end where it has one, up to `at` where it is still running.
pub open spec fn elapsed(fact: HamsterFactView, at: int) -> int {
    match fact.end_time {
        Some(end) => end - fact.start_time,
        None => at - fact.start_time,
    }
}

/// Whether [`elapsed`] is a span that a [`Duration`] holds.
pub open spec fn measurable(fact: HamsterFactView, at: int) -> bool {
    0 <= elapsed(fact, at) && elapsed(fact, at) / 1_000_000_000 <= u64::MAX
}

/// The facts of `facts` whose category is `category`, in their order.
pub open spec fn in_category(facts: Seq<HamsterFactView>, category: Seq<char>) -> Seq<
    HamsterFactView,
>
    decreases facts.len(),
{
    if facts.len() == 0 {
        Seq::empty()
    } else {
        let before = in_category(facts.drop_last(), category);
        if facts.last().category == category {
            before.push(facts.last())
        } else {
            before
        }
    }
}

/// Which database file to open: the one asked for; without one, the file at
/// its usual place in the user's home; and without either, none.
pub fn database_path(db_path: Option<String>, usual_path: Option<String>) -> (path: Result<
    String,
    String,
>)
    ensures
        match (db_path, usual_path) {
            (Some(asked), _) => path == Ok::<String, String>(asked),
            (None, Some(usual)) => path == Ok::<String, String>(usual),
            (None, None) => path matches Err(message) && message@
                == "Hamster database path wasn't supplied, $HOME is not set - I give up"@,
        },
{
    match db_path {
        Some(asked) => Ok(asked),
        None => match usual_path {
            Some(usual) => Ok(usual),
            None => Err(
                String::from_str(
                    "Hamster database path wasn't supplied, $HOME is not set - I give up",
                ),
            ),
        },
    }
}

impl HamsterFact {
    /// How long the fact has lasted at the instant `at`: a running fact is
    /// measured up to `at`, anew at every call. `None` where the fact would
    /// have ended before it started, or lasted longer than a [`Duration`]
    /// holds.
    pub fn duration(&self, at: Timestamp) -> (span: Option<Duration>)
        ensures
            match span {
                Some(span) => measurable(self@, at@) && span@ == elapsed(self@, at@),
                None => !measurable(self@, at@),
            },
    {
        match self.end_time {
            Some(end) => end.duration_since(&self.start_time),
            None => at.duration_since(&self.start_time),
        }
    }
}

/// Keeps the facts of one category; without a category, keeps all.
pub fn filter_by_category(facts: Vec<HamsterFact>, category: Option<String>) -> (kept: Vec<
    HamsterFact,
>)
    ensures
        fact_views(kept@) == match category {
            Some(category) => in_category(fact_views(facts@), category@),
            None => fact_views(facts@),
        },
{
    match category {
        None => facts,
        Some(category) => {
            let mut facts = facts;
            let ghost all = fact_views(facts@);
            let mut kept: Vec<HamsterFact> = Vec::new();
            let mut rest: Vec<HamsterFact> = Vec::new();
            // Facts are taken from the end, so `rest` holds them back to front.
            while facts.len() > 0
                invariant
                    facts.len() <= all.len(),
                    fact_views(facts@) == all.take(facts.len() as int),
                    fact_views(rest@).reverse() == in_category(
                        all.skip(facts.len() as int),
                        category@,
                    ),
                decreases facts.len(),
            {
                let ghost n = facts.len() as int;
                let ghost before = fact_views(rest@);
                let ghost ahead = facts@;
                let fact = facts.pop().unwrap();
                proof {
                    assert(fact_views(ahead)[n - 1] == fact@);
                    assert(fact@ == all[n - 1]);
                    assert(all.skip(n - 1).first() == fact@);
                    assert(fact_views(facts@) == all.take(n - 1));
                    lemma_in_category_front(all.skip(n - 1), category@);
                    assert(all.skip(n - 1).drop_first() == all.skip(n));
                }
                if fact.category == category {
                    rest.push(fact);
                    assert(fact_views(rest@) == before.push(fact@));
                    assert(before.push(fact@).reverse() == seq![fact@] + before.reverse());
                }
            }
            assert(all.skip(0) == all);
            while rest.len() > 0
                invariant
                    fact_views(kept@) + fact_views(rest@).reverse() == in_category(all, category@),
                decreases rest.len(),
            {
                let ghost turned = fact_views(rest@).reverse();
                let ghost before = fact_views(kept@);
                let ghost behind = rest@;
                let fact = rest.pop().unwrap();
                kept.push(fact);
                proof {
                    assert(fact_views(behind)[behind.len() - 1] == fact@);
                    assert(fact_views(rest@) == fact_views(behind).drop_last());
                    assert(fact_views(kept@) == before.push(fact@));
                    assert(turned == seq![fact@] + fact_views(rest@).reverse());
                    assert(before.push(fact@) + fact_views(rest@).reverse() == before + turned);
                }
            }
            assert(fact_views(rest@).reverse() == Seq::<HamsterFactView>::empty());
            assert(fact_views(kept@) + Seq::<HamsterFactView>::empty() == fact_views(kept@));
            kept
        },
    }
}

/// Filtering reads the same from the front as from the back.
pub proof fn lemma_in_category_front(facts: Seq<HamsterFactView>, category: Seq<char>)
    requires
        facts.len() > 0,
    ensures
        in_category(facts, category) == if facts.first().category == category {
            seq![facts.first()] + in_category(facts.drop_first(), category)
        } else {
            in_category(facts.drop_first(), category)
        },
    decreases facts.len(),
{
    if facts.len() == 1 {
        assert(facts.drop_last() == Seq::<HamsterFactView>::empty());
        assert(facts.drop_first() == Seq::<HamsterFactView>::empty());
        assert(in_category(facts.drop_last(), category) == Seq::<HamsterFactView>::empty());
        assert(Seq::<HamsterFactView>::empty().push(facts.last()) == seq![facts.first()]
            + Seq::<HamsterFactView>::empty());
    } else {
        lemma_in_category_front(facts.drop_last(), category);
        assert(facts.drop_last().drop_first() == facts.drop_first().drop_last());
        assert(facts.drop_last().first() == facts.first());
        assert(facts.drop_first().last() == facts.last());
        let rest = in_category(facts.drop_first().drop_last(), category);
        assert((seq![facts.first()] + rest).push(facts.last()) == seq![facts.first()] + rest.push(
            facts.last(),
        ));
    }
}

} // verus!
