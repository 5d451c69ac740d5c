//! Feed entries and the predicates that filters evaluate against them.

use vstd::prelude::*;

use crate::text::contains_seq;
use crate::text::str_contains;

verus! {

/// One feed entry, reduced to the fields the engine reads: an optional
/// title, an optional body, an optional summary, and its link locators.
/// Entries flow by value from a source's resolution into every filter
/// that consumes them.
#[derive(Debug, PartialEq, Eq)]
pub struct Entry {
    pub title: Option<String>,
    pub body: Option<String>,
    pub summary: Option<String>,
    pub links: Vec<String>,
}

/// The mathematical image of an [`Entry`]: every text as a sequence of
/// characters.
pub struct EntryModel {
    pub title: Option<Seq<char>>,
    pub body: Option<Seq<char>>,
    pub summary: Option<Seq<char>>,
    pub links: Seq<Seq<char>>,
}

impl View for Entry {
    type V = EntryModel;

    open spec fn view(&self) -> EntryModel {
        EntryModel {
            title: self.title.deep_view(),
            body: self.body.deep_view(),
            summary: self.summary.deep_view(),
            links: self.links.deep_view(),
        }
    }
}

impl DeepView for Entry {
    type V = EntryModel;

    open spec fn deep_view(&self) -> EntryModel {
        self.view()
    }
}

/// Clones one optional text.
fn clone_opt_string(s: &Option<String>) -> (r: Option<String>)
    ensures
        r.deep_view() == s.deep_view(),
{
    match s {
        Some(x) => Some(x.clone()),
        None => None,
    }
}

/// Clones a list of texts.
fn clone_strings(v: &Vec<String>) -> (r: Vec<String>)
    ensures
        r.deep_view() == v.deep_view(),
{
    let mut r: Vec<String> = Vec::new();
    let mut i: usize = 0;
    while i < v.len()
        invariant
            i <= v@.len(),
            r@.len() == i,
            forall|j: int| 0 <= j < i ==> r@[j]@ == v@[j]@,
        decreases v@.len() - i,
    {
        r.push(v[i].clone());
        i += 1;
    }
    assert(r.deep_view() =~~= v.deep_view());
    r
}

impl Clone for Entry {
    /// The clone carries the same texts and links as the original.
    fn clone(&self) -> (r: Self)
        ensures
            r@ == self@,
    {
        Entry {
            title: clone_opt_string(&self.title),
            body: clone_opt_string(&self.body),
            summary: clone_opt_string(&self.summary),
            links: clone_strings(&self.links),
        }
    }
}

/// A filter's matching rule.  `Contains(text)` holds of an entry iff the
/// literal substring `text` occurs in the entry's body or, failing that,
/// in its summary.
pub enum Predicate {
    Contains(String),
}

/// The mathematical image of a [`Predicate`].
pub enum PredicateModel {
    Contains(Seq<char>),
}

impl View for Predicate {
    type V = PredicateModel;

    open spec fn view(&self) -> PredicateModel {
        match self {
            Predicate::Contains(text) => PredicateModel::Contains(text@),
        }
    }
}

impl DeepView for Predicate {
    type V = PredicateModel;

    open spec fn deep_view(&self) -> PredicateModel {
        self.view()
    }
}

impl Clone for Predicate {
    /// The clone carries the same rule as the original.
    fn clone(&self) -> (r: Self)
        ensures
            r@ == self@,
    {
        match self {
            Predicate::Contains(text) => Predicate::Contains(text.clone()),
        }
    }
}

/// `text` occurs literally in the entry's body, or, failing that, in its
/// summary.  An absent body or summary is a non-match for that field.
pub open spec fn entry_matches(e: EntryModel, text: Seq<char>) -> bool {
    ||| (e.body matches Some(b) && contains_seq(b, text))
    ||| (e.summary matches Some(s) && contains_seq(s, text))
}

/// The entry satisfies the predicate's matching rule.
pub open spec fn pred_matches(e: EntryModel, p: PredicateModel) -> bool {
    match p {
        PredicateModel::Contains(text) => entry_matches(e, text),
    }
}

/// Literal, case-sensitive containment test of `text` against the entry's
/// body, falling back to its summary.  Pure and total.
pub fn entry_contains(e: &Entry, text: &str) -> (r: bool)
    ensures
        r == entry_matches(e@, text@),
{
    let mut res = false;
    if let Some(body) = &e.body {
        res = str_contains(body.as_str(), text);
    }
    if let Some(summary) = &e.summary {
        res = res || str_contains(summary.as_str(), text);
    }
    res
}

/// Evaluates a filter's predicate against one candidate entry.
pub fn entry_satisfies(e: &Entry, p: &Predicate) -> (r: bool)
    ensures
        r == pred_matches(e@, p@),
{
    match p {
        Predicate::Contains(text) => entry_contains(e, text.as_str()),
    }
}

} // verus!
