//! Match results that borrow the line and the rule texts instead of copying
//! them, and their owned counterparts for long-term storage.
use vstd::prelude::*;
use std::borrow::Cow;
use ahash::AHashMap;
use crate::matcher::{MatchDetailView, MatchResultView, opt_captures_view};

verus! {

/// `Clone` of `std::borrow::Cow`, so that zero-copy results can be cloned.
/// Nothing is claimed of the copy.
pub assume_specification<'a, B: ?Sized + ToOwned>[ <Cow<'a, B> as Clone>::clone ](c: &Cow<'a, B>) -> Cow<'a, B>;

/// A match result that borrows the line.
#[derive(Debug, Clone)]
pub struct MatchResultZeroCopy<'a> {
    pub line: Cow<'a, str>,
    pub line_number: usize,
    pub matches: Vec<MatchDetailZeroCopy<'a>>,
}

/// A match detail that borrows the rule's texts.
#[derive(Debug, Clone)]
pub struct MatchDetailZeroCopy<'a> {
    pub app: Cow<'a, str>,
    pub child_name: Cow<'a, str>,
    pub tag: Cow<'a, str>,
    pub mean: Cow<'a, str>,
    pub level: Cow<'a, str>,
    pub regex_captures: Option<AHashMap<String, String>>,
}

/// An owned match result.
#[derive(Debug, Clone)]
pub struct MatchResultOwned {
    pub line: String,
    pub line_number: usize,
    pub matches: Vec<MatchDetailOwned>,
}

/// An owned match detail.
#[derive(Debug, Clone)]
pub struct MatchDetailOwned {
    pub app: String,
    pub child_name: String,
    pub tag: String,
    pub mean: String,
    pub level: String,
    pub regex_captures: Option<AHashMap<String, String>>,
}

impl<'a> View for MatchDetailZeroCopy<'a> {
    type V = MatchDetailView;

    open spec fn view(&self) -> MatchDetailView {
        MatchDetailView {
            app: self.app@,
            child_name: self.child_name@,
            tag: self.tag@,
            mean: self.mean@,
            level: self.level@,
            regex_captures: opt_captures_view(self.regex_captures),
        }
    }
}

pub open spec fn zc_details_view<'a>(v: Seq<MatchDetailZeroCopy<'a>>) -> Seq<MatchDetailView> {
    v.map_values(|d: MatchDetailZeroCopy<'a>| d@)
}

impl<'a> View for MatchResultZeroCopy<'a> {
    type V = MatchResultView;

    open spec fn view(&self) -> MatchResultView {
        MatchResultView {
            line: self.line@,
            line_number: self.line_number,
            matches: zc_details_view(self.matches@),
        }
    }
}

impl View for MatchDetailOwned {
    type V = MatchDetailView;

    open spec fn view(&self) -> MatchDetailView {
        MatchDetailView {
            app: self.app@,
            child_name: self.child_name@,
            tag: self.tag@,
            mean: self.mean@,
            level: self.level@,
            regex_captures: opt_captures_view(self.regex_captures),
        }
    }
}

pub open spec fn owned_details_view(v: Seq<MatchDetailOwned>) -> Seq<MatchDetailView> {
    v.map_values(|d: MatchDetailOwned| d@)
}

impl View for MatchResultOwned {
    type V = MatchResultView;

    open spec fn view(&self) -> MatchResultView {
        MatchResultView {
            line: self.line@,
            line_number: self.line_number,
            matches: owned_details_view(self.matches@),
        }
    }
}

impl<'a> MatchDetailZeroCopy<'a> {
    /// The five texts are borrowed, not copied.
    pub open spec fn borrows_texts(&self) -> bool {
        &&& self.app is Borrowed
        &&& self.child_name is Borrowed
        &&& self.tag is Borrowed
        &&& self.mean is Borrowed
        &&& self.level is Borrowed
    }
}

impl<'a> MatchResultZeroCopy<'a> {
    /// Every detail borrows its texts.
    pub open spec fn details_borrowed(&self) -> bool {
        forall|i: int| 0 <= i < self.matches@.len() ==> (#[trigger] self.matches@[i]).borrows_texts()
    }
}

/// The text of a borrowed-or-owned string, owned.
fn cow_into_string<'a>(c: Cow<'a, str>) -> (s: String)
    ensures
        s@ == c@,
{
    match c {
        Cow::Borrowed(b) => b.to_string(),
        Cow::Owned(o) => o,
    }
}

impl<'a> MatchResultZeroCopy<'a> {
    /// A result for `line` with no details yet; the line is borrowed.
    pub fn new(line: &'a str, line_number: usize) -> (r: Self)
        ensures
            r@ == (MatchResultView { line: line@, line_number, matches: Seq::empty() }),
            r.line == Cow::<'a, str>::Borrowed(line),
            r.matches@.len() == 0,
    {
        let r = MatchResultZeroCopy { line: Cow::Borrowed(line), line_number, matches: Vec::new() };
        assert(zc_details_view(r.matches@) =~= Seq::<MatchDetailView>::empty());
        r
    }

    /// Appends a detail.
    pub fn add_match(&mut self, detail: MatchDetailZeroCopy<'a>)
        ensures
            final(self)@ == (MatchResultView {
                line: old(self)@.line,
                line_number: old(self)@.line_number,
                matches: old(self)@.matches.push(detail@),
            }),
            final(self).line == old(self).line,
            final(self).matches@ == old(self).matches@.push(detail),
    {
        self.matches.push(detail);
        assert(zc_details_view(self.matches@) =~= zc_details_view(old(self).matches@).push(
            detail@,
        ));
    }

    /// The owned copy of the result, detail by detail.
    pub fn into_owned(self) -> (r: MatchResultOwned)
        ensures
            r@ == self@,
    {
        let ghost all = zc_details_view(self.matches@);
        let line = cow_into_string(self.line);
        let mut rest = self.matches;
        let mut reversed: Vec<MatchDetailOwned> = Vec::new();
        while rest.len() > 0
            invariant
                zc_details_view(rest@) == all.take(rest@.len() as int),
                rest@.len() <= all.len(),
                owned_details_view(reversed@).len() + rest@.len() == all.len(),
                forall|k: int|
                    0 <= k < reversed@.len() ==> #[trigger] owned_details_view(reversed@)[k] == all[all.len()
                        - 1 - k],
            decreases rest@.len(),
        {
            let ghost before = zc_details_view(rest@);
            let d = rest.pop().unwrap();
            proof {
                assert(before[before.len() - 1] == d@);
                assert(zc_details_view(rest@) =~= all.take(rest@.len() as int));
            }
            let o = d.into_owned();
            let ghost prev = reversed@;
            reversed.push(o);
            proof {
                assert(owned_details_view(reversed@) =~= owned_details_view(prev).push(o@));
            }
        }
        let mut matches: Vec<MatchDetailOwned> = Vec::new();
        let ghost n = reversed@.len();
        while reversed.len() > 0
            invariant
                n == all.len(),
                reversed@.len() <= n,
                forall|k: int|
                    0 <= k < reversed@.len() ==> #[trigger] owned_details_view(reversed@)[k] == all[all.len()
                        - 1 - k],
                owned_details_view(matches@) == all.take(n - reversed@.len()),
            decreases reversed@.len(),
        {
            let ghost before = owned_details_view(reversed@);
            let o = reversed.pop().unwrap();
            proof {
                assert(before[before.len() - 1] == o@);
                assert forall|k: int| 0 <= k < reversed@.len() implies #[trigger] owned_details_view(reversed@)[k] == all[all.len() - 1 - k] by {
                    assert(owned_details_view(reversed@)[k] == before[k]);
                }
            }
            let ghost prev = matches@;
            matches.push(o);
            proof {
                assert(owned_details_view(matches@) =~= owned_details_view(prev).push(o@));
                assert(owned_details_view(matches@) =~= all.take(n - reversed@.len()));
            }
        }
        assert(all.take(n as int) =~= all);
        MatchResultOwned { line, line_number: self.line_number, matches }
    }
}

impl<'a> MatchDetailZeroCopy<'a> {
    /// A detail that borrows the five texts, with no captures.
    pub fn new(app: &'a str, child_name: &'a str, tag: &'a str, mean: &'a str, level: &'a str) -> (d:
        Self)
        ensures
            d@ == (MatchDetailView {
                app: app@,
                child_name: child_name@,
                tag: tag@,
                mean: mean@,
                level: level@,
                regex_captures: None,
            }),
            d.app == Cow::<'a, str>::Borrowed(app),
            d.child_name == Cow::<'a, str>::Borrowed(child_name),
            d.tag == Cow::<'a, str>::Borrowed(tag),
            d.mean == Cow::<'a, str>::Borrowed(mean),
            d.level == Cow::<'a, str>::Borrowed(level),
    {
        MatchDetailZeroCopy {
            app: Cow::Borrowed(app),
            child_name: Cow::Borrowed(child_name),
            tag: Cow::Borrowed(tag),
            mean: Cow::Borrowed(mean),
            level: Cow::Borrowed(level),
            regex_captures: None,
        }
    }

    /// The owned copy of the detail.
    pub fn into_owned(self) -> (d: MatchDetailOwned)
        ensures
            d@ == self@,
    {
        MatchDetailOwned {
            app: cow_into_string(self.app),
            child_name: cow_into_string(self.child_name),
            tag: cow_into_string(self.tag),
            mean: cow_into_string(self.mean),
            level: cow_into_string(self.level),
            regex_captures: self.regex_captures,
        }
    }
}

} // verus!
