//! The live-preview normalizer: re-run the positional diff and the
//! normalization on every incremental edit of the listing document, and feed
//! the normalized listing back as a full-document replacement.

use vstd::prelude::*;

verus! {

use crate::diff::build_rules;
use crate::diff::build_rules_s;
use crate::normalize::normalize_rules;
use crate::normalize::normalize_s;
use crate::paths::str_eq;
use crate::rules::lemma_lines_view_push;
use crate::rules::lines_view;
use crate::rules::rules_view;
use crate::rules::Rule;
use crate::rules::RuleV;
use vstd::string::StrSliceExecFns;
use vstd::string::StringExecFns;

/// The listing line a normalized rule shows: the entry's current destination
/// path, or the bare deletion sentinel for a deleted entry.
pub open spec fn rendered_line_s(r: RuleV) -> Seq<char> {
    match r {
        RuleV::Unchanged { path } => path,
        RuleV::Renamed { from, to } => to,
        RuleV::Deleted { path } => seq!['-', ' '],
    }
}

/// The flattened listing a normalized rule list shows, slot by slot.
pub open spec fn rendered_list_s(rules: Seq<RuleV>) -> Seq<Seq<char>> {
    Seq::new(rules.len(), |i: int| rendered_line_s(rules[i]))
}

/// Flatten rules back into listing lines: unchanged entries keep their path,
/// renames show their destination, deletions show the bare sentinel.
pub fn apply_rules_to_list(rules: &[Rule]) -> (r: Vec<String>)
    ensures
        r@.len() == rules@.len(),
        lines_view(r@) == rendered_list_s(rules_view(rules@)),
{
    let ghost rv = rules_view(rules@);
    let mut r: Vec<String> = Vec::new();
    let len = rules.len();
    let mut i: usize = 0;
    while i < len
        invariant
            i <= len,
            len == rules@.len(),
            rv == rules_view(rules@),
            r@.len() == i,
            lines_view(r@) == rendered_list_s(rv.take(i as int)),
        decreases len - i,
    {
        let ghost pre = r@;
        let line = match &rules[i] {
            Rule::Unchanged { path } => path.clone(),
            Rule::Renamed { from: _, to } => to.clone(),
            Rule::Deleted { path: _ } => {
                let s = String::from_str("- ");
                proof {
                    reveal_strlit("- ");
                    assert(s@ =~= seq!['-', ' ']);
                }
                s
            },
        };
        r.push(line);
        proof {
            lemma_lines_view_push(pre, r@.last());
            assert(r@.last()@ == rendered_line_s(rv[i as int]));
            assert(rendered_list_s(rv.take(i as int)).push(rendered_line_s(rv[i as int]))
                =~= rendered_list_s(rv.take(i + 1)));
        }
        i = i + 1;
    }
    proof {
        assert(rv.take(len as int) =~= rv);
    }
    r
}

/// Whether two listings hold the same lines.
fn lists_equal(a: &Vec<String>, b: &Vec<String>) -> (r: bool)
    ensures
        r == (lines_view(a@) == lines_view(b@)),
{
    if a.len() != b.len() {
        proof {
            assert(lines_view(a@).len() != lines_view(b@).len());
        }
        return false;
    }
    let mut i: usize = 0;
    while i < a.len()
        invariant
            i <= a@.len(),
            a@.len() == b@.len(),
            forall|k: int| 0 <= k < i ==> lines_view(a@)[k] == lines_view(b@)[k],
        decreases a@.len() - i,
    {
        if !str_eq(a[i].as_str(), b[i].as_str()) {
            proof {
                assert(lines_view(a@)[i as int] != lines_view(b@)[i as int]);
            }
            return false;
        }
        i = i + 1;
    }
    proof {
        assert(lines_view(a@) =~= lines_view(b@));
    }
    true
}

/// Copy a listing line by line.
fn clone_lines(v: &Vec<String>) -> (r: Vec<String>)
    ensures
        r@.len() == v@.len(),
        lines_view(r@) == lines_view(v@),
{
    let mut r: Vec<String> = Vec::new();
    let mut i: usize = 0;
    while i < v.len()
        invariant
            i <= v@.len(),
            r@.len() == i,
            forall|k: int| 0 <= k < i ==> lines_view(r@)[k] == lines_view(v@)[k],
        decreases v@.len() - i,
    {
        let ghost pre = r@;
        r.push(v[i].clone());
        proof {
            lemma_lines_view_push(pre, r@.last());
        }
        i = i + 1;
    }
    proof {
        assert(lines_view(r@) =~= lines_view(v@));
    }
    r
}

/// Whether a normalization cycle's replacement is still in flight.
pub enum LiveState {
    Idle,
    Applying,
}

/// The listing the edited text shows once normalized: the rendered list of
/// the normalized positional diff against the tracked listing.
pub open spec fn live_result_s(current: Seq<Seq<char>>, edited: Seq<Seq<char>>) -> Seq<
    Seq<char>,
> {
    rendered_list_s(normalize_s(build_rules_s(current, edited)))
}

/// Tracks one open listing document and re-normalizes it on every edit.
///
/// A replacement pushed back to the editor echoes as one more change event;
/// while one is in flight the state is `Applying` and every incoming event is
/// dropped rather than queued, so the echo never re-enters the cycle.
pub struct LiveNormalizer {
    /// The entries the listing had when the document was opened.
    pub original: Vec<String>,
    /// The listing as last normalized.
    pub current: Vec<String>,
    /// Whether a pushed replacement is still in flight.
    pub state: LiveState,
}

impl LiveNormalizer {
    /// Open a document: both the tracked original and the current listing
    /// start as the given entries.
    pub fn new(files: Vec<String>) -> (r: Self)
        ensures
            r.state is Idle,
            lines_view(r.original@) == lines_view(files@),
            lines_view(r.current@) == lines_view(files@),
    {
        let current = clone_lines(&files);
        LiveNormalizer { original: files, current, state: LiveState::Idle }
    }

    /// One edit event carrying the edited listing. An event that arrives
    /// while a replacement is in flight is dropped, as is one whose length
    /// no longer matches the tracked listing (no positional diff exists).
    /// Otherwise the diff is normalized against the tracked listing, the
    /// result becomes the new tracked listing, and, when it differs from
    /// what the editor shows, it is returned so the caller can push it as a
    /// full-document replacement; the state then stays `Applying` until the
    /// caller reports the push complete.
    pub fn on_edit(&mut self, edited: &Vec<String>) -> (r: Option<Vec<String>>)
        ensures
            ({
                let cur = lines_view(old(self).current@);
                let ed = lines_view(edited@);
                if !(old(self).state is Idle) {
                    r is None && *final(self) == *old(self)
                } else if ed.len() != cur.len() {
                    r is None && *final(self) == *old(self)
                } else {
                    let result = live_result_s(cur, ed);
                    &&& lines_view(final(self).current@) == result
                    &&& final(self).original == old(self).original
                    &&& (result == ed ==> r is None && final(self).state is Idle)
                    &&& (result != ed ==> final(self).state is Applying && (match r {
                        Some(lines) => lines_view(lines@) == result,
                        None => false,
                    }))
                }
            }),
    {
        match self.state {
            LiveState::Applying => None,
            LiveState::Idle => {
                if edited.len() != self.current.len() {
                    proof {
                        assert(lines_view(edited@).len() != lines_view(self.current@).len());
                    }
                    return None;
                }
                let rules = build_rules(self.current.as_slice(), edited.as_slice());
                let normalized = normalize_rules(rules.as_slice());
                let new_list = apply_rules_to_list(normalized.as_slice());
                let changed = !lists_equal(&new_list, edited);
                if changed {
                    let reply = clone_lines(&new_list);
                    self.current = new_list;
                    self.state = LiveState::Applying;
                    Some(reply)
                } else {
                    self.current = new_list;
                    None
                }
            },
        }
    }

    /// The pushed replacement has reached the editor: go back to `Idle` and
    /// accept edit events again.
    pub fn replacement_applied(&mut self)
        ensures
            final(self).state is Idle,
            final(self).original == old(self).original,
            final(self).current == old(self).current,
    {
        self.state = LiveState::Idle;
    }

    /// The entries the document originally held.
    pub fn original_lines(&self) -> (r: &Vec<String>)
        ensures
            r == &self.original,
    {
        &self.original
    }

    /// Width of the widest original entry, for padding per-line annotations
    /// to a common width.
    pub fn max_entry_len(&self) -> (r: usize)
        ensures
            forall|k: int| 0 <= k < self.original@.len() ==> self.original@[k]@.len() <= r,
            r > 0 ==> exists|k: int|
                0 <= k < self.original@.len() && self.original@[k]@.len() == r,
            self.original@.len() == 0 ==> r == 0,
    {
        let mut r: usize = 0;
        let mut i: usize = 0;
        while i < self.original.len()
            invariant
                i <= self.original@.len(),
                forall|k: int| 0 <= k < i ==> self.original@[k]@.len() <= r,
                r > 0 ==> exists|k: int|
                    0 <= k < i && self.original@[k]@.len() == r,
                i == 0 ==> r == 0,
            decreases self.original@.len() - i,
        {
            let l = self.original[i].as_str().unicode_len();
            if l > r {
                r = l;
            }
            i = i + 1;
        }
        r
    }
}

} // verus!
