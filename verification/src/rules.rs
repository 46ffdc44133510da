//! The rule datatypes: what one listing slot tells us about one entry.
//!
//! A `Rule` relates one original entry to its edited counterpart, before any
//! cross-entry propagation. A `FullRule` adds the `Added` variant for
//! directories that must be synthesized. An `EditRule` is a rule that still
//! requires a filesystem action once deletions are dropped.

use vstd::prelude::*;

verus! {

use crate::paths::count_slashes;
use crate::paths::depth;
use vstd::string::StrSliceExecFns;
use vstd::string::StringExecFns;

/// Relationship between one original entry and its edited counterpart.
#[derive(Debug, PartialEq, Eq)]
pub enum Rule {
    Unchanged { path: String },
    Renamed { from: String, to: String },
    Deleted { path: String },
}

/// Mathematical value of a `Rule`: the same shape over character sequences.
pub enum RuleV {
    Unchanged { path: Seq<char> },
    Renamed { from: Seq<char>, to: Seq<char> },
    Deleted { path: Seq<char> },
}

impl View for Rule {
    type V = RuleV;

    open spec fn view(&self) -> RuleV {
        match self {
            Rule::Unchanged { path } => RuleV::Unchanged { path: path@ },
            Rule::Renamed { from, to } => RuleV::Renamed { from: from@, to: to@ },
            Rule::Deleted { path } => RuleV::Deleted { path: path@ },
        }
    }
}

impl Clone for Rule {
    fn clone(&self) -> (r: Self)
        ensures
            r == *self,
    {
        match self {
            Rule::Unchanged { path } => Rule::Unchanged { path: path.clone() },
            Rule::Renamed { from, to } => Rule::Renamed { from: from.clone(), to: to.clone() },
            Rule::Deleted { path } => Rule::Deleted { path: path.clone() },
        }
    }
}

/// A rule after directory synthesis; `Added` marks a directory that must be
/// created because a destination newly needs it as an ancestor.
#[derive(Debug, PartialEq, Eq)]
pub enum FullRule {
    Unchanged { path: String },
    Renamed { from: String, to: String },
    Deleted { path: String },
    Added { path: String },
}

/// Mathematical value of a `FullRule`.
pub enum FullRuleV {
    Unchanged { path: Seq<char> },
    Renamed { from: Seq<char>, to: Seq<char> },
    Deleted { path: Seq<char> },
    Added { path: Seq<char> },
}

impl View for FullRule {
    type V = FullRuleV;

    open spec fn view(&self) -> FullRuleV {
        match self {
            FullRule::Unchanged { path } => FullRuleV::Unchanged { path: path@ },
            FullRule::Renamed { from, to } => FullRuleV::Renamed { from: from@, to: to@ },
            FullRule::Deleted { path } => FullRuleV::Deleted { path: path@ },
            FullRule::Added { path } => FullRuleV::Added { path: path@ },
        }
    }
}

impl Clone for FullRule {
    fn clone(&self) -> (r: Self)
        ensures
            r == *self,
    {
        match self {
            FullRule::Unchanged { path } => FullRule::Unchanged { path: path.clone() },
            FullRule::Renamed { from, to } => FullRule::Renamed {
                from: from.clone(),
                to: to.clone(),
            },
            FullRule::Deleted { path } => FullRule::Deleted { path: path.clone() },
            FullRule::Added { path } => FullRule::Added { path: path.clone() },
        }
    }
}

/// A rule that demands a filesystem action when the plan is executed into a
/// fresh staging root; deletions carry none and have no variant here.
#[derive(Debug, PartialEq, Eq)]
pub enum EditRule {
    Unchanged { path: String },
    Renamed { from: String, to: String },
    Added { path: String },
}

/// Mathematical value of an `EditRule`.
pub enum EditRuleV {
    Unchanged { path: Seq<char> },
    Renamed { from: Seq<char>, to: Seq<char> },
    Added { path: Seq<char> },
}

impl View for EditRule {
    type V = EditRuleV;

    open spec fn view(&self) -> EditRuleV {
        match self {
            EditRule::Unchanged { path } => EditRuleV::Unchanged { path: path@ },
            EditRule::Renamed { from, to } => EditRuleV::Renamed { from: from@, to: to@ },
            EditRule::Added { path } => EditRuleV::Added { path: path@ },
        }
    }
}

impl Clone for EditRule {
    fn clone(&self) -> (r: Self)
        ensures
            r == *self,
    {
        match self {
            EditRule::Unchanged { path } => EditRule::Unchanged { path: path.clone() },
            EditRule::Renamed { from, to } => EditRule::Renamed {
                from: from.clone(),
                to: to.clone(),
            },
            EditRule::Added { path } => EditRule::Added { path: path.clone() },
        }
    }
}

/// The path a rule speaks about on the original side.
pub open spec fn rv_src(r: RuleV) -> Seq<char> {
    match r {
        RuleV::Unchanged { path } => path,
        RuleV::Renamed { from, to } => from,
        RuleV::Deleted { path } => path,
    }
}

/// Views of a sequence of rules.
pub open spec fn rules_view(s: Seq<Rule>) -> Seq<RuleV> {
    Seq::new(s.len(), |i: int| s[i]@)
}

/// Views of a sequence of full rules.
pub open spec fn full_rules_view(s: Seq<FullRule>) -> Seq<FullRuleV> {
    Seq::new(s.len(), |i: int| s[i]@)
}

/// Views of a sequence of edit rules.
pub open spec fn edit_rules_view(s: Seq<EditRule>) -> Seq<EditRuleV> {
    Seq::new(s.len(), |i: int| s[i]@)
}

/// Views of a sequence of listing lines.
pub open spec fn lines_view(s: Seq<String>) -> Seq<Seq<char>> {
    Seq::new(s.len(), |i: int| s[i]@)
}

/// Appending a full rule appends its view.
pub proof fn lemma_full_rules_view_push(v: Seq<FullRule>, r: FullRule)
    ensures
        full_rules_view(v.push(r)) == full_rules_view(v).push(r@),
{
    assert(full_rules_view(v.push(r)) =~= full_rules_view(v).push(r@));
}

/// Appending an edit rule appends its view.
pub proof fn lemma_edit_rules_view_push(v: Seq<EditRule>, e: EditRule)
    ensures
        edit_rules_view(v.push(e)) == edit_rules_view(v).push(e@),
{
    assert(edit_rules_view(v.push(e)) =~= edit_rules_view(v).push(e@));
}

/// Appending a line appends its view.
pub proof fn lemma_lines_view_push(v: Seq<String>, s: String)
    ensures
        lines_view(v.push(s)) == lines_view(v).push(s@),
{
    assert(lines_view(v.push(s)) =~= lines_view(v).push(s@));
}

/// Depth of the path a rule speaks about, used to order the rename pass.
pub fn rule_depth(rule: &Rule) -> (n: usize)
    ensures
        n == count_slashes(rv_src(rule@)),
{
    match rule {
        Rule::Unchanged { path } => depth(path.as_str()),
        Rule::Renamed { from, to: _ } => depth(from.as_str()),
        Rule::Deleted { path } => depth(path.as_str()),
    }
}

/// The `FullRule` carrying the same content as a `Rule`.
pub open spec fn full_of(r: RuleV) -> FullRuleV {
    match r {
        RuleV::Unchanged { path } => FullRuleV::Unchanged { path },
        RuleV::Renamed { from, to } => FullRuleV::Renamed { from, to },
        RuleV::Deleted { path } => FullRuleV::Deleted { path },
    }
}

impl Rule {
    /// Carry a diff rule over into the synthesized-rule stage unchanged.
    pub fn to_full_rule(&self) -> (r: FullRule)
        ensures
            r@ == full_of(self@),
    {
        match self {
            Rule::Unchanged { path } => FullRule::Unchanged { path: path.clone() },
            Rule::Renamed { from, to } => FullRule::Renamed {
                from: from.clone(),
                to: to.clone(),
            },
            Rule::Deleted { path } => FullRule::Deleted { path: path.clone() },
        }
    }
}

/// The filesystem action a full rule demands, if it demands one.
pub open spec fn edit_of(r: FullRuleV) -> Option<EditRuleV> {
    match r {
        FullRuleV::Unchanged { path } => Some(EditRuleV::Unchanged { path }),
        FullRuleV::Renamed { from, to } => Some(EditRuleV::Renamed { from, to }),
        FullRuleV::Deleted { path } => None,
        FullRuleV::Added { path } => Some(EditRuleV::Added { path }),
    }
}

/// One line of the human-facing diff: `!` unchanged, `~` rename, `-` delete,
/// `+` directory creation.
pub open spec fn render_s(r: FullRuleV) -> Seq<char> {
    match r {
        FullRuleV::Unchanged { path } => seq!['!', ' '] + path,
        FullRuleV::Renamed { from, to } => seq!['~', ' '] + from + seq![' ', '-', '>', ' '] + to,
        FullRuleV::Deleted { path } => seq!['-', ' '] + path,
        FullRuleV::Added { path } => seq!['+', ' '] + path,
    }
}

impl FullRule {
    /// The filesystem action this rule demands; `Deleted` demands none.
    pub fn to_edit_rule(&self) -> (r: Option<EditRule>)
        ensures
            match r {
                Some(e) => edit_of(self@) == Some(e@),
                None => edit_of(self@) is None,
            },
    {
        match self {
            FullRule::Unchanged { path } => Some(EditRule::Unchanged { path: path.clone() }),
            FullRule::Renamed { from, to } => Some(
                EditRule::Renamed { from: from.clone(), to: to.clone() },
            ),
            FullRule::Deleted { path: _ } => None,
            FullRule::Added { path } => Some(EditRule::Added { path: path.clone() }),
        }
    }

    /// Render the rule as its one-line symbolic diff.
    pub fn render(&self) -> (r: String)
        ensures
            r@ == render_s(self@),
    {
        match self {
            FullRule::Unchanged { path } => {
                let mut r = String::from_str("! ");
                r.append(path.as_str());
                proof {
                    reveal_strlit("! ");
                    assert(r@ =~= render_s(self@));
                }
                r
            }
            FullRule::Renamed { from, to } => {
                let mut r = String::from_str("~ ");
                r.append(from.as_str());
                r.append(" -> ");
                r.append(to.as_str());
                proof {
                    reveal_strlit("~ ");
                    reveal_strlit(" -> ");
                    assert(r@ =~= render_s(self@));
                }
                r
            }
            FullRule::Deleted { path } => {
                let mut r = String::from_str("- ");
                r.append(path.as_str());
                proof {
                    reveal_strlit("- ");
                    assert(r@ =~= render_s(self@));
                }
                r
            }
            FullRule::Added { path } => {
                let mut r = String::from_str("+ ");
                r.append(path.as_str());
                proof {
                    reveal_strlit("+ ");
                    assert(r@ =~= render_s(self@));
                }
                r
            }
        }
    }
}

} // verus!
