//! The positional diff: pairing the original listing with the edited one.

use vstd::prelude::*;

verus! {

use crate::paths::is_deletion_line;
use crate::paths::marks_deletion;
use crate::paths::str_eq;
use crate::rules::lines_view;
use crate::rules::rules_view;
use crate::rules::Rule;
use crate::rules::RuleV;

/// The rule one slot of the positional diff yields: equal lines are
/// unchanged; a line newly starting with the deletion sentinel deletes the
/// original entry; anything else is a rename.
pub open spec fn build_rule_s(o: Seq<char>, n: Seq<char>) -> RuleV {
    if o == n {
        RuleV::Unchanged { path: o }
    } else if marks_deletion(n) && !marks_deletion(o) {
        RuleV::Deleted { path: o }
    } else {
        RuleV::Renamed { from: o, to: n }
    }
}

/// The whole positional diff, slot by slot.
pub open spec fn build_rules_s(orig: Seq<Seq<char>>, edited: Seq<Seq<char>>) -> Seq<RuleV> {
    Seq::new(orig.len(), |i: int| build_rule_s(orig[i], edited[i]))
}

/// Compare the two listings position by position. The listings must have
/// equal length: index `i` in both refers to the same slot, so the diff is
/// meaningless otherwise and callers check the lengths first.
pub fn build_rules(original: &[String], new: &[String]) -> (r: Vec<Rule>)
    requires
        original@.len() == new@.len(),
    ensures
        r@.len() == original@.len(),
        rules_view(r@) == build_rules_s(lines_view(original@), lines_view(new@)),
{
    let mut r: Vec<Rule> = Vec::new();
    let len = original.len();
    let mut i: usize = 0;
    while i < len
        invariant
            i <= len,
            len == original@.len() == new@.len(),
            r@.len() == i,
            forall|k: int|
                0 <= k < i ==> r@[k]@ == build_rule_s(original@[k]@, new@[k]@),
        decreases len - i,
    {
        let o = &original[i];
        let n = &new[i];
        let rule = if str_eq(o.as_str(), n.as_str()) {
            Rule::Unchanged { path: o.clone() }
        } else if is_deletion_line(n.as_str()) && !is_deletion_line(o.as_str()) {
            Rule::Deleted { path: o.clone() }
        } else {
            Rule::Renamed { from: o.clone(), to: n.clone() }
        };
        r.push(rule);
        i = i + 1;
    }
    proof {
        assert(rules_view(r@) =~= build_rules_s(lines_view(original@), lines_view(new@)));
    }
    r
}

} // verus!
