//! From synthesized rules to the display diff and to the action plan.

use vstd::prelude::*;

verus! {

use crate::rules::edit_of;
use crate::rules::edit_rules_view;
use crate::rules::full_rules_view;
use crate::rules::lemma_edit_rules_view_push;
use crate::rules::lemma_full_rules_view_push;
use crate::rules::EditRule;
use crate::rules::EditRuleV;
use crate::rules::FullRule;
use crate::rules::FullRuleV;

/// The display view of a rule list: everything but the unchanged entries.
pub open spec fn filter_s(rules: Seq<FullRuleV>) -> Seq<FullRuleV>
    decreases rules.len(),
{
    if rules.len() == 0 {
        Seq::empty()
    } else {
        filter_s(rules.drop_last()) + (if rules.last() is Unchanged {
            Seq::empty()
        } else {
            seq![rules.last()]
        })
    }
}

/// Drop the unchanged rules for display: a human reviewing the diff does not
/// need to see unmoved entries. The result is advisory only; the apply path
/// always works from the unfiltered list.
pub fn filter_full_rules(rules: &[FullRule]) -> (r: Vec<FullRule>)
    ensures
        full_rules_view(r@) == filter_s(full_rules_view(rules@)),
{
    let ghost fv = full_rules_view(rules@);
    let mut r: Vec<FullRule> = Vec::new();
    let len = rules.len();
    let mut i: usize = 0;
    while i < len
        invariant
            i <= len,
            len == rules@.len(),
            fv == full_rules_view(rules@),
            full_rules_view(r@) == filter_s(fv.take(i as int)),
        decreases len - i,
    {
        proof {
            assert(fv.take(i + 1).drop_last() =~= fv.take(i as int));
            assert(fv.take(i + 1).last() == fv[i as int]);
        }
        let keep = match &rules[i] {
            FullRule::Unchanged { .. } => false,
            _ => true,
        };
        if keep {
            let ghost pre = r@;
            r.push(rules[i].clone());
            proof {
                lemma_full_rules_view_push(pre, r@.last());
                assert(filter_s(fv.take(i as int)).push(fv[i as int]) =~= filter_s(
                    fv.take(i as int),
                ) + seq![fv[i as int]]);
            }
        } else {
            proof {
                assert(filter_s(fv.take(i as int)) + Seq::<FullRuleV>::empty() =~= filter_s(
                    fv.take(i as int),
                ));
            }
        }
        i = i + 1;
    }
    proof {
        assert(fv.take(len as int) =~= fv);
    }
    r
}

/// The actions of a rule list, in order: one per rule that demands one.
pub open spec fn edits_s(rules: Seq<FullRuleV>) -> Seq<EditRuleV>
    decreases rules.len(),
{
    if rules.len() == 0 {
        Seq::empty()
    } else {
        edits_s(rules.drop_last()) + (match edit_of(rules.last()) {
            Some(e) => seq![e],
            None => Seq::empty(),
        })
    }
}

/// Convert the unfiltered rules into the actions the applier runs: unchanged
/// entries and renames are materialized, synthesized directories created,
/// deletions dropped (their absence from the staging root is the action).
/// Order is preserved, so parents still precede their children.
pub fn create_edit_rules(rules: &[FullRule]) -> (r: Vec<EditRule>)
    ensures
        edit_rules_view(r@) == edits_s(full_rules_view(rules@)),
{
    let ghost fv = full_rules_view(rules@);
    let mut r: Vec<EditRule> = Vec::new();
    let len = rules.len();
    let mut i: usize = 0;
    while i < len
        invariant
            i <= len,
            len == rules@.len(),
            fv == full_rules_view(rules@),
            edit_rules_view(r@) == edits_s(fv.take(i as int)),
        decreases len - i,
    {
        proof {
            assert(fv.take(i + 1).drop_last() =~= fv.take(i as int));
            assert(fv.take(i + 1).last() == fv[i as int]);
        }
        match rules[i].to_edit_rule() {
            Some(e) => {
                let ghost pre = r@;
                r.push(e);
                proof {
                    lemma_edit_rules_view_push(pre, r@.last());
                    assert(edits_s(fv.take(i as int)).push(r@.last()@) =~= edits_s(
                        fv.take(i as int),
                    ) + seq![r@.last()@]);
                }
            },
            None => {
                proof {
                    assert(edits_s(fv.take(i as int)) + Seq::<EditRuleV>::empty() =~= edits_s(
                        fv.take(i as int),
                    ));
                }
            },
        }
        i = i + 1;
    }
    proof {
        assert(fv.take(len as int) =~= fv);
    }
    r
}

} // verus!
