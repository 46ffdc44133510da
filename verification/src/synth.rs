//! Directory synthesis: add an `Added` rule for every ancestor directory a
//! rename's destination needs that no earlier rule provides.

use vstd::prelude::*;

verus! {

use crate::paths::last_slash;
use crate::paths::lemma_last_slash;
use crate::paths::lemma_trim_slashes;
use crate::paths::parent_dir;
use crate::paths::parent_dir_s;
use crate::paths::str_eq;
use crate::paths::trim_slashes;
use crate::rules::full_rules_view;
use crate::rules::lemma_full_rules_view_push;
use crate::rules::lemma_lines_view_push;
use crate::rules::lines_view;
use crate::rules::rules_view;
use crate::rules::FullRule;
use crate::rules::FullRuleV;
use crate::rules::Rule;
use crate::rules::RuleV;

/// Whether the growing set of known destination paths holds `p`.
pub open spec fn known_contains(known: Seq<Seq<char>>, p: Seq<char>) -> bool {
    exists|k: int| 0 <= k < known.len() && known[k] == p
}

/// A path's parent is strictly shorter than the path, once trimmed.
pub proof fn lemma_parent_dir_shrinks(p: Seq<char>)
    ensures
        parent_dir_s(p) matches Some(par) ==> trim_slashes(par).len() < trim_slashes(p).len(),
{
    let pt = trim_slashes(p);
    lemma_last_slash(pt);
    let pos = last_slash(pt);
    if parent_dir_s(p) is Some {
        let par = pt.take(pos).push('/');
        assert(par.last() == '/');
        assert(par.drop_last() =~= pt.take(pos));
        lemma_trim_slashes(pt.take(pos));
        assert(trim_slashes(par) == trim_slashes(pt.take(pos)));
    }
}

/// The missing-ancestor walk, bounded by a fuel that dominates the length of
/// the parent chain; the chain shrinks each step, so the fuel never runs out
/// when it starts at the trimmed length.
pub open spec fn missing_parents_rec(
    path: Seq<char>,
    known: Seq<Seq<char>>,
    fuel: nat,
) -> Seq<Seq<char>>
    decreases fuel,
{
    if fuel == 0 {
        Seq::empty()
    } else {
        match parent_dir_s(path) {
            None => Seq::empty(),
            Some(par) => missing_parents_rec(par, known, (fuel - 1) as nat) + (if known_contains(
                known,
                par,
            ) {
                Seq::empty()
            } else {
                seq![par]
            }),
        }
    }
}

/// The ancestors of `path` that `known` does not yet hold, outermost first:
/// the chain from the top of the tree down to `path`'s own parent.
pub open spec fn missing_parents_s(path: Seq<char>, known: Seq<Seq<char>>) -> Seq<Seq<char>> {
    missing_parents_rec(path, known, trim_slashes(path).len())
}

/// Any fuel at least the trimmed length gives the same walk.
pub proof fn lemma_missing_parents_fuel(path: Seq<char>, known: Seq<Seq<char>>, fuel: nat)
    requires
        fuel >= trim_slashes(path).len(),
    ensures
        missing_parents_rec(path, known, fuel) == missing_parents_s(path, known),
    decreases fuel,
{
    lemma_parent_dir_shrinks(path);
    let tl = trim_slashes(path).len();
    match parent_dir_s(path) {
        None => {},
        Some(par) => {
            let pt = trim_slashes(path);
            lemma_last_slash(pt);
            assert(tl >= 2);
            lemma_missing_parents_fuel(par, known, (fuel - 1) as nat);
            lemma_missing_parents_fuel(par, known, (tl - 1) as nat);
        },
    }
}

/// The defining equation of the missing-ancestor walk.
pub proof fn lemma_missing_parents_unfold(path: Seq<char>, known: Seq<Seq<char>>)
    ensures
        missing_parents_s(path, known) == match parent_dir_s(path) {
            None => Seq::<Seq<char>>::empty(),
            Some(par) => missing_parents_s(par, known) + (if known_contains(known, par) {
                Seq::<Seq<char>>::empty()
            } else {
                seq![par]
            }),
        },
{
    lemma_parent_dir_shrinks(path);
    let tl = trim_slashes(path).len();
    match parent_dir_s(path) {
        None => {
            if tl == 0 {
                assert(missing_parents_rec(path, known, 0) =~~= Seq::<Seq<char>>::empty());
            }
        },
        Some(par) => {
            let pt = trim_slashes(path);
            lemma_last_slash(pt);
            assert(tl >= 2);
            lemma_missing_parents_fuel(par, known, (tl - 1) as nat);
        },
    }
}

/// Whether `known` already holds the path `p`.
fn contains_line(known: &Vec<String>, p: &str) -> (r: bool)
    ensures
        r == known_contains(lines_view(known@), p@),
{
    let mut k: usize = 0;
    while k < known.len()
        invariant
            k <= known@.len(),
            forall|m: int| 0 <= m < k ==> lines_view(known@)[m] != p@,
        decreases known@.len() - k,
    {
        if str_eq(known[k].as_str(), p) {
            proof {
                assert(lines_view(known@)[k as int] == p@);
            }
            return true;
        }
        k = k + 1;
    }
    false
}

/// The ancestors of `path` that the known set does not yet provide, from the
/// outermost down to `path`'s own parent.
pub fn get_missing_parents(path: &str, known: &Vec<String>) -> (r: Vec<String>)
    ensures
        lines_view(r@) == missing_parents_s(path@, lines_view(known@)),
    decreases trim_slashes(path@).len(),
{
    proof {
        lemma_parent_dir_shrinks(path@);
        lemma_missing_parents_unfold(path@, lines_view(known@));
    }
    match parent_dir(path) {
        None => {
            let r: Vec<String> = Vec::new();
            proof {
                assert(lines_view(r@) =~= missing_parents_s(path@, lines_view(known@)));
            }
            r
        },
        Some(par) => {
            let mut r = get_missing_parents(par.as_str(), known);
            if !contains_line(known, par.as_str()) {
                r.push(par);
            }
            proof {
                assert(lines_view(r@) =~= missing_parents_s(path@, lines_view(known@)));
            }
            r
        },
    }
}

/// The `Added` rules one rule gives rise to: the missing ancestors of a
/// rename's destination, and nothing for any other rule.
pub open spec fn added_for(r: RuleV, known: Seq<Seq<char>>) -> Seq<Seq<char>> {
    match r {
        RuleV::Renamed { from, to } => missing_parents_s(to, known),
        _ => Seq::empty(),
    }
}

/// The known destination set after one rule: an unchanged entry and a rename
/// contribute their destination (the rename after its synthesized parents);
/// a deletion contributes nothing.
pub open spec fn known_after(r: RuleV, known: Seq<Seq<char>>) -> Seq<Seq<char>> {
    match r {
        RuleV::Unchanged { path } => known.push(path),
        RuleV::Renamed { from, to } => known + missing_parents_s(to, known) + seq![to],
        RuleV::Deleted { path } => known,
    }
}

/// The known destination set once the first `i` rules are processed.
pub open spec fn known_upto(rules: Seq<RuleV>, i: int) -> Seq<Seq<char>>
    decreases i,
{
    if i <= 0 {
        Seq::empty()
    } else {
        known_after(rules[i - 1], known_upto(rules, i - 1))
    }
}

/// `Added` rules for each path of a sequence, in order.
pub open spec fn added_rules(ps: Seq<Seq<char>>) -> Seq<FullRuleV> {
    Seq::new(ps.len(), |i: int| FullRuleV::Added { path: ps[i] })
}

/// The full rules one rule expands to: for a rename, the `Added` rules of
/// its missing ancestors first, then the rename itself.
pub open spec fn out_for(r: RuleV, known: Seq<Seq<char>>) -> Seq<FullRuleV> {
    match r {
        RuleV::Unchanged { path } => seq![FullRuleV::Unchanged { path }],
        RuleV::Renamed { from, to } => added_rules(missing_parents_s(to, known)).push(
            FullRuleV::Renamed { from, to },
        ),
        RuleV::Deleted { path } => seq![FullRuleV::Deleted { path }],
    }
}

/// The synthesized rule list for the first `i` rules.
pub open spec fn synth_upto(rules: Seq<RuleV>, i: int) -> Seq<FullRuleV>
    decreases i,
{
    if i <= 0 {
        Seq::empty()
    } else {
        synth_upto(rules, i - 1) + out_for(rules[i - 1], known_upto(rules, i - 1))
    }
}

/// The whole directory-synthesis pass.
pub open spec fn synth_s(rules: Seq<RuleV>) -> Seq<FullRuleV> {
    synth_upto(rules, rules.len() as int)
}

/// The destination path one synthesized rule makes exist, if any.
pub open spec fn provides(r: FullRuleV) -> Option<Seq<char>> {
    match r {
        FullRuleV::Unchanged { path } => Some(path),
        FullRuleV::Renamed { from, to } => Some(to),
        FullRuleV::Added { path } => Some(path),
        FullRuleV::Deleted { path } => None,
    }
}

/// The missing-ancestor walk yields paths that are not yet known, strictly
/// shorter than the path walked from, and pairwise distinct.
pub proof fn lemma_missing_parents_props(path: Seq<char>, known: Seq<Seq<char>>)
    ensures
        forall|ix: int|
            #![trigger missing_parents_s(path, known)[ix]]
            0 <= ix < missing_parents_s(path, known).len() ==> !known_contains(
                known,
                missing_parents_s(path, known)[ix],
            ) && trim_slashes(missing_parents_s(path, known)[ix]).len() < trim_slashes(
                path,
            ).len(),
        forall|a: int, b: int|
            #![trigger missing_parents_s(path, known)[a], missing_parents_s(path, known)[b]]
            0 <= a < b < missing_parents_s(path, known).len() ==> missing_parents_s(path, known)[a]
                != missing_parents_s(path, known)[b],
    decreases trim_slashes(path).len(),
{
    lemma_parent_dir_shrinks(path);
    lemma_missing_parents_unfold(path, known);
    let miss = missing_parents_s(path, known);
    match parent_dir_s(path) {
        None => {},
        Some(par) => {
            lemma_missing_parents_props(par, known);
            let mp = missing_parents_s(par, known);
            if known_contains(known, par) {
                assert(miss =~= mp);
            } else {
                assert(miss =~= mp.push(par));
            }
            assert forall|ix: int| 0 <= ix < miss.len() implies !known_contains(
                known,
                #[trigger] miss[ix],
            ) && trim_slashes(miss[ix]).len() < trim_slashes(path).len() by {
                if ix < mp.len() {
                    assert(miss[ix] == mp[ix]);
                } else {
                    assert(miss[ix] == par);
                }
            }
            assert forall|a: int, b: int|
                0 <= a < b < miss.len() implies #[trigger] miss[a] != #[trigger] miss[b] by {
                if b < mp.len() {
                    assert(miss[a] == mp[a] && miss[b] == mp[b]);
                } else {
                    assert(miss[b] == par);
                    assert(miss[a] == mp[a]);
                    assert(trim_slashes(mp[a]).len() < trim_slashes(par).len());
                }
            }
        },
    }
}

/// The destination path a rule newly creates, if it creates one: a rename
/// materializes its destination and an `Added` rule its directory.
pub open spec fn created_dest(r: FullRuleV) -> Option<Seq<char>> {
    match r {
        FullRuleV::Renamed { from, to } => Some(to),
        FullRuleV::Added { path } => Some(path),
        _ => None,
    }
}

/// The walk lists a parent before anything below it: each emitted path's own
/// parent is either already known or appears earlier in the walk, and the
/// walked-from path's parent is known or is the walk's last element.
pub proof fn lemma_missing_parents_chain(path: Seq<char>, known: Seq<Seq<char>>)
    ensures
        forall|ix: int|
            #![trigger missing_parents_s(path, known)[ix]]
            0 <= ix < missing_parents_s(path, known).len() ==> (parent_dir_s(
                missing_parents_s(path, known)[ix],
            ) matches Some(pp) ==> (known_contains(known, pp) || exists|iy: int|
                0 <= iy < ix && missing_parents_s(path, known)[iy] == pp)),
        parent_dir_s(path) matches Some(par) ==> (known_contains(known, par)
            || (missing_parents_s(path, known).len() > 0 && missing_parents_s(path, known).last()
            == par)),
    decreases trim_slashes(path).len(),
{
    lemma_parent_dir_shrinks(path);
    lemma_missing_parents_unfold(path, known);
    let miss = missing_parents_s(path, known);
    match parent_dir_s(path) {
        None => {},
        Some(par) => {
            lemma_missing_parents_chain(par, known);
            let mp = missing_parents_s(par, known);
            if known_contains(known, par) {
                assert(miss =~= mp);
            } else {
                assert(miss =~= mp.push(par));
            }
            assert forall|ix: int| 0 <= ix < miss.len() implies (parent_dir_s(
                #[trigger] miss[ix],
            ) matches Some(pp) ==> (known_contains(known, pp) || exists|iy: int|
                0 <= iy < ix && miss[iy] == pp)) by {
                if ix < mp.len() {
                    assert(miss[ix] == mp[ix]);
                    match parent_dir_s(mp[ix]) {
                        Some(pp) => {
                            if !known_contains(known, pp) {
                                let iy = choose|iy: int| 0 <= iy < ix && mp[iy] == pp;
                                assert(miss[iy] == pp);
                            }
                        },
                        None => {},
                    }
                } else {
                    assert(miss[ix] == par);
                    match parent_dir_s(par) {
                        Some(pp) => {
                            if !known_contains(known, pp) {
                                assert(mp.len() > 0 && mp.last() == pp);
                                assert(miss[mp.len() - 1] == pp);
                            }
                        },
                        None => {},
                    }
                }
            }
        },
    }
}

/// Synthesis minimality, carried along the walk: every destination an
/// emitted rule provides is in the known set, and no `Added` rule repeats a
/// path some earlier rule already provides.
proof fn lemma_synth_invariant(rules: Seq<RuleV>, i: int)
    requires
        0 <= i <= rules.len(),
    ensures
        forall|a: int|
            #![trigger synth_upto(rules, i)[a]]
            0 <= a < synth_upto(rules, i).len() ==> (provides(
                synth_upto(rules, i)[a],
            ) matches Some(x) ==> known_contains(known_upto(rules, i), x)),
        forall|a: int, b: int|
            #![trigger synth_upto(rules, i)[a], synth_upto(rules, i)[b]]
            0 <= a < b < synth_upto(rules, i).len() ==> (synth_upto(
                rules,
                i,
            )[b] matches FullRuleV::Added { path } ==> provides(synth_upto(rules, i)[a]) != Some(
                path,
            )),
    decreases i,
{
    if i > 0 {
        lemma_synth_invariant(rules, i - 1);
        let out0 = synth_upto(rules, i - 1);
        let known0 = known_upto(rules, i - 1);
        let out1 = synth_upto(rules, i);
        let known1 = known_upto(rules, i);
        let step = out_for(rules[i - 1], known0);
        assert(out1 == out0 + step);
        match rules[i - 1] {
            RuleV::Unchanged { path } => {
                assert(known1 == known0.push(path));
                assert forall|a: int| 0 <= a < out1.len() implies (provides(
                    #[trigger] out1[a],
                ) matches Some(x) ==> known_contains(known1, x)) by {
                    if a < out0.len() {
                        assert(out1[a] == out0[a]);
                        match provides(out0[a]) {
                            Some(x) => {
                                let k0 = choose|k0: int|
                                    0 <= k0 < known0.len() && known0[k0] == x;
                                assert(known1[k0] == x);
                            },
                            None => {},
                        }
                    } else {
                        assert(out1[a] == (FullRuleV::Unchanged { path }));
                        assert(known1[known0.len() as int] == path);
                    }
                }
                assert forall|a: int, b: int| 0 <= a < b < out1.len() implies ((
                #[trigger] out1[b]) matches FullRuleV::Added { path: q } ==> provides(
                    #[trigger] out1[a],
                ) != Some(q)) by {
                    if b < out0.len() {
                        assert(out1[a] == out0[a] && out1[b] == out0[b]);
                    } else {
                        assert(out1[b] == (FullRuleV::Unchanged { path }));
                    }
                }
            },
            RuleV::Deleted { path } => {
                assert(known1 == known0);
                assert forall|a: int| 0 <= a < out1.len() implies (provides(
                    #[trigger] out1[a],
                ) matches Some(x) ==> known_contains(known1, x)) by {
                    if a < out0.len() {
                        assert(out1[a] == out0[a]);
                    } else {
                        assert(out1[a] == (FullRuleV::Deleted { path }));
                    }
                }
                assert forall|a: int, b: int| 0 <= a < b < out1.len() implies ((
                #[trigger] out1[b]) matches FullRuleV::Added { path: q } ==> provides(
                    #[trigger] out1[a],
                ) != Some(q)) by {
                    if b < out0.len() {
                        assert(out1[a] == out0[a] && out1[b] == out0[b]);
                    } else {
                        assert(out1[b] == (FullRuleV::Deleted { path }));
                    }
                }
            },
            RuleV::Renamed { from, to } => {
                let miss = missing_parents_s(to, known0);
                lemma_missing_parents_props(to, known0);
                assert(step == added_rules(miss).push(FullRuleV::Renamed { from, to }));
                assert(known1 == known0 + miss + seq![to]);
                assert forall|k0: int| 0 <= k0 < known0.len() implies #[trigger] known1[k0]
                    == known0[k0] by {
                    assert((known0 + miss)[k0] == known0[k0]);
                }
                assert forall|ix: int| 0 <= ix < miss.len() implies #[trigger] known1[known0.len()
                    + ix] == miss[ix] by {
                    assert((known0 + miss)[known0.len() + ix] == miss[ix]);
                }
                assert forall|a: int| 0 <= a < out1.len() implies (provides(
                    #[trigger] out1[a],
                ) matches Some(x) ==> known_contains(known1, x)) by {
                    if a < out0.len() {
                        assert(out1[a] == out0[a]);
                        match provides(out0[a]) {
                            Some(x) => {
                                let k0 = choose|k0: int|
                                    0 <= k0 < known0.len() && known0[k0] == x;
                                assert(known1[k0] == x);
                            },
                            None => {},
                        }
                    } else {
                        let sa = a - out0.len();
                        assert(out1[a] == step[sa]);
                        if sa < miss.len() {
                            assert(step[sa] == added_rules(miss)[sa]);
                            assert(step[sa] == (FullRuleV::Added { path: miss[sa] }));
                            assert(known1[known0.len() + sa] == miss[sa]);
                        } else {
                            assert(step[sa] == (FullRuleV::Renamed { from, to }));
                            assert(known1[known1.len() - 1] == to);
                        }
                    }
                }
                assert forall|a: int, b: int| 0 <= a < b < out1.len() implies ((
                #[trigger] out1[b]) matches FullRuleV::Added { path: q } ==> provides(
                    #[trigger] out1[a],
                ) != Some(q)) by {
                    if b < out0.len() {
                        assert(out1[a] == out0[a] && out1[b] == out0[b]);
                    } else {
                        let sb = b - out0.len();
                        assert(out1[b] == step[sb]);
                        if sb < miss.len() {
                            assert(out1[b] == (FullRuleV::Added { path: miss[sb] }));
                            assert(!known_contains(known0, miss[sb]));
                            if a < out0.len() {
                                assert(out1[a] == out0[a]);
                                match provides(out0[a]) {
                                    Some(x) => {
                                        assert(known_contains(known0, x));
                                        if x == miss[sb] {
                                            assert(known_contains(known0, miss[sb]));
                                        }
                                    },
                                    None => {},
                                }
                            } else {
                                let sa = a - out0.len();
                                assert(out1[a] == step[sa]);
                                assert(sa < miss.len());
                                assert(out1[a] == (FullRuleV::Added { path: miss[sa] }));
                                assert(miss[sa] != miss[sb]);
                            }
                        } else {
                            assert(out1[b] == (FullRuleV::Renamed { from, to }));
                        }
                    }
                }
            },
        }
    }
}

/// Synthesis minimality: the pass emits an `Added` rule for a given path at
/// most once, and never for a path that an earlier rule's destination —
/// unchanged, renamed or already synthesized — provides.
pub proof fn lemma_synthesis_minimal(rules: Seq<RuleV>)
    ensures
        forall|a: int, b: int|
            #![trigger synth_s(rules)[a], synth_s(rules)[b]]
            0 <= a < b < synth_s(rules).len() ==> (synth_s(
                rules,
            )[b] matches FullRuleV::Added { path } ==> provides(synth_s(rules)[a]) != Some(path)),
{
    lemma_synth_invariant(rules, rules.len() as int);
}

/// Whether the rule at `b` is safe to apply at its position: if it creates
/// a destination below some parent directory, an earlier rule provides that
/// parent.
pub open spec fn parent_precedes(out: Seq<FullRuleV>, b: int) -> bool {
    match created_dest(out[b]) {
        Some(d) => match parent_dir_s(d) {
            Some(par) => exists|a: int| 0 <= a < b && provides(out[a]) == Some(par),
            None => true,
        },
        None => true,
    }
}

/// Synthesis completeness, carried along the walk: everything known is
/// provided by some emitted rule, and every created destination's parent is
/// provided by an earlier rule.
proof fn lemma_synth_ordered_invariant(rules: Seq<RuleV>, i: int)
    requires
        0 <= i <= rules.len(),
    ensures
        forall|x: Seq<char>|
            #![trigger known_contains(known_upto(rules, i), x)]
            known_contains(known_upto(rules, i), x) ==> exists|a: int|
                0 <= a < synth_upto(rules, i).len() && provides(synth_upto(rules, i)[a]) == Some(
                    x,
                ),
        forall|b: int|
            #![trigger synth_upto(rules, i)[b]]
            0 <= b < synth_upto(rules, i).len() ==> parent_precedes(synth_upto(rules, i), b),
    decreases i,
{
    if i > 0 {
        lemma_synth_ordered_invariant(rules, i - 1);
        let out0 = synth_upto(rules, i - 1);
        let known0 = known_upto(rules, i - 1);
        let out1 = synth_upto(rules, i);
        let known1 = known_upto(rules, i);
        let step = out_for(rules[i - 1], known0);
        assert(out1 == out0 + step);
        assert forall|a: int| 0 <= a < out0.len() implies #[trigger] out1[a] == out0[a] by {}
        match rules[i - 1] {
            RuleV::Unchanged { path } => {
                assert(known1 == known0.push(path));
                assert forall|x: Seq<char>| known_contains(known1, x) implies exists|a: int|
                    0 <= a < out1.len() && provides(out1[a]) == Some(x) by {
                    let k = choose|k: int| 0 <= k < known1.len() && known1[k] == x;
                    if k < known0.len() {
                        assert(known_contains(known0, x));
                        let a = choose|a: int|
                            0 <= a < out0.len() && provides(out0[a]) == Some(x);
                        assert(provides(out1[a]) == Some(x));
                    } else {
                        assert(x == path);
                        assert(provides(out1[out0.len() as int]) == Some(x));
                    }
                }
                assert forall|b: int| 0 <= b < out1.len() implies parent_precedes(out1, b) by {
                    if b < out0.len() {
                        lemma_parent_precedes_extends(out0, out1, b);
                    } else {
                        assert(out1[b] == (FullRuleV::Unchanged { path }));
                    }
                }
            },
            RuleV::Deleted { path } => {
                assert(known1 == known0);
                assert forall|x: Seq<char>| known_contains(known1, x) implies exists|a: int|
                    0 <= a < out1.len() && provides(out1[a]) == Some(x) by {
                    assert(known_contains(known0, x));
                    let a = choose|a: int| 0 <= a < out0.len() && provides(out0[a]) == Some(x);
                    assert(provides(out1[a]) == Some(x));
                }
                assert forall|b: int| 0 <= b < out1.len() implies parent_precedes(out1, b) by {
                    if b < out0.len() {
                        lemma_parent_precedes_extends(out0, out1, b);
                    } else {
                        assert(out1[b] == (FullRuleV::Deleted { path }));
                    }
                }
            },
            RuleV::Renamed { from, to } => {
                let miss = missing_parents_s(to, known0);
                lemma_missing_parents_chain(to, known0);
                assert(step == added_rules(miss).push(FullRuleV::Renamed { from, to }));
                assert(known1 == known0 + miss + seq![to]);
                assert forall|sb: int| 0 <= sb < miss.len() implies #[trigger] out1[out0.len()
                    + sb] == (FullRuleV::Added { path: miss[sb] }) by {
                    assert(step[sb] == added_rules(miss)[sb]);
                }
                assert(out1[out0.len() + miss.len() as int] == (FullRuleV::Renamed { from, to }));
                assert forall|x: Seq<char>| known_contains(known1, x) implies exists|a: int|
                    0 <= a < out1.len() && provides(out1[a]) == Some(x) by {
                    let k = choose|k: int| 0 <= k < known1.len() && known1[k] == x;
                    if k < known0.len() {
                        assert((known0 + miss)[k] == known0[k]);
                        assert(known_contains(known0, x));
                        let a = choose|a: int|
                            0 <= a < out0.len() && provides(out0[a]) == Some(x);
                        assert(provides(out1[a]) == Some(x));
                    } else if k < known0.len() + miss.len() {
                        let sb = k - known0.len();
                        assert((known0 + miss)[k] == miss[sb]);
                        assert(provides(out1[out0.len() + sb]) == Some(x));
                    } else {
                        assert(x == to);
                        assert(provides(out1[out0.len() + miss.len() as int]) == Some(x));
                    }
                }
                assert forall|b: int| 0 <= b < out1.len() implies parent_precedes(out1, b) by {
                    if b < out0.len() {
                        lemma_parent_precedes_extends(out0, out1, b);
                    } else {
                        let sb = b - out0.len();
                        if sb < miss.len() {
                            assert(out1[b] == (FullRuleV::Added { path: miss[sb] }));
                            match parent_dir_s(miss[sb]) {
                                Some(pp) => {
                                    if known_contains(known0, pp) {
                                        let a = choose|a: int|
                                            0 <= a < out0.len() && provides(out0[a]) == Some(pp);
                                        assert(provides(out1[a]) == Some(pp));
                                    } else {
                                        let iy = choose|iy: int|
                                            0 <= iy < sb && miss[iy] == pp;
                                        assert(provides(out1[out0.len() + iy]) == Some(pp));
                                    }
                                },
                                None => {},
                            }
                        } else {
                            assert(out1[b] == (FullRuleV::Renamed { from, to }));
                            match parent_dir_s(to) {
                                Some(par) => {
                                    if known_contains(known0, par) {
                                        let a = choose|a: int|
                                            0 <= a < out0.len() && provides(out0[a]) == Some(par);
                                        assert(provides(out1[a]) == Some(par));
                                    } else {
                                        assert(miss.len() > 0 && miss.last() == par);
                                        assert(provides(out1[out0.len() + miss.len() - 1])
                                            == Some(par));
                                    }
                                },
                                None => {},
                            }
                        }
                    }
                }
            },
        }
    }
}

/// Extending the rule list does not disturb an already-placed rule's parent.
proof fn lemma_parent_precedes_extends(out0: Seq<FullRuleV>, out1: Seq<FullRuleV>, b: int)
    requires
        0 <= b < out0.len() <= out1.len(),
        forall|a: int| 0 <= a < out0.len() ==> #[trigger] out1[a] == out0[a],
        parent_precedes(out0, b),
    ensures
        parent_precedes(out1, b),
{
    match created_dest(out1[b]) {
        Some(d) => {
            match parent_dir_s(d) {
                Some(par) => {
                    let a = choose|a: int| 0 <= a < b && provides(out0[a]) == Some(par);
                    assert(provides(out1[a]) == Some(par));
                },
                None => {},
            }
        },
        None => {},
    }
}

/// Synthesis completeness: in the synthesized rule list, every rule that
/// creates a destination below some parent directory comes after a rule
/// providing that parent, so applying the list in order never attempts to
/// create a path before its parent exists.
pub proof fn lemma_synthesis_ordered(rules: Seq<RuleV>)
    ensures
        forall|b: int|
            #![trigger synth_s(rules)[b]]
            0 <= b < synth_s(rules).len() ==> parent_precedes(synth_s(rules), b),
{
    lemma_synth_ordered_invariant(rules, rules.len() as int);
}

/// Walk the normalized rules left to right, keeping a growing set of known
/// destination paths, and insert an `Added` rule for each ancestor a rename's
/// destination needs that is not yet known, immediately before the rename.
pub fn add_missing_directories(rules: &[Rule]) -> (r: Vec<FullRule>)
    ensures
        full_rules_view(r@) == synth_s(rules_view(rules@)),
{
    let ghost rv = rules_view(rules@);
    let mut full_rules: Vec<FullRule> = Vec::new();
    let mut existing: Vec<String> = Vec::new();
    let len = rules.len();
    let mut i: usize = 0;
    while i < len
        invariant
            i <= len,
            len == rules@.len(),
            rv == rules_view(rules@),
            lines_view(existing@) == known_upto(rv, i as int),
            full_rules_view(full_rules@) == synth_upto(rv, i as int),
        decreases len - i,
    {
        let ghost known0 = lines_view(existing@);
        let ghost out0 = full_rules_view(full_rules@);
        match &rules[i] {
            Rule::Renamed { from, to } => {
                let missing = get_missing_parents(to.as_str(), &existing);
                let ghost missv = lines_view(missing@);
                let mlen = missing.len();
                proof {
                    assert(lines_view(existing@) =~= known0 + missv.take(0));
                    assert(full_rules_view(full_rules@) =~= out0 + added_rules(missv.take(0)));
                }
                let mut m: usize = 0;
                while m < mlen
                    invariant
                        m <= mlen,
                        mlen == missing@.len(),
                        missv == lines_view(missing@),
                        lines_view(existing@) == known0 + missv.take(m as int),
                        full_rules_view(full_rules@) == out0 + added_rules(missv.take(m as int)),
                    decreases mlen - m,
                {
                    let ghost known_pre = existing@;
                    let ghost out_pre = full_rules@;
                    full_rules.push(FullRule::Added { path: missing[m].clone() });
                    existing.push(missing[m].clone());
                    proof {
                        lemma_full_rules_view_push(out_pre, full_rules@.last());
                        lemma_lines_view_push(known_pre, existing@.last());
                        assert(full_rules@.last()@ == (FullRuleV::Added { path: missv[m as int] }));
                        assert(existing@.last()@ == missv[m as int]);
                        assert((known0 + missv.take(m as int)).push(missv[m as int]) =~= known0
                            + missv.take(m + 1));
                        assert((out0 + added_rules(missv.take(m as int))).push(
                            FullRuleV::Added { path: missv[m as int] },
                        ) =~= out0 + added_rules(missv.take(m + 1)));
                    }
                    m = m + 1;
                }
                let ghost known_mid = existing@;
                let ghost out_mid = full_rules@;
                full_rules.push(FullRule::Renamed { from: from.clone(), to: to.clone() });
                existing.push(to.clone());
                proof {
                    lemma_full_rules_view_push(out_mid, full_rules@.last());
                    lemma_lines_view_push(known_mid, existing@.last());
                    assert(missv.take(mlen as int) =~= missv);
                    assert((known0 + missv).push(to@) =~= known0 + missv + seq![to@]);
                    assert(lines_view(existing@) == known_upto(rv, i + 1));
                    assert((out0 + added_rules(missv)).push(
                        FullRuleV::Renamed { from: from@, to: to@ },
                    ) =~= out0 + added_rules(missv).push(
                        FullRuleV::Renamed { from: from@, to: to@ },
                    ));
                    assert(full_rules_view(full_rules@) == synth_upto(rv, i + 1));
                }
            },
            Rule::Unchanged { path } => {
                let ghost known_pre = existing@;
                let ghost out_pre = full_rules@;
                full_rules.push(FullRule::Unchanged { path: path.clone() });
                existing.push(path.clone());
                proof {
                    lemma_full_rules_view_push(out_pre, full_rules@.last());
                    lemma_lines_view_push(known_pre, existing@.last());
                    assert(lines_view(existing@) == known_upto(rv, i + 1));
                    assert(out0.push(FullRuleV::Unchanged { path: path@ }) =~= out0 + seq![
                        FullRuleV::Unchanged { path: path@ },
                    ]);
                    assert(full_rules_view(full_rules@) == synth_upto(rv, i + 1));
                }
            },
            Rule::Deleted { path } => {
                let ghost out_pre = full_rules@;
                full_rules.push(FullRule::Deleted { path: path.clone() });
                proof {
                    lemma_full_rules_view_push(out_pre, full_rules@.last());
                    assert(lines_view(existing@) == known_upto(rv, i + 1));
                    assert(out0.push(FullRuleV::Deleted { path: path@ }) =~= out0 + seq![
                        FullRuleV::Deleted { path: path@ },
                    ]);
                    assert(full_rules_view(full_rules@) == synth_upto(rv, i + 1));
                }
            },
        }
        i = i + 1;
    }
    full_rules
}

} // verus!
