//! Normalization: cascade deletions onto descendants, then propagate every
//! rename's prefix into the rules that follow it, shallow renames first.

use vstd::prelude::*;

verus! {

use crate::paths::count_slashes;
use crate::paths::lemma_starts_with_trans;
use crate::paths::path_starts_with;
use crate::paths::path_starts_with_s;
use crate::paths::rewrite_path;
use crate::paths::rewrite_path_s;
use crate::paths::str_eq;
use crate::rules::rules_view;
use crate::rules::rv_src;
use crate::rules::Rule;
use crate::rules::RuleV;
use crate::rules::rule_depth;
use vstd::pervasive::VecAdditionalExecFns;

/// Some rule in `rules` deletes `p` or one of its ancestors.
pub open spec fn is_deleted_by(rules: Seq<RuleV>, p: Seq<char>) -> bool {
    exists|k: int|
        {
            &&& 0 <= k < rules.len()
            &&& (#[trigger] rules[k]) matches RuleV::Deleted { path }
            &&& path_starts_with_s(p, path)
        }
}

/// Whether some delete rule in `rules` covers the path `p`.
fn deleted_by(rules: &[Rule], p: &str) -> (r: bool)
    ensures
        r == is_deleted_by(rules_view(rules@), p@),
{
    let mut k: usize = 0;
    while k < rules.len()
        invariant
            k <= rules@.len(),
            forall|m: int|
                0 <= m < k ==> !((#[trigger] rules_view(rules@)[m]) matches RuleV::Deleted { path }
                    && path_starts_with_s(p@, path)),
        decreases rules@.len() - k,
    {
        match &rules[k] {
            Rule::Deleted { path } => {
                if path_starts_with(p, path.as_str()) {
                    proof {
                        assert(rules_view(rules@)[k as int] matches RuleV::Deleted { path: q }
                            && path_starts_with_s(p@, q));
                    }
                    return true;
                }
            },
            _ => {},
        }
        k = k + 1;
    }
    false
}

/// How the delete pass rewrites one rule: a rule whose original-side path
/// sits under a deleted path becomes a deletion of that path.
pub open spec fn apply_deletes_s(r: RuleV, rules: Seq<RuleV>) -> RuleV {
    match r {
        RuleV::Deleted { path } => RuleV::Deleted { path },
        RuleV::Unchanged { path } => if is_deleted_by(rules, path) {
            RuleV::Deleted { path }
        } else {
            RuleV::Unchanged { path }
        },
        RuleV::Renamed { from, to } => if is_deleted_by(rules, from) {
            RuleV::Deleted { path: from }
        } else {
            RuleV::Renamed { from, to }
        },
    }
}

/// The delete pass applied to every rule.
pub open spec fn stage1_s(rules: Seq<RuleV>) -> Seq<RuleV> {
    Seq::new(rules.len(), |i: int| apply_deletes_s(rules[i], rules))
}

/// Cascade the deletions recorded anywhere in `rules` onto one rule.
pub fn apply_deletes(rule: &Rule, rules: &[Rule]) -> (r: Rule)
    ensures
        r@ == apply_deletes_s(rule@, rules_view(rules@)),
{
    match rule {
        Rule::Deleted { path } => Rule::Deleted { path: path.clone() },
        Rule::Unchanged { path } => {
            if deleted_by(rules, path.as_str()) {
                Rule::Deleted { path: path.clone() }
            } else {
                Rule::Unchanged { path: path.clone() }
            }
        },
        Rule::Renamed { from, to } => {
            if deleted_by(rules, from.as_str()) {
                Rule::Deleted { path: from.clone() }
            } else {
                Rule::Renamed { from: from.clone(), to: to.clone() }
            }
        },
    }
}

/// How one rename `from -> to` rewrites one later rule: an unchanged entry
/// whose path moves becomes a rename; a rename keeps its source and only its
/// destination moves; a deletion is left alone.
pub open spec fn rewrite_rule_s(r: RuleV, f: Seq<char>, t: Seq<char>) -> RuleV {
    match r {
        RuleV::Deleted { path } => RuleV::Deleted { path },
        RuleV::Unchanged { path } => {
            let np = rewrite_path_s(path, f, t);
            if np == path {
                RuleV::Unchanged { path }
            } else {
                RuleV::Renamed { from: path, to: np }
            }
        },
        RuleV::Renamed { from, to } => RuleV::Renamed { from, to: rewrite_path_s(to, f, t) },
    }
}

/// Rewrite one rule under the rename `from -> to`.
pub fn rewrite_rule(rule: &Rule, from: &str, to: &str) -> (r: Rule)
    ensures
        r@ == rewrite_rule_s(rule@, from@, to@),
{
    match rule {
        Rule::Deleted { path } => Rule::Deleted { path: path.clone() },
        Rule::Unchanged { path } => {
            let np = rewrite_path(path.as_str(), from, to);
            if str_eq(np.as_str(), path.as_str()) {
                Rule::Unchanged { path: path.clone() }
            } else {
                Rule::Renamed { from: path.clone(), to: np }
            }
        },
        Rule::Renamed { from: f, to: t } => Rule::Renamed {
            from: f.clone(),
            to: rewrite_path(t.as_str(), from, to),
        },
    }
}

/// Depth of the rule at index `v`: the sort key of the rename pass.
pub open spec fn depth_key(rules: Seq<RuleV>, v: usize) -> nat {
    count_slashes(rv_src(rules[v as int]))
}

/// Insert index `v` after every index of `s` whose depth is no greater, so
/// that building left to right sorts stably by ascending depth.
pub open spec fn insert_by_depth(rules: Seq<RuleV>, s: Seq<usize>, v: usize) -> Seq<usize>
    decreases s.len(),
{
    if s.len() == 0 {
        seq![v]
    } else if depth_key(rules, s.last()) <= depth_key(rules, v) {
        s.push(v)
    } else {
        insert_by_depth(rules, s.drop_last(), v).push(s.last())
    }
}

/// The processing order of the first `n` rule indices: sorted by ascending
/// depth, indices of equal depth kept in positional order.
pub open spec fn order_upto(rules: Seq<RuleV>, n: nat) -> Seq<usize>
    decreases n,
{
    if n == 0 {
        Seq::empty()
    } else {
        insert_by_depth(rules, order_upto(rules, (n - 1) as nat), (n - 1) as usize)
    }
}

/// Inserting at the position the scan finds yields exactly the stable insert.
proof fn lemma_insert_by_depth_at(rules: Seq<RuleV>, s: Seq<usize>, v: usize, p: int)
    requires
        0 <= p <= s.len(),
        forall|k: int| p <= k < s.len() ==> depth_key(rules, s[k]) > depth_key(rules, v),
        p > 0 ==> depth_key(rules, s[p - 1]) <= depth_key(rules, v),
    ensures
        insert_by_depth(rules, s, v) == s.insert(p, v),
    decreases s.len(),
{
    if s.len() == 0 {
        assert(insert_by_depth(rules, s, v) =~= s.insert(p, v));
    } else if depth_key(rules, s.last()) <= depth_key(rules, v) {
        assert(p == s.len());
        assert(insert_by_depth(rules, s, v) =~= s.insert(p, v));
    } else {
        assert(p < s.len());
        lemma_insert_by_depth_at(rules, s.drop_last(), v, p);
        assert(insert_by_depth(rules, s, v) =~= s.insert(p, v));
    }
}

/// The stable insert keeps every index below the bound and adds one entry.
proof fn lemma_insert_by_depth_props(rules: Seq<RuleV>, s: Seq<usize>, v: usize, bound: usize)
    requires
        forall|m: int| 0 <= m < s.len() ==> s[m] < bound,
        v < bound,
    ensures
        insert_by_depth(rules, s, v).len() == s.len() + 1,
        forall|m: int|
            0 <= m < insert_by_depth(rules, s, v).len() ==> insert_by_depth(rules, s, v)[m]
                < bound,
    decreases s.len(),
{
    if s.len() == 0 {
    } else if depth_key(rules, s.last()) <= depth_key(rules, v) {
    } else {
        lemma_insert_by_depth_props(rules, s.drop_last(), v, bound);
    }
}

/// The full processing order lists `n` indices, all below `n`.
pub proof fn lemma_order_upto_props(rules: Seq<RuleV>, n: nat)
    requires
        n <= usize::MAX,
    ensures
        order_upto(rules, n).len() == n,
        forall|m: int| 0 <= m < n ==> order_upto(rules, n)[m] < n,
    decreases n,
{
    if n > 0 {
        let m1 = (n - 1) as nat;
        lemma_order_upto_props(rules, m1);
        let s = order_upto(rules, m1);
        assert forall|m: int| 0 <= m < s.len() implies #[trigger] s[m] < (n as usize) by {
            assert(s[m] < m1);
        }
        lemma_insert_by_depth_props(rules, s, m1 as usize, n as usize);
    }
}

/// Indices of `rules`, stably sorted by ascending depth of each rule's
/// original-side path.
fn depth_order(rules: &Vec<Rule>) -> (order: Vec<usize>)
    ensures
        order@ == order_upto(rules_view(rules@), rules@.len() as nat),
        order@.len() == rules@.len(),
        forall|k: int| 0 <= k < order@.len() ==> order@[k] < rules@.len(),
{
    let ghost rv = rules_view(rules@);
    let n = rules.len();
    let mut order: Vec<usize> = Vec::new();
    let mut v: usize = 0;
    while v < n
        invariant
            v <= n,
            n == rules@.len(),
            rv == rules_view(rules@),
            order@ == order_upto(rv, v as nat),
            order@.len() == v,
            forall|k: int| 0 <= k < order@.len() ==> order@[k] < v,
        decreases n - v,
    {
        let key = rule_depth(&rules[v]);
        let mut p = order.len();
        while p > 0 && rule_depth(&rules[order[p - 1]]) > key
            invariant
                p <= order@.len(),
                n == rules@.len(),
                rv == rules_view(rules@),
                order@.len() == v <= n,
                v < n,
                key == depth_key(rv, v),
                forall|k: int| 0 <= k < order@.len() ==> order@[k] < v,
                forall|k: int| p <= k < order@.len() ==> depth_key(rv, order@[k]) > depth_key(rv, v),
            decreases p,
        {
            p = p - 1;
        }
        proof {
            lemma_insert_by_depth_at(rv, order@, v, p as int);
        }
        order.insert(p, v);
        v = v + 1;
    }
    order
}

/// One step of the rename pass: if the rule at `i` is (by now) a rename, it
/// rewrites every rule at a later position.
pub open spec fn step_rename(list: Seq<RuleV>, i: int) -> Seq<RuleV> {
    if 0 <= i < list.len() {
        match list[i] {
            RuleV::Renamed { from, to } => Seq::new(list.len(), |j: int| if j > i {
                rewrite_rule_s(list[j], from, to)
            } else {
                list[j]
            }),
            _ => list,
        }
    } else {
        list
    }
}

/// The first `k` steps of the rename pass, taken in processing order.
pub open spec fn run_renames(list: Seq<RuleV>, order: Seq<usize>, k: int) -> Seq<RuleV>
    decreases k,
{
    if k <= 0 {
        list
    } else {
        step_rename(run_renames(list, order, k - 1), order[k - 1] as int)
    }
}

/// The whole normalization: the delete pass, then the rename pass over the
/// depth-sorted processing order.
pub open spec fn normalize_s(rules: Seq<RuleV>) -> Seq<RuleV> {
    let s1 = stage1_s(rules);
    run_renames(s1, order_upto(s1, s1.len()), s1.len() as int)
}

/// The rename pass never changes a sequence's length.
pub proof fn lemma_run_renames_len(list: Seq<RuleV>, order: Seq<usize>, k: int)
    ensures
        run_renames(list, order, k).len() == list.len(),
    decreases k,
{
    if k > 0 {
        lemma_run_renames_len(list, order, k - 1);
    }
}

/// Rewriting keeps a rule's original-side path and its deleted-ness.
proof fn lemma_rewrite_rule_src(r: RuleV, f: Seq<char>, t: Seq<char>)
    ensures
        rv_src(rewrite_rule_s(r, f, t)) == rv_src(r),
        rewrite_rule_s(r, f, t) is Deleted <==> r is Deleted,
{
}

/// The rename pass keeps every rule's original-side path and its
/// deleted-ness; in particular a deletion comes through untouched.
pub proof fn lemma_run_renames_src(list: Seq<RuleV>, order: Seq<usize>, k: int, j: int)
    requires
        0 <= j < list.len(),
    ensures
        run_renames(list, order, k).len() == list.len(),
        rv_src(run_renames(list, order, k)[j]) == rv_src(list[j]),
        run_renames(list, order, k)[j] is Deleted <==> list[j] is Deleted,
        list[j] is Deleted ==> run_renames(list, order, k)[j] == list[j],
    decreases k,
{
    lemma_run_renames_len(list, order, k);
    if k > 0 {
        lemma_run_renames_src(list, order, k - 1, j);
        let prev = run_renames(list, order, k - 1);
        let i = order[k - 1] as int;
        if 0 <= i < prev.len() && prev[i] is Renamed && j > i {
            lemma_rewrite_rule_src(prev[j], prev[i]->Renamed_from, prev[i]->Renamed_to);
        }
    }
}

/// The delete pass keeps every rule's original-side path, and marks exactly
/// the rules whose path some deletion covers.
proof fn lemma_stage1_pointwise(rules: Seq<RuleV>, j: int)
    requires
        0 <= j < rules.len(),
    ensures
        rv_src(stage1_s(rules)[j]) == rv_src(rules[j]),
        stage1_s(rules)[j] is Deleted <==> (rules[j] is Deleted || is_deleted_by(
            rules,
            rv_src(rules[j]),
        )),
        stage1_s(rules)[j] is Deleted ==> stage1_s(rules)[j] == (RuleV::Deleted {
            path: rv_src(rules[j]),
        }),
        !(stage1_s(rules)[j] is Deleted) ==> stage1_s(rules)[j] == rules[j],
{
}

/// Normalization keeps length and original-side paths, and a rule ends up
/// deleted exactly when it was deleted or a deletion covered its path.
pub proof fn lemma_normalize_pointwise(rules: Seq<RuleV>, j: int)
    requires
        0 <= j < rules.len(),
    ensures
        normalize_s(rules).len() == rules.len(),
        rv_src(normalize_s(rules)[j]) == rv_src(rules[j]),
        normalize_s(rules)[j] is Deleted <==> (rules[j] is Deleted || is_deleted_by(
            rules,
            rv_src(rules[j]),
        )),
        normalize_s(rules)[j] is Deleted ==> normalize_s(rules)[j] == (RuleV::Deleted {
            path: rv_src(rules[j]),
        }),
    decreases 0int,
{
    let s1 = stage1_s(rules);
    lemma_stage1_pointwise(rules, j);
    lemma_run_renames_src(s1, order_upto(s1, s1.len()), s1.len() as int, j);
}

/// Normalization keeps the number of rules.
pub proof fn lemma_normalize_len(rules: Seq<RuleV>)
    ensures
        normalize_s(rules).len() == rules.len(),
{
    let s1 = stage1_s(rules);
    lemma_run_renames_len(s1, order_upto(s1, s1.len()), s1.len() as int);
}

/// Normalizing changes nothing about which paths count as deleted: the
/// deletions of the output cover exactly the paths the input's deletions
/// covered.
pub proof fn lemma_deleted_by_normalize(rules: Seq<RuleV>, p: Seq<char>)
    ensures
        is_deleted_by(normalize_s(rules), p) == is_deleted_by(rules, p),
{
    let nn = normalize_s(rules);
    lemma_normalize_len(rules);
    if is_deleted_by(nn, p) {
        let k = choose|k: int|
            0 <= k < nn.len() && (#[trigger] nn[k]) is Deleted && path_starts_with_s(
                p,
                rv_src(nn[k]),
            );
        lemma_normalize_pointwise(rules, k);
        if rules[k] is Deleted {
            assert(rules[k] matches RuleV::Deleted { path } && path_starts_with_s(p, path));
        } else {
            let m = choose|m: int|
                0 <= m < rules.len() && (#[trigger] rules[m]) is Deleted && path_starts_with_s(
                    rv_src(rules[k]),
                    rv_src(rules[m]),
                );
            lemma_starts_with_trans(p, rv_src(rules[k]), rv_src(rules[m]));
            assert(rules[m] matches RuleV::Deleted { path } && path_starts_with_s(p, path));
        }
    }
    if is_deleted_by(rules, p) {
        let m = choose|m: int|
            0 <= m < rules.len() && (#[trigger] rules[m]) is Deleted && path_starts_with_s(
                p,
                rv_src(rules[m]),
            );
        lemma_normalize_pointwise(rules, m);
        assert(nn[m] matches RuleV::Deleted { path } && path_starts_with_s(p, path));
    }
}

/// The delete pass finds nothing left to do on a normalized rule list: every
/// deletion has already cascaded.
pub proof fn lemma_delete_pass_settled(rules: Seq<RuleV>)
    ensures
        stage1_s(normalize_s(rules)) == normalize_s(rules),
{
    let nn = normalize_s(rules);
    lemma_normalize_len(rules);
    assert forall|j: int| 0 <= j < nn.len() implies stage1_s(nn)[j] == nn[j] by {
        lemma_normalize_pointwise(rules, j);
        lemma_stage1_pointwise(nn, j);
        if !(nn[j] is Deleted) {
            lemma_deleted_by_normalize(rules, rv_src(nn[j]));
        }
    }
    assert(stage1_s(nn) =~= nn);
}

/// Every pairwise rewrite is a no-op: no rename can still rewrite any rule
/// after it.
pub open spec fn renames_settled(list: Seq<RuleV>) -> bool {
    forall|i: int, j: int|
        #![trigger list[i], list[j]]
        0 <= i < j < list.len() ==> (match list[i] {
            RuleV::Renamed { from, to } => rewrite_rule_s(list[j], from, to) == list[j],
            _ => true,
        })
}

/// The rename pass leaves a settled rule list untouched, whatever order it
/// visits the rules in.
proof fn lemma_run_renames_settled(list: Seq<RuleV>, order: Seq<usize>, k: int)
    requires
        renames_settled(list),
    ensures
        run_renames(list, order, k) == list,
    decreases k,
{
    if k > 0 {
        lemma_run_renames_settled(list, order, k - 1);
        let i = order[k - 1] as int;
        if 0 <= i < list.len() {
            match list[i] {
                RuleV::Renamed { from, to } => {
                    assert forall|j: int| 0 <= j < list.len() implies step_rename(list, i)[j]
                        == list[j] by {
                        if j > i {
                            assert(list[i] == list[i] && list[j] == list[j]);
                            assert(rewrite_rule_s(list[j], from, to) == list[j]);
                        }
                    }
                    assert(step_rename(list, i) =~= list);
                },
                _ => {
                    assert(step_rename(list, i) == list);
                },
            }
        } else {
            assert(step_rename(list, i) == list);
        }
    }
}

/// Idempotence: normalizing a second time changes nothing, provided the
/// first pass settled every rename — no rename can still rewrite a rule
/// after it. The depth-ordered pass establishes this whenever no rename's
/// destination moves entries back under another rename's source.
pub proof fn lemma_normalize_idempotent(rules: Seq<RuleV>)
    requires
        renames_settled(normalize_s(rules)),
    ensures
        normalize_s(normalize_s(rules)) == normalize_s(rules),
{
    let nn = normalize_s(rules);
    lemma_delete_pass_settled(rules);
    lemma_run_renames_settled(nn, order_upto(nn, nn.len()), nn.len() as int);
}

/// The rename pass leaves a rule list without renames untouched.
proof fn lemma_run_renames_no_renames(list: Seq<RuleV>, order: Seq<usize>, k: int)
    requires
        forall|i: int| 0 <= i < list.len() ==> !((#[trigger] list[i]) is Renamed),
    ensures
        run_renames(list, order, k) == list,
    decreases k,
{
    if k > 0 {
        lemma_run_renames_no_renames(list, order, k - 1);
    }
}

/// For an edit without renames — every slot kept or deleted — normalizing
/// is idempotent outright: the rename pass has nothing to do, and the
/// cascaded deletions are already stable.
pub proof fn lemma_normalize_idempotent_no_renames(rules: Seq<RuleV>)
    requires
        forall|i: int| 0 <= i < rules.len() ==> !((#[trigger] rules[i]) is Renamed),
    ensures
        normalize_s(normalize_s(rules)) == normalize_s(rules),
{
    let s1 = stage1_s(rules);
    assert forall|i: int| 0 <= i < s1.len() implies !((#[trigger] s1[i]) is Renamed) by {
        assert(s1[i] == apply_deletes_s(rules[i], rules));
    }
    lemma_run_renames_no_renames(s1, order_upto(s1, s1.len()), s1.len() as int);
    let nn = normalize_s(rules);
    assert(nn == s1);
    lemma_normalize_idempotent(rules);
}

/// Delete cascade: when some rule deletes a path, every rule whose
/// original-side path sits at or under it normalizes to a deletion of its
/// own path, whatever the edited listing showed for that entry.
pub proof fn lemma_delete_cascade(rules: Seq<RuleV>, k: int, j: int)
    requires
        0 <= k < rules.len(),
        0 <= j < rules.len(),
        rules[k] is Deleted,
        path_starts_with_s(rv_src(rules[j]), rv_src(rules[k])),
    ensures
        normalize_s(rules).len() == rules.len(),
        normalize_s(rules)[j] == (RuleV::Deleted { path: rv_src(rules[j]) }),
{
    assert(is_deleted_by(rules, rv_src(rules[j]))) by {
        assert(rules[k] matches RuleV::Deleted { path } && path_starts_with_s(
            rv_src(rules[j]),
            path,
        ));
    }
    lemma_normalize_pointwise(rules, j);
}

/// Rename cascade: a rename of a directory followed by an otherwise
/// unedited entry under it normalizes so that the entry is renamed too, its
/// destination rewritten under the new prefix.
pub proof fn lemma_rename_cascade(f: Seq<char>, t: Seq<char>, p: Seq<char>)
    requires
        path_starts_with_s(p, f),
        rewrite_path_s(p, f, t) != p,
    ensures
        normalize_s(seq![RuleV::Renamed { from: f, to: t }, RuleV::Unchanged { path: p }])
            == seq![
            RuleV::Renamed { from: f, to: t },
            RuleV::Renamed { from: p, to: rewrite_path_s(p, f, t) },
        ],
{
    let rules = seq![RuleV::Renamed { from: f, to: t }, RuleV::Unchanged { path: p }];
    let np = rewrite_path_s(p, f, t);
    let expect = seq![RuleV::Renamed { from: f, to: t }, RuleV::Renamed { from: p, to: np }];
    assert(!is_deleted_by(rules, f) && !is_deleted_by(rules, p)) by {
        assert(forall|k: int| 0 <= k < 2 ==> !(#[trigger] rules[k] is Deleted));
    }
    let s1 = stage1_s(rules);
    assert(s1 =~= rules);

    let ord = order_upto(s1, 2);
    let ord1 = order_upto(s1, 1);
    let ord0 = order_upto(s1, 0);
    assert(ord1 == insert_by_depth(s1, ord0, 0usize));
    assert(ord1 =~= seq![0usize]);
    assert(ord == insert_by_depth(s1, ord1, 1usize));

    assert(step_rename(rules, 0) =~= expect);
    assert(step_rename(expect, 1) =~= expect);
    assert(step_rename(rules, 1) =~= rules);

    assert(run_renames(s1, ord, 0) == s1);
    if depth_key(s1, 0usize) <= depth_key(s1, 1usize) {
        assert(ord =~= seq![0usize, 1usize]);
        assert(run_renames(s1, ord, 1) == step_rename(run_renames(s1, ord, 0), 0));
        assert(run_renames(s1, ord, 2) == step_rename(run_renames(s1, ord, 1), 1));
    } else {
        assert(ord1.drop_last() =~= Seq::<usize>::empty());
        assert(insert_by_depth(s1, Seq::<usize>::empty(), 1usize) =~= seq![1usize]);
        assert(ord =~= seq![1usize].push(0usize));
        assert(ord =~= seq![1usize, 0usize]);
        assert(run_renames(s1, ord, 1) == step_rename(run_renames(s1, ord, 0), 1));
        assert(run_renames(s1, ord, 2) == step_rename(run_renames(s1, ord, 1), 0));
    }
}

/// Cascade deletions, then propagate renames: every rule whose original-side
/// path sits under a deleted path becomes a deletion, and then each rename,
/// visited in ascending depth order, rewrites the destination of every rule
/// that follows it positionally.
pub fn normalize_rules(rules: &[Rule]) -> (r: Vec<Rule>)
    ensures
        r@.len() == rules@.len(),
        rules_view(r@) == normalize_s(rules_view(rules@)),
{
    let ghost rv = rules_view(rules@);
    let mut stage1: Vec<Rule> = Vec::new();
    let len = rules.len();
    let mut i: usize = 0;
    while i < len
        invariant
            i <= len,
            len == rules@.len(),
            rv == rules_view(rules@),
            stage1@.len() == i,
            forall|k: int| 0 <= k < i ==> stage1@[k]@ == apply_deletes_s(rv[k], rv),
        decreases len - i,
    {
        let s = apply_deletes(&rules[i], rules);
        stage1.push(s);
        i = i + 1;
    }
    let ghost s1v = stage1_s(rv);
    proof {
        assert(rules_view(stage1@) =~= s1v);
    }

    let order = depth_order(&stage1);

    let mut normalized = stage1;
    let mut k: usize = 0;
    while k < order.len()
        invariant
            k <= order@.len(),
            order@ == order_upto(s1v, s1v.len()),
            order@.len() == s1v.len(),
            forall|m: int| 0 <= m < order@.len() ==> order@[m] < s1v.len(),
            normalized@.len() == s1v.len(),
            rules_view(normalized@) == run_renames(s1v, order@, k as int),
        decreases order@.len() - k,
    {
        let i = order[k];
        let ghost prev = rules_view(normalized@);
        let cur = normalized[i].clone();
        match cur {
            Rule::Renamed { from, to } => {
                let mut j = i + 1;
                while j < normalized.len()
                    invariant
                        i < j <= normalized@.len(),
                        normalized@.len() == prev.len(),
                        prev[i as int] matches RuleV::Renamed { from: pf, to: pt } && pf == from@
                            && pt == to@,
                        rules_view(normalized@) == Seq::new(prev.len(), |m: int| if i < m < j {
                            rewrite_rule_s(prev[m], from@, to@)
                        } else {
                            prev[m]
                        }),
                    decreases normalized@.len() - j,
                {
                    let nr = rewrite_rule(&normalized[j], from.as_str(), to.as_str());
                    let ghost nrv = nr@;
                    let ghost before = rules_view(normalized@);
                    normalized.set(j, nr);
                    proof {
                        assert(before[j as int] == prev[j as int]);
                        assert(nrv == rewrite_rule_s(prev[j as int], from@, to@));
                        assert forall|m: int| 0 <= m < prev.len() implies #[trigger] rules_view(
                            normalized@,
                        )[m] == (if i < m < j + 1 {
                            rewrite_rule_s(prev[m], from@, to@)
                        } else {
                            prev[m]
                        }) by {
                            if m != j {
                                assert(rules_view(normalized@)[m] == before[m]);
                            }
                        }
                        assert(rules_view(normalized@) =~= Seq::new(prev.len(), |m: int| if i < m
                            < j + 1 {
                            rewrite_rule_s(prev[m], from@, to@)
                        } else {
                            prev[m]
                        }));
                    }
                    j = j + 1;
                }
                proof {
                    assert(rules_view(normalized@) =~= step_rename(prev, i as int));
                }
            },
            _ => {
                proof {
                    assert(rules_view(normalized@) =~= step_rename(prev, i as int));
                }
            },
        }
        k = k + 1;
    }
    proof {
        lemma_order_upto_props(s1v, s1v.len());
    }
    normalized
}

} // verus!
