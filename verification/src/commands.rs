//! The computations behind the two commands: mapping changed files to
//! their owning packages, turning discovered package paths into raw
//! targets, and assembling the graph and the reverse-dependency query
//! for a changeset.

use vstd::prelude::*;

use crate::graph::{target_views, TargetGraph};
use crate::infer::protocol::{raw_names, Infer, InferError};
use crate::infer::{BuildWarning, InferRunner};
use crate::strutil::{str_eq, views_of};
use crate::types::{lemma_name_violation_iff, name_violation, valid_name, RawTarget, Target, TargetName, TargetView, ValidationError};

verus! {

/// The commands this library backs.
#[derive(Debug, Clone, Copy)]
pub enum Commands {
    Changeset,
    Graph,
}

/// Index of the last occurrence of `c` in `s`, if any.
pub open spec fn last_index_of(s: Seq<char>, c: char) -> Option<int>
    decreases s.len(),
{
    if s.len() == 0 {
        None
    } else if s.last() == c {
        Some(s.len() - 1)
    } else {
        last_index_of(s.drop_last(), c)
    }
}

/// The lexical parent of a path: everything before the last `/`, or
/// the empty path when there is no separator.
pub open spec fn parent_path(s: Seq<char>) -> Seq<char> {
    match last_index_of(s, '/') {
        Some(i) => s.take(i),
        None => Seq::empty(),
    }
}

pub proof fn lemma_last_index_of(s: Seq<char>, c: char)
    ensures
        match last_index_of(s, c) {
            Some(i) => 0 <= i < s.len() && s[i] == c && (forall|j: int|
                i < j < s.len() ==> s[j] != c),
            None => forall|j: int| 0 <= j < s.len() ==> s[j] != c,
        },
    decreases s.len(),
{
    if s.len() > 0 && s.last() != c {
        lemma_last_index_of(s.drop_last(), c);
        match last_index_of(s.drop_last(), c) {
            Some(i) => {
                assert forall|j: int| i < j < s.len() implies s[j] != c by {
                    if j < s.len() - 1 {
                        assert(s.drop_last()[j] == s[j]);
                    }
                }
            },
            None => {
                assert forall|j: int| 0 <= j < s.len() implies s[j] != c by {
                    if j < s.len() - 1 {
                        assert(s.drop_last()[j] == s[j]);
                    }
                }
            },
        }
    }
}

/// A path's lexical parent is strictly shorter.
pub proof fn lemma_parent_path_shorter(s: Seq<char>)
    requires
        s.len() > 0,
    ensures
        parent_path(s).len() < s.len(),
{
    lemma_last_index_of(s, '/');
}

/// The owning package of a path: the path itself when it is a known
/// package directory, else the nearest ancestor that is one.
pub open spec fn owning_pkg(p: Seq<char>, pkgs: Seq<Seq<char>>) -> Option<Seq<char>>
    decreases p.len(),
    via owning_pkg_decreases
{
    if pkgs.contains(p) {
        Some(p)
    } else if p.len() == 0 {
        None
    } else {
        owning_pkg(parent_path(p), pkgs)
    }
}

#[via_fn]
proof fn owning_pkg_decreases(p: Seq<char>, pkgs: Seq<Seq<char>>) {
    if !pkgs.contains(p) && p.len() > 0 {
        lemma_parent_path_shorter(p);
    }
}

/// Whether one of the strings in `v` reads `s`.
fn contains_str(v: &Vec<String>, s: &str) -> (r: bool)
    ensures
        r == views_of(v@).contains(s@),
{
    let mut k: usize = 0;
    while k < v.len()
        invariant
            k <= v@.len(),
            forall|j: int| 0 <= j < k ==> views_of(v@)[j] != s@,
        decreases v@.len() - k,
    {
        if str_eq(v[k].as_str(), s) {
            proof {
                assert(views_of(v@)[k as int] == s@);
            }
            return true;
        }
        k += 1;
    }
    proof {
        if views_of(v@).contains(s@) {
            let j = choose|j: int| 0 <= j < views_of(v@).len() && views_of(v@)[j] == s@;
        }
    }
    false
}

/// Cuts a path down to its lexical parent.
fn parent_of(p: &str) -> (r: String)
    requires
        p@.len() > 0,
    ensures
        r@ == parent_path(p@),
        r@.len() < p@.len(),
{
    proof {
        lemma_last_index_of(p@, '/');
    }
    let len = p.unicode_len();
    let mut i: usize = len;
    while i > 0
        invariant
            i <= len,
            len == p@.len(),
            forall|j: int| i <= j < len ==> p@[j] != '/',
        decreases i,
    {
        if p.get_char(i - 1) == '/' {
            proof {
                lemma_last_index_unique(p@, '/', i - 1);
            }
            return p.substring_char(0, i - 1).to_owned();
        }
        i -= 1;
    }
    let empty = String::new();
    proof {
        assert(last_index_of(p@, '/') is None) by {
            if last_index_of(p@, '/') is Some {
            }
        }
        assert(empty@ =~= parent_path(p@));
    }
    empty
}

proof fn lemma_last_index_unique(s: Seq<char>, c: char, k: int)
    requires
        0 <= k < s.len(),
        s[k] == c,
        forall|j: int| k < j < s.len() ==> s[j] != c,
    ensures
        last_index_of(s, c) == Some(k),
    decreases s.len(),
{
    if k < s.len() - 1 {
        assert forall|j: int| k < j < s.drop_last().len() implies s.drop_last()[j] != c by {
            assert(s.drop_last()[j] == s[j]);
        }
        lemma_last_index_unique(s.drop_last(), c, k);
    }
}

/// The package directory owning the file at `p`: `p`'s closest
/// ancestor, itself included, among the discovered packages.
pub fn which_pkg(p: &String, pkgs: &Vec<String>) -> (r: Option<String>)
    ensures
        match r {
            Some(found) => owning_pkg(p@, views_of(pkgs@)) == Some(found@),
            None => owning_pkg(p@, views_of(pkgs@)) is None,
        },
{
    let mut cur = p.clone();
    loop
        invariant
            owning_pkg(p@, views_of(pkgs@)) == owning_pkg(cur@, views_of(pkgs@)),
        decreases cur@.len(),
    {
        if contains_str(pkgs, cur.as_str()) {
            return Some(cur);
        }
        if cur.as_str().is_empty() {
            return None;
        }
        cur = parent_of(cur.as_str());
    }
}

/// Turns discovered package paths into raw targets; fails on the first
/// path that is no valid canonical name.
pub fn to_raw_targets(pkgs: &Vec<String>) -> (r: Result<Vec<RawTarget>, ValidationError>)
    ensures
        match r {
            Ok(ts) => raw_names(ts@) == views_of(pkgs@),
            Err(e) => exists|k: int|
                0 <= k < pkgs@.len() && name_violation(#[trigger] pkgs@[k]@) == Some(e),
        },
{
    let mut targets: Vec<RawTarget> = Vec::new();
    let mut k: usize = 0;
    proof {
        assert(raw_names(targets@) =~= views_of(pkgs@).take(0));
    }
    while k < pkgs.len()
        invariant
            k <= pkgs@.len(),
            targets@.len() == k,
            raw_names(targets@) == views_of(pkgs@).take(k as int),
        decreases pkgs@.len() - k,
    {
        let ghost pre = targets@;
        match RawTarget::from_string_name(pkgs[k].clone()) {
            Ok(t) => {
                targets.push(t);
            },
            Err(e) => {
                return Err(e);
            },
        }
        proof {
            assert forall|x: int| 0 <= x < k + 1 implies raw_names(targets@)[x] == views_of(
                pkgs@,
            ).take(k + 1)[x] by {
                if x < k {
                    assert(targets@[x] == pre[x]);
                    assert(raw_names(pre)[x] == views_of(pkgs@).take(k as int)[x]);
                }
            }
            assert(raw_names(targets@) =~= views_of(pkgs@).take(k + 1));
        }
        k += 1;
    }
    proof {
        assert(views_of(pkgs@).take(pkgs@.len() as int) =~= views_of(pkgs@));
    }
    Ok(targets)
}

/// The names of a sequence of target names.
pub open spec fn name_views(v: Seq<TargetName>) -> Seq<Seq<char>> {
    v.map_values(|t: TargetName| t@)
}

/// What mapping each changed file to a package yields: the owning
/// packages, each once, in first-appearance order, and the files that
/// no package owns. A package path that is no valid canonical name is
/// a fatal error.
pub open spec fn search_model(files: Seq<Seq<char>>, pkgs: Seq<Seq<char>>) -> Result<
    (Seq<Seq<char>>, Seq<Seq<char>>),
    ValidationError,
>
    decreases files.len(),
{
    if files.len() == 0 {
        Ok((Seq::empty(), Seq::empty()))
    } else {
        match search_model(files.drop_last(), pkgs) {
            Err(e) => Err(e),
            Ok((names, misses)) => match owning_pkg(files.last(), pkgs) {
                None => Ok((names, misses.push(files.last()))),
                Some(p) => match name_violation(p) {
                    Some(e) => Err(e),
                    None => if names.contains(p) {
                        Ok((names, misses))
                    } else {
                        Ok((names.push(p), misses))
                    },
                },
            },
        }
    }
}

/// Once a prefix of the file walk has failed, the whole walk fails the
/// same way.
proof fn lemma_search_model_err(files: Seq<Seq<char>>, pkgs: Seq<Seq<char>>, k: int)
    requires
        0 <= k <= files.len(),
        search_model(files.take(k), pkgs) is Err,
    ensures
        search_model(files, pkgs) == search_model(files.take(k), pkgs),
    decreases files.len() - k,
{
    if k < files.len() {
        assert(files.take(k + 1).drop_last() =~= files.take(k));
        lemma_search_model_err(files, pkgs, k + 1);
    } else {
        assert(files.take(k) =~= files);
    }
}

/// Whether one of the target names reads `s`.
fn contains_name(v: &Vec<TargetName>, s: &str) -> (r: bool)
    ensures
        r == name_views(v@).contains(s@),
{
    let mut k: usize = 0;
    while k < v.len()
        invariant
            k <= v@.len(),
            forall|j: int| 0 <= j < k ==> name_views(v@)[j] != s@,
        decreases v@.len() - k,
    {
        if str_eq(v[k].to_string_ref().as_str(), s) {
            proof {
                assert(name_views(v@)[k as int] == s@);
            }
            return true;
        }
        k += 1;
    }
    proof {
        if name_views(v@).contains(s@) {
            let j = choose|j: int| 0 <= j < name_views(v@).len() && name_views(v@)[j] == s@;
        }
    }
    false
}

/// Maps each changed file to its owning package. Files outside any
/// known package land in the second list, to be reported as warnings;
/// a package whose path is no valid canonical name aborts the command.
pub fn get_pkgs_to_search(files_to_find_diff: &Vec<String>, pkgs: &Vec<String>) -> (r: Result<
    (Vec<TargetName>, Vec<String>),
    ValidationError,
>)
    ensures
        match r {
            Ok((names, misses)) => search_model(views_of(files_to_find_diff@), views_of(pkgs@))
                == Ok::<_, ValidationError>((name_views(names@), views_of(misses@))),
            Err(e) => search_model(views_of(files_to_find_diff@), views_of(pkgs@)) == Err::<
                (Seq<Seq<char>>, Seq<Seq<char>>),
                _,
            >(e),
        },
{
    let ghost fv = views_of(files_to_find_diff@);
    let mut names: Vec<TargetName> = Vec::new();
    let mut misses: Vec<String> = Vec::new();
    let mut k: usize = 0;
    proof {
        assert(fv.take(0) =~= Seq::<Seq<char>>::empty());
        assert(name_views(names@) =~= Seq::<Seq<char>>::empty());
        assert(views_of(misses@) =~= Seq::<Seq<char>>::empty());
    }
    while k < files_to_find_diff.len()
        invariant
            k <= files_to_find_diff@.len(),
            fv == views_of(files_to_find_diff@),
            search_model(fv.take(k as int), views_of(pkgs@)) == Ok::<_, ValidationError>(
                (name_views(names@), views_of(misses@)),
            ),
            forall|j: int| 0 <= j < names@.len() ==> valid_name(#[trigger] name_views(names@)[j]),
        decreases files_to_find_diff@.len() - k,
    {
        proof {
            assert(fv.take(k + 1).drop_last() =~= fv.take(k as int));
            assert(fv.take(k + 1).last() == files_to_find_diff@[k as int]@);
        }
        let f = &files_to_find_diff[k];
        match which_pkg(f, pkgs) {
            None => {
                let ghost pre = views_of(misses@);
                misses.push(f.clone());
                proof {
                    assert(views_of(misses@) =~= pre.push(f@));
                }
            },
            Some(p) => {
                if contains_name(&names, p.as_str()) {
                    proof {
                        // a name already scheduled was validated when
                        // it was pushed, so the model skips it too
                        let j = choose|j: int|
                            0 <= j < name_views(names@).len() && name_views(names@)[j] == p@;
                        lemma_name_violation_iff(p@);
                    }
                } else {
                    let ghost pre = name_views(names@);
                    match TargetName::new(p) {
                        Ok(tn) => {
                            names.push(tn);
                            proof {
                                lemma_name_violation_iff(tn@);
                                assert(name_views(names@) =~= pre.push(tn@));
                                assert forall|j: int|
                                    0 <= j < names@.len() implies valid_name(
                                    #[trigger] name_views(names@)[j],
                                ) by {
                                    if j < pre.len() {
                                        assert(name_views(names@)[j] == pre[j]);
                                    }
                                }
                            }
                        },
                        Err(e) => {
                            proof {
                                assert(search_model(fv.take(k + 1), views_of(pkgs@)) == Err::<
                                    (Seq<Seq<char>>, Seq<Seq<char>>),
                                    ValidationError,
                                >(e));
                                lemma_search_model_err(fv, views_of(pkgs@), k + 1);
                            }
                            return Err(e);
                        },
                    }
                }
            },
        }
        k += 1;
    }
    proof {
        assert(fv.take(files_to_find_diff@.len() as int) =~= fv);
    }
    Ok((names, misses))
}

/// The target names among `to_search` that no produced target carries:
/// what the command warns about after filtering.
pub open spec fn missing_model(our: Seq<TargetView>, search: Seq<Seq<char>>) -> Seq<Seq<char>>
    decreases search.len(),
{
    if search.len() == 0 {
        Seq::empty()
    } else {
        let rest = missing_model(our, search.drop_last());
        if exists|i: int| 0 <= i < our.len() && (#[trigger] our[i]).name == search.last() {
            rest
        } else {
            rest.push(search.last())
        }
    }
}

/// The names in `to_search` that none of the produced targets carries.
/// Mirrors the command's shortcut: when the two counts agree the lookup
/// is skipped entirely and nothing is reported, even though a name
/// could still be missing (one name can carry several flavors); only
/// differing counts trigger the scan.
pub fn validate_and_warn_on_missing_targets(
    our_targets: &Vec<Target>,
    to_search: &Vec<TargetName>,
) -> (r: Vec<TargetName>)
    ensures
        our_targets@.len() == to_search@.len() ==> r@.len() == 0,
        our_targets@.len() != to_search@.len() ==> name_views(r@) == missing_model(
            target_views(our_targets@),
            name_views(to_search@),
        ),
{
    let mut missing: Vec<TargetName> = Vec::new();
    if our_targets.len() == to_search.len() {
        return missing;
    }
    let ghost ov = target_views(our_targets@);
    let ghost sv = name_views(to_search@);
    let mut k: usize = 0;
    proof {
        assert(sv.take(0) =~= Seq::<Seq<char>>::empty());
        assert(name_views(missing@) =~= missing_model(ov, sv.take(0)));
    }
    while k < to_search.len()
        invariant
            k <= to_search@.len(),
            ov == target_views(our_targets@),
            sv == name_views(to_search@),
            name_views(missing@) == missing_model(ov, sv.take(k as int)),
        decreases to_search@.len() - k,
    {
        proof {
            assert(sv.take(k + 1).drop_last() =~= sv.take(k as int));
            assert(sv.take(k + 1).last() == to_search@[k as int]@);
        }
        let t = &to_search[k];
        if !targets_carry_name(our_targets, t.to_string_ref().as_str()) {
            let ghost pre = name_views(missing@);
            missing.push(t.clone());
            proof {
                assert(name_views(missing@) =~= pre.push(t@));
            }
        }
        k += 1;
    }
    proof {
        assert(sv.take(to_search@.len() as int) =~= sv);
    }
    missing
}

/// Whether one of the targets carries the name `s`.
fn targets_carry_name(v: &Vec<Target>, s: &str) -> (r: bool)
    ensures
        r == exists|i: int|
            0 <= i < target_views(v@).len() && (#[trigger] target_views(v@)[i]).name == s@,
{
    let mut k: usize = 0;
    while k < v.len()
        invariant
            k <= v@.len(),
            forall|j: int| 0 <= j < k ==> (#[trigger] target_views(v@)[j]).name != s@,
        decreases v@.len() - k,
    {
        if str_eq(v[k].name_as_string_ref().as_str(), s) {
            proof {
                assert((target_views(v@)[k as int]).name == s@);
            }
            return true;
        }
        k += 1;
    }
    false
}

/// Everything the changeset command needs after its graph is built:
/// the graph, the produced targets owning the changed files (all of
/// them graph nodes), the packages that went missing during filtering,
/// and the builder's warnings.
pub struct ChangesetPlan {
    pub graph: TargetGraph,
    pub our_targets: Vec<Target>,
    pub missing: Vec<TargetName>,
    pub warnings: Vec<BuildWarning>,
}

/// Builds the full graph from the discovered packages and keeps, of
/// the targets the seeds produced, those owning a changed file.
/// The produced targets whose name is among the searched ones, in
/// their original order.
pub open spec fn changed_filter(produced: Seq<TargetView>, search: Seq<Seq<char>>) -> Seq<
    TargetView,
>
    decreases produced.len(),
{
    if produced.len() == 0 {
        Seq::empty()
    } else {
        let rest = changed_filter(produced.drop_last(), search);
        if search.contains(produced.last().name) {
            rest.push(produced.last())
        } else {
            rest
        }
    }
}

/// Every kept target comes from the produced list and carries a
/// searched name.
pub proof fn lemma_changed_filter(produced: Seq<TargetView>, search: Seq<Seq<char>>)
    ensures
        forall|i: int|
            0 <= i < changed_filter(produced, search).len() ==> search.contains(
                (#[trigger] changed_filter(produced, search)[i]).name,
            ) && produced.contains(changed_filter(produced, search)[i]),
    decreases produced.len(),
{
    if produced.len() > 0 {
        lemma_changed_filter(produced.drop_last(), search);
        let rest = changed_filter(produced.drop_last(), search);
        assert forall|i: int|
            0 <= i < changed_filter(produced, search).len() implies search.contains(
            (#[trigger] changed_filter(produced, search)[i]).name,
        ) && produced.contains(changed_filter(produced, search)[i]) by {
            if i < rest.len() {
                assert(changed_filter(produced, search)[i] == rest[i]);
                let j = choose|j: int|
                    0 <= j < produced.drop_last().len() && produced.drop_last()[j] == rest[i];
                assert(produced[j] == rest[i]);
            } else {
                assert(changed_filter(produced, search)[i] == produced.last());
                assert(produced[produced.len() - 1] == produced.last());
            }
        }
    }
}

/// Keeps, of the produced targets, those owning a changed file:
/// exactly the `changed_filter` of the list.
pub fn filter_changed(produced: &Vec<Target>, to_search: &Vec<TargetName>) -> (r: Vec<Target>)
    ensures
        target_views(r@) == changed_filter(target_views(produced@), name_views(to_search@)),
{
    let ghost pv = target_views(produced@);
    let ghost sv = name_views(to_search@);
    let mut kept: Vec<Target> = Vec::new();
    let mut k: usize = 0;
    proof {
        assert(pv.take(0) =~= Seq::<TargetView>::empty());
        assert(target_views(kept@) =~= changed_filter(pv.take(0), sv));
    }
    while k < produced.len()
        invariant
            k <= produced@.len(),
            pv == target_views(produced@),
            sv == name_views(to_search@),
            target_views(kept@) == changed_filter(pv.take(k as int), sv),
        decreases produced@.len() - k,
    {
        proof {
            assert(pv.take(k + 1).drop_last() =~= pv.take(k as int));
            assert(pv.take(k + 1).last() == produced@[k as int]@);
        }
        let t = &produced[k];
        if contains_name(to_search, t.name_as_string_ref().as_str()) {
            let ghost pre = target_views(kept@);
            kept.push(t.clone());
            proof {
                assert(target_views(kept@) =~= pre.push(produced@[k as int]@));
            }
        }
        k += 1;
    }
    proof {
        assert(pv.take(produced@.len() as int) =~= pv);
    }
    kept
}

/// Builds the full graph from the discovered packages, keeps the
/// produced targets owning a changed file, and computes what went
/// missing: the kept list is the `changed_filter` of what the builder
/// produced, every kept target is a node, and the missing names relate
/// to the kept list exactly as `missing_model` says.
pub fn build_graph_and_our_targets<I: Infer>(
    runner: &InferRunner<I>,
    targets: Vec<RawTarget>,
    to_search: &Vec<TargetName>,
) -> (r: Result<ChangesetPlan, InferError>)
    ensures
        r matches Ok(plan) ==> plan.graph.wf() && (forall|x: int|
            0 <= x < plan.our_targets@.len() ==> plan.graph.has_node(
                #[trigger] plan.our_targets@[x]@,
            )) && (forall|x: int|
            0 <= x < plan.our_targets@.len() ==> name_views(to_search@).contains(
                (#[trigger] plan.our_targets@[x]@).name,
            )) && (exists|produced: Seq<TargetView>|
            target_views(plan.our_targets@) == #[trigger] changed_filter(
                produced,
                name_views(to_search@),
            )) && (plan.our_targets@.len() == to_search@.len() ==> plan.missing@.len() == 0) && (
        plan.our_targets@.len() != to_search@.len() ==> name_views(plan.missing@) == missing_model(
            target_views(plan.our_targets@),
            name_views(to_search@),
        )),
{
    let (graph, produced, warnings) = runner.build_graph(targets)?;
    let our_targets = filter_changed(&produced, to_search);
    proof {
        lemma_changed_filter(target_views(produced@), name_views(to_search@));
        assert forall|x: int| 0 <= x < our_targets@.len() implies graph.has_node(
            #[trigger] our_targets@[x]@,
        ) && name_views(to_search@).contains(our_targets@[x]@.name) by {
            assert(target_views(our_targets@)[x] == our_targets@[x]@);
            assert(target_views(produced@).contains(our_targets@[x]@));
            let j = choose|j: int|
                0 <= j < target_views(produced@).len() && target_views(produced@)[j]
                    == our_targets@[x]@;
            assert(produced@[j]@ == our_targets@[x]@);
        }
    }
    let missing = validate_and_warn_on_missing_targets(&our_targets, to_search);
    Ok(ChangesetPlan { graph, our_targets, missing, warnings })
}

/// The reverse-dependency query of the changeset command. The plan's
/// targets are all nodes of its graph, so the query cannot fail.
pub fn changeset_rdeps(plan: &ChangesetPlan) -> (r: Vec<Target>)
    requires
        plan.graph.wf(),
        forall|x: int|
            0 <= x < plan.our_targets@.len() ==> plan.graph.has_node(
                #[trigger] plan.our_targets@[x]@,
            ),
    ensures
        forall|x: int, y: int| 0 <= x < y < r@.len() ==> r@[x]@ != r@[y]@,
        forall|t: TargetView|
            #![trigger target_views(r@).contains(t)]
            target_views(r@).contains(t) <==> exists|j: int|
                plan.graph.is_node_at(j, t) && plan.graph.reachable_from_any(
                    target_views(plan.our_targets@),
                    j,
                ),
{
    match plan.graph.rdeps(&plan.our_targets) {
        Ok(res) => res,
        Err(_) => unreached(),
    }
}

} // verus!
