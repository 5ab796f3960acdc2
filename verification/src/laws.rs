//! The properties that hold of planning and applying, beyond the single
//! function contracts: a plan never moves a file onto itself, a fully
//! applied plan leaves nothing more to plan, an apply never overwrites an
//! existing file, and the change report of identical lists is empty.

use vstd::prelude::*;
use crate::organizer::{PlanStep, folder_chars, plan_seq, target_of};
use crate::paths::{ext_of, file_name_of, has_file_name};
use crate::rules::{Rules, spec_classify};
use crate::text::{
    lemma_suffix_after_last_concat, lemma_suffix_after_last_no_sep, suffix_after_last,
};

verus! {

/// A move plan never contains a step whose source equals its target: a file
/// already in place is not planned.
pub proof fn lemma_plan_no_self_move(dest: Seq<char>, files: Seq<Seq<char>>, rules: Rules)
    ensures
        forall|i: int| 0 <= i < plan_seq(dest, files, rules).len()
            ==> (#[trigger] plan_seq(dest, files, rules)[i]).source
                != plan_seq(dest, files, rules)[i].target,
    decreases files.len(),
{
    if files.len() > 0 {
        lemma_plan_no_self_move(dest, files.drop_last(), rules);
    }
}

/// Moving a file to its target changes neither its file name nor, with it,
/// its extension or category: the target of a target is itself.
pub proof fn lemma_target_fixed(dest: Seq<char>, rules: Rules, f: Seq<char>)
    requires
        has_file_name(f),
    ensures
        has_file_name(target_of(dest, rules, f)),
        file_name_of(target_of(dest, rules, f)) == file_name_of(f),
        spec_classify(rules, target_of(dest, rules, f)) == spec_classify(rules, f),
        target_of(dest, rules, target_of(dest, rules, f)) == target_of(dest, rules, f),
{
    let t = target_of(dest, rules, f);
    let name = file_name_of(f);
    let prefix = dest + seq!['/'] + folder_chars(spec_classify(rules, f)) + seq!['/'];
    lemma_suffix_after_last_no_sep(f, '/');
    assert(t =~= prefix + name);
    lemma_suffix_after_last_concat(prefix, name, '/');
    assert(prefix.last() == '/');
    assert(suffix_after_last(prefix, '/') + name =~= name);
    assert(file_name_of(t) == name);
    assert(ext_of(t) == ext_of(f));
    assert(spec_classify(rules, t) == spec_classify(rules, f));
    assert(target_of(dest, rules, t) == t);
}

/// Where every planned move lands: files with a usable name at their
/// target, which for already sorted files is where they were; the rest
/// untouched.
pub open spec fn moved_files(dest: Seq<char>, files: Seq<Seq<char>>, rules: Rules) -> Seq<
    Seq<char>,
> {
    files.map_values(
        |f: Seq<char>|
            if has_file_name(f) {
                target_of(dest, rules, f)
            } else {
                f
            },
    )
}

/// Planning is idempotent across an apply: once every planned move has been
/// carried out, re-planning the resulting file list yields the empty plan.
pub proof fn lemma_plan_idempotent(dest: Seq<char>, files: Seq<Seq<char>>, rules: Rules)
    ensures
        plan_seq(dest, moved_files(dest, files, rules), rules) == Seq::<PlanStep>::empty(),
    decreases files.len(),
{
    let m = moved_files(dest, files, rules);
    if files.len() == 0 {
        assert(m =~= Seq::<Seq<char>>::empty());
        assert(plan_seq(dest, m, rules) =~= Seq::<PlanStep>::empty());
    } else {
        lemma_plan_idempotent(dest, files.drop_last(), rules);
        assert(m.drop_last() =~= moved_files(dest, files.drop_last(), rules));
        let f = files.last();
        let g = m.last();
        if has_file_name(f) {
            lemma_target_fixed(dest, rules, f);
            assert(g == target_of(dest, rules, f));
            assert(!(has_file_name(g) && g != target_of(dest, rules, g)));
        } else {
            assert(g == f);
        }
        assert(plan_seq(dest, m, rules) == plan_seq(dest, m.drop_last(), rules));
    }
}

/// Every step of a plan: its source is one of the planned files, it has a
/// usable file name, and its target is that source's computed target.
pub proof fn lemma_plan_seq_steps(dest: Seq<char>, files: Seq<Seq<char>>, rules: Rules)
    ensures
        forall|i: int| 0 <= i < plan_seq(dest, files, rules).len() ==> {
            let p = #[trigger] plan_seq(dest, files, rules)[i];
            files.contains(p.source) && has_file_name(p.source) && p.source != p.target
                && p.target == target_of(dest, rules, p.source)
        },
    decreases files.len(),
{
    if files.len() > 0 {
        lemma_plan_seq_steps(dest, files.drop_last(), rules);
        assert forall|i: int| 0 <= i < files.drop_last().len()
            implies files.contains(files.drop_last()[i]) by {
            assert(files[i] == files.drop_last()[i]);
        }
        assert(files.contains(files.last()));
    }
}

/// A plan whose entries get in each other's way cannot arise: sources are
/// pairwise distinct, and no source is any entry's target.
pub open spec fn plan_independent(plans: Seq<PlanStep>) -> bool {
    (forall|j: int, k: int|
        0 <= j < plans.len() && 0 <= k < plans.len() && j != k
            ==> (#[trigger] plans[j]).source != (#[trigger] plans[k]).source)
        && (forall|j: int, k: int|
        0 <= j < plans.len() && 0 <= k < plans.len()
            ==> (#[trigger] plans[j]).source != (#[trigger] plans[k]).target)
}

/// The planner only produces independent plans, given a duplicate-free file
/// list: a path that is some entry's target is its own target, so it is
/// never planned as a source.
pub proof fn lemma_plan_seq_independent(dest: Seq<char>, files: Seq<Seq<char>>, rules: Rules)
    requires
        files.no_duplicates(),
    ensures
        plan_independent(plan_seq(dest, files, rules)),
    decreases files.len(),
{
    let plans = plan_seq(dest, files, rules);
    if files.len() == 0 {
    } else {
        let fs0 = files.drop_last();
        assert(fs0.no_duplicates());
        lemma_plan_seq_independent(dest, fs0, rules);
        lemma_plan_seq_steps(dest, fs0, rules);
        lemma_plan_seq_steps(dest, files, rules);
        let rest = plan_seq(dest, fs0, rules);
        let f = files.last();
        if has_file_name(f) && f != target_of(dest, rules, f) {
            lemma_target_fixed(dest, rules, f);
            assert(plans == rest.push(
                PlanStep {
                    source: f,
                    target: target_of(dest, rules, f),
                    category: spec_classify(rules, f),
                },
            ));
            // The new source is fresh: it is none of the earlier sources,
            // and no earlier source or target collides with the new step.
            assert forall|j: int| 0 <= j < rest.len() implies (#[trigger] rest[j]).source != f by {
                let i = choose|i: int| 0 <= i < fs0.len() && fs0[i] == rest[j].source;
                assert(files[i] == rest[j].source);
            }
            assert forall|j: int| 0 <= j < rest.len()
                implies f != (#[trigger] rest[j]).target by {
                if f == rest[j].target {
                    lemma_target_fixed(dest, rules, rest[j].source);
                    assert(target_of(dest, rules, f) == f);
                }
            }
            assert forall|j: int| 0 <= j < rest.len()
                implies (#[trigger] rest[j]).source != target_of(dest, rules, f) by {
                if rest[j].source == target_of(dest, rules, f) {
                    assert(target_of(dest, rules, rest[j].source) == rest[j].source);
                    assert(rest[j].source != rest[j].target);
                }
            }
            assert(f != target_of(dest, rules, f));
        } else {
            assert(plans == rest);
        }
    }
}

/// How applying a plan transforms a filesystem, modelled as a mapping from
/// path to content: in order, an entry whose target already exists is
/// skipped, any other moves the source's content to the target. An entry
/// whose source is gone cannot arise from a scan and changes nothing here.
pub open spec fn apply_model(
    fs: Map<Seq<char>, Seq<u8>>,
    plans: Seq<PlanStep>,
) -> Map<Seq<char>, Seq<u8>>
    decreases plans.len(),
{
    if plans.len() == 0 {
        fs
    } else {
        let p = plans.first();
        let fs1 = if fs.contains_key(p.target) || !fs.contains_key(p.source) {
            fs
        } else {
            fs.remove(p.source).insert(p.target, fs[p.source])
        };
        apply_model(fs1, plans.drop_first())
    }
}

/// A path that no entry moves away is never touched: it stays, with its
/// content.
pub proof fn lemma_apply_preserves(
    fs: Map<Seq<char>, Seq<u8>>,
    plans: Seq<PlanStep>,
    path: Seq<char>,
)
    requires
        fs.contains_key(path),
        forall|j: int| 0 <= j < plans.len() ==> (#[trigger] plans[j]).source != path,
    ensures
        apply_model(fs, plans).contains_key(path),
        apply_model(fs, plans)[path] == fs[path],
    decreases plans.len(),
{
    if plans.len() > 0 {
        let p = plans.first();
        let rest = plans.drop_first();
        assert forall|j: int| 0 <= j < rest.len()
            implies (#[trigger] rest[j]).source != path by {
            assert(rest[j] == plans[j + 1]);
        }
        if fs.contains_key(p.target) || !fs.contains_key(p.source) {
            lemma_apply_preserves(fs, rest, path);
        } else {
            assert(p.target != path);
            let fs1 = fs.remove(p.source).insert(p.target, fs[p.source]);
            assert(fs1.contains_key(path) && fs1[path] == fs[path]);
            lemma_apply_preserves(fs1, rest, path);
        }
    }
}

/// An apply never overwrites: an entry whose target already exists moves
/// nothing, so across the whole apply the source stays where it was and the
/// pre-existing target keeps its content.
pub proof fn lemma_apply_never_overwrites(
    fs: Map<Seq<char>, Seq<u8>>,
    plans: Seq<PlanStep>,
    i: int,
)
    requires
        plan_independent(plans),
        0 <= i < plans.len(),
        fs.contains_key(plans[i].target),
        fs.contains_key(plans[i].source),
    ensures
        apply_model(fs, plans).contains_key(plans[i].target),
        apply_model(fs, plans)[plans[i].target] == fs[plans[i].target],
        apply_model(fs, plans).contains_key(plans[i].source),
        apply_model(fs, plans)[plans[i].source] == fs[plans[i].source],
    decreases plans.len(),
{
    let p = plans.first();
    let rest = plans.drop_first();
    assert(plan_independent(rest)) by {
        assert(forall|j: int| 0 <= j < rest.len() ==> (#[trigger] rest[j]) == plans[j + 1]);
    }
    if i == 0 {
        // This very entry is skipped, and later entries neither move its
        // source (sources are distinct) nor its target (never a source).
        assert(fs.contains_key(p.target));
        assert(apply_model(fs, plans) == apply_model(fs, rest));
        assert forall|j: int| 0 <= j < rest.len()
            implies (#[trigger] rest[j]).source != p.target by {
            assert(rest[j] == plans[j + 1]);
        }
        assert forall|j: int| 0 <= j < rest.len()
            implies (#[trigger] rest[j]).source != p.source by {
            assert(rest[j] == plans[j + 1]);
        }
        lemma_apply_preserves(fs, rest, p.target);
        lemma_apply_preserves(fs, rest, p.source);
    } else {
        assert(plans[i] == rest[i - 1]);
        if fs.contains_key(p.target) || !fs.contains_key(p.source) {
            lemma_apply_never_overwrites(fs, rest, i - 1);
        } else {
            let fs1 = fs.remove(p.source).insert(p.target, fs[p.source]);
            // The first move touches neither this entry's source nor its
            // pre-existing target.
            assert(p.source != plans[i].target);
            assert(p.target != plans[i].target);
            assert(p.source != plans[i].source);
            assert(p.target != plans[i].source);
            assert(fs1.contains_key(plans[i].target) && fs1[plans[i].target]
                == fs[plans[i].target]);
            assert(fs1.contains_key(plans[i].source) && fs1[plans[i].source]
                == fs[plans[i].source]);
            lemma_apply_never_overwrites(fs1, rest, i - 1);
        }
    }
}

/// The change report of identical lists is empty: a set differs from itself
/// in nothing.
pub proof fn lemma_diff_identical(v: Seq<Seq<char>>)
    ensures
        v.to_set().difference(v.to_set()).len() == 0,
{
    broadcast use vstd::set::group_set_axioms;

    assert(v.to_set().difference(v.to_set()) =~= Set::<Seq<char>>::empty());
}

} // verus!
