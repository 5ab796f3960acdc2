//! Planning and accounting for moves.
//!
//! The planner is a pure function from a destination root, a file list and a
//! rule table to a move plan; the tally turns a plan and the observed
//! target-exists outcomes into move/skip counts, globally and per category.

use vstd::prelude::*;
use vstd::string::*;
use crate::rules::{Category, Rules, spec_classify};
use crate::paths::{file_name_of, has_file_name};
use crate::text::{find_last_in, lemma_suffix_after_last_at, region_eq, string_eq, views_of_strings};

verus! {

/// The folder under the destination root that a category's files move into.
pub open spec fn folder_chars(category: Category) -> Seq<char> {
    match category {
        Category::Images => "Images"@,
        Category::Documents => "Documents"@,
        Category::Videos => "Videos"@,
        Category::Audio => "Audio"@,
        Category::Archives => "Archives"@,
        Category::Others => "Others"@,
    }
}

pub fn category_folder_name(category: Category) -> (r: &'static str)
    ensures
        r@ == folder_chars(category),
{
    match category {
        Category::Images => "Images",
        Category::Documents => "Documents",
        Category::Videos => "Videos",
        Category::Audio => "Audio",
        Category::Archives => "Archives",
        Category::Others => "Others",
    }
}

/// The name of the hidden snapshot file kept at the scanned root. Scans
/// must exclude it, and the state tracker reads and writes it.
pub open spec fn state_file_chars() -> Seq<char> {
    ".rusty-sort-state.txt"@
}

pub fn state_file_name() -> (r: &'static str)
    ensures
        r@ == state_file_chars(),
{
    ".rusty-sort-state.txt"
}

/// Whether a path names the snapshot file, by exact file name match.
pub fn is_state_file(path: &str) -> (r: bool)
    ensures
        r == (file_name_of(path@) == state_file_chars()),
{
    let len = path.unicode_len();
    let name_lo: usize = match find_last_in(path, 0, len, '/') {
        Option::Some(i) => i + 1,
        Option::None => 0,
    };
    proof {
        lemma_suffix_after_last_at(path@, '/', name_lo - 1);
    }
    region_eq(path, name_lo, len, state_file_name())
}

/// One planned move.
#[derive(Debug)]
pub struct MovePlan {
    pub source: String,
    pub target: String,
    pub category: Category,
}

/// The view of a planned move.
pub struct PlanStep {
    pub source: Seq<char>,
    pub target: Seq<char>,
    pub category: Category,
}

impl View for MovePlan {
    type V = PlanStep;

    open spec fn view(&self) -> PlanStep {
        PlanStep { source: self.source@, target: self.target@, category: self.category }
    }
}

pub open spec fn plan_views(plans: Seq<MovePlan>) -> Seq<PlanStep> {
    plans.map_values(|p: MovePlan| p@)
}

/// Where a file belongs: destination root, then the folder of its category,
/// then its own file name.
pub open spec fn target_of(dest: Seq<char>, rules: Rules, file: Seq<char>) -> Seq<char> {
    dest + seq!['/'] + folder_chars(spec_classify(rules, file)) + seq!['/'] + file_name_of(file)
}

/// The move plan for a file list, in input order: one step per file that has
/// a usable file name and is not already at its target.
pub open spec fn plan_seq(dest: Seq<char>, files: Seq<Seq<char>>, rules: Rules) -> Seq<PlanStep>
    decreases files.len(),
{
    if files.len() == 0 {
        Seq::empty()
    } else {
        let rest = plan_seq(dest, files.drop_last(), rules);
        let f = files.last();
        if has_file_name(f) && f != target_of(dest, rules, f) {
            rest.push(
                PlanStep {
                    source: f,
                    target: target_of(dest, rules, f),
                    category: spec_classify(rules, f),
                },
            )
        } else {
            rest
        }
    }
}

/// The start of the file name of `path`, or `None` when the path has no
/// usable one (empty, `.` or `..`).
fn usable_file_name(path: &str) -> (r: Option<usize>)
    ensures
        match r {
            Option::Some(lo) => has_file_name(path@) && lo <= path@.len()
                && path@.subrange(lo as int, path@.len() as int) == file_name_of(path@),
            Option::None => !has_file_name(path@),
        },
{
    let len = path.unicode_len();
    let name_lo: usize = match find_last_in(path, 0, len, '/') {
        Option::Some(i) => i + 1,
        Option::None => 0,
    };
    proof {
        lemma_suffix_after_last_at(path@, '/', name_lo - 1);
    }
    let ghost name = file_name_of(path@);
    let n_len = len - name_lo;
    if n_len == 0 {
        Option::None
    } else if n_len == 1 && path.get_char(name_lo) == '.' {
        assert(name =~= seq!['.']);
        Option::None
    } else if n_len == 2 && path.get_char(name_lo) == '.' && path.get_char(name_lo + 1) == '.' {
        assert(name =~= seq!['.', '.']);
        Option::None
    } else {
        proof {
            if name == seq!['.'] {
                assert(name.len() == 1 && name[0] == '.');
            }
            if name == seq!['.', '.'] {
                assert(name.len() == 2 && name[0] == '.' && name[1] == '.');
            }
        }
        Option::Some(name_lo)
    }
}

/// `dest/folder/name`, assembled from its parts.
fn build_target(dest_dir: &str, folder: &str, path: &str, name_lo: usize) -> (t: String)
    requires
        name_lo <= path@.len(),
    ensures
        t@ == dest_dir@ + seq!['/'] + folder@ + seq!['/'] + path@.subrange(
            name_lo as int,
            path@.len() as int,
        ),
{
    proof {
        reveal_strlit("/");
        assert("/"@ =~= seq!['/']);
    }
    let mut t = String::new();
    t.append(dest_dir);
    t.append("/");
    t.append(folder);
    t.append("/");
    let name = path.substring_char(name_lo, path.unicode_len());
    t.append(name);
    proof {
        assert(t@ =~= dest_dir@ + seq!['/'] + folder@ + seq!['/'] + path@.subrange(
            name_lo as int,
            path@.len() as int,
        ));
    }
    t
}

/// Computes the move plan: for each file, in order, its category and target;
/// files with no usable file name, and files already at their target, are
/// left out. Performs no I/O; planning and re-planning are free.
#[verifier::loop_isolation(false)]
pub fn plan_moves(dest_dir: &str, files: &Vec<String>, rules: &Rules) -> (plans: Vec<MovePlan>)
    ensures
        plan_views(plans@) == plan_seq(dest_dir@, views_of_strings(files@), *rules),
        forall|i: int| 0 <= i < plans@.len() ==> (#[trigger] plans@[i])@.source != plans@[i]@.target,
{
    let ghost fviews = views_of_strings(files@);
    let mut plans: Vec<MovePlan> = Vec::new();
    let mut i: usize = 0;
    assert(fviews.take(0) =~= Seq::<Seq<char>>::empty());
    while i < files.len()
        invariant
            0 <= i <= files@.len(),
            plan_views(plans@) == plan_seq(dest_dir@, fviews.take(i as int), *rules),
            forall|k: int| 0 <= k < plans@.len()
                ==> (#[trigger] plans@[k])@.source != plans@[k]@.target,
        decreases files@.len() - i,
    {
        let file: &String = &files[i];
        let ghost fv = fviews[i as int];
        proof {
            assert(fviews.take(i + 1).drop_last() =~= fviews.take(i as int));
            assert(fviews.take(i + 1).last() == fv);
        }
        match usable_file_name(file.as_str()) {
            Option::None => {},
            Option::Some(name_lo) => {
                let category = rules.classify(file.as_str());
                let folder = category_folder_name(category);
                let target = build_target(dest_dir, folder, file.as_str(), name_lo);
                assert(target@ == target_of(dest_dir@, *rules, fv));
                if !string_eq(file, &target) {
                    let step = MovePlan { source: file.clone(), target, category };
                    plans.push(step);
                    proof {
                        assert(plan_views(plans@.drop_last()).push(plans@.last()@)
                            =~= plan_views(plans@));
                    }
                }
            },
        }
        i = i + 1;
    }
    proof {
        assert(fviews.take(files@.len() as int) =~= fviews);
    }
    plans
}

/// Per-category counters.
#[derive(Clone, Copy, PartialEq, Eq, Structural, Debug)]
pub struct CategoryCounts {
    pub images: usize,
    pub documents: usize,
    pub videos: usize,
    pub audio: usize,
    pub archives: usize,
    pub others: usize,
}

impl CategoryCounts {
    /// The counter of one category.
    pub open spec fn spec_count(self, category: Category) -> int {
        match category {
            Category::Images => self.images as int,
            Category::Documents => self.documents as int,
            Category::Videos => self.videos as int,
            Category::Audio => self.audio as int,
            Category::Archives => self.archives as int,
            Category::Others => self.others as int,
        }
    }

    pub fn new() -> (r: CategoryCounts)
        ensures
            forall|c: Category| #[trigger] r.spec_count(c) == 0,
    {
        CategoryCounts { images: 0, documents: 0, videos: 0, audio: 0, archives: 0, others: 0 }
    }

    /// Adds one to a category's counter and leaves the others alone.
    pub fn inc(&mut self, category: Category)
        requires
            old(self).spec_count(category) < usize::MAX,
        ensures
            forall|c: Category| #[trigger] final(self).spec_count(c)
                == old(self).spec_count(c) + if c == category { 1int } else { 0int },
    {
        match category {
            Category::Images => self.images = self.images + 1,
            Category::Documents => self.documents = self.documents + 1,
            Category::Videos => self.videos = self.videos + 1,
            Category::Audio => self.audio = self.audio + 1,
            Category::Archives => self.archives = self.archives + 1,
            Category::Others => self.others = self.others + 1,
        }
    }
}

impl Default for CategoryCounts {
    fn default() -> (r: CategoryCounts)
        ensures
            forall|c: Category| #[trigger] r.spec_count(c) == 0,
    {
        CategoryCounts::new()
    }
}

/// The outcome of applying a plan: how many entries moved and how many were
/// skipped because their target already existed, globally and per category.
#[derive(Debug)]
pub struct MoveResult {
    pub moved: usize,
    pub skipped: usize,
    pub moved_by_category: CategoryCounts,
    pub skipped_by_category: CategoryCounts,
}

/// How many plan entries have the given outcome (`was_skipped`), optionally
/// restricted to one category.
pub open spec fn count_outcomes(
    plans: Seq<PlanStep>,
    existed: Seq<bool>,
    was_skipped: bool,
    category: Option<Category>,
) -> int
    decreases plans.len(),
{
    if plans.len() == 0 {
        0
    } else {
        let here = existed.last() == was_skipped && match category {
            Option::Some(c) => plans.last().category == c,
            Option::None => true,
        };
        count_outcomes(plans.drop_last(), existed.drop_last(), was_skipped, category) + if here {
            1int
        } else {
            0int
        }
    }
}

/// A category's outcome count never exceeds the overall one.
pub proof fn lemma_count_outcomes_le(
    plans: Seq<PlanStep>,
    existed: Seq<bool>,
    was_skipped: bool,
    category: Category,
)
    ensures
        count_outcomes(plans, existed, was_skipped, Option::Some(category))
            <= count_outcomes(plans, existed, was_skipped, Option::None),
        count_outcomes(plans, existed, was_skipped, Option::Some(category)) >= 0,
        count_outcomes(plans, existed, was_skipped, Option::None) >= 0,
    decreases plans.len(),
{
    if plans.len() > 0 {
        lemma_count_outcomes_le(plans.drop_last(), existed.drop_last(), was_skipped, category);
    }
}

/// Turns a plan and the observed target-exists outcomes into the tally: an
/// entry whose target existed counts as skipped, every other one as moved.
#[verifier::loop_isolation(false)]
pub fn apply_moves(plans: &Vec<MovePlan>, target_existed: &Vec<bool>) -> (r: MoveResult)
    requires
        target_existed@.len() == plans@.len(),
    ensures
        r.moved == count_outcomes(plan_views(plans@), target_existed@, false, Option::None),
        r.skipped == count_outcomes(plan_views(plans@), target_existed@, true, Option::None),
        forall|c: Category| #[trigger] r.moved_by_category.spec_count(c)
            == count_outcomes(plan_views(plans@), target_existed@, false, Option::Some(c)),
        forall|c: Category| #[trigger] r.skipped_by_category.spec_count(c)
            == count_outcomes(plan_views(plans@), target_existed@, true, Option::Some(c)),
        r.moved + r.skipped == plans@.len(),
{
    let ghost steps = plan_views(plans@);
    let mut moved: usize = 0;
    let mut skipped: usize = 0;
    let mut moved_by_category = CategoryCounts::new();
    let mut skipped_by_category = CategoryCounts::new();
    let mut i: usize = 0;
    proof {
        assert(steps.take(0) =~= Seq::<PlanStep>::empty());
        assert(target_existed@.take(0) =~= Seq::<bool>::empty());
    }
    while i < plans.len()
        invariant
            0 <= i <= plans@.len(),
            moved + skipped == i,
            moved == count_outcomes(
                steps.take(i as int),
                target_existed@.take(i as int),
                false,
                Option::None,
            ),
            skipped == count_outcomes(
                steps.take(i as int),
                target_existed@.take(i as int),
                true,
                Option::None,
            ),
            forall|c: Category| #[trigger] moved_by_category.spec_count(c) == count_outcomes(
                steps.take(i as int),
                target_existed@.take(i as int),
                false,
                Option::Some(c),
            ),
            forall|c: Category| #[trigger] skipped_by_category.spec_count(c) == count_outcomes(
                steps.take(i as int),
                target_existed@.take(i as int),
                true,
                Option::Some(c),
            ),
        decreases plans@.len() - i,
    {
        proof {
            assert(steps.take(i + 1).drop_last() =~= steps.take(i as int));
            assert(target_existed@.take(i + 1).drop_last() =~= target_existed@.take(i as int));
            assert(steps.take(i + 1).last() == plans@[i as int]@);
            lemma_count_outcomes_le(
                steps.take(i as int),
                target_existed@.take(i as int),
                target_existed@[i as int],
                plans@[i as int]@.category,
            );
        }
        let category = plans[i].category;
        if target_existed[i] {
            skipped = skipped + 1;
            skipped_by_category.inc(category);
        } else {
            moved = moved + 1;
            moved_by_category.inc(category);
        }
        i = i + 1;
    }
    proof {
        assert(steps.take(plans@.len() as int) =~= steps);
        assert(target_existed@.take(plans@.len() as int) =~= target_existed@);
    }
    MoveResult { moved, skipped, moved_by_category, skipped_by_category }
}

/// How many files of a list classify into the given category.
pub open spec fn count_category(files: Seq<Seq<char>>, rules: Rules, category: Category) -> int
    decreases files.len(),
{
    if files.len() == 0 {
        0
    } else {
        count_category(files.drop_last(), rules, category) + if spec_classify(rules, files.last())
            == category {
            1int
        } else {
            0int
        }
    }
}

pub proof fn lemma_count_category_le(files: Seq<Seq<char>>, rules: Rules, category: Category)
    ensures
        0 <= count_category(files, rules, category) <= files.len(),
    decreases files.len(),
{
    if files.len() > 0 {
        lemma_count_category_le(files.drop_last(), rules, category);
    }
}

/// Classifies every file of a list and counts the categories.
#[verifier::loop_isolation(false)]
pub fn count_files_by_category(files: &Vec<String>, rules: &Rules) -> (r: CategoryCounts)
    ensures
        forall|c: Category| #[trigger] r.spec_count(c)
            == count_category(views_of_strings(files@), *rules, c),
{
    let ghost fviews = views_of_strings(files@);
    let mut counts = CategoryCounts::new();
    let mut i: usize = 0;
    proof {
        assert(fviews.take(0) =~= Seq::<Seq<char>>::empty());
    }
    while i < files.len()
        invariant
            0 <= i <= files@.len(),
            forall|c: Category| #[trigger] counts.spec_count(c)
                == count_category(fviews.take(i as int), *rules, c),
        decreases files@.len() - i,
    {
        let category = rules.classify(files[i].as_str());
        proof {
            assert(fviews.take(i + 1).drop_last() =~= fviews.take(i as int));
            assert(fviews.take(i + 1).last() == fviews[i as int]);
            lemma_count_category_le(fviews.take(i as int), *rules, category);
        }
        counts.inc(category);
        i = i + 1;
    }
    proof {
        assert(fviews.take(files@.len() as int) =~= fviews);
    }
    counts
}

} // verus!
