use rusty_sort::organizer::{
    apply_moves, category_folder_name, count_files_by_category, is_state_file, plan_moves,
    CategoryCounts,
};
use rusty_sort::rules::{Category, Rules};

#[test]
fn folder_names_are_the_category_words() {
    assert_eq!(category_folder_name(Category::Images), "Images");
    assert_eq!(category_folder_name(Category::Documents), "Documents");
    assert_eq!(category_folder_name(Category::Videos), "Videos");
    assert_eq!(category_folder_name(Category::Audio), "Audio");
    assert_eq!(category_folder_name(Category::Archives), "Archives");
    assert_eq!(category_folder_name(Category::Others), "Others");
}

#[test]
fn plan_against_defaults() {
    let rules = Rules::default();
    let files = vec![
        "root/a.jpg".to_string(),
        "root/b.txt".to_string(),
        "root/c.zip".to_string(),
        "root/d".to_string(),
    ];
    let plans = plan_moves("root", &files, &rules);
    assert_eq!(plans.len(), 4);
    assert_eq!(plans[0].source, "root/a.jpg");
    assert_eq!(plans[0].target, "root/Images/a.jpg");
    assert_eq!(plans[0].category, Category::Images);
    assert_eq!(plans[1].target, "root/Documents/b.txt");
    assert_eq!(plans[1].category, Category::Documents);
    assert_eq!(plans[2].target, "root/Archives/c.zip");
    assert_eq!(plans[2].category, Category::Archives);
    assert_eq!(plans[3].target, "root/Others/d");
    assert_eq!(plans[3].category, Category::Others);
}

#[test]
fn plan_keeps_input_order_and_skips_sorted_files() {
    let rules = Rules::default();
    let files = vec![
        "root/Images/sorted.jpg".to_string(),
        "root/new.png".to_string(),
        "root/Others/placed".to_string(),
    ];
    let plans = plan_moves("root", &files, &rules);
    assert_eq!(plans.len(), 1);
    assert_eq!(plans[0].source, "root/new.png");
    assert_eq!(plans[0].target, "root/Images/new.png");
}

#[test]
fn plan_never_moves_a_file_onto_itself() {
    let rules = Rules::default();
    let files = vec![
        "root/Archives/a.zip".to_string(),
        "root/b.zip".to_string(),
        "elsewhere/Audio/c.mp3".to_string(),
    ];
    let plans = plan_moves("root", &files, &rules);
    for p in &plans {
        assert_ne!(p.source, p.target);
    }
}

#[test]
fn apply_tallies_moves() {
    let rules = Rules::default();
    let files = vec![
        "root/a.jpg".to_string(),
        "root/b.txt".to_string(),
        "root/c.zip".to_string(),
        "root/d".to_string(),
    ];
    let plans = plan_moves("root", &files, &rules);
    let existed = vec![false, false, false, false];
    let result = apply_moves(&plans, &existed);
    assert_eq!(result.moved, 4);
    assert_eq!(result.skipped, 0);
    assert_eq!(result.moved_by_category.images, 1);
    assert_eq!(result.moved_by_category.documents, 1);
    assert_eq!(result.moved_by_category.archives, 1);
    assert_eq!(result.moved_by_category.others, 1);
    assert_eq!(result.moved_by_category.videos, 0);
    assert_eq!(result.skipped_by_category.images, 0);
}

#[test]
fn apply_counts_existing_targets_as_skipped() {
    // The destination already holds Images/a.jpg; the colliding entry is
    // skipped and only counted, the rest moves.
    let rules = Rules::default();
    let files = vec!["root/a.jpg".to_string(), "root/b.txt".to_string()];
    let plans = plan_moves("root", &files, &rules);
    let existed = vec![true, false];
    let result = apply_moves(&plans, &existed);
    assert_eq!(result.moved, 1);
    assert_eq!(result.skipped, 1);
    assert_eq!(result.skipped_by_category.images, 1);
    assert_eq!(result.moved_by_category.documents, 1);
}

#[test]
fn count_files_by_category_counts_every_file() {
    let rules = Rules::default();
    let files = vec![
        "a.jpg".to_string(),
        "b.png".to_string(),
        "c.pdf".to_string(),
        "d".to_string(),
    ];
    let counts = count_files_by_category(&files, &rules);
    assert_eq!(counts.images, 2);
    assert_eq!(counts.documents, 1);
    assert_eq!(counts.others, 1);
    assert_eq!(counts.videos, 0);
    assert_eq!(counts.audio, 0);
    assert_eq!(counts.archives, 0);
}

#[test]
fn replanning_after_a_full_apply_is_empty() {
    // Once every planned move has been carried out, the files sit at their
    // targets and a fresh plan finds nothing to do.
    let rules = Rules::default();
    let files = vec![
        "root/a.jpg".to_string(),
        "root/b.txt".to_string(),
        "root/c.zip".to_string(),
        "root/d".to_string(),
    ];
    let plans = plan_moves("root", &files, &rules);
    let moved: Vec<String> = plans.iter().map(|p| p.target.clone()).collect();
    let replans = plan_moves("root", &moved, &rules);
    assert_eq!(replans.len(), 0);
    // The snapshot after such a run lists the moved files, relative to root.
    let text = rusty_sort::state::render_state("root", &moved);
    assert_eq!(text, "Images/a.jpg\nDocuments/b.txt\nArchives/c.zip\nOthers/d\n");
}

#[test]
fn inserted_rules_override_and_others_is_ignored() {
    let mut rules = Rules::default();
    rules.insert(Category::Videos, vec!['x', 'y']);
    assert_eq!(rules.classify("a.xy"), Category::Videos);
    assert_eq!(rules.classify("a.XY"), Category::Videos);
    rules.insert(Category::Others, vec!['x', 'y']);
    // Assigning to Others changes nothing; the earlier rule stands.
    assert_eq!(rules.classify("a.xy"), Category::Videos);
    rules.insert(Category::Audio, vec!['x', 'y']);
    // The most recent rule for an extension wins.
    assert_eq!(rules.classify("a.xy"), Category::Audio);
}

#[test]
fn category_counts_increment_one_counter_at_a_time() {
    let mut counts = CategoryCounts::new();
    counts.inc(Category::Audio);
    counts.inc(Category::Audio);
    counts.inc(Category::Others);
    assert_eq!(counts.audio, 2);
    assert_eq!(counts.others, 1);
    assert_eq!(counts.images, 0);
    assert_eq!(counts.documents, 0);
    assert_eq!(counts.videos, 0);
    assert_eq!(counts.archives, 0);
}

#[test]
fn the_state_file_is_recognized_by_name() {
    assert!(is_state_file("root/.rusty-sort-state.txt"));
    assert!(is_state_file(".rusty-sort-state.txt"));
    assert!(!is_state_file("root/state.txt"));
    assert!(!is_state_file("root/.rusty-sort-state.txt/other"));
}
