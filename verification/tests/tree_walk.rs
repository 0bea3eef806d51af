use tree_walk::commands::{delete_decision, find, Commands, DeleteArgs, DeleteDecision, FindArgs,
    TreeWalk};
use tree_walk::fs::{days_old, earliest_modified, total_size, FsEntry, FsNode};
use tree_walk::gate::{check_code, code_at, current_code, CODE_DIGITS, NO_CODE};
use tree_walk::process::{longest_path, sort_results, ProcessedResults};
use tree_walk::walk::{walk, FindResult};

fn file(name: &str, size: u64, age: u64) -> FsEntry {
    FsEntry { name: name.to_string(), node: FsNode::File { size, age_days: age } }
}

fn symlink(name: &str) -> FsEntry {
    FsEntry { name: name.to_string(), node: FsNode::Symlink }
}

fn dir(name: &str, age: u64, entries: Vec<FsEntry>) -> FsEntry {
    FsEntry { name: name.to_string(), node: FsNode::Dir { age_days: age, entries } }
}

fn dir_node(age: u64, entries: Vec<FsEntry>) -> FsNode {
    FsNode::Dir { age_days: age, entries }
}

fn params(from: &str, min_mb: u64, min_age_days: u64, sort_by_age: bool, name: &str) -> (TreeWalk, FindArgs) {
    let args = FindArgs { name: name.to_string() };
    let command = TreeWalk {
        command: Commands::Find(FindArgs { name: name.to_string() }),
        from: from.to_string(),
        min_mb,
        min_age_days,
        sort_by_age,
    };
    (command, args)
}

fn result(path: &str, size: u64, days_old: u64) -> FindResult {
    FindResult { path: path.to_string(), size, days_old }
}

#[test]
fn total_size_file_counts_bytes() {
    assert_eq!(total_size(&FsNode::File { size: 5, age_days: 1 }), 5);
}

#[test]
fn total_size_symlink_is_zero() {
    assert_eq!(total_size(&FsNode::Symlink), 0);
}

#[test]
fn total_size_empty_dir_is_zero() {
    assert_eq!(total_size(&dir_node(3, vec![])), 0);
}

#[test]
fn total_size_sums_children_and_ignores_symlinks() {
    let tree = dir_node(
        1,
        vec![
            file("a", 3, 1),
            symlink("link"),
            dir("sub", 2, vec![file("b", 4, 2), symlink("deep-link")]),
        ],
    );
    assert_eq!(total_size(&tree), 7);
}

#[test]
fn earliest_is_minimum_over_subtree() {
    let tree = dir_node(5, vec![file("a", 1, 3), dir("sub", 9, vec![file("b", 1, 7)])]);
    assert_eq!(earliest_modified(&tree), 3);
}

#[test]
fn earliest_never_exceeds_own_age() {
    let tree = dir_node(5, vec![file("a", 1, 9)]);
    assert!(earliest_modified(&tree) <= 5);
}

#[test]
fn earliest_zero_when_something_touched_today() {
    let tree = dir_node(40, vec![dir("sub", 30, vec![dir("deep", 20, vec![file("x", 1, 0)])])]);
    assert_eq!(earliest_modified(&tree), 0);
}

#[test]
fn earliest_symlink_never_sets_the_minimum() {
    let tree = dir_node(4, vec![symlink("link")]);
    assert_eq!(earliest_modified(&tree), 4);
}

#[test]
fn days_old_floors_whole_days() {
    assert_eq!(days_old(3 * 86400 + 5, 0), Some(3));
    assert_eq!(days_old(100, 50), Some(0));
    assert_eq!(days_old(86400, 0), Some(1));
}

#[test]
fn days_old_rejects_future_modification() {
    assert_eq!(days_old(5, 10), None);
}

#[test]
fn walk_records_matches_in_preorder() {
    let tree = dir_node(
        9,
        vec![
            dir("proj", 9, vec![dir("node_modules", 9, vec![file("a", 10, 9)])]),
            dir("node_modules", 9, vec![file("b", 20, 9)]),
        ],
    );
    let from = ".".to_string();
    let name = "node_modules".to_string();
    let matches = walk(&tree, &from, &name);
    assert_eq!(matches.len(), 2);
    assert_eq!(matches[0].path, "./proj/node_modules");
    assert_eq!(matches[0].size, 10);
    assert_eq!(matches[1].path, "./node_modules");
    assert_eq!(matches[1].size, 20);
}

#[test]
fn walk_does_not_descend_into_a_match() {
    let inner = dir("node_modules", 8, vec![file("deep", 7, 8)]);
    let outer = dir("node_modules", 8, vec![file("top", 5, 8), inner]);
    let tree = dir_node(8, vec![dir("a", 8, vec![outer])]);
    let from = ".".to_string();
    let name = "node_modules".to_string();
    let matches = walk(&tree, &from, &name);
    assert_eq!(matches.len(), 1);
    assert_eq!(matches[0].path, "./a/node_modules");
    assert_eq!(matches[0].size, 12);
}

#[test]
fn walk_age_is_the_earliest_under_the_parent() {
    let tree = dir_node(
        50,
        vec![dir(
            "proj",
            9,
            vec![file("fresh", 1, 2), dir("node_modules", 40, vec![file("a", 10, 30)])],
        )],
    );
    let from = ".".to_string();
    let name = "node_modules".to_string();
    let matches = walk(&tree, &from, &name);
    assert_eq!(matches.len(), 1);
    assert_eq!(matches[0].days_old, 2);
}

#[test]
fn walk_matches_the_exact_name_only() {
    let tree = dir_node(
        1,
        vec![
            dir("node_modules_old", 1, vec![file("a", 1, 1)]),
            dir("node", 1, vec![file("b", 2, 1)]),
            dir("node_modules", 1, vec![file("c", 4, 1)]),
        ],
    );
    let from = ".".to_string();
    let name = "node_modules".to_string();
    let matches = walk(&tree, &from, &name);
    assert_eq!(matches.len(), 1);
    assert_eq!(matches[0].path, "./node_modules");
}

#[test]
fn walk_skips_symlinks_entirely() {
    let tree = dir_node(1, vec![symlink("node_modules")]);
    let from = ".".to_string();
    let name = "node_modules".to_string();
    let matches = walk(&tree, &from, &name);
    assert_eq!(matches.len(), 0);
}

#[test]
fn sort_results_by_size_is_non_increasing() {
    let mut results = vec![result("a", 5, 1), result("b", 50, 2), result("c", 20, 3)];
    sort_results(&mut results, false);
    assert_eq!(results.len(), 3);
    assert!(results[0].size >= results[1].size && results[1].size >= results[2].size);
    assert_eq!(results[0].path, "b");
}

#[test]
fn sort_results_by_age_is_non_increasing() {
    let mut results = vec![result("a", 5, 1), result("b", 50, 2), result("c", 20, 3)];
    sort_results(&mut results, true);
    assert!(results[0].days_old >= results[1].days_old);
    assert!(results[1].days_old >= results[2].days_old);
    assert_eq!(results[0].path, "c");
}

#[test]
fn longest_path_is_zero_without_results() {
    let results: Vec<FindResult> = vec![];
    assert_eq!(longest_path(&results), 0);
}

#[test]
fn longest_path_takes_the_maximum() {
    let results = vec![result("ab", 1, 1), result("abcde", 1, 1), result("abc", 1, 1)];
    assert_eq!(longest_path(&results), 5);
}

fn processed(tree: &FsNode, min_mb: u64, min_age_days: u64, sort_by_age: bool) -> ProcessedResults {
    let (command, args) = params(".", min_mb, min_age_days, sort_by_age, "node_modules");
    find(&command, &args, tree)
}

fn two_project_tree() -> FsNode {
    dir_node(
        100,
        vec![
            dir("proj1", 0, vec![dir("node_modules", 0, vec![file("a", 5_000_000, 0)])]),
            dir("proj2", 30, vec![dir("node_modules", 30, vec![file("b", 50_000_000, 30)])]),
        ],
    )
}

#[test]
fn find_reports_kept_and_skipped_buckets() {
    let r = processed(&two_project_tree(), 10, 14, false);
    assert_eq!(r.found_dirs, 1);
    assert_eq!(r.found_bytes, 50_000_000);
    assert_eq!(r.skipped_dirs, 1);
    assert_eq!(r.skipped_bytes, 5_000_000);
    assert_eq!(r.results.len(), 1);
    assert_eq!(r.results[0].path, "./proj2/node_modules");
    assert_eq!(r.results[0].size, 50_000_000);
    assert_eq!(r.results[0].days_old, 30);
    assert_eq!(r.longest_path, "./proj2/node_modules".len());
}

#[test]
fn find_counts_and_bytes_partition_the_matches() {
    let tree = dir_node(
        9,
        vec![
            dir("p1", 20, vec![dir("node_modules", 20, vec![file("a", 11_000_000, 20)])]),
            dir("p2", 20, vec![dir("node_modules", 20, vec![file("b", 12_000_000, 20)])]),
            dir("p3", 1, vec![dir("node_modules", 1, vec![file("c", 13_000_000, 1)])]),
        ],
    );
    let r = processed(&tree, 10, 14, false);
    assert_eq!(r.found_dirs + r.skipped_dirs, 3);
    assert_eq!(r.found_bytes + r.skipped_bytes, 36_000_000);
    assert_eq!(r.found_dirs, 2);
    assert_eq!(r.found_bytes, 23_000_000);
}

#[test]
fn find_thresholds_are_inclusive_and_both_required() {
    let tree = dir_node(
        9,
        vec![
            dir("exact", 14, vec![dir("node_modules", 14, vec![file("a", 10_000_000, 14)])]),
            dir("small", 14, vec![dir("node_modules", 14, vec![file("b", 9_999_999, 14)])]),
            dir("young", 13, vec![dir("node_modules", 13, vec![file("c", 99_000_000, 13)])]),
        ],
    );
    let r = processed(&tree, 10, 14, false);
    assert_eq!(r.found_dirs, 1);
    assert_eq!(r.results[0].path, "./exact/node_modules");
    assert_eq!(r.skipped_dirs, 2);
}

#[test]
fn find_sorts_kept_results_by_size_descending() {
    let tree = dir_node(
        9,
        vec![
            dir("p1", 20, vec![dir("node_modules", 20, vec![file("a", 11_000_000, 20)])]),
            dir("p2", 30, vec![dir("node_modules", 30, vec![file("b", 33_000_000, 30)])]),
            dir("p3", 25, vec![dir("node_modules", 25, vec![file("c", 22_000_000, 25)])]),
        ],
    );
    let r = processed(&tree, 10, 14, false);
    assert_eq!(r.found_dirs, 3);
    assert_eq!(r.results[0].size, 33_000_000);
    assert_eq!(r.results[1].size, 22_000_000);
    assert_eq!(r.results[2].size, 11_000_000);
}

#[test]
fn find_sorts_kept_results_by_age_descending() {
    let tree = dir_node(
        9,
        vec![
            dir("p1", 20, vec![dir("node_modules", 20, vec![file("a", 11_000_000, 20)])]),
            dir("p2", 30, vec![dir("node_modules", 30, vec![file("b", 33_000_000, 30)])]),
            dir("p3", 25, vec![dir("node_modules", 25, vec![file("c", 22_000_000, 25)])]),
        ],
    );
    let r = processed(&tree, 10, 14, true);
    assert_eq!(r.found_dirs, 3);
    assert_eq!(r.results[0].days_old, 30);
    assert_eq!(r.results[1].days_old, 25);
    assert_eq!(r.results[2].days_old, 20);
}

#[test]
fn find_on_empty_root_reports_nothing() {
    let r = processed(&dir_node(1, vec![]), 10, 14, false);
    assert_eq!(r.found_dirs, 0);
    assert_eq!(r.found_bytes, 0);
    assert_eq!(r.skipped_dirs, 0);
    assert_eq!(r.skipped_bytes, 0);
    assert_eq!(r.results.len(), 0);
    assert_eq!(r.longest_path, 0);
}

#[test]
fn find_args_can_be_taken_from_delete_args() {
    let d = DeleteArgs { name: "node_modules".to_string(), code: NO_CODE.to_string() };
    let f = FindArgs::from(&d);
    assert_eq!(f.name, "node_modules");
}

#[test]
fn gate_sentinel_never_authorizes() {
    let current = code_at(1_000_000_000);
    let supplied = NO_CODE.to_string();
    assert!(!check_code(&supplied, &current));
}

#[test]
fn gate_wrong_code_never_authorizes() {
    let current = code_at(1_000_000_000);
    let mut wrong = current.clone();
    wrong.push('9');
    assert!(!check_code(&wrong, &current));
}

#[test]
fn gate_correct_code_authorizes() {
    let current = code_at(1_000_000_000);
    let supplied = current.clone();
    assert!(check_code(&supplied, &current));
}

#[test]
fn gate_current_code_matches_itself() {
    let current = current_code().expect("system clock before the epoch");
    let supplied = current.clone();
    assert!(check_code(&supplied, &current));
}

#[test]
fn gate_code_is_six_decimal_digits() {
    let code = code_at(7);
    assert_eq!(code.len(), CODE_DIGITS);
    assert!(code.chars().all(|c| c.is_ascii_digit()));
}

#[test]
fn gate_code_agrees_with_totp_rs() {
    let totp = totp_rs::TOTP::new(
        totp_rs::Algorithm::SHA1,
        6,
        1,
        30,
        totp_rs::Secret::Raw("RandomUnimportantSecret".as_bytes().to_vec())
            .to_bytes()
            .unwrap(),
    )
    .unwrap();
    let expected = totp.generate(1_111_111_111);
    assert_eq!(code_at(1_111_111_111), expected);
}

#[test]
fn gate_code_is_deterministic_per_window() {
    assert_eq!(code_at(60), code_at(60));
    assert_eq!(code_at(60), code_at(89));
}

#[test]
fn delete_decides_nothing_without_kept_matches() {
    let r = processed(&dir_node(1, vec![]), 10, 14, false);
    let d = delete_decision(r.found_dirs, false);
    assert!(matches!(d, DeleteDecision::Nothing));
}

#[test]
fn delete_without_code_is_rejected_and_touches_nothing() {
    let tree = two_project_tree();
    let r = processed(&tree, 10, 14, false);
    assert_eq!(r.found_dirs, 1);
    let current = code_at(1_000_000_000);
    let supplied = NO_CODE.to_string();
    let accepted = check_code(&supplied, &current);
    assert!(!accepted);
    let d = delete_decision(r.found_dirs, accepted);
    assert!(matches!(d, DeleteDecision::Rejected));
    assert_eq!(total_size(&tree), 55_000_000);
}

#[test]
fn delete_with_valid_code_proceeds() {
    let r = processed(&two_project_tree(), 10, 14, false);
    let current = code_at(1_000_000_000);
    let supplied = current.clone();
    let d = delete_decision(r.found_dirs, check_code(&supplied, &current));
    assert!(matches!(d, DeleteDecision::Proceed));
}
