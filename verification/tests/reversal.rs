use dirrev::FsModel;
use dirrev::Tree;
use dirrev::dir_or_false;
use dirrev::entries_or_empty;
use dirrev::expand_swaps;
use dirrev::path_cmp;
use dirrev::plan_renames;
use dirrev::rename_message;
use dirrev::reverse;
use dirrev::sort_trees;
use dirrev::str_eq;
use dirrev::str_le;
use std::cmp::Ordering;

fn dir(p: &str) -> Tree {
    Tree::new_dir(&p.to_string())
}

fn file(p: &str) -> Tree {
    Tree::new(&p.to_string())
}

#[test]
fn equality_depends_on_path_alone() {
    let a = file("x");
    let mut b = dir("x");
    b.add(file("x/child"));
    b.add(file("x/other"));
    assert!(a == b);
    let c = file("y");
    assert!(a != c);
}

#[test]
fn ordering_matches_path_strings() {
    assert_eq!(file("a").partial_cmp(&file("b")), Some(Ordering::Less));
    assert_eq!(file("b").partial_cmp(&file("a")), Some(Ordering::Greater));
    assert_eq!(file("a").partial_cmp(&file("a")), Some(Ordering::Equal));
    // strictness on concrete values: irreflexive, asymmetric, transitive
    assert!(!(file("a") < file("a")));
    assert!(file("a") < file("b"));
    assert!(!(file("b") < file("a")));
    assert!(file("b") < file("c"));
    assert!(file("a") < file("c"));
}

#[test]
fn string_order_helpers() {
    assert!(str_le("a", "b"));
    assert!(!str_le("b", "a"));
    assert!(str_le("a", "a"));
    assert!(str_le("a", "ab"));
    assert!(!str_le("ab", "a"));
    // code-point order, beyond ASCII: 'z' (122) before 'é' (233)
    assert!(str_le("z", "é"));
    assert!(!str_le("é", "z"));
    assert!(str_eq("same", "same"));
    assert!(!str_eq("same", "sane"));
    assert_eq!(path_cmp("a", "b"), Ordering::Less);
    assert_eq!(path_cmp("b", "a"), Ordering::Greater);
    assert_eq!(path_cmp("b", "b"), Ordering::Equal);
}

#[test]
fn list_error_absorbed_to_empty() {
    let r = entries_or_empty(None);
    assert!(r.is_empty());
    let r = entries_or_empty(Some(vec!["a".to_string(), "b".to_string()]));
    assert_eq!(r, vec!["a".to_string(), "b".to_string()]);
}

#[test]
fn metadata_error_absorbed_to_false() {
    assert!(!dir_or_false(None));
    assert!(dir_or_false(Some(true)));
    assert!(!dir_or_false(Some(false)));
}

#[test]
fn rename_messages_exact() {
    assert_eq!(rename_message(true, "x", "y"), "Renamed file x to y");
    assert_eq!(rename_message(false, "x", "y"), "Couldn't rename file x to y");
}

#[test]
fn add_keeps_order() {
    let mut t = dir("r");
    t.add(file("r/b"));
    t.add(file("r/a"));
    assert_eq!(t.children.len(), 2);
    assert_eq!(t.children[0].path, "r/b");
    assert_eq!(t.children[1].path, "r/a");
}

#[test]
fn sort_trees_sorts() {
    let v = vec![file("b"), file("a"), file("c")];
    let s = sort_trees(v);
    assert_eq!(s[0].path, "a");
    assert_eq!(s[1].path, "b");
    assert_eq!(s[2].path, "c");
}

#[test]
fn scenario_three_children() {
    let mut root = dir("r");
    root.add(dir("b"));
    root.add(dir("a"));
    root.add(dir("c"));
    let pairs = reverse(&mut root);
    // in memory: sorted ascending
    assert_eq!(root.children[0].path, "a");
    assert_eq!(root.children[1].path, "b");
    assert_eq!(root.children[2].path, "c");
    // one swap of the ends
    assert_eq!(pairs.len(), 1);
    assert_eq!(pairs[0].first, "a");
    assert_eq!(pairs[0].second, "c");
    // replay on the model: re-listing the sorted paths reads c, b, a
    let mut fs = FsModel::empty();
    assert!(fs.put("a", 1));
    assert!(fs.put("b", 2));
    assert!(fs.put("c", 3));
    let ops = expand_swaps(&pairs, &vec!["t0".to_string()]);
    assert_eq!(ops.len(), 3);
    let oks = fs.apply(&ops);
    assert_eq!(oks, vec![true, true, true]);
    assert_eq!(fs.lookup("a"), Some(3));
    assert_eq!(fs.lookup("b"), Some(2));
    assert_eq!(fs.lookup("c"), Some(1));
    assert_eq!(fs.lookup("t0"), None);
}

#[test]
fn scenario_single_child() {
    let mut root = dir("r");
    root.add(dir("only"));
    let pairs = reverse(&mut root);
    assert!(pairs.is_empty());
    assert_eq!(root.children[0].path, "only");
}

#[test]
fn scenario_stale_children_of_file() {
    // a non-directory that still carries child entries from build time:
    // the guard is false, so nothing below it is recursed into
    let mut root = file("f");
    let mut left = dir("f/x");
    left.add(dir("f/x/2"));
    left.add(dir("f/x/1"));
    let mut right = dir("f/z");
    right.add(dir("f/z/2"));
    right.add(dir("f/z/1"));
    root.add(left);
    root.add(right);
    let pairs = reverse(&mut root);
    // only the root level is swapped; no pairs from the subtrees
    assert_eq!(pairs.len(), 1);
    assert_eq!(pairs[0].first, "f/x");
    assert_eq!(pairs[0].second, "f/z");
    // the subtrees were neither recursed into nor sorted
    assert_eq!(root.children[0].children[0].path, "f/x/2");
    assert_eq!(root.children[0].children[1].path, "f/x/1");
}

#[test]
fn scenario_mid_swap_failure() {
    // first rename succeeds, the rest of the rotation fails: the first
    // entry is stuck at the temporary path, the second never moves, and
    // the run goes on
    let mut root = dir("r");
    root.add(dir("a"));
    root.add(dir("c"));
    let pairs = reverse(&mut root);
    assert_eq!(pairs.len(), 1);
    let ops = expand_swaps(&pairs, &vec!["t0".to_string()]);
    let mut fs = FsModel::empty();
    assert!(fs.put("a", 1));
    assert!(fs.put("c", 2));
    fs.deny("c");
    let oks = fs.apply(&ops);
    assert_eq!(oks, vec![true, false, false]);
    assert_eq!(fs.lookup("t0"), Some(1));
    assert_eq!(fs.lookup("c"), Some(2));
    assert_eq!(fs.lookup("a"), None);
}

#[test]
fn double_reversal_restores() {
    // even count: two passes, with a fresh build between, restore the
    // original assignment
    let build = || {
        let mut root = dir("r");
        root.add(dir("d"));
        root.add(dir("b"));
        root.add(dir("a"));
        root.add(dir("c"));
        root
    };
    let mut fs = FsModel::empty();
    assert!(fs.put("a", 1));
    assert!(fs.put("b", 2));
    assert!(fs.put("c", 3));
    assert!(fs.put("d", 4));
    let mut first = build();
    let pairs = reverse(&mut first);
    assert_eq!(pairs.len(), 2);
    let ops = expand_swaps(&pairs, &vec!["t0".to_string(), "t1".to_string()]);
    fs.apply(&ops);
    assert_eq!(fs.lookup("a"), Some(4));
    assert_eq!(fs.lookup("b"), Some(3));
    assert_eq!(fs.lookup("c"), Some(2));
    assert_eq!(fs.lookup("d"), Some(1));
    let mut second = build();
    let pairs = reverse(&mut second);
    let ops = expand_swaps(&pairs, &vec!["t2".to_string(), "t3".to_string()]);
    fs.apply(&ops);
    assert_eq!(fs.lookup("a"), Some(1));
    assert_eq!(fs.lookup("b"), Some(2));
    assert_eq!(fs.lookup("c"), Some(3));
    assert_eq!(fs.lookup("d"), Some(4));
}

#[test]
fn odd_count_middle_never_moves() {
    let mut root = dir("r");
    root.add(dir("c"));
    root.add(dir("a"));
    root.add(dir("b"));
    let pairs = reverse(&mut root);
    assert_eq!(pairs.len(), 1);
    let mut fs = FsModel::empty();
    assert!(fs.put("a", 1));
    assert!(fs.put("b", 2));
    assert!(fs.put("c", 3));
    let ops = expand_swaps(&pairs, &vec!["t0".to_string()]);
    fs.apply(&ops);
    assert_eq!(fs.lookup("b"), Some(2));
}

#[test]
fn nested_directories_reverse_bottom_up() {
    let mut root = dir("r");
    let mut sub = dir("r/s");
    sub.add(dir("r/s/2"));
    sub.add(dir("r/s/1"));
    root.add(sub);
    root.add(dir("r/q"));
    let pairs = reverse(&mut root);
    // the subtree's swap comes first (post-order), then the root level's
    assert_eq!(pairs.len(), 2);
    assert_eq!(pairs[0].first, "r/s/1");
    assert_eq!(pairs[0].second, "r/s/2");
    assert_eq!(pairs[1].first, "r/q");
    assert_eq!(pairs[1].second, "r/s");
    // in memory, every visited level is left sorted
    assert_eq!(root.children[0].path, "r/q");
    assert_eq!(root.children[1].path, "r/s");
    assert_eq!(root.children[1].children[0].path, "r/s/1");
}

#[test]
fn plan_renames_produces_rotations() {
    let mut root = dir("r");
    root.add(dir("b"));
    root.add(dir("a"));
    root.add(dir("c"));
    let plan = plan_renames(&mut root).expect("no temporary path");
    assert_eq!(plan.len(), 3);
    // the rotation goes through a real fresh temporary path
    assert_eq!(plan[0].src, "a");
    let temp = plan[0].dst.clone();
    assert_ne!(temp, "a");
    assert_ne!(temp, "b");
    assert_ne!(temp, "c");
    assert_eq!(plan[1].src, "c");
    assert_eq!(plan[1].dst, "a");
    assert_eq!(plan[2].src, temp);
    assert_eq!(plan[2].dst, "c");
}

#[test]
fn model_rename_edge_cases() {
    let mut fs = FsModel::empty();
    assert!(fs.put("a", 1));
    assert!(!fs.put("a", 2));
    // a missing source fails and changes nothing
    assert!(!fs.rename("nope", "b"));
    assert_eq!(fs.lookup("a"), Some(1));
    // renaming onto itself succeeds and changes nothing
    assert!(fs.rename("a", "a"));
    assert_eq!(fs.lookup("a"), Some(1));
    // renaming over an occupied destination replaces it
    assert!(fs.put("b", 2));
    assert!(fs.rename("a", "b"));
    assert_eq!(fs.lookup("a"), None);
    assert_eq!(fs.lookup("b"), Some(1));
}

#[test]
fn empty_tree_reverses_to_nothing() {
    let mut root = dir("r");
    let pairs = reverse(&mut root);
    assert!(pairs.is_empty());
    assert!(root.children.is_empty());
    assert_eq!(root.path, "r");
}
