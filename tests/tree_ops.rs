use trustlate::error::TrustlateError;
use trustlate::tree::{LeafType, TranslationTreeNode, TranslationsTree, TreeComparisonDifference, TreePath};

fn leaf(t: &str) -> TranslationTreeNode {
    TranslationTreeNode::Leaf(LeafType::from_text(t.to_string()))
}

fn branch(es: Vec<(&str, TranslationTreeNode)>) -> TranslationTreeNode {
    TranslationTreeNode::NonLeaf(es.into_iter().map(|(k, v)| (k.to_string(), v)).collect())
}

fn tree(es: Vec<(&str, TranslationTreeNode)>) -> TranslationsTree {
    TranslationsTree { children: es.into_iter().map(|(k, v)| (k.to_string(), v)).collect() }
}

fn path(ks: &[&str]) -> TreePath {
    TreePath(ks.iter().map(|s| s.to_string()).collect())
}

fn literal(t: &str) -> TranslationTreeNode {
    TranslationTreeNode::Leaf(LeafType::LiteralLeaf(t.to_string()))
}

#[test]
fn literal_text_is_classified_literal() {
    assert_eq!(LeafType::from_text("Hello".to_string()), LeafType::LiteralLeaf("Hello".to_string()));
}

#[test]
fn placeholder_text_is_classified_parametrized() {
    assert_eq!(
        LeafType::from_text("Hi {{a}} and {{b}}, {{a}}".to_string()),
        LeafType::ParametrizedLeaf {
            parameters: vec!["a".to_string(), "b".to_string()],
            raw: "Hi {{a}} and {{b}}, {{a}}".to_string(),
        }
    );
}

#[test]
fn empty_braces_are_no_placeholder() {
    assert_eq!(LeafType::from_text("{{}}".to_string()), LeafType::LiteralLeaf("{{}}".to_string()));
}

#[test]
fn classification_depends_on_text_only() {
    let a = LeafType::from_text("Bye {{name}}".to_string());
    let b = LeafType::from_text(a.text().clone());
    assert_eq!(a, b);
    let c = LeafType::from_text("plain".to_string());
    assert_eq!(LeafType::from_text(c.text().clone()), c);
}

#[test]
fn round_trip_scenario() {
    let base = tree(vec![("a", branch(vec![("hello", leaf("Hi"))])), ("b", leaf("Bye {{name}}"))]);
    let mut target = tree(vec![("a", branch(vec![("hello", leaf("Hola"))]))]);
    let diffs = base.compare(&target);
    assert_eq!(diffs, vec![TreeComparisonDifference::MissingNode(path(&["b"]))]);
    assert_eq!(target.harmonize(&base, &diffs, "TODO"), Ok(()));
    let expected = tree(vec![("a", branch(vec![("hello", literal("Hola"))])), ("b", literal("TODO"))]);
    assert_eq!(target, expected);
}

#[test]
fn type_mismatch_scenario() {
    let base = tree(vec![("x", leaf("hi"))]);
    let mut target = tree(vec![("x", branch(vec![("y", leaf("hi"))]))]);
    let diffs = base.compare(&target);
    assert_eq!(diffs, vec![TreeComparisonDifference::DifferentNodeType(path(&["x"]))]);
    assert_eq!(target.harmonize(&base, &diffs, "[FILLING]"), Ok(()));
    assert_eq!(target, tree(vec![("x", literal("[FILLING]"))]));
}

#[test]
fn compare_is_repeatable() {
    let base = tree(vec![("a", leaf("A")), ("b", branch(vec![("c", leaf("C {{x}}"))])), ("d", leaf("D"))]);
    let target = tree(vec![("b", leaf("B")), ("d", leaf("D {{y}}"))]);
    let first = base.compare(&target);
    let second = base.compare(&target);
    assert_eq!(first, second);
    assert_eq!(
        first,
        vec![
            TreeComparisonDifference::MissingNode(path(&["a"])),
            TreeComparisonDifference::DifferentNodeType(path(&["b"])),
            TreeComparisonDifference::DifferentParameters(path(&["d"])),
        ]
    );
}

#[test]
fn empty_base_has_no_differences() {
    let base = tree(vec![]);
    let target = tree(vec![("a", leaf("A")), ("b", branch(vec![]))]);
    assert!(base.compare(&target).is_empty());
}

#[test]
fn extra_target_keys_and_value_drift_are_not_differences() {
    let base = tree(vec![("a", leaf("A {{n}}"))]);
    let target = tree(vec![("a", leaf("Other {{n}} {{n}}")), ("z", leaf("Z"))]);
    assert!(base.compare(&target).is_empty());
}

#[test]
fn parameter_sets_compare_without_order() {
    let base = tree(vec![("a", leaf("{{x}} {{y}}"))]);
    let target = tree(vec![("a", leaf("{{y}} then {{x}}"))]);
    assert!(base.compare(&target).is_empty());
}

#[test]
fn missing_subtree_is_one_difference() {
    let base = tree(vec![("a", branch(vec![("b", leaf("B")), ("c", branch(vec![("d", leaf("D"))]))]))]);
    let target = tree(vec![("a", branch(vec![]))]);
    assert_eq!(
        base.compare(&target),
        vec![
            TreeComparisonDifference::MissingNode(path(&["a", "b"])),
            TreeComparisonDifference::MissingNode(path(&["a", "c"])),
        ]
    );
}

#[test]
fn harmonize_blanks_whole_missing_subtree_and_keeps_values() {
    let base = tree(vec![
        ("a", branch(vec![("b", leaf("B {{p}}")), ("c", branch(vec![("d", leaf("D"))]))])),
        ("e", leaf("E")),
    ]);
    let mut target = tree(vec![("a", branch(vec![("b", leaf("Bee {{p}}"))])), ("e", leaf("Eh"))]);
    let diffs = base.compare(&target);
    assert_eq!(target.harmonize(&base, &diffs, "?"), Ok(()));
    let expected = tree(vec![
        ("a", branch(vec![("b", leaf("Bee {{p}}")), ("c", branch(vec![("d", literal("?"))]))])),
        ("e", leaf("Eh")),
    ]);
    assert_eq!(target, expected);
    assert!(base.compare(&target).is_empty());
}

#[test]
fn harmonize_leaves_parameter_differences() {
    let base = tree(vec![("a", leaf("A {{x}}"))]);
    let mut target = tree(vec![("a", leaf("A"))]);
    let diffs = base.compare(&target);
    assert_eq!(diffs, vec![TreeComparisonDifference::DifferentParameters(path(&["a"]))]);
    assert_eq!(target.harmonize(&base, &diffs, "T"), Ok(()));
    assert_eq!(target, tree(vec![("a", leaf("A"))]));
}

#[test]
fn harmonize_reports_missing_base_path() {
    let base = tree(vec![("a", leaf("A"))]);
    let mut target = tree(vec![]);
    let diffs = vec![TreeComparisonDifference::MissingNode(path(&["zzz"]))];
    assert_eq!(target.harmonize(&base, &diffs, "T"), Err(TrustlateError::PathNotFound));
    assert_eq!(target, tree(vec![]));
}

#[test]
fn harmonize_reports_missing_parent() {
    let base = tree(vec![("a", branch(vec![("b", leaf("B"))]))]);
    let mut target = tree(vec![]);
    let diffs = vec![TreeComparisonDifference::MissingNode(path(&["a", "b"]))];
    assert_eq!(target.harmonize(&base, &diffs, "T"), Err(TrustlateError::ParentMissing));
}

#[test]
fn get_node_at_follows_keys() {
    let t = tree(vec![("a", branch(vec![("b", leaf("B"))]))]);
    assert_eq!(t.get_node_at(&path(&["a", "b"])), Ok(&leaf("B")));
    assert_eq!(t.get_node_at(&path(&["a", "x"])), Err(TrustlateError::PathNotFound));
    assert_eq!(t.get_node_at(&path(&["a", "b", "c"])), Err(TrustlateError::PathNotFound));
    assert_eq!(t.get_node_at(&path(&[])), Err(TrustlateError::PathNotFound));
}

#[test]
fn insert_node_at_needs_branch_parent() {
    let mut t = tree(vec![("a", leaf("A"))]);
    assert_eq!(t.insert_node_at(leaf("X"), &path(&["a", "x"])), Err(TrustlateError::ParentMissing));
    assert_eq!(t.insert_node_at(leaf("X"), &path(&["n", "x"])), Err(TrustlateError::ParentMissing));
    assert_eq!(t.insert_node_at(leaf("B"), &path(&["b"])), Ok(()));
    assert_eq!(t, tree(vec![("a", leaf("A")), ("b", leaf("B"))]));
}

#[test]
fn replace_node_at_needs_existing_node() {
    let mut t = tree(vec![("a", branch(vec![("b", leaf("B"))]))]);
    assert_eq!(t.replace_node_at(leaf("X"), &path(&["a", "c"])), Err(TrustlateError::PathNotFound));
    assert_eq!(t.replace_node_at(leaf("X"), &path(&["a", "b"])), Ok(()));
    assert_eq!(t, tree(vec![("a", branch(vec![("b", leaf("X"))]))]));
}

#[test]
fn blank_values_drops_parameters() {
    let mut n = branch(vec![("a", leaf("A {{x}}")), ("b", branch(vec![("c", leaf("C"))]))]);
    n.blank_values(&"-".to_string());
    assert_eq!(n, branch(vec![("a", literal("-")), ("b", branch(vec![("c", literal("-"))]))]));
}

#[test]
fn walk_extends_path() {
    let p = TreePath::new().walk(&"a".to_string()).walk(&"b".to_string());
    assert_eq!(p, path(&["a", "b"]));
    assert_eq!(p.segments(), &vec!["a".to_string(), "b".to_string()]);
}

#[test]
fn path_display_text() {
    assert_eq!(path(&["a", "b", "c"]).display_text(), "a -> b -> c");
    assert_eq!(path(&[]).display_text(), "");
}

#[test]
fn harmonize_keeps_matching_leaves_and_conforms() {
    let base = tree(vec![
        ("menu", branch(vec![("open", leaf("Open {{file}}")), ("close", leaf("Close"))])),
        ("title", leaf("Title")),
        ("footer", branch(vec![("left", leaf("L"))])),
    ]);
    let mut target = tree(vec![
        ("title", leaf("Titel")),
        ("menu", branch(vec![("close", leaf("Schliessen")), ("open", branch(vec![]))])),
        ("footer", leaf("F")),
    ]);
    let diffs = base.compare(&target);
    assert_eq!(target.harmonize(&base, &diffs, "~"), Ok(()));
    let again = base.compare(&target);
    assert!(again.iter().all(|d| matches!(d, TreeComparisonDifference::DifferentParameters(_))));
    assert_eq!(again, vec![TreeComparisonDifference::DifferentParameters(path(&["menu", "open"]))]);
    assert_eq!(target.get_node_at(&path(&["title"])), Ok(&leaf("Titel")));
    assert_eq!(target.get_node_at(&path(&["menu", "close"])), Ok(&leaf("Schliessen")));
    assert_eq!(target.get_node_at(&path(&["menu", "open"])), Ok(&literal("~")));
    assert_eq!(target.get_node_at(&path(&["footer", "left"])), Ok(&literal("~")));
}

#[test]
fn unique_keys_are_checked_at_every_level() {
    assert!(tree(vec![("a", leaf("A")), ("b", branch(vec![("a", leaf("A"))]))]).has_unique_keys());
    assert!(!tree(vec![("a", leaf("A")), ("a", leaf("B"))]).has_unique_keys());
    assert!(!tree(vec![("b", branch(vec![("x", leaf("1")), ("x", leaf("2"))]))]).has_unique_keys());
    assert!(tree(vec![]).has_unique_keys());
}
