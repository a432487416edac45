use std::collections::BTreeSet;

use braze_sync::diff::content_block::ContentBlockDiff;
use braze_sync::diff::content_block_order::{
    extract_block_references, reorder_content_block_diffs_by_dependency, topo_sort, Cycle, Edge,
};
use braze_sync::diff::{DiffOp, ResourceDiff};
use braze_sync::resource::{ContentBlock, ContentBlockState};

fn cb(name: &str, body: &str) -> ContentBlock {
    ContentBlock {
        name: name.into(),
        description: None,
        content: body.into(),
        tags: vec![],
        state: ContentBlockState::Active,
    }
}

fn added(name: &str, body: &str) -> ResourceDiff {
    ResourceDiff::ContentBlock(ContentBlockDiff {
        name: name.into(),
        op: DiffOp::Added(cb(name, body)),
        text_diff: None,
        orphan: false,
    })
}

fn unchanged(name: &str) -> ResourceDiff {
    ResourceDiff::ContentBlock(ContentBlockDiff {
        name: name.into(),
        op: DiffOp::Unchanged,
        text_diff: None,
        orphan: false,
    })
}

fn order(diffs: &[ResourceDiff]) -> Vec<&str> {
    diffs
        .iter()
        .filter_map(|d| match d {
            ResourceDiff::ContentBlock(cb) => Some(cb.name.as_str()),
            _ => None,
        })
        .collect()
}

#[test]
fn extracts_a_single_reference() {
    let body = "Hello {{content_blocks.${other_block} | id: 'cb1'}}!";
    assert_eq!(extract_block_references(body), vec!["other_block"]);
}

#[test]
fn extracts_references_with_whitespace_variations() {
    let body = "
        {{content_blocks.${a}}}
        {{ content_blocks.${ b } }}
        {{content_blocks.${c} | id: 'x' }}
        {{ content_blocks.${d}  | id: 'y'}}
    ";
    assert_eq!(extract_block_references(body), vec!["a", "b", "c", "d"]);
}

#[test]
fn extracts_multiple_references_in_one_body() {
    let body = "head {{content_blocks.${one}}} mid {{content_blocks.${two}}} tail";
    assert_eq!(extract_block_references(body), vec!["one", "two"]);
}

#[test]
fn ignores_unrelated_liquid() {
    let body = "{{ user.${first_name} }} {{ campaign.${id} }}";
    assert!(extract_block_references(body).is_empty());
}

#[test]
fn topo_sort_emits_targets_before_referrers() {
    let nodes = vec!["a".to_string(), "b".to_string()];
    let mut edges: Vec<Edge> = Vec::new();
    edges.push(edge("a", &["b"]));
    let out = topo_sort(&nodes, &edges).unwrap();
    assert_eq!(out, vec!["b".to_string(), "a".to_string()]);
}

#[test]
fn topo_sort_drops_edges_to_unknown_targets() {
    let nodes = vec!["a".to_string()];
    let mut edges: Vec<Edge> = Vec::new();
    edges.push(edge("a", &["b"]));
    let out = topo_sort(&nodes, &edges).unwrap();
    assert_eq!(out, vec!["a".to_string()]);
}

#[test]
fn topo_sort_detects_cycle_and_names_it() {
    let nodes = vec!["a".to_string(), "b".to_string(), "c".to_string()];
    let mut edges: Vec<Edge> = Vec::new();
    edges.push(edge("a", &["b"]));
    edges.push(edge("b", &["c"]));
    edges.push(edge("c", &["a"]));
    let err = topo_sort(&nodes, &edges).unwrap_err();
    assert_eq!(err.path.first(), err.path.last());
    let s: BTreeSet<&str> = err.path.iter().map(String::as_str).collect();
    assert!(s.contains("a") && s.contains("b") && s.contains("c"));
}

#[test]
fn reorder_puts_dependency_target_before_referrer() {
    let diffs = vec![
        added("a_referrer", "see {{content_blocks.${b_target}}}"),
        added("b_target", "leaf"),
    ];
    let out = reorder_content_block_diffs_by_dependency(diffs).unwrap();
    assert_eq!(order(&out), vec!["b_target", "a_referrer"]);
}

#[test]
fn reorder_keeps_independent_blocks_in_input_order() {
    let diffs = vec![
        added("alpha", "no refs"),
        added("bravo", "no refs"),
        added("charlie", "no refs"),
    ];
    let out = reorder_content_block_diffs_by_dependency(diffs).unwrap();
    assert_eq!(order(&out), vec!["alpha", "bravo", "charlie"]);
}

#[test]
fn reorder_treats_reference_to_unchanged_block_as_leaf() {
    let diffs = vec![
        added("referrer", "see {{content_blocks.${already_there}}}"),
        unchanged("already_there"),
    ];
    let out = reorder_content_block_diffs_by_dependency(diffs).unwrap();
    let names = order(&out);
    assert_eq!(names, vec!["referrer", "already_there"]);
}

#[test]
fn reorder_reports_cycle_with_block_names() {
    let diffs = vec![
        added("a", "{{content_blocks.${b}}}"),
        added("b", "{{content_blocks.${a}}}"),
    ];
    let err = reorder_content_block_diffs_by_dependency(diffs).unwrap_err();
    let s: BTreeSet<&str> = err.path.iter().map(String::as_str).collect();
    assert!(s.contains("a") && s.contains("b"));
}

#[test]
fn reorder_drops_self_reference_silently() {
    let diffs = vec![added("loner", "{{content_blocks.${loner}}}")];
    let out = reorder_content_block_diffs_by_dependency(diffs).unwrap();
    assert_eq!(order(&out), vec!["loner"]);
}

#[test]
fn reorder_handles_diamond_correctly() {
    let diffs = vec![
        added("a", "{{content_blocks.${b}}} and {{content_blocks.${c}}}"),
        added("b", "{{content_blocks.${d}}}"),
        added("c", "{{content_blocks.${d}}}"),
        added("d", "leaf"),
    ];
    let out = reorder_content_block_diffs_by_dependency(diffs).unwrap();
    let names = order(&out);
    let pos = |n: &str| names.iter().position(|x| *x == n).unwrap();
    assert!(pos("d") < pos("b"));
    assert!(pos("d") < pos("c"));
    assert!(pos("b") < pos("a"));
    assert!(pos("c") < pos("a"));
}

fn edge(name: &str, targets: &[&str]) -> Edge {
    Edge {
        referrer: name.into(),
        targets: targets.iter().map(|t| t.to_string()).collect(),
    }
}

#[test]
fn a_cycle_is_shown_as_a_path() {
    let c = Cycle {
        path: vec!["a".into(), "b".into(), "a".into()],
    };
    assert_eq!(c.to_string(), "a → b → a");
}

#[test]
fn an_order_that_holds_already_is_kept() {
    let nodes: Vec<String> = ["d", "b", "c", "a"].iter().map(|n| n.to_string()).collect();
    let edges = vec![
        edge("a", &["b", "c"]),
        edge("b", &["d"]),
        edge("c", &["d", "elsewhere"]),
    ];
    let once = topo_sort(&nodes, &edges).unwrap();
    assert_eq!(once, nodes);
    assert_eq!(topo_sort(&once, &edges).unwrap(), once);
}

#[test]
fn a_reported_cycle_leaves_out_what_leads_to_it() {
    let nodes: Vec<String> = ["x", "a", "b"].iter().map(|n| n.to_string()).collect();
    let edges = vec![edge("x", &["a"]), edge("a", &["b"]), edge("b", &["a"])];
    let err = topo_sort(&nodes, &edges).unwrap_err();
    assert_eq!(err.path, vec!["a", "b", "a"]);
}
