//! The instruction tree locator: matches at every depth are collected, and
//! a match never stops descent into its own subtree.

use drift_ingest::locator::find_all_instructions_by_program_id;
use drift_ingest::models::ReadOnlyInstruction;

fn node(pid: &str, data: &str, inner: Vec<ReadOnlyInstruction>) -> ReadOnlyInstruction {
    ReadOnlyInstruction {
        program_id: pid.to_string(),
        data: data.to_string(),
        accounts: vec![],
        inner_instructions: inner,
    }
}

#[test]
fn matches_at_depth_one_and_three_are_both_found() {
    let depth3 = node("target", "deep", vec![]);
    let depth2 = node("other", "middle", vec![depth3]);
    let depth1 = node("target", "shallow", vec![depth2]);
    let found = find_all_instructions_by_program_id(vec![depth1], "target");
    assert_eq!(found.len(), 2);
    assert_eq!(found[0].data, "shallow");
    assert_eq!(found[1].data, "deep");
}

#[test]
fn match_inside_non_matching_sibling_is_found() {
    let hidden = node("target", "hidden", vec![]);
    let wrapper = node("other", "wrapper", vec![hidden]);
    let plain = node("other", "plain", vec![]);
    let found = find_all_instructions_by_program_id(vec![plain, wrapper], "target");
    assert_eq!(found.len(), 1);
    assert_eq!(found[0].data, "hidden");
}

#[test]
fn no_match_gives_empty_result() {
    let t = node("a", "x", vec![node("b", "y", vec![])]);
    let found = find_all_instructions_by_program_id(vec![t], "target");
    assert!(found.is_empty());
}

#[test]
fn matched_node_keeps_its_subtree() {
    let child = node("inner", "c", vec![]);
    let top = node("target", "t", vec![child]);
    let found = find_all_instructions_by_program_id(vec![top], "target");
    assert_eq!(found.len(), 1);
    assert_eq!(found[0].inner_instructions.len(), 1);
    assert_eq!(found[0].inner_instructions[0].data, "c");
}

#[test]
fn results_keep_depth_first_order() {
    let a = node("target", "a", vec![]);
    let b = node("target", "b", vec![]);
    let top1 = node("other", "t1", vec![a]);
    let top2 = node("target", "t2", vec![]);
    let found = find_all_instructions_by_program_id(vec![top1, top2, b], "target");
    let datas: Vec<&str> = found.iter().map(|i| i.data.as_str()).collect();
    assert_eq!(datas, vec!["a", "t2", "b"]);
}
