//! The transaction flattener: nested instruction attachment by stack
//! height, the two upstream message shapes, and the skip conditions.

use drift_ingest::flatten::{
    EncodedTransactionExtractor, InnerInstruction, InnerInstructionEntry, ParsedInstruction,
    RawInstruction, TxMessage,
};

fn accounts() -> Vec<String> {
    vec![
        "prog".to_string(),
        "acc1".to_string(),
        "progA".to_string(),
        "progB".to_string(),
        "progC".to_string(),
    ]
}

fn raw_top() -> TxMessage {
    TxMessage::Raw {
        instructions: vec![RawInstruction {
            program_id_index: 0,
            accounts: vec![1],
            data: "top".to_string(),
        }],
    }
}

fn inner(pid: u8, data: &str, height: Option<u32>) -> InnerInstruction {
    InnerInstruction {
        program_id_index: pid,
        accounts: vec![],
        data: data.to_string(),
        stack_height: height,
    }
}

fn extractor(
    message: TxMessage,
    inners: Option<Vec<InnerInstructionEntry>>,
) -> EncodedTransactionExtractor {
    EncodedTransactionExtractor::new(
        Some(123),
        false,
        vec!["sig1".to_string(), "sig2".to_string()],
        message,
        inners,
        Some(vec!["log1".to_string(), "log2".to_string()]),
        accounts(),
    )
}

#[test]
fn heights_two_three_two_nest_as_siblings_with_one_child() {
    let entries = vec![InnerInstructionEntry {
        index: 0,
        instructions: vec![
            inner(2, "A", Some(2)),
            inner(3, "B", Some(3)),
            inner(4, "C", Some(2)),
        ],
    }];
    let e = extractor(raw_top(), Some(entries));
    let tx = e.parse_readonly_transaction().unwrap();
    assert_eq!(tx.instructions.len(), 1);
    let top = &tx.instructions[0];
    assert_eq!(top.program_id, "prog");
    assert_eq!(top.data, "top");
    assert_eq!(top.accounts, vec!["acc1".to_string()]);
    assert_eq!(top.inner_instructions.len(), 2);
    let a = &top.inner_instructions[0];
    let c = &top.inner_instructions[1];
    assert_eq!(a.data, "A");
    assert_eq!(a.program_id, "progA");
    assert_eq!(c.data, "C");
    assert_eq!(c.program_id, "progC");
    assert_eq!(a.inner_instructions.len(), 1);
    assert_eq!(a.inner_instructions[0].data, "B");
    assert_eq!(a.inner_instructions[0].program_id, "progB");
    assert_eq!(c.inner_instructions.len(), 0);
}

#[test]
fn transaction_with_execution_error_yields_nothing() {
    let mut e = extractor(raw_top(), None);
    e.has_error = true;
    assert!(e.parse_readonly_transaction().is_none());
}

#[test]
fn transaction_without_timestamp_yields_nothing() {
    let mut e = extractor(raw_top(), None);
    e.block_time = None;
    assert!(e.parse_readonly_transaction().is_none());
}

#[test]
fn transaction_without_signer_yields_nothing() {
    let mut e = extractor(raw_top(), None);
    e.signatures = vec![];
    assert!(e.parse_readonly_transaction().is_none());
}

#[test]
fn signature_is_first_signer() {
    let e = extractor(raw_top(), None);
    let tx = e.parse_readonly_transaction().unwrap();
    assert_eq!(tx.signature, "sig1");
    assert_eq!(tx.block_time, 123);
}

#[test]
fn logs_are_copied_in_order() {
    let e = extractor(raw_top(), None);
    let tx = e.parse_readonly_transaction().unwrap();
    assert_eq!(tx.log_messages, vec!["log1".to_string(), "log2".to_string()]);
    assert_eq!(tx.accounts, accounts());
}

#[test]
fn missing_logs_give_empty_list() {
    let mut e = extractor(raw_top(), None);
    e.log_messages = None;
    let tx = e.parse_readonly_transaction().unwrap();
    assert!(tx.log_messages.is_empty());
}

#[test]
fn skipped_ancestor_fails_the_transaction() {
    let entries = vec![InnerInstructionEntry {
        index: 0,
        instructions: vec![inner(2, "deep", Some(5))],
    }];
    let e = extractor(raw_top(), Some(entries));
    assert!(e.parse_readonly_transaction().is_none());
}

#[test]
fn inner_without_stack_height_is_skipped() {
    let entries = vec![InnerInstructionEntry {
        index: 0,
        instructions: vec![inner(2, "ghostless", None), inner(3, "kept", Some(2))],
    }];
    let e = extractor(raw_top(), Some(entries));
    let tx = e.parse_readonly_transaction().unwrap();
    let top = &tx.instructions[0];
    assert_eq!(top.inner_instructions.len(), 1);
    assert_eq!(top.inner_instructions[0].data, "kept");
}

#[test]
fn entry_index_out_of_range_fails_the_transaction() {
    let entries = vec![InnerInstructionEntry { index: 9, instructions: vec![] }];
    let e = extractor(raw_top(), Some(entries));
    assert!(e.parse_readonly_transaction().is_none());
}

#[test]
fn raw_account_index_out_of_range_fails_the_transaction() {
    let msg = TxMessage::Raw {
        instructions: vec![RawInstruction {
            program_id_index: 0,
            accounts: vec![42],
            data: "top".to_string(),
        }],
    };
    let e = extractor(msg, None);
    assert!(e.parse_readonly_transaction().is_none());
}

#[test]
fn raw_program_index_out_of_range_fails_the_transaction() {
    let msg = TxMessage::Raw {
        instructions: vec![RawInstruction {
            program_id_index: 42,
            accounts: vec![],
            data: "top".to_string(),
        }],
    };
    let e = extractor(msg, None);
    assert!(e.parse_readonly_transaction().is_none());
}

#[test]
fn parsed_message_keeps_given_values_and_skips_compiled() {
    let msg = TxMessage::Parsed {
        instructions: vec![
            ParsedInstruction::Compiled,
            ParsedInstruction::PartiallyDecoded {
                program_id: "p1".to_string(),
                data: "d1".to_string(),
                accounts: vec!["a".to_string(), "b".to_string()],
            },
            ParsedInstruction::Parsed {
                program_id: "p2".to_string(),
                json: "{\"kind\":\"transfer\"}".to_string(),
            },
        ],
    };
    let e = extractor(msg, None);
    let tx = e.parse_readonly_transaction().unwrap();
    assert_eq!(tx.instructions.len(), 2);
    assert_eq!(tx.instructions[0].program_id, "p1");
    assert_eq!(tx.instructions[0].data, "d1");
    assert_eq!(
        tx.instructions[0].accounts,
        vec!["a".to_string(), "b".to_string()]
    );
    assert_eq!(tx.instructions[1].program_id, "p2");
    assert_eq!(tx.instructions[1].data, "{\"kind\":\"transfer\"}");
    assert!(tx.instructions[1].accounts.is_empty());
}

#[test]
fn inner_attachment_applies_to_parsed_shape_too() {
    let msg = TxMessage::Parsed {
        instructions: vec![ParsedInstruction::PartiallyDecoded {
            program_id: "p1".to_string(),
            data: "d1".to_string(),
            accounts: vec![],
        }],
    };
    let entries = vec![InnerInstructionEntry {
        index: 0,
        instructions: vec![inner(2, "child", Some(2))],
    }];
    let e = extractor(msg, Some(entries));
    let tx = e.parse_readonly_transaction().unwrap();
    assert_eq!(tx.instructions[0].inner_instructions.len(), 1);
    assert_eq!(tx.instructions[0].inner_instructions[0].data, "child");
}
