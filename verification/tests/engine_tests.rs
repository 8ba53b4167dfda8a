use mdp::config::{validate_operations, OperationConfig, OperationType};
use mdp::error::PatchError;
use mdp::output::{classify_error, classify_error_detail, extract_fingerprint_from_error};
use mdp::patch::{apply_operation, Operation, PatchOperation, PatchResult};

fn op(
    heading_path: Vec<Vec<u8>>,
    index: usize,
    operation: Operation,
    content: Option<Vec<u8>>,
    fingerprint: Option<Vec<u8>>,
) -> PatchOperation {
    PatchOperation {
        file: b"doc.md".to_vec(),
        heading_path,
        block_index: index,
        operation,
        content,
        fingerprint,
    }
}

#[test]
fn test_end_to_end_append() {
    // appending after the only block of a section splices the content in,
    // framed by newlines
    let doc = b"# Doc\n\n## Sec\n\nHello\n";
    let o = op(
        vec![b"## Sec".to_vec()],
        0,
        Operation::Append,
        Some(b"World".to_vec()),
        None,
    );
    match apply_operation(doc, &o, true).unwrap() {
        PatchResult::Applied { new_content, is_noop, .. } => {
            assert_eq!(new_content, b"# Doc\n\n## Sec\n\nHello\nWorld\n\n".to_vec());
            assert!(!is_noop);
        }
        _ => panic!("expected Applied in force mode"),
    }
}

#[test]
fn test_idempotent_append() {
    // the second identical append is a no-op: the text is unchanged and the
    // diff holds no added or removed line
    let doc = b"# Doc\n\n## UniqueSection\n\nOriginal\n".to_vec();
    let o = op(
        vec![b"## UniqueSection".to_vec()],
        0,
        Operation::Append,
        Some(b"New content".to_vec()),
        None,
    );
    let first = match apply_operation(&doc, &o, true).unwrap() {
        PatchResult::Applied { new_content, is_noop, .. } => {
            assert!(!is_noop);
            new_content
        }
        _ => panic!("expected Applied"),
    };
    assert!(String::from_utf8(first.clone()).unwrap().contains("New content"));
    match apply_operation(&first, &o, true).unwrap() {
        PatchResult::Applied { new_content, diff, is_noop } => {
            assert!(is_noop, "second append should be a no-op");
            assert_eq!(new_content, first);
            let text = String::from_utf8(diff).unwrap();
            for line in text.lines().skip(2) {
                assert!(!line.starts_with('+') && !line.starts_with('-'));
            }
        }
        _ => panic!("expected Applied"),
    }
}

#[test]
fn test_destructive_operation_requires_fingerprint_or_force() {
    let doc = b"# Doc\n\n## UniqueSensitive\n\nSensitive content\n";
    let o = op(
        vec![b"## UniqueSensitive".to_vec()],
        0,
        Operation::Replace,
        Some(b"New content".to_vec()),
        None,
    );
    match apply_operation(doc, &o, false) {
        Err(PatchError::UnsafeDestructiveOperation) => {}
        _ => panic!("replace without fingerprint or force must be refused"),
    }
}

#[test]
fn test_fingerprint_validation() {
    let doc = b"# Doc\n\n## TodoSection\n\nTODO: fix this\n";
    let wrong = op(
        vec![b"## TodoSection".to_vec()],
        0,
        Operation::Replace,
        Some(b"Fixed".to_vec()),
        Some(b"WRONG_PATTERN".to_vec()),
    );
    match apply_operation(doc, &wrong, true) {
        Err(e @ PatchError::FingerprintMismatch { .. }) => {
            assert_eq!(classify_error(&e), 3);
            assert_eq!(
                extract_fingerprint_from_error(&e),
                Some(b"WRONG_PATTERN".to_vec())
            );
        }
        _ => panic!("expected FingerprintMismatch"),
    }
    let right = op(
        vec![b"## TodoSection".to_vec()],
        0,
        Operation::Replace,
        Some(b"Fixed".to_vec()),
        Some(b"TODO.*fix".to_vec()),
    );
    match apply_operation(doc, &right, true).unwrap() {
        PatchResult::Applied { new_content, .. } => {
            let text = String::from_utf8(new_content).unwrap();
            assert!(text.contains("Fixed"));
            assert!(!text.contains("TODO: fix this"));
        }
        _ => panic!("expected Applied"),
    }
}

#[test]
fn test_invalid_fingerprint_pattern() {
    let doc = b"# Doc\n\nContent\n";
    let o = op(
        vec![b"# Doc".to_vec()],
        0,
        Operation::Replace,
        Some(b"x".to_vec()),
        Some(b"foo(bar".to_vec()),
    );
    assert!(matches!(
        apply_operation(doc, &o, true),
        Err(PatchError::InvalidFingerprint { .. })
    ));
}

#[test]
fn test_exit_code_heading_not_found() {
    let doc = b"# Doc\n\nContent\n";
    let o = op(
        vec![b"## NonExistent".to_vec()],
        0,
        Operation::Append,
        Some(b"x".to_vec()),
        None,
    );
    let e = apply_operation(doc, &o, false).unwrap_err();
    assert!(matches!(e, PatchError::HeadingNotFound { .. }));
    assert_eq!(classify_error(&e), 2);
}

#[test]
fn test_exit_code_ambiguous_heading() {
    let doc = b"# Doc A\n\n## AmbigSection\n\nA\n\n# Doc B\n\n## AmbigSection\n\nB\n";
    let o = op(
        vec![b"## AmbigSection".to_vec()],
        0,
        Operation::Append,
        Some(b"x".to_vec()),
        None,
    );
    let e = apply_operation(doc, &o, false).unwrap_err();
    assert!(matches!(e, PatchError::AmbiguousHeading { .. }));
    assert_eq!(classify_error(&e), 4);
}

#[test]
fn test_nested_heading_path() {
    // the nested path picks the first section's child; the appended content
    // lands between the two documents' bodies
    let doc = b"# Doc A\n\n## Section\n\nContent A\n\n# Doc B\n\n## Section\n\nContent B\n";
    let o = op(
        vec![b"# Doc A".to_vec(), b"## Section".to_vec()],
        0,
        Operation::Append,
        Some(b"Added to A".to_vec()),
        None,
    );
    match apply_operation(doc, &o, true).unwrap() {
        PatchResult::Applied { new_content, .. } => {
            let text = String::from_utf8(new_content).unwrap();
            let pos_a = text.find("Content A").unwrap();
            let pos_b = text.find("Content B").unwrap();
            let pos_added = text.find("Added to A").unwrap();
            assert!(pos_added > pos_a && pos_added < pos_b);
        }
        _ => panic!("expected Applied"),
    }
}

#[test]
fn test_block_index_out_of_range_error() {
    let doc = b"# Doc\n\nOnly block\n";
    let o = op(
        vec![b"# Doc".to_vec()],
        7,
        Operation::Append,
        Some(b"x".to_vec()),
        None,
    );
    match apply_operation(doc, &o, false) {
        Err(e @ PatchError::BlockIndexOutOfRange { index: 7, available: 1 }) => {
            assert_eq!(classify_error(&e), 1);
        }
        _ => panic!("expected BlockIndexOutOfRange"),
    }
}

#[test]
fn test_missing_content_error() {
    let doc = b"# Doc\n\nContent\n";
    let o = op(vec![b"# Doc".to_vec()], 0, Operation::Append, None, None);
    assert!(matches!(
        apply_operation(doc, &o, false),
        Err(PatchError::MissingContent)
    ));
}

#[test]
fn test_dry_run_reports_diff_only() {
    let doc = b"# Doc\n\nOld line\n";
    let o = op(
        vec![b"# Doc".to_vec()],
        0,
        Operation::Replace,
        Some(b"New line".to_vec()),
        None,
    );
    match apply_operation(doc, &o, false) {
        Err(PatchError::UnsafeDestructiveOperation) => {}
        _ => panic!("dry-run replace without fingerprint is still destructive"),
    }
    let append = op(
        vec![b"# Doc".to_vec()],
        0,
        Operation::Append,
        Some(b"More".to_vec()),
        None,
    );
    match apply_operation(doc, &append, false).unwrap() {
        PatchResult::DryRun { diff, is_noop } => {
            assert!(!is_noop);
            assert!(String::from_utf8(diff).unwrap().contains("+More"));
        }
        _ => panic!("expected DryRun without force"),
    }
}

#[test]
fn test_delete_with_fingerprint() {
    let doc = b"# Doc\n\nObsolete text\n\nKept text\n";
    let o = op(
        vec![b"# Doc".to_vec()],
        0,
        Operation::Delete,
        None,
        Some(b"Obsolete.*".to_vec()),
    );
    match apply_operation(doc, &o, true).unwrap() {
        PatchResult::Applied { new_content, .. } => {
            let text = String::from_utf8(new_content).unwrap();
            assert!(!text.contains("Obsolete"));
            assert!(text.contains("Kept text"));
            assert!(!text.contains("\n\n\n"));
        }
        _ => panic!("expected Applied"),
    }
}

#[test]
fn test_diff_filename_cleaned() {
    let doc = b"# Doc\n\nBody\n";
    let mut o = op(
        vec![b"# Doc".to_vec()],
        0,
        Operation::Append,
        Some(b"x".to_vec()),
        None,
    );
    o.file = b"./notes/doc.md".to_vec();
    match apply_operation(doc, &o, false).unwrap() {
        PatchResult::DryRun { diff, .. } => {
            let text = String::from_utf8(diff).unwrap();
            assert!(text.starts_with("--- a/notes/doc.md\n+++ b/notes/doc.md\n"));
        }
        _ => panic!("expected DryRun"),
    }
}

#[test]
fn test_classify_error_detail_codes() {
    let (code2, sugg2) = classify_error_detail(2);
    assert_eq!(code2, b"heading_not_found".to_vec());
    assert!(sugg2.is_some());
    let (code3, _) = classify_error_detail(3);
    assert_eq!(code3, b"fingerprint_mismatch".to_vec());
    let (code4, _) = classify_error_detail(4);
    assert_eq!(code4, b"ambiguous_heading".to_vec());
    let (code1, sugg1) = classify_error_detail(1);
    assert_eq!(code1, b"general_error".to_vec());
    assert!(sugg1.is_none());
}

#[test]
fn test_validate_operations() {
    let good = OperationConfig {
        file: b"a.md".to_vec(),
        heading: vec![b"# A".to_vec()],
        index: 0,
        operation: OperationType::Delete,
        content: None,
        fingerprint: None,
    };
    let bad = OperationConfig {
        file: b"b.md".to_vec(),
        heading: vec![b"# B".to_vec()],
        index: 0,
        operation: OperationType::Append,
        content: None,
        fingerprint: None,
    };
    assert!(validate_operations(&vec![good]).is_ok());
    match validate_operations(&vec![bad]) {
        Err((0, PatchError::MissingContent)) => {}
        _ => panic!("expected MissingContent at entry 0"),
    }
}
