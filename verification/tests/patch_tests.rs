use mdp::parser::{Block, BlockType};
use mdp::patch::{apply_append, apply_delete, apply_replace, compute_lcs, generate_diff};
use mdp::output::format_diff;

#[test]
fn test_apply_append() {
    let content = b"# Title\n\nFirst paragraph.\n\nSecond paragraph.\n";
    let block = Block {
        start: 9,
        end: 25,
        content: b"First paragraph.".to_vec(),
        block_type: BlockType::Paragraph,
    };
    let result = apply_append(content, &block, &Some(b"New content".to_vec())).unwrap();
    let text = String::from_utf8(result).unwrap();
    assert!(text.contains("First paragraph.\nNew content"));
}

#[test]
fn test_apply_replace() {
    let content = b"# Title\n\nOld content.\n\nOther text.\n";
    let block = Block {
        start: 10,
        end: 23,
        content: b"Old content.".to_vec(),
        block_type: BlockType::Paragraph,
    };
    let result = apply_replace(content, &block, &Some(b"New content.".to_vec())).unwrap();
    let text = String::from_utf8(result).unwrap();
    assert!(text.contains("New content."));
    assert!(!text.contains("Old content."));
}

#[test]
fn test_apply_delete() {
    let content = b"# Title\n\nDelete me.\n\nKeep me.\n";
    let block = Block {
        start: 10,
        end: 21,
        content: b"Delete me.".to_vec(),
        block_type: BlockType::Paragraph,
    };
    let result = apply_delete(content, &block).unwrap();
    let text = String::from_utf8(result).unwrap();
    assert!(!text.contains("Delete me."));
    assert!(text.contains("Keep me."));
}

#[test]
fn test_apply_append_missing_content() {
    let content = b"# T\n\nx\n";
    let block = Block { start: 5, end: 6, content: b"x".to_vec(), block_type: BlockType::Paragraph };
    assert!(apply_append(content, &block, &None).is_err());
    assert!(apply_replace(content, &block, &None).is_err());
}

#[test]
fn test_apply_replace_exact_splice() {
    // bytes before the block and after it stay identical; the range holds
    // exactly the replacement
    let content = b"AAABBBCCC";
    let block =
        Block { start: 3, end: 6, content: b"BBB".to_vec(), block_type: BlockType::Paragraph };
    let result = apply_replace(content, &block, &Some(b"XY".to_vec())).unwrap();
    assert_eq!(result, b"AAAXYCCC".to_vec());
}

#[test]
fn test_apply_delete_collapses_newlines() {
    // deleting the middle block leaves four consecutive newlines, which
    // collapse to exactly two
    let content = b"# T\n\nfirst\n\nmiddle\n\nlast\n";
    let block =
        Block { start: 12, end: 18, content: b"middle".to_vec(), block_type: BlockType::Paragraph };
    let result = apply_delete(content, &block).unwrap();
    assert_eq!(result, b"# T\n\nfirst\n\nlast\n".to_vec());
    let text = String::from_utf8(result).unwrap();
    assert!(!text.contains("\n\n\n"));
}

#[test]
fn test_compute_lcs_exact() {
    let a: Vec<Vec<u8>> = vec![b"a".to_vec(), b"b".to_vec(), b"c".to_vec(), b"d".to_vec()];
    let b: Vec<Vec<u8>> = vec![b"a".to_vec(), b"x".to_vec(), b"c".to_vec(), b"d".to_vec()];
    let lcs = compute_lcs(&a, &b);
    assert_eq!(lcs, vec![b"a".to_vec(), b"c".to_vec(), b"d".to_vec()]);
}

#[test]
fn test_generate_diff_exact() {
    let diff = generate_diff(b"a\nb\n", b"a\nc\n", b"f.md");
    assert_eq!(
        String::from_utf8(diff).unwrap(),
        "--- a/f.md\n+++ b/f.md\n a\n-b\n+c\n"
    );
}

#[test]
fn test_generate_diff_equal_inputs_no_changes() {
    let diff = generate_diff(b"a\nb\nc\n", b"a\nb\nc\n", b"doc.md");
    let text = String::from_utf8(diff).unwrap();
    for line in text.lines().skip(2) {
        assert!(line.starts_with(' '), "unexpected change line: {}", line);
    }
}

#[test]
fn test_generate_diff_round_trip() {
    // replaying the diff's context/additions yields the modified text, and
    // its context/deletions the original
    let original = b"one\ntwo\nthree\nfour\n";
    let modified = b"one\n2\nthree\nfour\nfive\n";
    let diff = generate_diff(original, modified, b"f");
    let text = String::from_utf8(diff).unwrap();
    let mut rebuilt_new = String::new();
    let mut rebuilt_old = String::new();
    for line in text.lines().skip(2) {
        let (mark, rest) = line.split_at(1);
        match mark {
            " " => {
                rebuilt_new.push_str(rest);
                rebuilt_new.push('\n');
                rebuilt_old.push_str(rest);
                rebuilt_old.push('\n');
            }
            "+" => {
                rebuilt_new.push_str(rest);
                rebuilt_new.push('\n');
            }
            "-" => {
                rebuilt_old.push_str(rest);
                rebuilt_old.push('\n');
            }
            _ => panic!("unexpected prefix"),
        }
    }
    assert_eq!(rebuilt_new.as_bytes(), modified);
    assert_eq!(rebuilt_old.as_bytes(), original);
}

#[test]
fn test_format_diff_exact() {
    let diff = format_diff(b"a\nb\n", b"a\nc\n", b"f.md");
    assert_eq!(
        String::from_utf8(diff).unwrap(),
        "--- a/f.md\n+++ b/f.md\n@@ -1,2 +2,2 @@\n a\n-b\n+c\n"
    );
}

#[test]
fn test_format_diff_equal_inputs_header_only() {
    let diff = format_diff(b"same\n", b"same\n", b"x.md");
    assert_eq!(String::from_utf8(diff).unwrap(), "--- a/x.md\n+++ b/x.md\n");
}
