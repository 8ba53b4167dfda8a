use mdp::parser::{find_section, get_block, parse_heading_path, parse_sections, BlockType};
use mdp::error::PatchError;

#[test]
fn test_parse_simple_heading() {
    let content = b"# Title\n\nSome paragraph.\n\n## Subtitle\n\nMore text.";
    let sections = parse_sections(content).unwrap();
    assert_eq!(sections.len(), 2);
    assert_eq!(sections[0].heading, b"# Title".to_vec());
    assert_eq!(sections[0].blocks.len(), 1);
    assert_eq!(sections[1].heading, b"## Subtitle".to_vec());
}

#[test]
fn test_parse_code_block() {
    let content = b"# Title\n\n```rust\nfn main() {}\n```\n";
    let sections = parse_sections(content).unwrap();
    assert_eq!(sections[0].blocks.len(), 1);
    assert!(matches!(sections[0].blocks[0].block_type, BlockType::CodeBlock { .. }));
}

#[test]
fn test_parse_block_offsets_exact() {
    let content = b"# Doc\n\nHello world.\n";
    let sections = parse_sections(content).unwrap();
    assert_eq!(sections.len(), 1);
    assert_eq!(sections[0].heading_start, 0);
    assert_eq!(sections[0].heading_end, 5);
    let b = &sections[0].blocks[0];
    assert_eq!(b.start, 7);
    assert_eq!(b.end, 19);
    assert_eq!(b.content, b"Hello world.".to_vec());
    assert_eq!(&content[b.start..b.end], b"Hello world.");
}

#[test]
fn test_parse_block_kinds() {
    let content = b"# T\n\n> quoted\n> more\n\n- one\n- two\n\n| a | b |\n| c | d |\n\n<div>\nx\n</div>\n\n---\n\npara\n";
    let sections = parse_sections(content).unwrap();
    let kinds: Vec<&BlockType> = sections[0].blocks.iter().map(|b| &b.block_type).collect();
    assert!(matches!(kinds[0], BlockType::BlockQuote));
    assert!(matches!(kinds[1], BlockType::List { ordered: false }));
    assert!(matches!(kinds[2], BlockType::Table));
    assert!(matches!(kinds[3], BlockType::Html));
    assert!(matches!(kinds[4], BlockType::ThematicBreak));
    assert!(matches!(kinds[5], BlockType::Paragraph));
}

#[test]
fn test_parse_ordered_list_and_lang() {
    let content = b"# T\n\n1. first\n2. second\n\n```rust\nlet x = 1;\n```\n";
    let sections = parse_sections(content).unwrap();
    assert!(matches!(sections[0].blocks[0].block_type, BlockType::List { ordered: true }));
    match &sections[0].blocks[1].block_type {
        BlockType::CodeBlock { lang } => assert_eq!(lang.as_ref().unwrap(), &b"rust".to_vec()),
        _ => panic!("expected a code block"),
    }
}

#[test]
fn test_parse_text_before_first_heading_dropped() {
    let content = b"stray text\n\n# First\n\nbody\n";
    let sections = parse_sections(content).unwrap();
    assert_eq!(sections.len(), 1);
    assert_eq!(sections[0].heading, b"# First".to_vec());
}

#[test]
fn test_parse_heading_level_and_normalization() {
    let content = b"###   Deep Title\n\nx\n";
    let sections = parse_sections(content).unwrap();
    assert_eq!(sections[0].heading_level, 3);
    assert_eq!(sections[0].heading, b"### Deep Title".to_vec());
}

#[test]
fn test_find_section_not_found() {
    let sections = parse_sections(b"# Doc\n\nContent\n").unwrap();
    let path = vec![b"## NonExistent".to_vec()];
    match find_section(&sections, &path) {
        Err(PatchError::HeadingNotFound { heading }) => {
            assert_eq!(heading, b"## NonExistent".to_vec())
        }
        _ => panic!("expected HeadingNotFound"),
    }
}

#[test]
fn test_find_section_ambiguous() {
    let sections =
        parse_sections(b"# Doc A\n\n## AmbigSection\n\nA\n\n# Doc B\n\n## AmbigSection\n\nB\n")
            .unwrap();
    let path = vec![b"## AmbigSection".to_vec()];
    assert!(matches!(
        find_section(&sections, &path),
        Err(PatchError::AmbiguousHeading { .. })
    ));
}

#[test]
fn test_find_section_nested_path() {
    let sections =
        parse_sections(b"# Doc A\n\n## Section\n\nContent A\n\n# Doc B\n\n## Section\n\nContent B\n")
            .unwrap();
    let path = vec![b"# Doc A".to_vec(), b"## Section".to_vec()];
    let sec = find_section(&sections, &path).unwrap();
    assert_eq!(sec.blocks[0].content, b"Content A".to_vec());
}

#[test]
fn test_find_section_subheading_not_found() {
    let sections = parse_sections(b"# Doc\n\n## Child\n\nx\n\n# Next\n\n## Child\n\ny\n").unwrap();
    let path = vec![b"# Doc".to_vec(), b"## Missing".to_vec()];
    assert!(matches!(
        find_section(&sections, &path),
        Err(PatchError::SubheadingNotFound { .. })
    ));
}

#[test]
fn test_find_section_empty_path() {
    let sections = parse_sections(b"# Doc\n\nContent\n").unwrap();
    let path: Vec<Vec<u8>> = Vec::new();
    assert!(matches!(find_section(&sections, &path), Err(PatchError::EmptyHeadingPath)));
}

#[test]
fn test_get_block_out_of_range() {
    let sections = parse_sections(b"# Doc\n\nOnly one.\n").unwrap();
    match get_block(&sections[0], 5) {
        Err(PatchError::BlockIndexOutOfRange { index, available }) => {
            assert_eq!(index, 5);
            assert_eq!(available, 1);
        }
        _ => panic!("expected BlockIndexOutOfRange"),
    }
    assert!(get_block(&sections[0], 0).is_ok());
}

#[test]
fn test_parse_heading_path_splits_markers() {
    let parsed = parse_heading_path(b"# Title ## Subtitle").unwrap();
    assert_eq!(parsed, vec![b"# Title".to_vec(), b"## Subtitle".to_vec()]);
    let single = parse_heading_path(b"## Only One").unwrap();
    assert_eq!(single, vec![b"## Only One".to_vec()]);
}

#[test]
fn test_parse_heading_path_invalid() {
    assert!(matches!(
        parse_heading_path(b"no markers here"),
        Err(PatchError::InvalidHeadingPath)
    ));
}
