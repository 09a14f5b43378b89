use std::collections::HashSet;

use nested_tasks_prettier::parser::{isolate_line, ParseError, RawNode};
use nested_tasks_prettier::{
    discard_blank_lines, is_blank_line, join_lines, pretty, FlagPriority, PrettyFlag,
};

fn block(lines: &[&str]) -> Vec<String> {
    lines.iter().map(|line| line.to_string()).collect()
}

fn no_flags() -> HashSet<PrettyFlag> {
    HashSet::new()
}

#[test]
fn test_pretty_block() {
    let input = block(&[
        "- [x] 1",
        "- [x] 2",
        "  - [x] 2-1",
        "  - [-] 2-2",
        "  - [>] 2-3",
        "    - [ ] 2-3-1",
        "- [>] 3",
    ]);

    let lines = pretty(input, no_flags()).unwrap();

    assert_eq!(
        lines,
        [
            "- ✅ 1",
            "- ✅ 2",
            "  - ✅ 2-1",
            "  - 🛑 2-2",
            "  - 🚧 2-3",
            "    - 📦 2-3-1",
            "- 🚧 3"
        ]
    );
}

#[test]
fn test_pretty_empty_block() {
    assert_eq!(pretty(vec![], no_flags()), Ok(vec![]));
}

#[test]
fn test_pretty_one_line_for_each_line_of_a_well_nested_block() {
    let input = block(&[
        "- [ ] a",
        "  - [ ] b",
        "    - [ ] c",
        "      - [ ] d",
        "  - [ ] e",
        "    - [ ] f",
        "- [ ] g",
        "- [ ] h",
        "  - [ ] i",
    ]);
    let count = input.len();

    let lines = pretty(input, no_flags()).unwrap();

    assert_eq!(lines.len(), count);
}

#[test]
fn test_pretty_keeps_depth_and_order_of_every_line() {
    let input = block(&[
        "- [x] a",
        "   - [-] b",
        "     - [>] c",
        "  - [ ] d",
        "- [x] e",
        " - [x] f",
    ]);
    let depths = [0usize, 1, 2, 1, 0, 0];
    let labels = ["a", "b", "c", "d", "e", "f"];

    let lines = pretty(input, no_flags()).unwrap();

    assert_eq!(lines.len(), labels.len());
    for (i, line) in lines.iter().enumerate() {
        let split = isolate_line(line.clone());
        assert_eq!(split, RawNode::new(2 * depths[i], line[2 * depths[i]..].to_owned()));
        assert!(line.ends_with(labels[i]));
    }
}

#[test]
fn test_pretty_drops_what_follows_a_skipped_level() {
    let input = block(&["- [x] a", "  - [x] b", "      - [x] c", "- [x] d"]);

    let lines = pretty(input, no_flags()).unwrap();

    assert_eq!(lines, ["- ✅ a", "  - ✅ b"]);
}

#[test]
fn test_pretty_rejects_a_bad_marker() {
    let input = block(&["- [x] a", "- [?] x"]);

    assert_eq!(pretty(input, no_flags()), Err(ParseError::InvalidStatusMarker));
}

#[test]
fn test_pretty_rejects_a_blank_line() {
    let input = block(&["- [x] a", "   ", "- [x] b"]);

    assert_eq!(pretty(input, no_flags()), Err(ParseError::InvalidStatusMarker));
}

#[test]
fn test_pretty_rejects_a_first_line_without_parent() {
    let input = block(&["  - [x] a", "- [x] b"]);

    assert_eq!(pretty(input, no_flags()), Err(ParseError::EmptyParentFrame));
}

#[test]
fn test_pretty_ignores_flags() {
    let mut flags = HashSet::new();
    flags.insert(PrettyFlag::HideDetails { depth: 1 });

    let lines = pretty(block(&["- [x] a", "  - [x] b"]), flags).unwrap();

    assert_eq!(lines, ["- ✅ a", "  - ✅ b"]);
}

#[test]
fn test_flag_priority() {
    let priority = PrettyFlag::HideDetails { depth: 3 }.priority();

    assert!(priority == FlagPriority::Innocuity);
}

#[test]
fn test_is_blank_line() {
    assert!(is_blank_line(""));
    assert!(is_blank_line("   "));
    assert!(is_blank_line(" \t\r\n\x0B\x0C"));
    assert!(is_blank_line("\u{3000}\u{A0}\u{2003}\u{85}"));
    assert!(!is_blank_line("x"));
    assert!(!is_blank_line("  - [x] a  "));
    assert!(!is_blank_line(" \u{200B} "));
    assert!(!is_blank_line("   越"));
}

#[test]
fn test_discard_blank_lines_keeps_the_others_in_order() {
    let input = block(&["", "- [x] a", "   ", "  - [x] b  ", "\u{3000}", "\t", "c", ""]);

    let kept = discard_blank_lines(input);

    assert_eq!(kept, ["- [x] a", "  - [x] b  ", "c"]);
}

#[test]
fn test_discard_blank_lines_of_nothing() {
    assert!(discard_blank_lines(vec![]).is_empty());
    assert!(discard_blank_lines(block(&["", " ", "\n"])).is_empty());
}

#[test]
fn test_join_lines() {
    assert_eq!(join_lines(&vec![]), "");
    assert_eq!(join_lines(&block(&["only"])), "only");
    assert_eq!(join_lines(&block(&["a", "", "b ✅"])), "a\n\nb ✅");
    assert_eq!(join_lines(&block(&["", ""])), "\n");
}

#[test]
fn test_block_through_every_stage() {
    let read = block(&["- [x] 1", "", "  - [-] 1-1", "    ", "- [ ] 2"]);

    let prettied = pretty(discard_blank_lines(read), no_flags()).unwrap();

    assert_eq!(join_lines(&prettied), "- ✅ 1\n  - 🛑 1-1\n- 📦 2");
}
