//! Reformats an indented checklist into a tree of tasks and renders that
//! tree back as lines decorated with status glyphs.

use std::collections::HashSet;

use vstd::prelude::*;

use crate::kernel::task::{flatten_forest, NodeView};
use crate::parser::{
    admitted_len, assemble_tree, assembles_to, isolate_line, leading_blanks, lemma_admitted_all,
    spec_assemble_error, spec_entries, spec_entry, spec_isolate_line, well_nested, ParseError,
    RawNode, RawNodeView,
};
use crate::prettier::{lemma_line_indent, pretty_tree, spec_line, spec_lines};
use crate::strings::white_space;

pub mod kernel;
pub mod parser;
pub mod prettier;
pub mod strings;

verus! {

/// An option of the rendering.
#[derive(Debug, Eq, PartialEq, Hash)]
pub enum PrettyFlag {
    HideDetails { depth: u8 },
}

impl PrettyFlag {
    /// How much the flag weighs against the others.
    pub fn priority(&self) -> (priority: FlagPriority)
        ensures
            priority == FlagPriority::Innocuity,
    {
        match self {
            PrettyFlag::HideDetails { .. } => FlagPriority::Innocuity,
        }
    }
}

/// The weight of a flag.
#[derive(PartialEq, Eq, PartialOrd)]
pub enum FlagPriority {
    Innocuity,
}

/// A line with nothing on it but whitespace.
pub open spec fn spec_is_blank_line(line: Seq<char>) -> bool {
    forall|i: int| 0 <= i < line.len() ==> white_space(#[trigger] line[i])
}

/// The lines of a block that have something on them, in their order.
pub open spec fn spec_discard_blank_lines(block: Seq<Seq<char>>) -> Seq<Seq<char>> {
    block.filter(|line: Seq<char>| !spec_is_blank_line(line))
}

/// The lines of a block joined by line feeds, with none after the last line.
pub open spec fn spec_join_lines(block: Seq<Seq<char>>) -> Seq<char>
    decreases block.len(),
{
    if block.len() == 0 {
        Seq::empty()
    } else if block.len() == 1 {
        block[0]
    } else {
        spec_join_lines(block.drop_last()) + seq!['\n'] + block.last()
    }
}

/// Tells whether a line holds nothing but whitespace.
pub fn is_blank_line(line: &str) -> (blank: bool)
    ensures
        blank == spec_is_blank_line(line@),
{
    for ch in it: line.chars()
        invariant
            it.seq() == line@,
            forall|i: int| 0 <= i < it.index() ==> white_space(#[trigger] line@[i]),
    {
        if !ch.is_whitespace() {
            assert(!white_space(line@[it.index() as int]));
            return false;
        }
    }
    true
}

/// Keeps the lines that have something on them.
pub fn discard_blank_lines(lines: Vec<String>) -> (kept: Vec<String>)
    ensures
        kept.deep_view() == spec_discard_blank_lines(lines.deep_view()),
{
    let ghost block = lines.deep_view();
    let ghost wanted = |line: Seq<char>| !spec_is_blank_line(line);
    let mut kept: Vec<String> = Vec::new();
    proof {
        reveal(Seq::filter);
        assert(block.take(0).filter(wanted) =~= kept.deep_view());
    }
    for line in it: lines
        invariant
            block == lines.deep_view(),
            wanted == (|line: Seq<char>| !spec_is_blank_line(line)),
            it.seq().len() == block.len(),
            forall|i: int| 0 <= i < block.len() ==> (#[trigger] it.seq()[i])@ == block[i],
            kept.deep_view() == block.take(it.index() as int).filter(wanted),
    {
        let ghost at = it.index() as int;
        let ghost before = kept.deep_view();
        proof {
            reveal(Seq::filter);
            assert(block.take(at + 1).drop_last() =~= block.take(at));
            assert(block.take(at + 1).last() == line@);
        }
        if !is_blank_line(line.as_str()) {
            kept.push(line);
            assert(kept.deep_view() =~= before.push(line@));
        }
    }
    assert(block.take(block.len() as int) =~= block);
    kept
}

/// Joins the lines of a block by line feeds.
pub fn join_lines(lines: &Vec<String>) -> (text: String)
    ensures
        text@ == spec_join_lines(lines.deep_view()),
{
    let ghost block = lines.deep_view();
    let mut text = String::new();
    let mut i: usize = 0;
    assert(block.take(0) =~= Seq::<Seq<char>>::empty());
    while i < lines.len()
        invariant
            i <= lines.len(),
            block == lines.deep_view(),
            text@ == spec_join_lines(block.take(i as int)),
        decreases lines.len() - i,
    {
        proof {
            assert(block.take(i + 1).drop_last() =~= block.take(i as int));
            assert(block.take(i + 1).last() == lines[i as int]@);
        }
        if i > 0 {
            text.push('\n');
        }
        text.append(lines[i].as_str());
        assert(text@ =~= spec_join_lines(block.take(i + 1)));
        i += 1;
    }
    assert(block.take(lines.len() as int) =~= block);
    text
}

/// What each line of a block splits into.
pub open spec fn spec_isolate_lines(input: Seq<Seq<char>>) -> Seq<RawNodeView> {
    Seq::new(input.len(), |i: int| spec_isolate_line(input[i]))
}

/// What a block of lines is reformatted to: the admitted lines, each
/// rendered from its own depth, status and label, in their order; or the
/// error that stops the assembly.
pub open spec fn spec_pretty(input: Seq<Seq<char>>) -> Result<Seq<Seq<char>>, ParseError> {
    let lines = spec_isolate_lines(input);
    match spec_assemble_error(lines) {
        Some(e) => Err(e),
        None => {
            let entries = spec_entries(lines);
            Ok(spec_lines(entries.take(admitted_len(entries))))
        },
    }
}

/// Reformats a block of checklist lines: splits each line, builds the tree
/// of the block and renders it. The flags are taken and change nothing.
pub fn pretty(input: Vec<String>, _flags: HashSet<PrettyFlag>) -> (res: Result<
    Vec<String>,
    ParseError,
>)
    ensures
        match res {
            Ok(lines) => spec_pretty(input.deep_view()) == Ok::<Seq<Seq<char>>, ParseError>(
                lines.deep_view(),
            ),
            Err(e) => spec_pretty(input.deep_view()) == Err::<Seq<Seq<char>>, ParseError>(e),
        },
{
    let ghost block = input.deep_view();
    let mut raw_nodes: Vec<RawNode> = Vec::new();
    for text in it: input
        invariant
            block == input.deep_view(),
            it.seq().len() == block.len(),
            forall|i: int| 0 <= i < block.len() ==> (#[trigger] it.seq()[i])@ == block[i],
            raw_nodes.deep_view() == spec_isolate_lines(block.take(it.index() as int)),
    {
        let ghost at = it.index() as int;
        let ghost before = raw_nodes.deep_view();
        let node = isolate_line(text);
        raw_nodes.push(node);
        assert(raw_nodes.deep_view() =~= before.push(node@));
        assert(raw_nodes.deep_view() =~= spec_isolate_lines(block.take(at + 1)));
    }
    assert(block.take(block.len() as int) =~= block);
    let tree = assemble_tree(raw_nodes)?;
    Ok(pretty_tree(tree))
}

/// Every rendered line stands for the input line at the same place: it is
/// rendered from the depth, status and label of that line, and its
/// indentation is two blanks for each level of that depth. No line is
/// rendered twice or out of order, and none beyond the admitted ones.
pub proof fn lemma_lines_follow_input(lines: Seq<RawNodeView>, forest: Seq<NodeView>)
    requires
        assembles_to(lines, forest),
    ensures
        spec_lines(flatten_forest(forest)).len() == admitted_len(spec_entries(lines)),
        spec_lines(flatten_forest(forest)).len() <= lines.len(),
        forall|i: int|
            #![trigger spec_lines(flatten_forest(forest))[i]]
            0 <= i < spec_lines(flatten_forest(forest)).len() ==> {
                &&& flatten_forest(forest)[i].depth == lines[i].depth()
                &&& spec_lines(flatten_forest(forest))[i] == spec_line(spec_entry(lines[i]))
                &&& leading_blanks(spec_lines(flatten_forest(forest))[i]) == 2 * lines[i].depth()
            },
{
    let entries = spec_entries(lines);
    lemma_admitted_all(entries);
    assert forall|i: int|
        #![trigger spec_lines(flatten_forest(forest))[i]]
        0 <= i < spec_lines(flatten_forest(forest)).len() implies {
        &&& flatten_forest(forest)[i].depth == lines[i].depth()
        &&& spec_lines(flatten_forest(forest))[i] == spec_line(spec_entry(lines[i]))
        &&& leading_blanks(spec_lines(flatten_forest(forest))[i]) == 2 * lines[i].depth()
    } by {
        assert(flatten_forest(forest)[i] == entries[i]);
        lemma_line_indent(entries[i]);
    }
}

/// A well_nested block loses no line: its tree renders to as many lines as the
/// block holds.
pub proof fn lemma_one_line_per_item(lines: Seq<RawNodeView>, forest: Seq<NodeView>)
    requires
        assembles_to(lines, forest),
        well_nested(spec_entries(lines)),
    ensures
        spec_lines(flatten_forest(forest)).len() == lines.len(),
{
    lemma_admitted_all(spec_entries(lines));
}

} // verus!
