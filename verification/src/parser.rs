//! From lines of text to a tree: splitting a line into indentation and text,
//! decoding the status marker, and assembling the decoded lines by depth.

use std::collections::VecDeque;

use vstd::prelude::*;

use crate::kernel::task::{
    attach_children, flatten_forest, forest_at, lemma_attach_children, lemma_flatten_forest_push,
    lemma_forest_determined, views, Entry, NodeView, Status, Task, TaskTree, TaskView, TreeNode,
};

verus! {

/// Why a block of lines cannot be turned into a tree.
#[derive(Debug, Clone, Copy, PartialEq, Eq)]
pub enum ParseError {
    /// A line does not start with the marker of any status.
    InvalidStatusMarker,
    /// The first line is nested one level deep, under a parent that does not exist.
    EmptyParentFrame,
}

/// A line split into the width of its indentation and the text after it.
#[derive(PartialEq, Eq, Debug)]
pub struct RawNode {
    spaces: usize,
    text: String,
}

/// What a raw node is to the contracts.
pub struct RawNodeView {
    pub spaces: nat,
    pub text: Seq<char>,
}

impl RawNodeView {
    /// The nesting level: two columns of indentation make one level.
    pub open spec fn depth(self) -> nat {
        self.spaces / 2
    }
}

impl View for RawNode {
    type V = RawNodeView;

    closed spec fn view(&self) -> RawNodeView {
        RawNodeView { spaces: self.spaces as nat, text: self.text@ }
    }
}

impl DeepView for RawNode {
    type V = RawNodeView;

    open spec fn deep_view(&self) -> RawNodeView {
        self@
    }
}

impl RawNode {
    /// A line with `spaces` columns of indentation before `text`.
    pub fn new(spaces: usize, text: String) -> (node: Self)
        ensures
            node@ == (RawNodeView { spaces: spaces as nat, text: text@ }),
    {
        RawNode { spaces, text }
    }

    /// The nesting level: two columns of indentation make one level.
    pub fn depth(&self) -> (depth: usize)
        ensures
            depth == self@.depth(),
    {
        self.spaces / 2
    }
}

/// The characters that count as indentation: space, tab, line feed, form feed
/// and carriage return.
pub open spec fn is_blank(c: char) -> bool {
    c == ' ' || c == '\t' || c == '\n' || c == '\x0C' || c == '\r'
}

/// How many blank characters `text` starts with.
pub open spec fn leading_blanks(text: Seq<char>) -> nat
    decreases text.len(),
{
    if text.len() > 0 && is_blank(text[0]) {
        1 + leading_blanks(text.drop_first())
    } else {
        0
    }
}

/// What a line splits into. A line of blanks only has no indentation and no text.
pub open spec fn spec_isolate_line(line: Seq<char>) -> RawNodeView {
    let blanks = leading_blanks(line);
    RawNodeView {
        spaces: if blanks == line.len() { 0 } else { blanks },
        text: line.skip(blanks as int),
    }
}

/// `n` is the number of leading blanks of `text` exactly when the first `n`
/// characters are blank and the next one, if any, is not.
pub proof fn lemma_leading_blanks(text: Seq<char>, n: nat)
    requires
        n <= text.len(),
        forall|i: int| 0 <= i < n ==> is_blank(#[trigger] text[i]),
        n < text.len() ==> !is_blank(text[n as int]),
    ensures
        leading_blanks(text) == n,
    decreases n,
{
    if n > 0 {
        let rest = text.drop_first();
        assert forall|i: int| 0 <= i < n - 1 implies is_blank(#[trigger] rest[i]) by {
            assert(rest[i] == text[i + 1]);
        }
        lemma_leading_blanks(rest, (n - 1) as nat);
    }
}

fn is_blank_char(c: char) -> (blank: bool)
    ensures
        blank == is_blank(c),
{
    c == ' ' || c == '\t' || c == '\n' || c == '\x0C' || c == '\r'
}

/// Where the scan of a line stands: still inside the indentation, or past it.
/// Either way the number counts the blanks seen before the text began.
enum HeadSpaceCount {
    UntilSpaces(usize),
    ReachedText(usize),
}

impl HeadSpaceCount {
    spec fn spec_count(self) -> nat {
        match self {
            HeadSpaceCount::UntilSpaces(n) => n as nat,
            HeadSpaceCount::ReachedText(n) => n as nat,
        }
    }

    /// The scan has read `seen`, the first characters of a line.
    spec fn covers(self, seen: Seq<char>) -> bool {
        match self {
            HeadSpaceCount::UntilSpaces(n) => {
                &&& n == seen.len()
                &&& forall|i: int| 0 <= i < seen.len() ==> is_blank(#[trigger] seen[i])
            },
            HeadSpaceCount::ReachedText(n) => {
                &&& n < seen.len()
                &&& forall|i: int| 0 <= i < n ==> is_blank(#[trigger] seen[i])
                &&& !is_blank(seen[n as int])
            },
        }
    }

    fn count(&self) -> (n: usize)
        ensures
            n == self.spec_count(),
    {
        match self {
            HeadSpaceCount::UntilSpaces(n) => *n,
            HeadSpaceCount::ReachedText(n) => *n,
        }
    }

    /// Reads one more character.
    fn step(self, ch: char, Ghost(seen): Ghost<Seq<char>>) -> (next: Self)
        requires
            self.covers(seen),
            seen.len() < usize::MAX,
        ensures
            next.covers(seen.push(ch)),
    {
        match self {
            HeadSpaceCount::UntilSpaces(n) => {
                if is_blank_char(ch) {
                    HeadSpaceCount::UntilSpaces(n + 1)
                } else {
                    HeadSpaceCount::ReachedText(n)
                }
            },
            HeadSpaceCount::ReachedText(n) => HeadSpaceCount::ReachedText(n),
        }
    }
}

/// Splits a line into its indentation and the text that follows it.
pub fn isolate_line(raw_text: String) -> (node: RawNode)
    ensures
        node@ == spec_isolate_line(raw_text@),
{
    let line = raw_text.as_str();
    let len = line.unicode_len();
    let mut state = HeadSpaceCount::UntilSpaces(0);
    for ch in it: line.chars()
        invariant
            it.seq() == raw_text@,
            len == raw_text@.len(),
            state.covers(raw_text@.take(it.index() as int)),
    {
        let ghost seen = raw_text@.take(it.index() as int);
        assert(seen.push(ch) =~= raw_text@.take(it.index() + 1));
        state = state.step(ch, Ghost(seen));
    }
    assert(raw_text@.take(len as int) =~= raw_text@);
    let blanks = state.count();
    proof {
        lemma_leading_blanks(raw_text@, blanks as nat);
    }
    if blanks == len {
        let node = RawNode::new(0, String::new());
        assert(node@.text =~= raw_text@.skip(blanks as int));
        node
    } else {
        let node = RawNode::new(blanks, line.substring_char(blanks, len).to_owned());
        assert(node@.text =~= raw_text@.skip(blanks as int));
        node
    }
}

/// How many characters a status marker takes.
pub const PREFIX_LENGTH: usize = 5;

/// The marker that announces `status` at the start of a line.
pub open spec fn marker(status: Status) -> Seq<char> {
    seq!['-', ' ', '[', status.spec_ascii(), ']']
}

/// `text` starts with the marker of `status`.
pub open spec fn has_marker(text: Seq<char>, status: Status) -> bool {
    text.len() >= PREFIX_LENGTH && text.take(PREFIX_LENGTH as int) == marker(status)
}

/// The status whose marker `text` starts with, if there is one.
pub open spec fn spec_status(text: Seq<char>) -> Option<Status> {
    if has_marker(text, Status::Done) {
        Some(Status::Done)
    } else if has_marker(text, Status::Pending) {
        Some(Status::Pending)
    } else if has_marker(text, Status::Doing) {
        Some(Status::Doing)
    } else if has_marker(text, Status::New) {
        Some(Status::New)
    } else {
        None
    }
}

/// The label of a line: what follows the marker and the one character after
/// it, whatever that character is.
pub open spec fn spec_label(text: Seq<char>) -> Seq<char> {
    if text.len() > PREFIX_LENGTH + 1 {
        text.skip(PREFIX_LENGTH + 1)
    } else {
        Seq::empty()
    }
}

/// What a line decodes to.
pub open spec fn spec_parse_task(text: Seq<char>) -> Result<TaskView, ParseError> {
    match spec_status(text) {
        Some(status) => Ok(TaskView { content: spec_label(text), status }),
        None => Err(ParseError::InvalidStatusMarker),
    }
}

/// A line starts with the marker of one status at most, so the order in
/// which the statuses are tried does not change what a line decodes to.
pub proof fn lemma_status_by_marker(text: Seq<char>, status: Status)
    ensures
        spec_status(text) == Some(status) <==> has_marker(text, status),
{
    assert forall|other: Status| has_marker(text, other) && has_marker(text, status) implies other
        == status by {
        assert(marker(other)[3] == marker(status)[3]);
        Status::lemma_ascii_injective(other, status);
    }
}

/// Decoding undoes encoding: a line made of the marker of a status, one
/// space and a label decodes to that status and that label, whatever
/// characters the label holds.
pub proof fn lemma_parse_task_round_trip(status: Status, label: Seq<char>)
    ensures
        spec_parse_task(marker(status) + seq![' '] + label) == Ok::<TaskView, ParseError>(
            TaskView { content: label, status },
        ),
{
    let text = marker(status) + seq![' '] + label;
    assert(text.take(PREFIX_LENGTH as int) =~= marker(status));
    assert(spec_label(text) =~= label);
    lemma_status_by_marker(text, status);
}

/// Tells whether a line of `len` characters starts with the marker of `status`.
fn starts_with_marker(text: &str, len: usize, status: Status) -> (found: bool)
    requires
        len == text@.len(),
    ensures
        found == has_marker(text@, status),
{
    if len < PREFIX_LENGTH {
        return false;
    }
    let found = text.get_char(0) == '-' && text.get_char(1) == ' ' && text.get_char(2) == '['
        && text.get_char(3) == status.ascii() && text.get_char(4) == ']';
    proof {
        let head = text@.take(PREFIX_LENGTH as int);
        if found {
            assert(head =~= marker(status));
        } else {
            assert(head[0] == text@[0] && head[1] == text@[1] && head[2] == text@[2] && head[3]
                == text@[3] && head[4] == text@[4]);
        }
    }
    found
}

/// Decodes the text of a line into a task: the status that its marker names
/// and the label after the marker.
pub fn parse_task(raw_text: String) -> (res: Result<Task, ParseError>)
    ensures
        match res {
            Ok(task) => spec_parse_task(raw_text@) == Ok::<TaskView, ParseError>(task@),
            Err(e) => spec_parse_task(raw_text@) == Err::<TaskView, ParseError>(e),
        },
{
    let text = raw_text.as_str();
    let len = text.unicode_len();
    let statuses = Status::all();
    let mut i: usize = 0;
    while i < statuses.len()
        invariant
            i <= statuses.len(),
            len == text@.len(),
            text@ == raw_text@,
            statuses@ == Status::spec_all(),
            forall|j: int| 0 <= j < i ==> !has_marker(text@, #[trigger] statuses@[j]),
        decreases statuses.len() - i,
    {
        let status = statuses[i];
        if starts_with_marker(text, len, status) {
            let content = if len > PREFIX_LENGTH + 1 {
                text.substring_char(PREFIX_LENGTH + 1, len).to_owned()
            } else {
                String::new()
            };
            assert(content@ =~= spec_label(raw_text@));
            return Ok(Task { content, status });
        }
        i += 1;
    }
    assert(!has_marker(text@, statuses@[0]) && !has_marker(text@, statuses@[1]) && !has_marker(
        text@,
        statuses@[2],
    ) && !has_marker(text@, statuses@[3]));
    Err(ParseError::InvalidStatusMarker)
}

/// The entries that a queue of decoded lines stands for.
pub open spec fn entries_of(items: Seq<(usize, Task)>) -> Seq<Entry> {
    Seq::new(items.len(), |i: int| Entry { depth: items[i].0 as nat, task: items[i].1@ })
}

/// The entry at `at` carries on a run of siblings at level `depth`: it lies
/// no higher than the siblings and at most one level below the entry before it.
pub open spec fn continues_run(entries: Seq<Entry>, depth: nat, at: int) -> bool {
    1 <= at < entries.len() && depth <= entries[at].depth <= entries[at - 1].depth + 1
}

/// Where a run of siblings at level `depth` ends, given that it reaches up
/// to `from`: at the first entry that lies above the siblings or more than
/// one level below its predecessor, or at the end of the input.
pub open spec fn run_end(entries: Seq<Entry>, depth: nat, from: int) -> int
    decreases entries.len() - from,
{
    if continues_run(entries, depth, from) {
        run_end(entries, depth, from + 1)
    } else {
        from
    }
}

/// How many leading entries make up the siblings at level `depth` together
/// with all that is nested below them.
pub open spec fn frame_len(entries: Seq<Entry>, depth: nat) -> int {
    if entries.len() > 0 && entries[0].depth == depth {
        run_end(entries, depth, 1)
    } else {
        0
    }
}

/// A run that carries on from `from` up to `end` and no further ends at `end`.
pub proof fn lemma_run_end_is(entries: Seq<Entry>, depth: nat, from: int, end: int)
    requires
        1 <= from <= end <= entries.len(),
        forall|at: int| from <= at < end ==> continues_run(entries, depth, at),
        !continues_run(entries, depth, end),
    ensures
        run_end(entries, depth, from) == end,
    decreases end - from,
{
    if from < end {
        lemma_run_end_is(entries, depth, from + 1, end);
    }
}

/// A run carries on at every entry between its start and its end, and not
/// at its end.
pub proof fn lemma_run_end_bounds(entries: Seq<Entry>, depth: nat, from: int)
    requires
        1 <= from <= entries.len(),
    ensures
        from <= run_end(entries, depth, from) <= entries.len(),
        forall|at: int|
            from <= at < run_end(entries, depth, from) ==> continues_run(entries, depth, at),
        !continues_run(entries, depth, run_end(entries, depth, from)),
    decreases entries.len() - from,
{
    if continues_run(entries, depth, from) {
        lemma_run_end_bounds(entries, depth, from + 1);
    }
}

/// The first `taken` entries make up siblings at level `depth` with all that
/// is nested below them, and the next entry, if it lies more than one level
/// below the siblings, lies more than one level below its predecessor too:
/// no sibling that is still to come can own it.
pub open spec fn run_so_far(entries: Seq<Entry>, depth: nat, taken: int) -> bool {
    &&& 0 <= taken <= entries.len()
    &&& taken > 0 ==> entries[0].depth == depth
    &&& forall|at: int| 1 <= at < taken ==> continues_run(entries, depth, at)
    &&& 0 < taken < entries.len() && entries[taken].depth > depth + 1 ==> entries[taken].depth
        > entries[taken - 1].depth + 1
}

/// A run takes the next entry in when that entry sits at the level of the
/// siblings.
pub proof fn lemma_run_takes_sibling(entries: Seq<Entry>, depth: nat, taken: int)
    requires
        run_so_far(entries, depth, taken),
        taken < entries.len(),
        entries[taken].depth == depth,
    ensures
        run_so_far(entries, depth, taken + 1),
{
    if taken > 1 {
        assert(continues_run(entries, depth, taken - 1));
    }
}

/// A run takes in the children of its last sibling: all that a run one
/// level deeper takes from the entries that are left.
pub proof fn lemma_run_takes_children(entries: Seq<Entry>, depth: nat, taken: int)
    requires
        run_so_far(entries, depth, taken),
        0 < taken < entries.len(),
        entries[taken].depth == depth + 1,
    ensures
        frame_len(entries.skip(taken), depth + 1) >= 1,
        run_so_far(entries, depth, taken + frame_len(entries.skip(taken), depth + 1)),
{
    let rest = entries.skip(taken);
    let below = depth + 1;
    let more = frame_len(rest, below);
    lemma_run_end_bounds(rest, below, 1);
    assert forall|at: int| 1 <= at < taken + more implies continues_run(entries, depth, at) by {
        if at > taken {
            assert(continues_run(rest, below, at - taken));
            assert(entries[at] == rest[at - taken]);
            assert(entries[at - 1] == rest[at - taken - 1]);
        } else if at == taken && taken > 1 {
            assert(continues_run(entries, depth, taken - 1));
        }
    }
    if taken + more < entries.len() {
        assert(entries[taken + more] == rest[more]);
        assert(entries[taken + more - 1] == rest[more - 1]);
        assert(!continues_run(rest, below, more));
    }
}

/// A run ends where the input ends, and where the next entry sits neither
/// at the level of the siblings nor one level below.
pub proof fn lemma_run_stops(entries: Seq<Entry>, depth: nat, taken: int)
    requires
        run_so_far(entries, depth, taken),
        taken < entries.len() ==> entries[taken].depth != depth && (taken == 0
            || entries[taken].depth != depth + 1),
    ensures
        frame_len(entries, depth) == taken,
{
    if taken > 0 {
        lemma_run_end_is(entries, depth, 1, taken);
    }
}

/// Collects the siblings at `current_depth` from the front of the queue, each
/// with all that is nested below it, and leaves the rest of the queue alone.
///
/// An entry at `current_depth` becomes a new sibling. An entry one level
/// deeper starts a run of children, which is collected in the same way and
/// given to the sibling collected last; without such a sibling the children
/// have no parent, and the call fails. Any other entry ends the run: one that
/// lies higher belongs to a caller, and one that skips a level belongs to
/// nobody.
pub fn parse_below_nodes(current_depth: usize, deque: &mut VecDeque<(usize, Task)>) -> (res: Result<
    Vec<TreeNode>,
    ParseError,
>)
    ensures
        ({
            let entries = entries_of(old(deque)@);
            let orphaned = entries.len() > 0 && entries[0].depth == current_depth + 1;
            match res {
                Ok(nodes) => {
                    let taken = frame_len(entries, current_depth as nat);
                    &&& !orphaned
                    &&& final(deque)@ == old(deque)@.skip(taken)
                    &&& forest_at(views(nodes@), current_depth as nat)
                    &&& flatten_forest(views(nodes@)) == entries.take(taken)
                },
                Err(e) => {
                    &&& orphaned
                    &&& e == ParseError::EmptyParentFrame
                    &&& final(deque)@ == old(deque)@.skip(
                        frame_len(entries, (current_depth + 1) as nat),
                    )
                },
            }
        }),
    decreases old(deque)@.len(), (if old(deque)@.len() > 0 && old(deque)@[0].0 == current_depth {
        0int
    } else {
        1int
    }),
{
    let ghost entries = entries_of(deque@);
    let ghost depth = current_depth as nat;
    let ghost mut taken: int = 0;
    let mut partial_tree: Vec<TreeNode> = Vec::new();
    assert(flatten_forest(views(partial_tree@)) =~= entries.take(0));
    loop
        invariant
            entries == entries_of(old(deque)@),
            depth == current_depth,
            deque@ == old(deque)@.skip(taken),
            run_so_far(entries, depth, taken),
            taken > 0 <==> partial_tree@.len() > 0,
            forest_at(views(partial_tree@), depth),
            flatten_forest(views(partial_tree@)) == entries.take(taken),
        decreases entries.len() - taken,
    {
        if deque.len() == 0 {
            proof {
                lemma_run_stops(entries, depth, taken);
            }
            return Ok(partial_tree);
        }
        let front_depth = deque[0].0;
        assert(front_depth == entries[taken].depth);
        if front_depth == current_depth {
            let (depth_of_line, task) = deque.pop_front().unwrap();
            let leaf = TreeNode::new_leaf(depth_of_line, task);
            proof {
                lemma_run_takes_sibling(entries, depth, taken);
                lemma_flatten_forest_push(views(partial_tree@), leaf@);
                assert(views(partial_tree@.push(leaf)) =~= views(partial_tree@).push(leaf@));
                assert(entries.take(taken + 1) =~= entries.take(taken) + leaf@.flatten());
                assert(deque@ =~= old(deque)@.skip(taken + 1));
                taken = taken + 1;
            }
            partial_tree.push(leaf);
        } else if front_depth > current_depth && front_depth - 1 == current_depth {
            let ghost rest = entries_of(deque@);
            assert(rest =~= entries.skip(taken));
            let children = match parse_below_nodes(front_depth, deque) {
                Ok(children) => children,
                Err(e) => {
                    return Err(e);
                },
            };
            let ghost more = frame_len(rest, depth + 1);
            proof {
                lemma_run_end_bounds(rest, depth + 1, 1);
                assert(deque@ =~= old(deque)@.skip(taken + more));
            }
            let ghost siblings = views(partial_tree@);
            match partial_tree.pop() {
                None => {
                    assert(rest =~= entries);
                    return Err(ParseError::EmptyParentFrame);
                },
                Some(parent) => {
                    let ghost offspring = views(children@);
                    let parent = parent.add_children(children);
                    proof {
                        lemma_run_takes_children(entries, depth, taken);
                        assert(offspring.len() > 0) by {
                            assert(flatten_forest(offspring).len() == more);
                        }
                        lemma_attach_children(siblings, depth, offspring);
                        assert(views(partial_tree@.push(parent)) =~= attach_children(
                            siblings,
                            offspring,
                        ));
                        assert(entries.take(taken + more) =~= entries.take(taken) + rest.take(
                            more,
                        ));
                        taken = taken + more;
                    }
                    partial_tree.push(parent);
                },
            }
        } else {
            proof {
                lemma_run_stops(entries, depth, taken);
            }
            return Ok(partial_tree);
        }
    }
}

/// The entry that a line stands for once its text has been decoded.
pub open spec fn spec_entry(line: RawNodeView) -> Entry {
    Entry { depth: line.depth(), task: spec_parse_task(line.text).unwrap() }
}

/// The entries that a block of lines stands for.
pub open spec fn spec_entries(lines: Seq<RawNodeView>) -> Seq<Entry> {
    Seq::new(lines.len(), |i: int| spec_entry(lines[i]))
}

/// Every line of the block starts with the marker of some status.
pub open spec fn decodable(lines: Seq<RawNodeView>) -> bool {
    forall|i: int| 0 <= i < lines.len() ==> spec_parse_task(#[trigger] lines[i].text) is Ok
}

/// Decodes every line of a block, in order, into its depth and its task.
pub fn decode_nodes(raw_nodes: Vec<RawNode>) -> (res: Result<VecDeque<(usize, Task)>, ParseError>)
    ensures
        match res {
            Ok(deque) => {
                &&& decodable(raw_nodes.deep_view())
                &&& entries_of(deque@) == spec_entries(raw_nodes.deep_view())
            },
            Err(e) => e == ParseError::InvalidStatusMarker && !decodable(raw_nodes.deep_view()),
        },
{
    let ghost lines = raw_nodes.deep_view();
    let mut deque: VecDeque<(usize, Task)> = VecDeque::new();
    for node in it: raw_nodes
        invariant
            lines == raw_nodes.deep_view(),
            it.seq().len() == lines.len(),
            forall|i: int| 0 <= i < lines.len() ==> (#[trigger] it.seq()[i])@ == lines[i],
            deque@.len() == it.index(),
            forall|i: int|
                0 <= i < it.index() ==> spec_parse_task(#[trigger] lines[i].text) is Ok,
            entries_of(deque@) == spec_entries(lines.take(it.index() as int)),
    {
        let ghost at = it.index() as int;
        let depth = node.depth();
        match parse_task(node.text) {
            Ok(task) => {
                proof {
                    let grown = deque@.push((depth, task));
                    assert(entries_of(grown) =~= spec_entries(lines.take(at + 1))) by {
                        assert forall|i: int| 0 <= i < at + 1 implies entries_of(grown)[i]
                            == spec_entries(lines.take(at + 1))[i] by {
                            if i < at {
                                assert(entries_of(deque@)[i] == spec_entries(lines.take(at))[i]);
                            }
                        }
                    }
                }
                deque.push_back((depth, task));
            },
            Err(e) => {
                assert(spec_parse_task(lines[at].text) is Err);
                return Err(e);
            },
        }
    }
    assert(lines.take(lines.len() as int) =~= lines);
    Ok(deque)
}

/// The error that stops the assembly of a block, if any. A line that cannot
/// be decoded counts before a first line that is nested under nothing.
pub open spec fn spec_assemble_error(lines: Seq<RawNodeView>) -> Option<ParseError> {
    if !decodable(lines) {
        Some(ParseError::InvalidStatusMarker)
    } else if lines.len() > 0 && lines[0].depth() == 1 {
        Some(ParseError::EmptyParentFrame)
    } else {
        None
    }
}

/// How many leading lines of a block end up in its tree: the lines from the
/// first, which must sit at level 0, up to the first line that lies more than
/// one level below the line before it. No line after that one is admitted.
pub open spec fn admitted_len(entries: Seq<Entry>) -> int {
    frame_len(entries, 0)
}

/// Nothing in the block is nested under nothing: the first entry, if there
/// is one, sits at level 0, and every later entry lies at most one level
/// below the entry before it.
pub open spec fn well_nested(entries: Seq<Entry>) -> bool {
    &&& entries.len() > 0 ==> entries[0].depth == 0
    &&& forall|at: int| 1 <= at < entries.len() ==> continues_run(entries, 0, at)
}

/// All lines of a block are admitted exactly when the block is well nested.
pub proof fn lemma_admitted_all(entries: Seq<Entry>)
    ensures
        0 <= admitted_len(entries) <= entries.len(),
        well_nested(entries) <==> admitted_len(entries) == entries.len(),
{
    if entries.len() > 0 && entries[0].depth == 0 {
        lemma_run_end_bounds(entries, 0, 1);
    }
}

/// `forest` is the tree of the block `lines`: its roots sit at level 0, each
/// child one level below its parent, and read in pre-order it gives the
/// admitted lines of the block, decoded, in their order.
pub open spec fn assembles_to(lines: Seq<RawNodeView>, forest: Seq<NodeView>) -> bool {
    let entries = spec_entries(lines);
    &&& forest_at(forest, 0)
    &&& flatten_forest(forest) == entries.take(admitted_len(entries))
}

/// A block has one tree only.
pub proof fn lemma_assembly_unique(
    lines: Seq<RawNodeView>,
    first: Seq<NodeView>,
    second: Seq<NodeView>,
)
    requires
        assembles_to(lines, first),
        assembles_to(lines, second),
    ensures
        first == second,
{
    lemma_forest_determined(first, second, 0);
}

/// Builds the tree of a block of lines.
///
/// Every line is decoded first, and one line without a marker fails the
/// whole block. The lines are then taken in order: a line at level 0 becomes
/// a root, a line one level below the line before it becomes its first
/// child, and a line at the level of an earlier line becomes the next
/// sibling of that line. A line that skips a level, that is, lies more than
/// one level below the line before it, ends the tree: that line and all
/// after it are left out. So is everything when the first line lies two
/// levels deep or more, while a first line at level 1 fails the block, since
/// it would be the child of a parent that is not there.
pub fn assemble_tree(raw_nodes: Vec<RawNode>) -> (res: Result<TaskTree, ParseError>)
    ensures
        match res {
            Ok(tree) => {
                &&& spec_assemble_error(raw_nodes.deep_view()) is None
                &&& assembles_to(raw_nodes.deep_view(), tree@)
            },
            Err(e) => spec_assemble_error(raw_nodes.deep_view()) == Some(e),
        },
{
    let mut deque = decode_nodes(raw_nodes)?;
    let nodes = parse_below_nodes(0, &mut deque)?;
    Ok(TaskTree { nodes })
}

} // verus!
