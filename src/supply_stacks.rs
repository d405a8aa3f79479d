//! Supply stacks: a diagram of labelled crate stacks, a list of crane moves, and the
//! crates left on top once the moves are made.
//!
//! The diagram draws each crate as `[X]` in fixed-width columns, top row first; the
//! label of stack `j` (counted from 0) stands at character offset `4 * j + 1` of each
//! row. A header line below it names the stacks. Move lines read
//! `move <count> from <stack> to <stack>`.
//!
//! Two cranes are modelled. The single-crate crane lifts one crate at a time, so a
//! block of crates arrives upside down; the block crane lifts the whole block and
//! keeps its order.

use vstd::prelude::*;
use crate::text::{
    chars_of, contains_char, contains_text, has_text, i32_of_text, line_views, parse_i32, same_text, split_tokens,
    string_of, tokens_of,
};

verus! {

// ---------------------------------------------------------------------------
// Errors
// ---------------------------------------------------------------------------

/// Why a diagram or a list of moves could not be used.
#[derive(Debug)]
pub enum StackError {
    /// No line names the stacks.
    MissingHeader,
    /// A diagram row (counted from 0 among the rows that hold a `[`) is too short to
    /// hold the label slot of stack `stack` (counted from 0).
    IndexOutOfBounds { row: usize, stack: usize },
    /// A move line whose words are not `move _ from _ to _`; it holds the line.
    MalformedInstruction(String),
    /// A move count that is not a non-negative 32-bit integer; it holds the count text.
    NumberFormat(String),
    /// A move names a stack that the diagram does not declare; it holds the name.
    UnknownStack(String),
}

/// The mathematical content of a `StackError`.
pub enum StackFault {
    MissingHeader,
    IndexOutOfBounds { row: nat, stack: nat },
    MalformedInstruction(Seq<char>),
    NumberFormat(Seq<char>),
    UnknownStack(Seq<char>),
}

impl View for StackError {
    type V = StackFault;

    open spec fn view(&self) -> StackFault {
        match self {
            StackError::MissingHeader => StackFault::MissingHeader,
            StackError::IndexOutOfBounds { row, stack } => StackFault::IndexOutOfBounds {
                row: *row as nat,
                stack: *stack as nat,
            },
            StackError::MalformedInstruction(l) => StackFault::MalformedInstruction(l@),
            StackError::NumberFormat(t) => StackFault::NumberFormat(t@),
            StackError::UnknownStack(t) => StackFault::UnknownStack(t@),
        }
    }
}

// ---------------------------------------------------------------------------
// Move instructions
// ---------------------------------------------------------------------------

/// One crane move: `number_of_crates` crates from `origin_stack` to
/// `destination_stack`, both stacks named as in the diagram's header.
pub struct Movement {
    pub number_of_crates: u32,
    pub origin_stack: String,
    pub destination_stack: String,
}

/// The mathematical content of a `Movement`.
pub struct Instruction {
    pub count: nat,
    pub origin: Seq<char>,
    pub destination: Seq<char>,
}

impl View for Movement {
    type V = Instruction;

    open spec fn view(&self) -> Instruction {
        Instruction {
            count: self.number_of_crates as nat,
            origin: self.origin_stack@,
            destination: self.destination_stack@,
        }
    }
}

/// What a move line says: its tokens must be `move <count> from <origin> to
/// <destination>`, six in all, else it is malformed; the count must be a
/// non-negative decimal 32-bit integer.
pub open spec fn instruction_of(line: Seq<char>) -> Result<Instruction, StackFault> {
    let t = tokens_of(line);
    if t.len() != 6 || t[0] != "move"@ || t[2] != "from"@ || t[4] != "to"@ {
        Err(StackFault::MalformedInstruction(line))
    } else {
        match i32_of_text(t[1]) {
            Some(v) => if v >= 0 {
                Ok(Instruction { count: v as nat, origin: t[3], destination: t[5] })
            } else {
                Err(StackFault::NumberFormat(t[1]))
            },
            None => Err(StackFault::NumberFormat(t[1])),
        }
    }
}

impl Movement {
    /// Reads one move line, as `instruction_of` describes.
    pub fn new(move_line: &str) -> (r: Result<Movement, StackError>)
        ensures
            match r {
                Ok(m) => instruction_of(move_line@) == Ok::<Instruction, StackFault>(m@),
                Err(e) => instruction_of(move_line@) == Err::<Instruction, StackFault>(e@),
            },
    {
        let chars = chars_of(move_line);
        let parts = split_tokens(chars.as_slice());
        if parts.len() != 6 || !same_text(parts[0].as_slice(), "move") || !same_text(
            parts[2].as_slice(),
            "from",
        ) || !same_text(parts[4].as_slice(), "to") {
            return Err(StackError::MalformedInstruction(string_of(chars.as_slice())));
        }
        match parse_i32(parts[1].as_slice()) {
            Some(v) => {
                if v >= 0 {
                    Ok(
                        Movement {
                            number_of_crates: v as u32,
                            origin_stack: string_of(parts[3].as_slice()),
                            destination_stack: string_of(parts[5].as_slice()),
                        },
                    )
                } else {
                    Err(StackError::NumberFormat(string_of(parts[1].as_slice())))
                }
            },
            None => Err(StackError::NumberFormat(string_of(parts[1].as_slice()))),
        }
    }
}

// ---------------------------------------------------------------------------
// The registry of stacks and the crane moves
// ---------------------------------------------------------------------------

/// The index of the first stack at or after `k` that is named `tag`.
pub open spec fn position_from(tags: Seq<Seq<char>>, tag: Seq<char>, k: int) -> Option<int>
    decreases tags.len() - k,
{
    if k < 0 || k >= tags.len() {
        None
    } else if tags[k] == tag {
        Some(k)
    } else {
        position_from(tags, tag, k + 1)
    }
}

/// The index of the first stack named `tag`.
pub open spec fn position(tags: Seq<Seq<char>>, tag: Seq<char>) -> Option<int> {
    position_from(tags, tag, 0)
}

/// How many crates a move of `count` takes from `stack`: no more than it holds.
pub open spec fn lifted_count(stack: Seq<char>, count: nat) -> int {
    if count <= stack.len() {
        count as int
    } else {
        stack.len() as int
    }
}

/// The crates that a move of `count` takes off the top of `stack`, bottom to top.
pub open spec fn lifted(stack: Seq<char>, count: nat) -> Seq<char> {
    stack.subrange(stack.len() - lifted_count(stack, count), stack.len() as int)
}

/// What is left of `stack` once a move of `count` has taken its crates.
pub open spec fn remaining(stack: Seq<char>, count: nat) -> Seq<char> {
    stack.subrange(0, stack.len() - lifted_count(stack, count))
}

/// The stacks after moving `count` crates from stack `src` to stack `dst`. With
/// `keep_order` the block keeps its order; without it, it arrives reversed.
pub open spec fn shift(
    stacks: Seq<Seq<char>>,
    src: int,
    dst: int,
    count: nat,
    keep_order: bool,
) -> Seq<Seq<char>> {
    let block = lifted(stacks[src], count);
    let taken = stacks.update(src, remaining(stacks[src], count));
    taken.update(
        dst,
        taken[dst] + if keep_order {
            block
        } else {
            block.reverse()
        },
    )
}

/// One move on stacks named by `tags`: the new stacks, or the name that is not
/// declared (the origin is looked up first).
pub open spec fn step(
    tags: Seq<Seq<char>>,
    stacks: Seq<Seq<char>>,
    m: Instruction,
    keep_order: bool,
) -> Result<Seq<Seq<char>>, Seq<char>> {
    match position(tags, m.origin) {
        None => Err(m.origin),
        Some(src) => match position(tags, m.destination) {
            None => Err(m.destination),
            Some(dst) => Ok(shift(stacks, src, dst, m.count, keep_order)),
        },
    }
}

/// The moves applied in order until one fails: the stacks then, and the name that
/// made a move fail, if one did. A failed move leaves the stacks as they were.
pub open spec fn replay(
    tags: Seq<Seq<char>>,
    stacks: Seq<Seq<char>>,
    moves: Seq<Instruction>,
    keep_order: bool,
) -> (Seq<Seq<char>>, Option<Seq<char>>)
    decreases moves.len(),
{
    if moves.len() == 0 {
        (stacks, None)
    } else {
        let (before, failed) = replay(tags, stacks, moves.drop_last(), keep_order);
        if failed is Some {
            (before, failed)
        } else {
            match step(tags, before, moves.last(), keep_order) {
                Ok(after) => (after, None),
                Err(name) => (before, Some(name)),
            }
        }
    }
}

/// The top crate of each stack, in the order of the stacks; an empty stack gives
/// nothing.
pub open spec fn tops(stacks: Seq<Seq<char>>) -> Seq<char>
    decreases stacks.len(),
{
    if stacks.len() == 0 {
        Seq::empty()
    } else {
        tops(stacks.drop_last()) + if stacks.last().len() > 0 {
            seq![stacks.last().last()]
        } else {
            Seq::empty()
        }
    }
}

/// The registry of stacks: their names in the order the header declares them, and
/// for each the crates it holds, bottom first.
pub struct Stack {
    stack_tags: Vec<String>,
    stacks: Vec<Vec<char>>,
}

impl Stack {
    /// The names of the stacks, in declaration order.
    pub closed spec fn tags(&self) -> Seq<Seq<char>> {
        self.stack_tags@.map_values(|t: String| t@)
    }

    /// The crates of each stack, bottom first, in declaration order.
    pub closed spec fn contents(&self) -> Seq<Seq<char>> {
        self.stacks@.map_values(|v: Vec<char>| v@)
    }

    /// There is one stack for each declared name.
    pub open spec fn wf(&self) -> bool {
        self.tags().len() == self.contents().len()
    }

    /// The index of the first stack named `tag`.
    fn find(&self, tag: &String) -> (r: Option<usize>)
        ensures
            match r {
                Some(i) => position(self.tags(), tag@) == Some(i as int) && i < self.stack_tags@.len(),
                None => position(self.tags(), tag@) is None,
            },
    {
        let ghost tags = self.tags();
        let mut i: usize = 0;
        while i < self.stack_tags.len()
            invariant
                i <= self.stack_tags@.len(),
                tags == self.tags(),
                position(tags, tag@) == position_from(tags, tag@, i as int),
            decreases self.stack_tags@.len() - i,
        {
            if self.stack_tags[i] == *tag {
                return Some(i);
            }
            i = i + 1;
        }
        None
    }

    /// Moves crates as one move of the crane says, or changes nothing when it names
    /// a stack that is not declared.
    fn apply_move(&mut self, movement: &Movement, keep_order: bool) -> (r: Result<(), StackError>)
        requires
            old(self).wf(),
        ensures
            final(self).wf(),
            final(self).tags() == old(self).tags(),
            match step(old(self).tags(), old(self).contents(), movement@, keep_order) {
                Ok(after) => r is Ok && final(self).contents() == after,
                Err(name) => final(self).contents() == old(self).contents() && (r matches Err(
                    e,
                ) && e@ == StackFault::UnknownStack(name)),
            },
    {
        let src = match self.find(&movement.origin_stack) {
            Some(i) => i,
            None => {
                return Err(StackError::UnknownStack(movement.origin_stack.clone()));
            },
        };
        let dst = match self.find(&movement.destination_stack) {
            Some(i) => i,
            None => {
                return Err(StackError::UnknownStack(movement.destination_stack.clone()));
            },
        };
        let ghost old_stacks = self.contents();
        let ghost from = old_stacks[src as int];
        let ghost k = lifted_count(from, movement.number_of_crates as nat);
        let ghost block = lifted(from, movement.number_of_crates as nat);
        let ghost rest = remaining(from, movement.number_of_crates as nat);
        let ghost count = self.stacks@.len();
        // Take the crates off the top, the topmost first.
        let mut picked: Vec<char> = Vec::new();
        let mut n: u32 = 0;
        while n < movement.number_of_crates && self.stacks[src].len() > 0
            invariant
                self.stack_tags@ == old(self).stack_tags@,
                self.stacks@.len() == count,
                count == old_stacks.len(),
                src < count,
                dst < count,
                old_stacks == old(self).contents(),
                from == old_stacks[src as int],
                n <= movement.number_of_crates,
                n <= from.len(),
                picked@ == from.subrange(from.len() - n, from.len() as int).reverse(),
                self.stacks@[src as int]@ == from.subrange(0, from.len() - n),
                forall|t: int|
                    0 <= t < count && t != src ==> (#[trigger] self.stacks@[t])@ == old_stacks[t],
            decreases movement.number_of_crates - n,
        {
            let c = self.stacks[src].pop().unwrap();
            assert(c == from[from.len() - n - 1]);
            assert(from.subrange(from.len() - (n + 1), from.len() as int).reverse()
                =~= from.subrange(from.len() - n, from.len() as int).reverse().push(c));
            assert(from.subrange(0, from.len() - n).subrange(0, from.len() - n - 1)
                =~= from.subrange(0, from.len() - (n + 1)));
            picked.push(c);
            n = n + 1;
        }
        assert(n == k);
        assert(picked@ == block.reverse());
        assert(self.stacks@[src as int]@ == rest);
        let ghost mid = old_stacks.update(src as int, rest);
        let ghost arriving = if keep_order {
            block
        } else {
            block.reverse()
        };
        assert(arriving =~= if keep_order {
            picked@.reverse()
        } else {
            picked@
        });
        // Set them down on the destination.
        let mut j: usize = 0;
        while j < picked.len()
            invariant
                self.stack_tags@ == old(self).stack_tags@,
                self.stacks@.len() == count,
                count == mid.len(),
                dst < count,
                j <= picked@.len(),
                arriving.len() == picked@.len(),
                arriving == (if keep_order {
                    picked@.reverse()
                } else {
                    picked@
                }),
                self.stacks@[dst as int]@ == mid[dst as int] + arriving.subrange(0, j as int),
                forall|t: int|
                    0 <= t < count && t != dst ==> (#[trigger] self.stacks@[t])@ == mid[t],
            decreases picked@.len() - j,
        {
            let c = if keep_order {
                picked[picked.len() - 1 - j]
            } else {
                picked[j]
            };
            assert(c == arriving[j as int]);
            assert(arriving.subrange(0, j + 1) =~= arriving.subrange(0, j as int).push(c));
            self.stacks[dst].push(c);
            j = j + 1;
        }
        assert(arriving.subrange(0, arriving.len() as int) =~= arriving);
        assert(self.contents() =~= shift(old_stacks, src as int, dst as int, movement.number_of_crates as nat, keep_order));
        Ok(())
    }

    /// Applies `moves` in order until one fails, with the crane that keeps or
    /// reverses each block.
    fn run_moves(&mut self, moves: &[Movement], keep_order: bool) -> (r: Result<String, StackError>)
        requires
            old(self).wf(),
        ensures
            final(self).wf(),
            final(self).tags() == old(self).tags(),
            ({
                let (after, failed) = replay(
                    old(self).tags(),
                    old(self).contents(),
                    moves@.map_values(|m: Movement| m@),
                    keep_order,
                );
                &&& final(self).contents() == after
                &&& match r {
                    Ok(s) => failed is None && s@ == tops(after),
                    Err(e) => failed matches Some(name) && e@ == StackFault::UnknownStack(name),
                }
            }),
    {
        let ghost tags = self.tags();
        let ghost start = self.contents();
        let ghost all = moves@.map_values(|m: Movement| m@);
        let mut i: usize = 0;
        while i < moves.len()
            invariant
                self.wf(),
                self.tags() == tags,
                tags == old(self).tags(),
                start == old(self).contents(),
                i <= moves@.len(),
                all == moves@.map_values(|m: Movement| m@),
                replay(tags, start, all.subrange(0, i as int), keep_order) == (
                    self.contents(),
                    None::<Seq<char>>,
                ),
            decreases moves@.len() - i,
        {
            assert(all.subrange(0, i + 1).drop_last() =~= all.subrange(0, i as int));
            assert(all.subrange(0, i + 1).last() == moves@[i as int]@);
            match self.apply_move(&moves[i], keep_order) {
                Ok(()) => {},
                Err(e) => {
                    proof {
                        lemma_replay_stops(tags, start, all, i as int + 1, keep_order);
                    }
                    return Err(e);
                },
            }
            i = i + 1;
        }
        assert(all.subrange(0, moves@.len() as int) =~= all);
        Ok(self.top_boxes())
    }

    /// Applies `moves` in order with the single-crate crane: each block of crates
    /// arrives reversed. Stops at the first move that names an undeclared stack,
    /// which changes nothing; the moves before it stay made. Returns the top crate
    /// of each stack.
    pub fn move_boxes(&mut self, moves: &[Movement]) -> (r: Result<String, StackError>)
        requires
            old(self).wf(),
        ensures
            final(self).wf(),
            final(self).tags() == old(self).tags(),
            ({
                let (after, failed) = replay(
                    old(self).tags(),
                    old(self).contents(),
                    moves@.map_values(|m: Movement| m@),
                    false,
                );
                &&& final(self).contents() == after
                &&& match r {
                    Ok(s) => failed is None && s@ == tops(after),
                    Err(e) => failed matches Some(name) && e@ == StackFault::UnknownStack(name),
                }
            }),
    {
        self.run_moves(moves, false)
    }

    /// Applies `moves` in order with the block crane: each block of crates keeps
    /// its order. Stops as `move_boxes` does. Returns the top crate of each stack.
    pub fn move_boxes_with_cratemover_9001(&mut self, moves: &[Movement]) -> (r: Result<
        String,
        StackError,
    >)
        requires
            old(self).wf(),
        ensures
            final(self).wf(),
            final(self).tags() == old(self).tags(),
            ({
                let (after, failed) = replay(
                    old(self).tags(),
                    old(self).contents(),
                    moves@.map_values(|m: Movement| m@),
                    true,
                );
                &&& final(self).contents() == after
                &&& match r {
                    Ok(s) => failed is None && s@ == tops(after),
                    Err(e) => failed matches Some(name) && e@ == StackFault::UnknownStack(name),
                }
            }),
    {
        self.run_moves(moves, true)
    }

    /// The crates of the first stack named `tag`, bottom first.
    pub fn crates_of(&self, tag: &String) -> (r: Option<Vec<char>>)
        requires
            self.wf(),
        ensures
            match position(self.tags(), tag@) {
                Some(i) => r matches Some(v) && v@ == self.contents()[i],
                None => r is None,
            },
    {
        match self.find(tag) {
            Some(i) => Some(self.stacks[i].clone()),
            None => None,
        }
    }

    /// The top crate of each stack, in declaration order; empty stacks give nothing.
    pub fn top_boxes(&self) -> (r: String)
        ensures
            r@ == tops(self.contents()),
    {
        let ghost all = self.contents();
        let mut out: Vec<char> = Vec::new();
        let mut i: usize = 0;
        while i < self.stacks.len()
            invariant
                i <= self.stacks@.len(),
                all == self.contents(),
                out@ == tops(all.subrange(0, i as int)),
            decreases self.stacks@.len() - i,
        {
            assert(all.subrange(0, i + 1).drop_last() =~= all.subrange(0, i as int));
            let n = self.stacks[i].len();
            if n > 0 {
                out.push(self.stacks[i][n - 1]);
            }
            i = i + 1;
        }
        assert(all.subrange(0, all.len() as int) =~= all);
        string_of(out.as_slice())
    }
}

/// Once a move has failed, later moves change nothing.
proof fn lemma_replay_stops(
    tags: Seq<Seq<char>>,
    stacks: Seq<Seq<char>>,
    moves: Seq<Instruction>,
    k: int,
    keep_order: bool,
)
    requires
        0 < k <= moves.len(),
        replay(tags, stacks, moves.subrange(0, k), keep_order).1 is Some,
    ensures
        replay(tags, stacks, moves, keep_order) == replay(
            tags,
            stacks,
            moves.subrange(0, k),
            keep_order,
        ),
    decreases moves.len(),
{
    if k < moves.len() {
        assert(moves.drop_last().subrange(0, k) =~= moves.subrange(0, k));
        lemma_replay_stops(tags, stacks, moves.drop_last(), k, keep_order);
    } else {
        assert(moves.subrange(0, k) =~= moves);
    }
}

// ---------------------------------------------------------------------------
// The diagram
// ---------------------------------------------------------------------------

/// The header names the stacks: a line with no `[`, with at least one token, that
/// is not a move line.
pub open spec fn is_header_line(line: Seq<char>) -> bool {
    !line.contains('[') && tokens_of(line).len() > 0 && !is_move_line(line)
}

/// The index of the first header line at or after `k`.
pub open spec fn header_from(lines: Seq<Seq<char>>, k: int) -> Option<int>
    decreases lines.len() - k,
{
    if k < 0 || k >= lines.len() {
        None
    } else if is_header_line(lines[k]) {
        Some(k)
    } else {
        header_from(lines, k + 1)
    }
}

/// The diagram rows: the lines that hold a `[`, in order, top row first.
pub open spec fn box_lines_of(lines: Seq<Seq<char>>) -> Seq<Seq<char>>
    decreases lines.len(),
{
    if lines.len() == 0 {
        Seq::empty()
    } else {
        box_lines_of(lines.drop_last()) + if lines.last().contains('[') {
            seq![lines.last()]
        } else {
            Seq::empty()
        }
    }
}

/// Whether a diagram row is long enough for the label slots of `n` stacks.
pub open spec fn row_fits(line: Seq<char>, n: nat) -> bool {
    n == 0 || 4 * (n - 1) + 1 < line.len()
}

/// The first stack whose label slot a row is too short to hold.
pub open spec fn first_missing_slot(line: Seq<char>) -> nat {
    ((line.len() + 2) / 4) as nat
}

/// The index of the first row at or after `k` too short for `n` stacks.
pub open spec fn short_row_from(boxes: Seq<Seq<char>>, n: nat, k: int) -> Option<int>
    decreases boxes.len() - k,
{
    if k < 0 || k >= boxes.len() {
        None
    } else if !row_fits(boxes[k], n) {
        Some(k)
    } else {
        short_row_from(boxes, n, k + 1)
    }
}

/// The label slots of a row for `n` stacks.
pub open spec fn row_of(line: Seq<char>, n: nat) -> Seq<char> {
    Seq::new(n, |j: int| line[4 * j + 1])
}

pub open spec fn rows_of(boxes: Seq<Seq<char>>, n: nat) -> Seq<Seq<char>> {
    boxes.map_values(|l: Seq<char>| row_of(l, n))
}

/// The crates of stack `j`, bottom first, read from rows given top row first; a
/// blank slot holds no crate.
pub open spec fn stack_column(rows: Seq<Seq<char>>, j: int) -> Seq<char>
    decreases rows.len(),
{
    if rows.len() == 0 {
        Seq::empty()
    } else {
        (if rows.last()[j] == ' ' {
            Seq::empty()
        } else {
            seq![rows.last()[j]]
        }) + stack_column(rows.drop_last(), j)
    }
}

pub open spec fn columns(rows: Seq<Seq<char>>, n: nat) -> Seq<Seq<char>> {
    Seq::new(n, |j: int| stack_column(rows, j))
}

/// What the diagram in `lines` says: the names of the stacks and their crates, or
/// why it cannot be read.
pub open spec fn diagram(lines: Seq<Seq<char>>) -> Result<
    (Seq<Seq<char>>, Seq<Seq<char>>),
    StackFault,
> {
    match header_from(lines, 0) {
        None => Err(StackFault::MissingHeader),
        Some(h) => {
            let tags = tokens_of(lines[h]);
            let boxes = box_lines_of(lines);
            match short_row_from(boxes, tags.len(), 0) {
                Some(k) => Err(
                    StackFault::IndexOutOfBounds { row: k as nat, stack: first_missing_slot(boxes[k]) },
                ),
                None => Ok((tags, columns(rows_of(boxes, tags.len()), tags.len()))),
            }
        },
    }
}

/// Whether a line is a header line.
fn is_header(line: &String) -> (r: bool)
    ensures
        r == is_header_line(line@),
{
    let chars = chars_of(line.as_str());
    if contains_char(chars.as_slice(), '[') {
        return false;
    }
    let toks = split_tokens(chars.as_slice());
    toks.len() > 0 && !has_text(chars.as_slice(), "move")
}

/// The stack names that the header line declares, in order.
fn find_stacks(lines: &[String]) -> (r: Result<Vec<String>, StackError>)
    ensures
        match header_from(line_views(lines@), 0) {
            None => r matches Err(e) && e@ == StackFault::MissingHeader,
            Some(h) => r matches Ok(tags) && line_views(tags@) == tokens_of(line_views(lines@)[h]),
        },
{
    let ghost ls = line_views(lines@);
    let mut i: usize = 0;
    while i < lines.len()
        invariant
            i <= lines@.len(),
            ls == line_views(lines@),
            header_from(ls, 0) == header_from(ls, i as int),
        decreases lines@.len() - i,
    {
        if is_header(&lines[i]) {
            let chars = chars_of(lines[i].as_str());
            let toks = split_tokens(chars.as_slice());
            let mut tags: Vec<String> = Vec::new();
            let mut j: usize = 0;
            while j < toks.len()
                invariant
                    j <= toks@.len(),
                    toks@.len() == tokens_of(chars@).len(),
                    forall|t: int| 0 <= t < toks@.len() ==> (#[trigger] toks@[t])@ == tokens_of(chars@)[t],
                    line_views(tags@) == tokens_of(chars@).subrange(0, j as int),
                decreases toks@.len() - j,
            {
                let tag = string_of(toks[j].as_slice());
                let ghost prev = tags@;
                tags.push(tag);
                assert(line_views(tags@) =~= line_views(prev).push(tag@));
                assert(tokens_of(chars@).subrange(0, j + 1) =~= tokens_of(chars@).subrange(
                    0,
                    j as int,
                ).push(tokens_of(chars@)[j as int]));
                j = j + 1;
            }
            assert(tokens_of(chars@).subrange(0, toks@.len() as int) =~= tokens_of(chars@));
            return Ok(tags);
        }
        i = i + 1;
    }
    Err(StackError::MissingHeader)
}

/// The lines that hold a `[`, in order.
fn get_box_lines(lines: &[String]) -> (r: Vec<String>)
    ensures
        line_views(r@) == box_lines_of(line_views(lines@)),
{
    let ghost ls = line_views(lines@);
    let mut out: Vec<String> = Vec::new();
    let mut i: usize = 0;
    while i < lines.len()
        invariant
            i <= lines@.len(),
            ls == line_views(lines@),
            line_views(out@) == box_lines_of(ls.subrange(0, i as int)),
        decreases lines@.len() - i,
    {
        assert(ls.subrange(0, i + 1).drop_last() =~= ls.subrange(0, i as int));
        let chars = chars_of(lines[i].as_str());
        if contains_char(chars.as_slice(), '[') {
            out.push(lines[i].clone());
        }
        assert(line_views(out@) =~= box_lines_of(ls.subrange(0, i + 1)));
        i = i + 1;
    }
    assert(ls.subrange(0, lines@.len() as int) =~= ls);
    out
}

/// The label slots of each diagram row for `num_stacks` stacks, or the first row
/// too short to hold them all.
fn get_box_rows(box_lines: &[String], num_stacks: usize) -> (r: Result<Vec<Vec<char>>, StackError>)
    ensures
        ({
            let boxes = line_views(box_lines@);
            match short_row_from(boxes, num_stacks as nat, 0) {
                Some(k) => r matches Err(e) && e@ == StackFault::IndexOutOfBounds {
                    row: k as nat,
                    stack: first_missing_slot(boxes[k]),
                },
                None => r matches Ok(rows) && rows@.map_values(|v: Vec<char>| v@) == rows_of(
                    boxes,
                    num_stacks as nat,
                ),
            }
        }),
{
    let ghost boxes = line_views(box_lines@);
    let ghost n = num_stacks as nat;
    let mut rows: Vec<Vec<char>> = Vec::new();
    let mut i: usize = 0;
    while i < box_lines.len()
        invariant
            i <= box_lines@.len(),
            boxes == line_views(box_lines@),
            n == num_stacks as nat,
            short_row_from(boxes, n, 0) == short_row_from(boxes, n, i as int),
            rows@.map_values(|v: Vec<char>| v@) == rows_of(boxes.subrange(0, i as int), n),
        decreases box_lines@.len() - i,
    {
        let line = chars_of(box_lines[i].as_str());
        let len = line.len();
        assert(line@ == boxes[i as int]);
        let fits = num_stacks == 0 || (len >= 2 && num_stacks - 1 <= (len - 2) / 4);
        assert(fits == row_fits(line@, n)) by (nonlinear_arith)
            requires
                fits == (num_stacks == 0 || (len >= 2 && num_stacks - 1 <= (len - 2) / 4)),
                len == line@.len(),
                n == num_stacks,
        ;
        if !fits {
            let stack: usize = if len < 2 {
                0
            } else {
                (len - 2) / 4 + 1
            };
            assert(stack == first_missing_slot(line@));
            return Err(StackError::IndexOutOfBounds { row: i, stack });
        }
        let mut row: Vec<char> = Vec::new();
        let mut j: usize = 0;
        while j < num_stacks
            invariant
                j <= num_stacks,
                n == num_stacks as nat,
                len == line@.len(),
                row_fits(line@, n),
                row@ == row_of(line@, n).subrange(0, j as int),
            decreases num_stacks - j,
        {
            assert(4 * j + 1 < len) by (nonlinear_arith)
                requires
                    j < num_stacks,
                    4 * (num_stacks - 1) + 1 < len,
            ;
            row.push(line[4 * j + 1]);
            assert(row@ =~= row_of(line@, n).subrange(0, j + 1));
            j = j + 1;
        }
        assert(row_of(line@, n).subrange(0, n as int) =~= row_of(line@, n));
        let ghost prev = rows@;
        rows.push(row);
        assert(rows@.map_values(|v: Vec<char>| v@) =~= prev.map_values(|v: Vec<char>| v@).push(
            row@,
        ));
        assert(rows_of(boxes.subrange(0, i + 1), n) =~= rows_of(boxes.subrange(0, i as int), n).push(
            row_of(boxes[i as int], n),
        ));
        i = i + 1;
    }
    assert(boxes.subrange(0, box_lines@.len() as int) =~= boxes);
    Ok(rows)
}

/// The crates of each of `num_stacks` stacks, bottom first, from rows of label
/// slots given top row first.
fn get_box_stacks(box_rows: &[Vec<char>], num_stacks: usize) -> (r: Vec<Vec<char>>)
    requires
        forall|k: int| 0 <= k < box_rows@.len() ==> (#[trigger] box_rows@[k])@.len() >= num_stacks,
    ensures
        r@.map_values(|v: Vec<char>| v@) == columns(
            box_rows@.map_values(|v: Vec<char>| v@),
            num_stacks as nat,
        ),
{
    let ghost rows = box_rows@.map_values(|v: Vec<char>| v@);
    let mut out: Vec<Vec<char>> = Vec::new();
    let mut j: usize = 0;
    while j < num_stacks
        invariant
            j <= num_stacks,
            rows == box_rows@.map_values(|v: Vec<char>| v@),
            forall|k: int| 0 <= k < box_rows@.len() ==> (#[trigger] box_rows@[k])@.len() >= num_stacks,
            out@.map_values(|v: Vec<char>| v@) == columns(rows, num_stacks as nat).subrange(0, j as int),
        decreases num_stacks - j,
    {
        let mut column: Vec<char> = Vec::new();
        let mut k: usize = 0;
        while k < box_rows.len()
            invariant
                k <= box_rows@.len(),
                j < num_stacks,
                rows == box_rows@.map_values(|v: Vec<char>| v@),
                forall|t: int| 0 <= t < box_rows@.len() ==> (#[trigger] box_rows@[t])@.len() >= num_stacks,
                column@ == stack_column(rows.subrange(0, k as int), j as int),
            decreases box_rows@.len() - k,
        {
            assert(rows.subrange(0, k + 1).drop_last() =~= rows.subrange(0, k as int));
            assert(rows.subrange(0, k + 1).last() == box_rows@[k as int]@);
            let c = box_rows[k][j];
            if c != ' ' {
                column.insert(0, c);
            }
            assert(column@ =~= stack_column(rows.subrange(0, k + 1), j as int));
            k = k + 1;
        }
        assert(rows.subrange(0, box_rows@.len() as int) =~= rows);
        let ghost prev = out@;
        out.push(column);
        assert(out@.map_values(|v: Vec<char>| v@) =~= prev.map_values(|v: Vec<char>| v@).push(
            column@,
        ));
        assert(columns(rows, num_stacks as nat).subrange(0, j + 1) =~= columns(
            rows,
            num_stacks as nat,
        ).subrange(0, j as int).push(stack_column(rows, j as int)));
        j = j + 1;
    }
    assert(columns(rows, num_stacks as nat).subrange(0, num_stacks as int) =~= columns(rows, num_stacks as nat));
    out
}

impl Stack {
    /// Reads the diagram in `lines`, as `diagram` describes.
    pub fn new(lines: &[String]) -> (r: Result<Stack, StackError>)
        ensures
            match r {
                Ok(st) => st.wf() && diagram(line_views(lines@)) == Ok::<
                    (Seq<Seq<char>>, Seq<Seq<char>>),
                    StackFault,
                >((st.tags(), st.contents())),
                Err(e) => diagram(line_views(lines@)) == Err::<
                    (Seq<Seq<char>>, Seq<Seq<char>>),
                    StackFault,
                >(e@),
            },
    {
        let stack_tags = match find_stacks(lines) {
            Ok(t) => t,
            Err(e) => {
                return Err(e);
            },
        };
        let num_stacks = stack_tags.len();
        let box_lines = get_box_lines(lines);
        let box_rows = match get_box_rows(box_lines.as_slice(), num_stacks) {
            Ok(rows) => rows,
            Err(e) => {
                return Err(e);
            },
        };
        let ghost boxes = line_views(box_lines@);
        let ghost rows = box_rows@.map_values(|v: Vec<char>| v@);
        assert(short_row_from(boxes, num_stacks as nat, 0) is None);
        assert(rows == rows_of(boxes, num_stacks as nat));
        proof {
            assert forall|k: int| 0 <= k < box_rows@.len() implies (#[trigger] box_rows@[k])@.len()
                == num_stacks by {
                assert(rows[k] == box_rows@[k]@);
                assert(rows.len() == boxes.len());
                assert(rows[k] == row_of(boxes[k], num_stacks as nat));
            }
        }
        let stacks = get_box_stacks(box_rows.as_slice(), num_stacks);
        let st = Stack { stack_tags, stacks };
        assert(st.tags() == line_views(st.stack_tags@));
        assert(st.contents() == columns(rows, num_stacks as nat));
        Ok(st)
    }
}

// ---------------------------------------------------------------------------
// Move lines and the whole procedure
// ---------------------------------------------------------------------------

/// A move line: it holds the text `move` somewhere. Whether it is a well-formed
/// move is for `instruction_of` to say.
pub open spec fn is_move_line(line: Seq<char>) -> bool {
    contains_text(line, "move"@)
}

/// The move lines, in order.
pub open spec fn move_lines_of(lines: Seq<Seq<char>>) -> Seq<Seq<char>>
    decreases lines.len(),
{
    if lines.len() == 0 {
        Seq::empty()
    } else {
        move_lines_of(lines.drop_last()) + if is_move_line(lines.last()) {
            seq![lines.last()]
        } else {
            Seq::empty()
        }
    }
}

/// What the move lines say, in order, or the fault of the first that cannot be read.
pub open spec fn instructions_of(move_lines: Seq<Seq<char>>) -> Result<Seq<Instruction>, StackFault>
    decreases move_lines.len(),
{
    if move_lines.len() == 0 {
        Ok(Seq::empty())
    } else {
        match instructions_of(move_lines.drop_last()) {
            Err(f) => Err(f),
            Ok(ms) => match instruction_of(move_lines.last()) {
                Err(f) => Err(f),
                Ok(m) => Ok(ms.push(m)),
            },
        }
    }
}

/// The whole procedure on the lines of an input: read the diagram, read the
/// moves, make them with the crane that keeps or reverses each block, and read
/// the top crate of each stack.
pub open spec fn stack_tops(lines: Seq<Seq<char>>, keep_order: bool) -> Result<Seq<char>, StackFault> {
    match diagram(lines) {
        Err(f) => Err(f),
        Ok((tags, stacks)) => match instructions_of(move_lines_of(lines)) {
            Err(f) => Err(f),
            Ok(moves) => {
                let (after, failed) = replay(tags, stacks, moves, keep_order);
                match failed {
                    Some(name) => Err(StackFault::UnknownStack(name)),
                    None => Ok(tops(after)),
                }
            },
        },
    }
}

/// Whether a line is a move line.
fn is_move(line: &String) -> (r: bool)
    ensures
        r == is_move_line(line@),
{
    let chars = chars_of(line.as_str());
    has_text(chars.as_slice(), "move")
}

/// The move lines of `lines`, in order.
fn get_move_lines(lines: &[String]) -> (r: Vec<String>)
    ensures
        line_views(r@) == move_lines_of(line_views(lines@)),
{
    let ghost ls = line_views(lines@);
    let mut out: Vec<String> = Vec::new();
    let mut i: usize = 0;
    while i < lines.len()
        invariant
            i <= lines@.len(),
            ls == line_views(lines@),
            line_views(out@) == move_lines_of(ls.subrange(0, i as int)),
        decreases lines@.len() - i,
    {
        assert(ls.subrange(0, i + 1).drop_last() =~= ls.subrange(0, i as int));
        if is_move(&lines[i]) {
            out.push(lines[i].clone());
        }
        assert(line_views(out@) =~= move_lines_of(ls.subrange(0, i + 1)));
        i = i + 1;
    }
    assert(ls.subrange(0, lines@.len() as int) =~= ls);
    out
}

/// Reads each move line, as `instructions_of` describes.
fn get_move_vector(move_lines: &[String]) -> (r: Result<Vec<Movement>, StackError>)
    ensures
        match r {
            Ok(v) => instructions_of(line_views(move_lines@)) == Ok::<
                Seq<Instruction>,
                StackFault,
            >(v@.map_values(|m: Movement| m@)),
            Err(e) => instructions_of(line_views(move_lines@)) == Err::<
                Seq<Instruction>,
                StackFault,
            >(e@),
        },
{
    let ghost ls = line_views(move_lines@);
    let mut out: Vec<Movement> = Vec::new();
    let mut i: usize = 0;
    assert(ls.subrange(0, 0) =~= Seq::<Seq<char>>::empty());
    assert(out@.map_values(|m: Movement| m@) =~= Seq::<Instruction>::empty());
    while i < move_lines.len()
        invariant
            i <= move_lines@.len(),
            ls == line_views(move_lines@),
            instructions_of(ls.subrange(0, i as int)) == Ok::<Seq<Instruction>, StackFault>(
                out@.map_values(|m: Movement| m@),
            ),
        decreases move_lines@.len() - i,
    {
        assert(ls.subrange(0, i + 1).drop_last() =~= ls.subrange(0, i as int));
        assert(ls.subrange(0, i + 1).last() == move_lines@[i as int]@);
        let m = match Movement::new(move_lines[i].as_str()) {
            Ok(m) => m,
            Err(e) => {
                proof {
                    lemma_instructions_stop(ls, i as int + 1);
                }
                return Err(e);
            },
        };
        let ghost prev = out@;
        out.push(m);
        assert(out@.map_values(|m: Movement| m@) =~= prev.map_values(|m: Movement| m@).push(m@));
        i = i + 1;
    }
    assert(ls.subrange(0, move_lines@.len() as int) =~= ls);
    Ok(out)
}

/// Once a move line cannot be read, the lines after it do not matter.
proof fn lemma_instructions_stop(lines: Seq<Seq<char>>, k: int)
    requires
        0 < k <= lines.len(),
        instructions_of(lines.subrange(0, k)) is Err,
    ensures
        instructions_of(lines) == instructions_of(lines.subrange(0, k)),
    decreases lines.len(),
{
    if k < lines.len() {
        assert(lines.drop_last().subrange(0, k) =~= lines.subrange(0, k));
        lemma_instructions_stop(lines.drop_last(), k);
    } else {
        assert(lines.subrange(0, k) =~= lines);
    }
}

/// Reads a registry and its moves from the lines of an input and makes the moves.
fn simulate(lines: &[String], keep_order: bool) -> (r: Result<String, StackError>)
    ensures
        match r {
            Ok(s) => stack_tops(line_views(lines@), keep_order) == Ok::<Seq<char>, StackFault>(
                s@,
            ),
            Err(e) => stack_tops(line_views(lines@), keep_order) == Err::<Seq<char>, StackFault>(
                e@,
            ),
        },
{
    let mut stack = match Stack::new(lines) {
        Ok(st) => st,
        Err(e) => {
            return Err(e);
        },
    };
    let move_lines = get_move_lines(lines);
    let moves_vec = match get_move_vector(move_lines.as_slice()) {
        Ok(v) => v,
        Err(e) => {
            return Err(e);
        },
    };
    stack.run_moves(moves_vec.as_slice(), keep_order)
}

/// The top crate of each stack once the single-crate crane has made the moves, as
/// `stack_tops(_, false)` describes.
pub fn get_stack_tops(lines: &[String]) -> (r: Result<String, StackError>)
    ensures
        match r {
            Ok(s) => stack_tops(line_views(lines@), false) == Ok::<Seq<char>, StackFault>(s@),
            Err(e) => stack_tops(line_views(lines@), false) == Err::<Seq<char>, StackFault>(e@),
        },
{
    simulate(lines, false)
}

/// The top crate of each stack once the block crane has made the moves, as
/// `stack_tops(_, true)` describes.
pub fn get_stack_tops_with_cratemover_9001(lines: &[String]) -> (r: Result<String, StackError>)
    ensures
        match r {
            Ok(s) => stack_tops(line_views(lines@), true) == Ok::<Seq<char>, StackFault>(s@),
            Err(e) => stack_tops(line_views(lines@), true) == Err::<Seq<char>, StackFault>(e@),
        },
{
    simulate(lines, true)
}

// ---------------------------------------------------------------------------
// Laws of the crane and of the readout
// ---------------------------------------------------------------------------

proof fn lemma_position_from_in_range(tags: Seq<Seq<char>>, tag: Seq<char>, k: int)
    ensures
        position_from(tags, tag, k) matches Some(i) ==> k <= i < tags.len() && tags[i] == tag,
    decreases tags.len() - k,
{
    if 0 <= k < tags.len() && tags[k] != tag {
        lemma_position_from_in_range(tags, tag, k + 1);
    }
}

/// A single move is replayed as one step.
proof fn lemma_replay_one(
    tags: Seq<Seq<char>>,
    stacks: Seq<Seq<char>>,
    m: Instruction,
    keep_order: bool,
)
    ensures
        replay(tags, stacks, seq![m], keep_order) == match step(tags, stacks, m, keep_order) {
            Ok(after) => (after, None),
            Err(name) => (stacks, Some(name)),
        },
{
    let one = seq![m];
    assert(one.drop_last() =~= Seq::<Instruction>::empty());
    assert(one.last() == m);
    assert(replay(tags, stacks, one.drop_last(), keep_order) == (stacks, None::<Seq<char>>));
    assert(one.len() == 1);
}

/// A block of `n` crates moved between two different stacks arrives reversed with
/// the single-crate crane, and in the order it had with the block crane: the
/// crate `i` places below the top of the origin ends `i` places above the old top
/// of the destination with the first, and `n - 1 - i` places above it with the
/// second.
pub proof fn law_block_order(
    tags: Seq<Seq<char>>,
    stacks: Seq<Seq<char>>,
    m: Instruction,
    src: int,
    dst: int,
)
    requires
        tags.len() == stacks.len(),
        position(tags, m.origin) == Some(src),
        position(tags, m.destination) == Some(dst),
        src != dst,
        m.count <= stacks[src].len(),
    ensures
        ({
            let (single, failed_single) = replay(tags, stacks, seq![m], false);
            let (block, failed_block) = replay(tags, stacks, seq![m], true);
            let from = stacks[src];
            let to = stacks[dst];
            &&& failed_single is None
            &&& failed_block is None
            &&& single[dst].len() == to.len() + m.count
            &&& block[dst].len() == to.len() + m.count
            &&& single[dst].subrange(0, to.len() as int) == to
            &&& block[dst].subrange(0, to.len() as int) == to
            &&& forall|i: int|
                0 <= i < m.count ==> #[trigger] single[dst][to.len() + i] == from[from.len() - 1 - i]
            &&& forall|i: int|
                0 <= i < m.count ==> #[trigger] block[dst][to.len() + i] == from[from.len() - m.count + i]
        }),
{
    lemma_position_from_in_range(tags, m.origin, 0);
    lemma_position_from_in_range(tags, m.destination, 0);
    lemma_replay_one(tags, stacks, m, false);
    lemma_replay_one(tags, stacks, m, true);
    let to = stacks[dst];
    assert(shift(stacks, src, dst, m.count, false)[dst].subrange(0, to.len() as int) =~= to);
    assert(shift(stacks, src, dst, m.count, true)[dst].subrange(0, to.len() as int) =~= to);
}

/// A move whose origin is declared but whose destination is not fails with the
/// destination's name and leaves every stack as it was.
pub proof fn law_failed_move_restores(
    tags: Seq<Seq<char>>,
    stacks: Seq<Seq<char>>,
    m: Instruction,
    keep_order: bool,
)
    requires
        position(tags, m.origin) is Some,
        position(tags, m.destination) is None,
    ensures
        replay(tags, stacks, seq![m], keep_order) == (stacks, Some(m.destination)),
{
    lemma_replay_one(tags, stacks, m, keep_order);
}

/// A move that asks for at least as many crates as its origin holds does not fail:
/// it empties the origin and sets all its crates on the destination.
pub proof fn law_move_takes_what_is_there(
    tags: Seq<Seq<char>>,
    stacks: Seq<Seq<char>>,
    m: Instruction,
    src: int,
    dst: int,
    keep_order: bool,
)
    requires
        tags.len() == stacks.len(),
        position(tags, m.origin) == Some(src),
        position(tags, m.destination) == Some(dst),
        src != dst,
        m.count >= stacks[src].len(),
    ensures
        ({
            let (after, failed) = replay(tags, stacks, seq![m], keep_order);
            &&& failed is None
            &&& after[src] == Seq::<char>::empty()
            &&& after[dst] == stacks[dst] + if keep_order {
                stacks[src]
            } else {
                stacks[src].reverse()
            }
        }),
{
    lemma_position_from_in_range(tags, m.origin, 0);
    lemma_position_from_in_range(tags, m.destination, 0);
    lemma_replay_one(tags, stacks, m, keep_order);
    let from = stacks[src];
    assert(lifted(from, m.count) =~= from);
    assert(remaining(from, m.count) =~= Seq::<char>::empty());
}

/// The readout is the top crate of each non-empty stack, in the order in which the
/// stacks are declared.
pub proof fn law_readout_order(stacks: Seq<Seq<char>>)
    ensures
        tops(stacks) == stacks.filter(|s: Seq<char>| s.len() > 0).map_values(
            |s: Seq<char>| s.last(),
        ),
    decreases stacks.len(),
{
    reveal(Seq::filter);
    if stacks.len() > 0 {
        law_readout_order(stacks.drop_last());
        let nonempty = |s: Seq<char>| s.len() > 0;
        let top = |s: Seq<char>| s.last();
        let prev = stacks.drop_last().filter(nonempty);
        if stacks.last().len() > 0 {
            assert(prev.push(stacks.last()).map_values(top) =~= prev.map_values(top).push(
                stacks.last().last(),
            ));
            assert(tops(stacks) =~= tops(stacks.drop_last()).push(stacks.last().last()));
        } else {
            assert(tops(stacks) =~= tops(stacks.drop_last()));
        }
    } else {
        assert(tops(stacks) =~= Seq::<char>::empty());
    }
}

} // verus!
