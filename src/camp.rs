//! Camp cleanup: each line pairs two elves' section ranges, written
//! `a-b,c-d`. A pair counts as a complete overlap when one range contains the
//! other, and as a partial overlap when the ranges share a section.

use vstd::prelude::*;
use crate::text::{chars_of, i32_of_text, line_views, parse_i32};

verus! {

/// Why an assignment line could not be read.
#[derive(Debug, Clone, Copy, PartialEq, Eq, Structural)]
pub enum CampError {
    /// The line does not split into exactly four limits at `,` and `-`.
    BadLimitCount,
    /// A limit is not a decimal 32-bit integer.
    NotANumber,
}

pub open spec fn is_separator(c: char) -> bool {
    c == ',' || c == '-'
}

/// The pieces of `s` between separators, empty pieces kept; an empty `s` is one
/// empty piece.
pub open spec fn pieces(s: Seq<char>) -> Seq<Seq<char>>
    decreases s.len(),
{
    if s.len() == 0 {
        seq![Seq::empty()]
    } else {
        let p = pieces(s.drop_last());
        if is_separator(s.last()) {
            p.push(Seq::empty())
        } else {
            p.update(p.len() - 1, p.last().push(s.last()))
        }
    }
}

pub type Range = (i32, i32);

/// The two ranges of an assignment line.
pub open spec fn pair_of(line: Seq<char>) -> Result<(Range, Range), CampError> {
    let p = pieces(line);
    if p.len() != 4 {
        Err(CampError::BadLimitCount)
    } else {
        match (i32_of_text(p[0]), i32_of_text(p[1]), i32_of_text(p[2]), i32_of_text(p[3])) {
            (Some(a), Some(b), Some(c), Some(d)) => Ok(((a, b), (c, d))),
            _ => Err(CampError::NotANumber),
        }
    }
}

/// The pairs of the lines, in order, or the error of the first line that cannot
/// be read.
pub open spec fn pairs_of(lines: Seq<Seq<char>>) -> Result<Seq<(Range, Range)>, CampError>
    decreases lines.len(),
{
    if lines.len() == 0 {
        Ok(Seq::empty())
    } else {
        match pairs_of(lines.drop_last()) {
            Err(e) => Err(e),
            Ok(ps) => match pair_of(lines.last()) {
                Err(e) => Err(e),
                Ok(p) => Ok(ps.push(p)),
            },
        }
    }
}

/// One range holds every section of the other.
pub open spec fn contains_fully(r1: Range, r2: Range) -> bool {
    (r1.0 <= r2.0 && r1.1 >= r2.1) || (r2.0 <= r1.0 && r2.1 >= r1.1)
}

/// A limit of either range lies within the other range.
pub open spec fn contains_partly(r1: Range, r2: Range) -> bool {
    ||| r1.0 <= r2.0 <= r1.1
    ||| r1.0 <= r2.1 <= r1.1
    ||| r2.0 <= r1.0 <= r2.1
    ||| r2.0 <= r1.1 <= r2.1
}

/// How many pairs satisfy `overlap`.
pub open spec fn count_pairs(ps: Seq<(Range, Range)>, overlap: spec_fn(Range, Range) -> bool) -> int
    decreases ps.len(),
{
    if ps.len() == 0 {
        0
    } else {
        count_pairs(ps.drop_last(), overlap) + if overlap(ps.last().0, ps.last().1) {
            1int
        } else {
            0int
        }
    }
}

pub open spec fn full_overlap() -> spec_fn(Range, Range) -> bool {
    |r1: Range, r2: Range| contains_fully(r1, r2)
}

pub open spec fn partial_overlap() -> spec_fn(Range, Range) -> bool {
    |r1: Range, r2: Range| contains_partly(r1, r2)
}

/// Whether one range holds every section of the other.
pub fn fully_contains(range_1: Range, range_2: Range) -> (r: bool)
    ensures
        r == contains_fully(range_1, range_2),
{
    (range_1.0 <= range_2.0 && range_1.1 >= range_2.1) || (range_2.0 <= range_1.0 && range_2.1
        >= range_1.1)
}

/// Whether a limit of either range lies within the other range.
pub fn partially_contains(range_1: Range, range_2: Range) -> (r: bool)
    ensures
        r == contains_partly(range_1, range_2),
{
    (range_1.0 <= range_2.0 && range_2.0 <= range_1.1) || (range_1.0 <= range_2.1 && range_2.1
        <= range_1.1) || (range_2.0 <= range_1.0 && range_1.0 <= range_2.1) || (range_2.0
        <= range_1.1 && range_1.1 <= range_2.1)
}

/// The pieces of `s` between separators, as `pieces` describes.
fn split_limits(s: &[char]) -> (r: Vec<Vec<char>>)
    ensures
        r@.map_values(|v: Vec<char>| v@) == pieces(s@),
{
    let mut out: Vec<Vec<char>> = Vec::new();
    let mut cur: Vec<char> = Vec::new();
    let mut i: usize = 0;
    while i < s.len()
        invariant
            i <= s@.len(),
            out@.map_values(|v: Vec<char>| v@).push(cur@) == pieces(s@.subrange(0, i as int)),
        decreases s@.len() - i,
    {
        assert(s@.subrange(0, i + 1).drop_last() =~= s@.subrange(0, i as int));
        let ghost before = out@.map_values(|v: Vec<char>| v@);
        if s[i] == ',' || s[i] == '-' {
            out.push(cur);
            cur = Vec::new();
            assert(out@.map_values(|v: Vec<char>| v@) =~= before.push(
                pieces(s@.subrange(0, i as int)).last(),
            ));
        } else {
            cur.push(s[i]);
        }
        assert(out@.map_values(|v: Vec<char>| v@).push(cur@) =~= pieces(s@.subrange(0, i + 1)));
        i = i + 1;
    }
    assert(s@.subrange(0, s@.len() as int) =~= s@);
    let ghost before = out@.map_values(|v: Vec<char>| v@);
    out.push(cur);
    assert(out@.map_values(|v: Vec<char>| v@) =~= before.push(cur@));
    out
}

/// A pair of elves' ranges, with whether they overlap completely or partly.
pub struct AssignmentPair {
    pub elf_1: Range,
    pub elf_2: Range,
    pub total_overlap: bool,
    pub simple_overlap: bool,
}

impl AssignmentPair {
    /// Whether both flags say what the two ranges give.
    pub open spec fn wf(&self) -> bool {
        &&& self.total_overlap == contains_fully(self.elf_1, self.elf_2)
        &&& self.simple_overlap == contains_partly(self.elf_1, self.elf_2)
    }

    /// Reads one assignment line, as `pair_of` describes.
    pub fn new(assignment_line: &str) -> (r: Result<AssignmentPair, CampError>)
        ensures
            match pair_of(assignment_line@) {
                Ok((e1, e2)) => r matches Ok(p) && p.elf_1 == e1 && p.elf_2 == e2 && p.wf(),
                Err(e) => r matches Err(f) && f == e,
            },
    {
        let chars = chars_of(assignment_line);
        let limits = split_limits(chars.as_slice());
        let ghost ps = limits@.map_values(|v: Vec<char>| v@);
        if limits.len() != 4 {
            return Err(CampError::BadLimitCount);
        }
        assert(ps[0] == limits@[0]@ && ps[1] == limits@[1]@ && ps[2] == limits@[2]@ && ps[3]
            == limits@[3]@);
        let elf_1_lower = parse_i32(limits[0].as_slice());
        let elf_1_upper = parse_i32(limits[1].as_slice());
        let elf_2_lower = parse_i32(limits[2].as_slice());
        let elf_2_upper = parse_i32(limits[3].as_slice());
        match (elf_1_lower, elf_1_upper, elf_2_lower, elf_2_upper) {
            (Some(a), Some(b), Some(c), Some(d)) => {
                let elf_1 = (a, b);
                let elf_2 = (c, d);
                let total_overlap = fully_contains(elf_1, elf_2);
                let simple_overlap = partially_contains(elf_1, elf_2);
                Ok(AssignmentPair { elf_1, elf_2, total_overlap, simple_overlap })
            },
            _ => Err(CampError::NotANumber),
        }
    }
}

pub open spec fn ranges(v: Seq<AssignmentPair>) -> Seq<(Range, Range)> {
    v.map_values(|p: AssignmentPair| (p.elf_1, p.elf_2))
}

/// Once a line cannot be read, the lines after it do not matter.
proof fn lemma_pairs_stop(lines: Seq<Seq<char>>, k: int)
    requires
        0 < k <= lines.len(),
        pairs_of(lines.subrange(0, k)) is Err,
    ensures
        pairs_of(lines) == pairs_of(lines.subrange(0, k)),
    decreases lines.len(),
{
    if k < lines.len() {
        assert(lines.drop_last().subrange(0, k) =~= lines.subrange(0, k));
        lemma_pairs_stop(lines.drop_last(), k);
    } else {
        assert(lines.subrange(0, k) =~= lines);
    }
}

/// Reads each assignment line, as `pairs_of` describes.
fn get_assignments_vec(assignment_lines: &[String]) -> (r: Result<Vec<AssignmentPair>, CampError>)
    ensures
        match pairs_of(line_views(assignment_lines@)) {
            Ok(ps) => r matches Ok(v) && ranges(v@) == ps && v@.len() == assignment_lines@.len()
                && forall|i: int| 0 <= i < v@.len() ==> (#[trigger] v@[i]).wf(),
            Err(e) => r matches Err(f) && f == e,
        },
{
    let ghost ls = line_views(assignment_lines@);
    let mut assignments_vec: Vec<AssignmentPair> = Vec::new();
    let mut i: usize = 0;
    assert(ls.subrange(0, 0) =~= Seq::<Seq<char>>::empty());
    assert(ranges(assignments_vec@) =~= Seq::<(Range, Range)>::empty());
    while i < assignment_lines.len()
        invariant
            i <= assignment_lines@.len(),
            ls == line_views(assignment_lines@),
            pairs_of(ls.subrange(0, i as int)) == Ok::<Seq<(Range, Range)>, CampError>(
                ranges(assignments_vec@),
            ),
            assignments_vec@.len() == i,
            forall|j: int| 0 <= j < assignments_vec@.len() ==> (#[trigger] assignments_vec@[j]).wf(),
        decreases assignment_lines@.len() - i,
    {
        assert(ls.subrange(0, i + 1).drop_last() =~= ls.subrange(0, i as int));
        assert(ls.subrange(0, i + 1).last() == assignment_lines@[i as int]@);
        let pair = match AssignmentPair::new(assignment_lines[i].as_str()) {
            Ok(p) => p,
            Err(e) => {
                proof {
                    lemma_pairs_stop(ls, i as int + 1);
                }
                return Err(e);
            },
        };
        let ghost prev = assignments_vec@;
        let ghost rs = (pair.elf_1, pair.elf_2);
        assignments_vec.push(pair);
        assert(ranges(assignments_vec@) =~= ranges(prev).push(rs));
        i = i + 1;
    }
    assert(ls.subrange(0, assignment_lines@.len() as int) =~= ls);
    Ok(assignments_vec)
}

/// How many pairs overlap completely.
fn get_number_of_complete_overlaps(assignments_vec: &[AssignmentPair]) -> (r: i32)
    requires
        assignments_vec@.len() <= i32::MAX,
        forall|i: int| 0 <= i < assignments_vec@.len() ==> (#[trigger] assignments_vec@[i]).wf(),
    ensures
        r == count_pairs(ranges(assignments_vec@), full_overlap()),
{
    let ghost all = ranges(assignments_vec@);
    let mut complete_overlaps: i32 = 0;
    let mut i: usize = 0;
    while i < assignments_vec.len()
        invariant
            i <= assignments_vec@.len(),
            assignments_vec@.len() <= i32::MAX,
            all == ranges(assignments_vec@),
            forall|j: int| 0 <= j < assignments_vec@.len() ==> (#[trigger] assignments_vec@[j]).wf(),
            complete_overlaps == count_pairs(all.subrange(0, i as int), full_overlap()),
            0 <= complete_overlaps <= i,
        decreases assignments_vec@.len() - i,
    {
        assert(all.subrange(0, i + 1).drop_last() =~= all.subrange(0, i as int));
        assert(assignments_vec@[i as int].wf());
        if assignments_vec[i].total_overlap {
            complete_overlaps = complete_overlaps + 1;
        }
        i = i + 1;
    }
    assert(all.subrange(0, assignments_vec@.len() as int) =~= all);
    complete_overlaps
}

/// How many pairs overlap at all.
fn get_number_of_partial_overlaps(assignments_vec: &[AssignmentPair]) -> (r: i32)
    requires
        assignments_vec@.len() <= i32::MAX,
        forall|i: int| 0 <= i < assignments_vec@.len() ==> (#[trigger] assignments_vec@[i]).wf(),
    ensures
        r == count_pairs(ranges(assignments_vec@), partial_overlap()),
{
    let ghost all = ranges(assignments_vec@);
    let mut partial_overlaps: i32 = 0;
    let mut i: usize = 0;
    while i < assignments_vec.len()
        invariant
            i <= assignments_vec@.len(),
            assignments_vec@.len() <= i32::MAX,
            all == ranges(assignments_vec@),
            forall|j: int| 0 <= j < assignments_vec@.len() ==> (#[trigger] assignments_vec@[j]).wf(),
            partial_overlaps == count_pairs(all.subrange(0, i as int), partial_overlap()),
            0 <= partial_overlaps <= i,
        decreases assignments_vec@.len() - i,
    {
        assert(all.subrange(0, i + 1).drop_last() =~= all.subrange(0, i as int));
        assert(assignments_vec@[i as int].wf());
        if assignments_vec[i].simple_overlap {
            partial_overlaps = partial_overlaps + 1;
        }
        i = i + 1;
    }
    assert(all.subrange(0, assignments_vec@.len() as int) =~= all);
    partial_overlaps
}

/// How many assignment pairs have one range holding the other.
pub fn get_complete_overlaps(assignment_lines: &[String]) -> (r: Result<i32, CampError>)
    requires
        assignment_lines@.len() <= i32::MAX,
    ensures
        match pairs_of(line_views(assignment_lines@)) {
            Ok(ps) => r == Ok::<i32, CampError>(count_pairs(ps, full_overlap()) as i32),
            Err(e) => r == Err::<i32, CampError>(e),
        },
{
    let assignments_vec = match get_assignments_vec(assignment_lines) {
        Ok(v) => v,
        Err(e) => {
            return Err(e);
        },
    };
    Ok(get_number_of_complete_overlaps(assignments_vec.as_slice()))
}

/// How many assignment pairs share at least one section.
pub fn get_partial_overlaps(assignment_lines: &[String]) -> (r: Result<i32, CampError>)
    requires
        assignment_lines@.len() <= i32::MAX,
    ensures
        match pairs_of(line_views(assignment_lines@)) {
            Ok(ps) => r == Ok::<i32, CampError>(count_pairs(ps, partial_overlap()) as i32),
            Err(e) => r == Err::<i32, CampError>(e),
        },
{
    let assignments_vec = match get_assignments_vec(assignment_lines) {
        Ok(v) => v,
        Err(e) => {
            return Err(e);
        },
    };
    Ok(get_number_of_partial_overlaps(assignments_vec.as_slice()))
}

} // verus!
