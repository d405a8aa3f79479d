//! Calorie tallies: each elf's food items are listed one number per line, and a
//! line that is not a number (a blank line, most often) closes the current elf.

use vstd::prelude::*;
use crate::text::{chars_of, i32_of_text, line_views, parse_i32};

verus! {

/// Why a calorie answer could not be given.
#[derive(Debug, Clone, Copy, PartialEq, Eq)]
pub enum CalorieError {
    /// No elf is listed.
    NoElves,
    /// The answer does not fit in a 32-bit integer.
    Overflow,
}

/// The totals closed so far, the running total of the open elf, and whether an elf
/// is open (a number was read since the last separator).
pub open spec fn elf_scan(lines: Seq<Seq<char>>) -> (Seq<int>, int, bool)
    decreases lines.len(),
{
    if lines.len() == 0 {
        (Seq::empty(), 0, false)
    } else {
        let (totals, current, open) = elf_scan(lines.drop_last());
        match i32_of_text(lines.last()) {
            Some(v) => (totals, current + v, true),
            None => (totals.push(current), 0, false),
        }
    }
}

/// Each elf's total, in order: a separator line closes the running total (even an
/// empty one), and the input's end closes an open elf.
pub open spec fn elf_totals(lines: Seq<Seq<char>>) -> Seq<int> {
    let (totals, current, open) = elf_scan(lines);
    if open {
        totals.push(current)
    } else {
        totals
    }
}

/// The index of the first largest value of `t`.
pub open spec fn largest_index(t: Seq<int>) -> int
    decreases t.len(),
{
    if t.len() <= 1 {
        0
    } else {
        let j = largest_index(t.drop_last());
        if t.last() > t[j] {
            t.len() - 1
        } else {
            j
        }
    }
}

/// The sum of the `n` largest values of `t` (of all of them when it holds fewer).
pub open spec fn top_sum(t: Seq<int>, n: nat) -> int
    decreases n,
{
    if n == 0 || t.len() == 0 {
        0
    } else {
        let i = largest_index(t);
        t[i] + top_sum(t.remove(i), (n - 1) as nat)
    }
}

pub open spec fn ints(v: Seq<i64>) -> Seq<int> {
    v.map_values(|x: i64| x as int)
}

/// The bound on line counts under which every sum here is exact in 64 bits.
pub const MAX_LINES: usize = 0x8000_0000;

pub open spec fn bounded(v: Seq<i64>) -> bool {
    forall|i: int| 0 <= i < v.len() ==> -0x4000_0000_0000_0000 <= #[trigger] v[i] <= 0x4000_0000_0000_0000
}

/// Each elf's total, as `elf_totals` describes.
fn get_elf_calories_vector(lines: &[String]) -> (r: Vec<i64>)
    requires
        lines@.len() <= MAX_LINES,
    ensures
        ints(r@) == elf_totals(line_views(lines@)),
        bounded(r@),
        r@.len() <= lines@.len(),
{
    let ghost ls = line_views(lines@);
    let mut elf_calories: Vec<i64> = Vec::new();
    let mut calorie_counter: i64 = 0;
    let mut open = false;
    let mut i: usize = 0;
    while i < lines.len()
        invariant
            i <= lines@.len(),
            lines@.len() <= MAX_LINES,
            ls == line_views(lines@),
            elf_scan(ls.subrange(0, i as int)) == (ints(elf_calories@), calorie_counter as int, open),
            -0x8000_0000 * i <= calorie_counter <= 0x8000_0000 * i,
            bounded(elf_calories@),
            elf_calories@.len() <= i,
            open ==> elf_calories@.len() < i,
        decreases lines@.len() - i,
    {
        assert(ls.subrange(0, i + 1).drop_last() =~= ls.subrange(0, i as int));
        assert(ls.subrange(0, i + 1).last() == lines@[i as int]@);
        let chars = chars_of(lines[i].as_str());
        match parse_i32(chars.as_slice()) {
            Some(num) => {
                calorie_counter = calorie_counter + num as i64;
                open = true;
            },
            None => {
                let ghost prev = elf_calories@;
                elf_calories.push(calorie_counter);
                assert(ints(elf_calories@) =~= ints(prev).push(calorie_counter as int));
                calorie_counter = 0;
                open = false;
            },
        }
        i = i + 1;
    }
    assert(ls.subrange(0, lines@.len() as int) =~= ls);
    if open {
        let ghost prev = elf_calories@;
        elf_calories.push(calorie_counter);
        assert(ints(elf_calories@) =~= ints(prev).push(calorie_counter as int));
    }
    elf_calories
}

/// The index of the first largest value of `v`.
fn position_of_largest(v: &Vec<i64>) -> (r: usize)
    requires
        v@.len() > 0,
    ensures
        r as int == largest_index(ints(v@)),
        r < v@.len(),
{
    let ghost t = ints(v@);
    let mut best: usize = 0;
    let mut i: usize = 1;
    while i < v.len()
        invariant
            1 <= i <= v@.len(),
            t == ints(v@),
            best < i,
            best as int == largest_index(t.subrange(0, i as int)),
        decreases v@.len() - i,
    {
        assert(t.subrange(0, i + 1).drop_last() =~= t.subrange(0, i as int));
        if v[i] > v[best] {
            best = i;
        }
        i = i + 1;
    }
    assert(t.subrange(0, v@.len() as int) =~= t);
    best
}

/// The sum of the `n_first` largest totals, as `top_sum` describes.
fn get_total_count(elf_calories_vec: Vec<i64>, n_first: usize) -> (r: i128)
    requires
        elf_calories_vec@.len() <= MAX_LINES,
        bounded(elf_calories_vec@),
    ensures
        r == top_sum(ints(elf_calories_vec@), n_first as nat),
{
    let mut rest = elf_calories_vec;
    let ghost t0 = ints(rest@);
    let mut total: i128 = 0;
    let mut k: usize = 0;
    while k < n_first && rest.len() > 0
        invariant
            k <= n_first,
            rest@.len() <= MAX_LINES,
            k <= MAX_LINES,
            rest@.len() + k <= MAX_LINES,
            bounded(rest@),
            -0x4000_0000_0000_0000 * k <= total <= 0x4000_0000_0000_0000 * k,
            top_sum(t0, n_first as nat) == total + top_sum(ints(rest@), (n_first - k) as nat),
        decreases n_first - k,
    {
        let i = position_of_largest(&rest);
        let ghost before = ints(rest@);
        let x = rest.remove(i);
        assert(ints(rest@) =~= before.remove(i as int));
        assert(before[i as int] == x);
        total = total + x as i128;
        k = k + 1;
    }
    total
}

/// The largest elf total.
pub fn get_elf_calories(lines: &[String]) -> (r: Result<i32, CalorieError>)
    requires
        lines@.len() <= MAX_LINES,
    ensures
        ({
            let t = elf_totals(line_views(lines@));
            if t.len() == 0 {
                r == Err::<i32, CalorieError>(CalorieError::NoElves)
            } else {
                let m = t[largest_index(t)];
                if i32::MIN <= m <= i32::MAX {
                    r == Ok::<i32, CalorieError>(m as i32)
                } else {
                    r == Err::<i32, CalorieError>(CalorieError::Overflow)
                }
            }
        }),
{
    let elf_calories = get_elf_calories_vector(lines);
    if elf_calories.len() == 0 {
        return Err(CalorieError::NoElves);
    }
    let i = position_of_largest(&elf_calories);
    let m = elf_calories[i];
    if m < i32::MIN as i64 || m > i32::MAX as i64 {
        Err(CalorieError::Overflow)
    } else {
        Ok(m as i32)
    }
}

/// The sum of the `n_first` largest elf totals (of all of them when there are fewer).
pub fn get_top_n_elf_calories(lines: &[String], n_first: usize) -> (r: Result<i32, CalorieError>)
    requires
        lines@.len() <= MAX_LINES,
    ensures
        ({
            let s = top_sum(elf_totals(line_views(lines@)), n_first as nat);
            if i32::MIN <= s <= i32::MAX {
                r == Ok::<i32, CalorieError>(s as i32)
            } else {
                r == Err::<i32, CalorieError>(CalorieError::Overflow)
            }
        }),
{
    let elf_calories_vec = get_elf_calories_vector(lines);
    let total = get_total_count(elf_calories_vec, n_first);
    if total < i32::MIN as i128 || total > i32::MAX as i128 {
        Err(CalorieError::Overflow)
    } else {
        Ok(total as i32)
    }
}

} // verus!
