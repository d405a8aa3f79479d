//! Rucksack reorganisation: each line lists a rucksack's items, one letter each,
//! its first half in one compartment and its second half in the other. The item
//! type found in both compartments is misplaced; the item type shared by each
//! group of three rucksacks is the group's badge. `a`..`z` have priorities 1 to
//! 26, `A`..`Z` priorities 27 to 52.

use vstd::prelude::*;
use crate::text::{chars_of, contains_char, line_views, string_of};

verus! {

/// Why a list of rucksacks could not be used.
#[derive(Debug, Clone, Copy, PartialEq, Eq, Structural)]
pub enum RucksackError {
    /// A character that is no item type (no ASCII letter).
    UnknownItemType(char),
    /// A rucksack with an odd number of items.
    UnevenItems,
    /// A rucksack whose compartments share no item type.
    NoRepeatedItem,
    /// A group of three rucksacks that share no item type.
    NoBadge,
    /// The list does not end with a complete group of three (or is empty).
    IncompleteGroup,
}

pub open spec fn is_item(c: char) -> bool {
    ('a' <= c && c <= 'z') || ('A' <= c && c <= 'Z')
}

/// The priority of an item type.
pub open spec fn priority(c: char) -> int {
    if 'a' <= c && c <= 'z' {
        c as int - 'a' as int + 1
    } else {
        c as int - 'A' as int + 27
    }
}

/// The index of the first character at or after `k` that satisfies `p`.
pub open spec fn first_from(s: Seq<char>, p: spec_fn(char) -> bool, k: int) -> Option<int>
    decreases s.len() - k,
{
    if k < 0 || k >= s.len() {
        None
    } else if p(s[k]) {
        Some(k)
    } else {
        first_from(s, p, k + 1)
    }
}

proof fn lemma_first_from_in_range(s: Seq<char>, p: spec_fn(char) -> bool, k: int)
    requires
        0 <= k,
    ensures
        first_from(s, p, k) matches Some(i) ==> k <= i < s.len() && p(s[i]),
        first_from(s, p, k) is None ==> forall|j: int| k <= j < s.len() ==> !p(#[trigger] s[j]),
    decreases s.len() - k,
{
    if 0 <= k < s.len() && !p(s[k]) {
        lemma_first_from_in_range(s, p, k + 1);
    }
}

pub open spec fn non_item() -> spec_fn(char) -> bool {
    |c: char| !is_item(c)
}

pub open spec fn held_by(b: Seq<char>) -> spec_fn(char) -> bool {
    |c: char| b.contains(c)
}

pub open spec fn held_by_both(b: Seq<char>, c: Seq<char>) -> spec_fn(char) -> bool {
    |x: char| b.contains(x) && c.contains(x)
}

/// The index of the first character of `line` that is no item type.
pub open spec fn first_non_item(line: Seq<char>) -> Option<int> {
    first_from(line, non_item(), 0)
}

/// The first item type of `a` that `b` holds too.
pub open spec fn first_shared(a: Seq<char>, b: Seq<char>) -> Option<int> {
    first_from(a, held_by(b), 0)
}

/// The first item type of `a` that both `b` and `c` hold too.
pub open spec fn first_shared3(a: Seq<char>, b: Seq<char>, c: Seq<char>) -> Option<int> {
    first_from(a, held_by_both(b, c), 0)
}

/// A rucksack line: its two compartments and the first item type of the first
/// that the second holds too.
pub open spec fn rucksack_of(line: Seq<char>) -> Result<(Seq<char>, Seq<char>, char), RucksackError> {
    match first_non_item(line) {
        Some(i) => Err(RucksackError::UnknownItemType(line[i])),
        None => if line.len() % 2 != 0 {
            Err(RucksackError::UnevenItems)
        } else {
            let first = line.subrange(0, line.len() as int / 2);
            let second = line.subrange(line.len() as int / 2, line.len() as int);
            match first_shared(first, second) {
                None => Err(RucksackError::NoRepeatedItem),
                Some(i) => Ok((first, second, first[i])),
            }
        },
    }
}

/// The misplaced item type of each rucksack line, or the error of the first line
/// that cannot be read.
pub open spec fn wrong_items_of(lines: Seq<Seq<char>>) -> Result<Seq<char>, RucksackError>
    decreases lines.len(),
{
    if lines.len() == 0 {
        Ok(Seq::empty())
    } else {
        match wrong_items_of(lines.drop_last()) {
            Err(e) => Err(e),
            Ok(items) => match rucksack_of(lines.last()) {
                Err(e) => Err(e),
                Ok((_, _, w)) => Ok(items.push(w)),
            },
        }
    }
}

/// The badges of the complete groups read so far, or the first error: each line
/// must hold item types only, and the third line of a group must share an item
/// type with the two before it.
pub open spec fn group_scan(lines: Seq<Seq<char>>) -> Result<Seq<char>, RucksackError>
    decreases lines.len(),
{
    if lines.len() == 0 {
        Ok(Seq::empty())
    } else {
        match group_scan(lines.drop_last()) {
            Err(e) => Err(e),
            Ok(badges) => {
                let line = lines.last();
                match first_non_item(line) {
                    Some(i) => Err(RucksackError::UnknownItemType(line[i])),
                    None => if lines.len() % 3 == 0 {
                        let r1 = lines[lines.len() - 3];
                        let r2 = lines[lines.len() - 2];
                        match first_shared3(r1, r2, line) {
                            None => Err(RucksackError::NoBadge),
                            Some(i) => Ok(badges.push(r1[i])),
                        }
                    } else {
                        Ok(badges)
                    },
                }
            },
        }
    }
}

/// The badge of each group of three lines; the list must be a non-empty run of
/// complete groups.
pub open spec fn badges_of(lines: Seq<Seq<char>>) -> Result<Seq<char>, RucksackError> {
    match group_scan(lines) {
        Err(e) => Err(e),
        Ok(badges) => if lines.len() > 0 && lines.len() % 3 == 0 {
            Ok(badges)
        } else {
            Err(RucksackError::IncompleteGroup)
        },
    }
}

/// The sum of the priorities of `items`.
pub open spec fn priority_sum(items: Seq<char>) -> int
    decreases items.len(),
{
    if items.len() == 0 {
        0
    } else {
        priority_sum(items.drop_last()) + priority(items.last())
    }
}

/// The number of lines whose priorities always sum within 32 bits.
pub const MAX_RUCKSACKS: usize = 41_297_762;

/// The priority of an item type; `None` for any other character.
pub fn get_item_priority(item_type: char) -> (r: Option<i32>)
    ensures
        is_item(item_type) ==> r == Some(priority(item_type) as i32) && 1 <= priority(item_type)
            <= 52,
        !is_item(item_type) ==> r is None,
{
    if 'a' <= item_type && item_type <= 'z' {
        Some((item_type as u32 - 'a' as u32) as i32 + 1)
    } else if 'A' <= item_type && item_type <= 'Z' {
        Some((item_type as u32 - 'A' as u32) as i32 + 27)
    } else {
        None
    }
}

/// The index of the first character of `s` that is no item type.
fn find_non_item(s: &[char]) -> (r: Option<usize>)
    ensures
        match first_non_item(s@) {
            Some(i) => r == Some(i as usize) && 0 <= i < s@.len(),
            None => r is None,
        },
{
    let ghost p = non_item();
    let mut i: usize = 0;
    while i < s.len()
        invariant
            i <= s@.len(),
            p == non_item(),
            first_from(s@, p, 0) == first_from(s@, p, i as int),
        decreases s@.len() - i,
    {
        let c = s[i];
        if !(('a' <= c && c <= 'z') || ('A' <= c && c <= 'Z')) {
            return Some(i);
        }
        i = i + 1;
    }
    None
}

/// A rucksack: its two compartments and the item type they share.
pub struct Rucksack {
    pub compartment_1: String,
    pub compartment_2: String,
    pub wrong_item: char,
}

impl Rucksack {
    /// Reads one rucksack line, as `rucksack_of` describes.
    pub fn new(items: &str) -> (r: Result<Rucksack, RucksackError>)
        ensures
            match rucksack_of(items@) {
                Ok((c1, c2, w)) => r matches Ok(sack) && sack.compartment_1@ == c1
                    && sack.compartment_2@ == c2 && sack.wrong_item == w,
                Err(e) => r matches Err(f) && f == e,
            },
    {
        let chars = chars_of(items);
        match find_non_item(chars.as_slice()) {
            Some(i) => {
                return Err(RucksackError::UnknownItemType(chars[i]));
            },
            None => {},
        }
        let num_items = chars.len();
        if num_items % 2 != 0 {
            return Err(RucksackError::UnevenItems);
        }
        let mid = num_items / 2;
        let mut first: Vec<char> = Vec::new();
        let mut second: Vec<char> = Vec::new();
        let mut i: usize = 0;
        while i < num_items
            invariant
                i <= num_items,
                num_items == chars@.len(),
                mid == num_items / 2,
                first@ == chars@.subrange(0, if i < mid { i as int } else { mid as int }),
                second@ == chars@.subrange(mid as int, if i < mid { mid as int } else { i as int }),
            decreases num_items - i,
        {
            if i < mid {
                first.push(chars[i]);
            } else {
                second.push(chars[i]);
            }
            i = i + 1;
            assert(first@ =~= chars@.subrange(0, if i < mid { i as int } else { mid as int }));
            assert(second@ =~= chars@.subrange(mid as int, if i < mid { mid as int } else { i as int }));
        }
        assert(first@ == chars@.subrange(0, mid as int));
        assert(second@ == chars@.subrange(mid as int, num_items as int));
        let ghost p = held_by(second@);
        let mut k: usize = 0;
        while k < first.len()
            invariant
                k <= first@.len(),
                p == held_by(second@),
                chars@ == items@,
                first_non_item(items@) is None,
                num_items == chars@.len(),
                num_items % 2 == 0,
                mid == num_items / 2,
                first@ == chars@.subrange(0, mid as int),
                second@ == chars@.subrange(mid as int, num_items as int),
                first_from(first@, p, 0) == first_from(first@, p, k as int),
            decreases first@.len() - k,
        {
            if contains_char(second.as_slice(), first[k]) {
                assert(p(first@[k as int]));
                assert(first_from(first@, p, k as int) == Some(k as int));
                return Ok(
                    Rucksack {
                        compartment_1: string_of(first.as_slice()),
                        compartment_2: string_of(second.as_slice()),
                        wrong_item: first[k],
                    },
                );
            }
            k = k + 1;
        }
        Err(RucksackError::NoRepeatedItem)
    }
}

/// Reads each rucksack line, stopping at the first that cannot be read.
fn get_rucksack_vec(rucksack_lines: &[String]) -> (r: Result<Vec<Rucksack>, RucksackError>)
    ensures
        match wrong_items_of(line_views(rucksack_lines@)) {
            Ok(items) => r matches Ok(v) && v@.map_values(|s: Rucksack| s.wrong_item) == items
                && v@.len() == rucksack_lines@.len(),
            Err(e) => r matches Err(f) && f == e,
        },
{
    let ghost ls = line_views(rucksack_lines@);
    let mut rucksack_vec: Vec<Rucksack> = Vec::new();
    let mut i: usize = 0;
    assert(ls.subrange(0, 0) =~= Seq::<Seq<char>>::empty());
    assert(rucksack_vec@.map_values(|s: Rucksack| s.wrong_item) =~= Seq::<char>::empty());
    while i < rucksack_lines.len()
        invariant
            i <= rucksack_lines@.len(),
            ls == line_views(rucksack_lines@),
            wrong_items_of(ls.subrange(0, i as int)) == Ok::<Seq<char>, RucksackError>(
                rucksack_vec@.map_values(|s: Rucksack| s.wrong_item),
            ),
            rucksack_vec@.len() == i,
        decreases rucksack_lines@.len() - i,
    {
        assert(ls.subrange(0, i + 1).drop_last() =~= ls.subrange(0, i as int));
        assert(ls.subrange(0, i + 1).last() == rucksack_lines@[i as int]@);
        let sack = match Rucksack::new(rucksack_lines[i].as_str()) {
            Ok(s) => s,
            Err(e) => {
                proof {
                    lemma_wrong_items_stop(ls, i as int + 1);
                }
                return Err(e);
            },
        };
        let ghost prev = rucksack_vec@;
        let ghost w = sack.wrong_item;
        rucksack_vec.push(sack);
        assert(rucksack_vec@.map_values(|s: Rucksack| s.wrong_item) =~= prev.map_values(
            |s: Rucksack| s.wrong_item,
        ).push(w));
        i = i + 1;
    }
    assert(ls.subrange(0, rucksack_lines@.len() as int) =~= ls);
    Ok(rucksack_vec)
}

/// Once a rucksack line cannot be read, the lines after it do not matter.
proof fn lemma_wrong_items_stop(lines: Seq<Seq<char>>, k: int)
    requires
        0 < k <= lines.len(),
        wrong_items_of(lines.subrange(0, k)) is Err,
    ensures
        wrong_items_of(lines) == wrong_items_of(lines.subrange(0, k)),
    decreases lines.len(),
{
    if k < lines.len() {
        assert(lines.drop_last().subrange(0, k) =~= lines.subrange(0, k));
        lemma_wrong_items_stop(lines.drop_last(), k);
    } else {
        assert(lines.subrange(0, k) =~= lines);
    }
}

/// The priority of each rucksack's misplaced item type.
fn get_rucksacks_priorities(rucksacks: &[Rucksack]) -> (r: Vec<i32>)
    requires
        forall|i: int| 0 <= i < rucksacks@.len() ==> is_item(#[trigger] rucksacks@[i].wrong_item),
    ensures
        r@.len() == rucksacks@.len(),
        forall|i: int|
            0 <= i < r@.len() ==> #[trigger] r@[i] == priority(rucksacks@[i].wrong_item) && 1
                <= r@[i] <= 52,
{
    let mut priorities: Vec<i32> = Vec::new();
    let mut i: usize = 0;
    while i < rucksacks.len()
        invariant
            i <= rucksacks@.len(),
            forall|j: int| 0 <= j < rucksacks@.len() ==> is_item(#[trigger] rucksacks@[j].wrong_item),
            priorities@.len() == i,
            forall|j: int|
                0 <= j < i ==> #[trigger] priorities@[j] == priority(rucksacks@[j].wrong_item) && 1
                    <= priorities@[j] <= 52,
        decreases rucksacks@.len() - i,
    {
        assert(is_item(rucksacks@[i as int].wrong_item));
        let p = get_item_priority(rucksacks[i].wrong_item).unwrap();
        priorities.push(p);
        i = i + 1;
    }
    priorities
}

/// The sum of priorities whose items are `items`.
fn sum_priorities(priorities: &[i32], Ghost(items): Ghost<Seq<char>>) -> (r: i32)
    requires
        priorities@.len() == items.len(),
        priorities@.len() <= MAX_RUCKSACKS,
        forall|i: int|
            0 <= i < priorities@.len() ==> #[trigger] priorities@[i] == priority(items[i]) && 1
                <= priorities@[i] <= 52,
    ensures
        r == priority_sum(items),
{
    let mut total: i32 = 0;
    let mut i: usize = 0;
    while i < priorities.len()
        invariant
            i <= priorities@.len(),
            priorities@.len() == items.len(),
            priorities@.len() <= MAX_RUCKSACKS,
            forall|j: int|
                0 <= j < priorities@.len() ==> #[trigger] priorities@[j] == priority(items[j]) && 1
                    <= priorities@[j] <= 52,
            total == priority_sum(items.subrange(0, i as int)),
            0 <= total <= 52 * i,
        decreases priorities@.len() - i,
    {
        assert(items.subrange(0, i + 1).drop_last() =~= items.subrange(0, i as int));
        total = total + priorities[i];
        i = i + 1;
    }
    assert(items.subrange(0, items.len() as int) =~= items);
    total
}

proof fn lemma_rucksack_items(line: Seq<char>)
    requires
        rucksack_of(line) is Ok,
    ensures
        is_item(rucksack_of(line)->Ok_0.2),
{
    lemma_first_from_in_range(line, non_item(), 0);
    let first = line.subrange(0, line.len() as int / 2);
    let second = line.subrange(line.len() as int / 2, line.len() as int);
    lemma_first_from_in_range(first, held_by(second), 0);
    let i = first_shared(first, second)->0;
    assert(first[i] == line[i]);
}

proof fn lemma_wrong_items_are_items(lines: Seq<Seq<char>>)
    requires
        wrong_items_of(lines) is Ok,
    ensures
        forall|i: int|
            0 <= i < wrong_items_of(lines)->Ok_0.len() ==> is_item(
                #[trigger] wrong_items_of(lines)->Ok_0[i],
            ),
    decreases lines.len(),
{
    if lines.len() > 0 {
        lemma_wrong_items_are_items(lines.drop_last());
        lemma_rucksack_items(lines.last());
    }
}

/// The sum of the priorities of the misplaced item types.
pub fn get_total_priority(rucksack_lines: &[String]) -> (r: Result<i32, RucksackError>)
    requires
        rucksack_lines@.len() <= MAX_RUCKSACKS,
    ensures
        match wrong_items_of(line_views(rucksack_lines@)) {
            Ok(items) => r == Ok::<i32, RucksackError>(priority_sum(items) as i32),
            Err(e) => r == Err::<i32, RucksackError>(e),
        },
{
    let rucksack_vec = match get_rucksack_vec(rucksack_lines) {
        Ok(v) => v,
        Err(e) => {
            return Err(e);
        },
    };
    let ghost items = wrong_items_of(line_views(rucksack_lines@))->Ok_0;
    proof {
        lemma_wrong_items_are_items(line_views(rucksack_lines@));
        assert forall|i: int| 0 <= i < rucksack_vec@.len() implies is_item(
            #[trigger] rucksack_vec@[i].wrong_item,
        ) by {
            assert(rucksack_vec@.map_values(|s: Rucksack| s.wrong_item)[i] == rucksack_vec@[i].wrong_item);
        }
    }
    let priorities_vec = get_rucksacks_priorities(rucksack_vec.as_slice());
    proof {
        assert forall|i: int| 0 <= i < priorities_vec@.len() implies #[trigger] priorities_vec@[i]
            == priority(items[i]) && 1 <= priorities_vec@[i] <= 52 by {
            assert(rucksack_vec@.map_values(|s: Rucksack| s.wrong_item)[i] == rucksack_vec@[i].wrong_item);
        }
    }
    Ok(sum_priorities(priorities_vec.as_slice(), Ghost(items)))
}

/// A group of three rucksacks and the item type all three hold.
pub struct RucksackGroup {
    pub rucksack_1_items: String,
    pub rucksack_2_items: String,
    pub rucksack_3_items: String,
    pub badge: char,
}

/// The first item type of `r1` that `r2` and `r3` hold too.
fn find_badge(r1: &[char], r2: &[char], r3: &[char]) -> (r: Option<usize>)
    ensures
        match r {
            Some(k) => first_shared3(r1@, r2@, r3@) == Some(k as int) && k < r1@.len(),
            None => first_shared3(r1@, r2@, r3@) is None,
        },
{
    let ghost p = held_by_both(r2@, r3@);
    let mut i: usize = 0;
    while i < r1.len()
        invariant
            i <= r1@.len(),
            p == held_by_both(r2@, r3@),
            first_from(r1@, p, 0) == first_from(r1@, p, i as int),
        decreases r1@.len() - i,
    {
        if contains_char(r2, r1[i]) && contains_char(r3, r1[i]) {
            assert(p(r1@[i as int]));
            return Some(i);
        }
        i = i + 1;
    }
    None
}

/// Once a group cannot be read, the lines after it do not matter.
proof fn lemma_groups_stop(lines: Seq<Seq<char>>, k: int)
    requires
        0 < k <= lines.len(),
        group_scan(lines.subrange(0, k)) is Err,
    ensures
        group_scan(lines) == group_scan(lines.subrange(0, k)),
    decreases lines.len(),
{
    if k < lines.len() {
        assert(lines.drop_last().subrange(0, k) =~= lines.subrange(0, k));
        lemma_groups_stop(lines.drop_last(), k);
    } else {
        assert(lines.subrange(0, k) =~= lines);
    }
}

/// The third line of a group adds the group's badge.
proof fn lemma_group_step(lines: Seq<Seq<char>>, badges: Seq<char>, k: int)
    requires
        lines.len() >= 3,
        lines.len() % 3 == 0,
        group_scan(lines.drop_last()) == Ok::<Seq<char>, RucksackError>(badges),
        first_non_item(lines.last()) is None,
        first_shared3(lines[lines.len() - 3], lines[lines.len() - 2], lines.last()) == Some(k),
    ensures
        group_scan(lines) == Ok::<Seq<char>, RucksackError>(
            badges.push(lines[lines.len() - 3][k]),
        ),
{
}

/// Group `k` holds lines `3k`, `3k + 1` and `3k + 2`, in order.
pub open spec fn holds_lines(g: RucksackGroup, lines: Seq<Seq<char>>, k: int) -> bool {
    &&& g.rucksack_1_items@ == lines[3 * k]
    &&& g.rucksack_2_items@ == lines[3 * k + 1]
    &&& g.rucksack_3_items@ == lines[3 * k + 2]
}

/// Splits the lines into groups of three and finds each group's badge, as
/// `badges_of` describes.
fn get_elf_rucksack_groups(rucksack_lines: &[String]) -> (r: Result<Vec<RucksackGroup>, RucksackError>)
    ensures
        match badges_of(line_views(rucksack_lines@)) {
            Ok(badges) => r matches Ok(v) && v@.map_values(|g: RucksackGroup| g.badge) == badges
                && v@.len() * 3 == rucksack_lines@.len() && (forall|i: int|
                0 <= i < v@.len() ==> is_item(#[trigger] v@[i].badge)) && forall|i: int|
                0 <= i < v@.len() ==> holds_lines(#[trigger] v@[i], line_views(rucksack_lines@), i),
            Err(e) => r matches Err(f) && f == e,
        },
{
    let ghost ls = line_views(rucksack_lines@);
    let mut groups: Vec<RucksackGroup> = Vec::new();
    let mut i: usize = 0;
    assert(ls.subrange(0, 0) =~= Seq::<Seq<char>>::empty());
    assert(groups@.map_values(|g: RucksackGroup| g.badge) =~= Seq::<char>::empty());
    while i < rucksack_lines.len()
        invariant
            i <= rucksack_lines@.len(),
            ls == line_views(rucksack_lines@),
            group_scan(ls.subrange(0, i as int)) == Ok::<Seq<char>, RucksackError>(
                groups@.map_values(|g: RucksackGroup| g.badge),
            ),
            forall|j: int| 0 <= j < i ==> first_non_item(#[trigger] ls[j]) is None,
            forall|j: int| 0 <= j < groups@.len() ==> is_item(#[trigger] groups@[j].badge),
            forall|j: int| 0 <= j < groups@.len() ==> holds_lines(#[trigger] groups@[j], ls, j),
            groups@.len() == i / 3,
        decreases rucksack_lines@.len() - i,
    {
        assert(ls.subrange(0, i + 1).drop_last() =~= ls.subrange(0, i as int));
        assert(ls.subrange(0, i + 1).last() == ls[i as int]);
        let r3 = chars_of(rucksack_lines[i].as_str());
        match find_non_item(r3.as_slice()) {
            Some(k) => {
                proof {
                    lemma_groups_stop(ls, i as int + 1);
                }
                return Err(RucksackError::UnknownItemType(r3[k]));
            },
            None => {},
        }
        let ghost upto = ls.subrange(0, i + 1);
        assert(upto.len() == i + 1);
        if (i + 1) % 3 != 0 {
            assert(group_scan(upto) == Ok::<Seq<char>, RucksackError>(
                groups@.map_values(|g: RucksackGroup| g.badge),
            ));
        }
        if (i + 1) % 3 == 0 {
            let r1 = chars_of(rucksack_lines[i - 2].as_str());
            let r2 = chars_of(rucksack_lines[i - 1].as_str());
            assert(ls.subrange(0, i + 1)[i - 2] == ls[i - 2]);
            assert(ls.subrange(0, i + 1)[i - 1] == ls[i - 1]);
            let k = match find_badge(r1.as_slice(), r2.as_slice(), r3.as_slice()) {
                Some(k) => k,
                None => {
                    proof {
                        lemma_groups_stop(ls, i as int + 1);
                    }
                    return Err(RucksackError::NoBadge);
                },
            };
            proof {
                lemma_first_from_in_range(r1@, non_item(), 0);
                assert(!non_item()(r1@[k as int]));
            }
            let badge = r1[k];
            let ghost prev = groups@;
            assert(r1@ == upto[upto.len() - 3]);
            assert(r2@ == upto[upto.len() - 2]);
            assert(r3@ == upto.last());
            proof {
                lemma_group_step(upto, prev.map_values(|g: RucksackGroup| g.badge), k as int);
            }
            groups.push(
                RucksackGroup {
                    rucksack_1_items: rucksack_lines[i - 2].clone(),
                    rucksack_2_items: rucksack_lines[i - 1].clone(),
                    rucksack_3_items: rucksack_lines[i].clone(),
                    badge,
                },
            );
            assert(groups@.map_values(|g: RucksackGroup| g.badge) =~= prev.map_values(
                |g: RucksackGroup| g.badge,
            ).push(badge));
            assert(group_scan(upto) == Ok::<Seq<char>, RucksackError>(
                groups@.map_values(|g: RucksackGroup| g.badge),
            ));
            assert(holds_lines(groups@[i as int / 3], ls, i as int / 3));
        }
        i = i + 1;
    }
    assert(ls.subrange(0, rucksack_lines@.len() as int) =~= ls);
    if rucksack_lines.len() > 0 && rucksack_lines.len() % 3 == 0 {
        Ok(groups)
    } else {
        Err(RucksackError::IncompleteGroup)
    }
}

/// The priority of each group's badge.
fn get_badges_priorities(rucksack_groups: &[RucksackGroup]) -> (r: Vec<i32>)
    requires
        forall|i: int| 0 <= i < rucksack_groups@.len() ==> is_item(#[trigger] rucksack_groups@[i].badge),
    ensures
        r@.len() == rucksack_groups@.len(),
        forall|i: int|
            0 <= i < r@.len() ==> #[trigger] r@[i] == priority(rucksack_groups@[i].badge) && 1
                <= r@[i] <= 52,
{
    let mut priorities: Vec<i32> = Vec::new();
    let mut i: usize = 0;
    while i < rucksack_groups.len()
        invariant
            i <= rucksack_groups@.len(),
            forall|j: int| 0 <= j < rucksack_groups@.len() ==> is_item(#[trigger] rucksack_groups@[j].badge),
            priorities@.len() == i,
            forall|j: int|
                0 <= j < i ==> #[trigger] priorities@[j] == priority(rucksack_groups@[j].badge) && 1
                    <= priorities@[j] <= 52,
        decreases rucksack_groups@.len() - i,
    {
        assert(is_item(rucksack_groups@[i as int].badge));
        let p = get_item_priority(rucksack_groups[i].badge).unwrap();
        priorities.push(p);
        i = i + 1;
    }
    priorities
}

/// The sum of the priorities of the groups' badges.
pub fn get_badges_priority(rucksack_lines: &[String]) -> (r: Result<i32, RucksackError>)
    requires
        rucksack_lines@.len() <= MAX_RUCKSACKS,
    ensures
        match badges_of(line_views(rucksack_lines@)) {
            Ok(badges) => r == Ok::<i32, RucksackError>(priority_sum(badges) as i32),
            Err(e) => r == Err::<i32, RucksackError>(e),
        },
{
    let rucksack_groups_vec = match get_elf_rucksack_groups(rucksack_lines) {
        Ok(v) => v,
        Err(e) => {
            return Err(e);
        },
    };
    let ghost badges = badges_of(line_views(rucksack_lines@))->Ok_0;
    let priorities_vec = get_badges_priorities(rucksack_groups_vec.as_slice());
    proof {
        assert forall|i: int| 0 <= i < priorities_vec@.len() implies #[trigger] priorities_vec@[i]
            == priority(badges[i]) && 1 <= priorities_vec@[i] <= 52 by {
            assert(rucksack_groups_vec@.map_values(|g: RucksackGroup| g.badge)[i]
                == rucksack_groups_vec@[i].badge);
        }
    }
    Ok(sum_priorities(priorities_vec.as_slice(), Ghost(badges)))
}

} // verus!
