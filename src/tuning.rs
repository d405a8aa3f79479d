//! Tuning: a device's datastream holds markers, runs of characters that are all
//! different. A start-of-packet marker is four such characters, a
//! start-of-message marker fourteen.

use vstd::prelude::*;
use crate::text::chars_of;

verus! {

/// No character of `w` occurs twice.
pub open spec fn all_different(w: Seq<char>) -> bool {
    forall|i: int, j: int| 0 <= i < j < w.len() ==> w[i] != w[j]
}

/// The first position `p` at or after `from` (with `size <= p <= s.len()`) such
/// that the `size` characters before it are all different.
pub open spec fn marker_from(s: Seq<char>, size: nat, from: int) -> Option<nat>
    decreases s.len() + 1 - from,
{
    if from < size || from > s.len() {
        None
    } else if all_different(s.subrange(from - size, from)) {
        Some(from as nat)
    } else {
        marker_from(s, size, from + 1)
    }
}

/// The number of characters read when the first marker of `size` characters is
/// complete.
pub open spec fn first_marker(s: Seq<char>, size: nat) -> Option<nat> {
    marker_from(s, size, size as int)
}

/// A device and the datastream it receives.
pub struct ElvenDevice {
    pub datastream: Vec<char>,
}

impl ElvenDevice {
    /// A device receiving the characters of `text`.
    pub fn new(text: &str) -> (r: ElvenDevice)
        ensures
            r.datastream@ == text@,
    {
        ElvenDevice { datastream: chars_of(text) }
    }

    /// Whether no character of `packet_query` occurs twice.
    pub fn unrepeated_start_of_packet(packet_query: &[char]) -> (r: bool)
        ensures
            r == all_different(packet_query@),
    {
        let mut seen_characters: Vec<char> = Vec::new();
        let mut i: usize = 0;
        while i < packet_query.len()
            invariant
                i <= packet_query@.len(),
                seen_characters@ == packet_query@.subrange(0, i as int),
                all_different(seen_characters@),
            decreases packet_query@.len() - i,
        {
            let c = packet_query[i];
            let mut k: usize = 0;
            while k < seen_characters.len()
                invariant
                    k <= seen_characters@.len(),
                    seen_characters@ == packet_query@.subrange(0, i as int),
                    i < packet_query@.len(),
                    c == packet_query@[i as int],
                    forall|t: int| 0 <= t < k ==> seen_characters@[t] != c,
                decreases seen_characters@.len() - k,
            {
                if seen_characters[k] == c {
                    assert(packet_query@[k as int] == packet_query@[i as int]);
                    return false;
                }
                k = k + 1;
            }
            seen_characters.push(c);
            assert(seen_characters@ =~= packet_query@.subrange(0, i + 1));
            i = i + 1;
        }
        assert(packet_query@.subrange(0, packet_query@.len() as int) =~= packet_query@);
        true
    }

    /// The number of characters read when the first marker of
    /// `start_of_packet_size` characters is complete, as `first_marker` describes.
    pub fn get_start_of_packet(&self, start_of_packet_size: usize) -> (r: Option<usize>)
        ensures
            match first_marker(self.datastream@, start_of_packet_size as nat) {
                Some(p) => r == Some(p as usize),
                None => r is None,
            },
    {
        let s = self.datastream.as_slice();
        let n = s.len();
        if start_of_packet_size > n {
            return None;
        }
        let mut character_index: usize = start_of_packet_size;
        loop
            invariant
                start_of_packet_size <= character_index <= n,
                n == s@.len(),
                s@ == self.datastream@,
                first_marker(s@, start_of_packet_size as nat) == marker_from(
                    s@,
                    start_of_packet_size as nat,
                    character_index as int,
                ),
            decreases n - character_index,
        {
            let current_packet = &s[character_index - start_of_packet_size..character_index];
            if Self::unrepeated_start_of_packet(current_packet) {
                return Some(character_index);
            }
            if character_index == n {
                assert(marker_from(s@, start_of_packet_size as nat, n + 1) is None);
                return None;
            }
            character_index = character_index + 1;
        }
    }
}

/// The number of characters read when the first start-of-packet marker (four
/// different characters) is complete.
pub fn get_start_of_packet_4_unrepeated(datastream: &str) -> (r: Option<usize>)
    ensures
        match first_marker(datastream@, 4) {
            Some(p) => r == Some(p as usize),
            None => r is None,
        },
{
    let broken_device = ElvenDevice::new(datastream);
    broken_device.get_start_of_packet(4)
}

/// The number of characters read when the first start-of-message marker
/// (fourteen different characters) is complete.
pub fn get_start_of_packet_14_unrepeated(datastream: &str) -> (r: Option<usize>)
    ensures
        match first_marker(datastream@, 14) {
            Some(p) => r == Some(p as usize),
            None => r is None,
        },
{
    let broken_device = ElvenDevice::new(datastream);
    broken_device.get_start_of_packet(14)
}

} // verus!
