//! Free-range scanner: finds the lowest contiguous block of free ports
//! in a range, given the set of ports that are already taken.

use vstd::prelude::*;

verus! {

broadcast use vstd::std_specs::hash::group_hash_axioms;

/// A window of `count` ports beginning at `start` avoids every excluded port.
pub open spec fn window_free(excluded: Set<u16>, start: int, count: int) -> bool {
    forall|i: int| 0 <= i < count ==> !excluded.contains(#[trigger] ((start + i) as u16))
}

/// Some window of `count` ports fits inside `[range_start, range_end]`
/// without touching an excluded port.
pub open spec fn some_window_free(
    excluded: Set<u16>,
    range_start: u16,
    range_end: u16,
    count: u16,
) -> bool {
    exists|s: int|
        range_start <= s && s + count - 1 <= range_end && #[trigger] window_free(
            excluded,
            s,
            count as int,
        )
}

/// The returned list is exactly the window of `count` consecutive ports
/// beginning at `start`.
pub open spec fn is_window(ports: Seq<u16>, start: int, count: int) -> bool {
    ports.len() == count && forall|i: int| 0 <= i < count ==> ports[i] == (start + i) as u16
}

/// First-fit scan for `count` consecutive free ports in
/// `[range_start, range_end]`: candidate starting ports are tried in
/// ascending order and the first fully free window wins, so the result
/// is deterministic and lowest-addressed.
pub fn find_consecutive_free(
    count: u16,
    range_start: u16,
    range_end: u16,
    excluded: &std::collections::HashSet<u16>,
) -> (r: Option<Vec<u16>>)
    requires
        count >= 1,
        range_start <= range_end,
    ensures
        match r {
            Some(ports) => {
                &&& is_window(ports@, ports@[0] as int, count as int)
                &&& range_start <= ports@[0]
                &&& ports@[0] + count - 1 <= range_end
                &&& window_free(excluded@, ports@[0] as int, count as int)
                &&& forall|s: int|
                    range_start <= s < ports@[0] ==> !window_free(excluded@, s, count as int)
            },
            None => !some_window_free(excluded@, range_start, range_end, count),
        },
{
    let mut candidate: u32 = range_start as u32;
    loop
        invariant
            count >= 1,
            range_start <= candidate,
            candidate <= u16::MAX as u32 + 1,
            forall|s: int| range_start <= s < candidate ==> !window_free(excluded@, s, count as int),
        decreases range_end + 2 - candidate,
    {
        if candidate + count as u32 - 1 > range_end as u32 {
            proof {
                assert forall|s: int| range_start <= s && s + count - 1 <= range_end implies
                    !window_free(excluded@, s, count as int) by {
                    assert(s < candidate);
                }
            }
            return None;
        }
        let mut offset: u16 = 0;
        let mut blocked = false;
        while offset < count
            invariant
                count >= 1,
                candidate + count - 1 <= range_end <= u16::MAX,
                offset <= count,
                !blocked ==> forall|i: int|
                    0 <= i < offset ==> !excluded@.contains(#[trigger] ((candidate + i) as u16)),
                blocked ==> !window_free(excluded@, candidate as int, count as int),
            decreases count - offset,
        {
            let port: u16 = (candidate + offset as u32) as u16;
            if excluded.contains(&port) {
                proof {
                    assert(excluded@.contains((candidate + offset as int) as u16));
                }
                blocked = true;
            }
            offset = offset + 1;
        }
        if !blocked {
            let mut ports: Vec<u16> = Vec::new();
            let mut i: u16 = 0;
            while i < count
                invariant
                    count >= 1,
                    candidate + count - 1 <= u16::MAX,
                    i <= count,
                    ports@.len() == i,
                    forall|j: int| 0 <= j < i ==> ports@[j] == (candidate + j) as u16,
                decreases count - i,
            {
                ports.push((candidate + i as u32) as u16);
                i = i + 1;
            }
            return Some(ports);
        }
        candidate = candidate + 1;
    }
}

} // verus!
