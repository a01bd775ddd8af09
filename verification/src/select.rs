//! Pure selection logic: picking a display mode for a configured resolution,
//! choosing the GPU that composites an output, and picking the primary GPU at
//! startup.

use vstd::prelude::*;
use crate::types::Mode;

verus! {

/// An output is composited on its own target GPU unless at least this many
/// client surfaces prefer other GPUs, in which case following the majority
/// saves cross-GPU copies.
pub const MAX_CPU_COPIES: usize = 3;

/// Absolute distance between a mode's refresh rate and a target, in
/// millihertz.
pub open spec fn refresh_dist(m: Mode, target_mhz: u32) -> int {
    if m.refresh_mhz >= target_mhz {
        m.refresh_mhz - target_mhz
    } else {
        target_mhz - m.refresh_mhz
    }
}

/// Whether a mode has exactly the given pixel size.
pub open spec fn size_matches(m: Mode, w: u16, h: u16) -> bool {
    m.width == w && m.height == h
}

/// How many times `x` occurs in `s`.
pub open spec fn count_of(s: Seq<u64>, x: u64) -> int
    decreases s.len(),
{
    if s.len() == 0 {
        0
    } else {
        count_of(s.drop_last(), x) + if s.last() == x {
            1int
        } else {
            0int
        }
    }
}

/// Whether any mode in the sequence matches the resolution exactly.
pub open spec fn has_size_match(modes: Seq<Mode>, w: u16, h: u16) -> bool {
    exists|j: int| 0 <= j < modes.len() && size_matches(#[trigger] modes[j], w, h)
}

/// Whether `i` indexes the mode [`select_mode`] picks: it matches the
/// resolution, no matching mode is closer to the refresh target, and every
/// earlier matching mode is strictly farther.
pub open spec fn is_best_mode_idx(modes: Seq<Mode>, w: u16, h: u16, target_mhz: u32, i: int) -> bool {
    &&& 0 <= i < modes.len()
    &&& size_matches(modes[i], w, h)
    &&& forall|j: int|
        0 <= j < modes.len() && size_matches(#[trigger] modes[j], w, h) ==> refresh_dist(
            modes[i],
            target_mhz,
        ) <= refresh_dist(modes[j], target_mhz)
    &&& forall|j: int|
        0 <= j < i && size_matches(#[trigger] modes[j], w, h) ==> refresh_dist(modes[j], target_mhz)
            > refresh_dist(modes[i], target_mhz)
}

/// The index of the mode [`select_mode`] picks (unique when a size match
/// exists).
pub open spec fn best_mode_idx(modes: Seq<Mode>, w: u16, h: u16, target_mhz: u32) -> int {
    choose|i: int| is_best_mode_idx(modes, w, h, target_mhz, i)
}

/// At most one index satisfies [`is_best_mode_idx`].
pub proof fn lemma_best_mode_idx_unique(modes: Seq<Mode>, w: u16, h: u16, target_mhz: u32, i: int)
    requires
        is_best_mode_idx(modes, w, h, target_mhz, i),
    ensures
        best_mode_idx(modes, w, h, target_mhz) == i,
{
    let c = best_mode_idx(modes, w, h, target_mhz);
    assert(is_best_mode_idx(modes, w, h, target_mhz, c));
    if c < i {
        assert(refresh_dist(modes[c], target_mhz) > refresh_dist(modes[i], target_mhz));
        assert(refresh_dist(modes[c], target_mhz) <= refresh_dist(modes[i], target_mhz));
    } else if i < c {
        assert(refresh_dist(modes[i], target_mhz) > refresh_dist(modes[c], target_mhz));
        assert(refresh_dist(modes[i], target_mhz) <= refresh_dist(modes[c], target_mhz));
    }
}

/// Among the modes that match the resolution `w` x `h` exactly, find the one
/// whose refresh rate is numerically closest to `target_mhz`; ties go to the
/// earliest such mode in enumeration order.  Returns its index, or `None` when
/// no mode matches the resolution.
pub fn select_mode(modes: &Vec<Mode>, w: u16, h: u16, target_mhz: u32) -> (r: Option<usize>)
    ensures
        match r {
            Some(i) => {
                &&& 0 <= i < modes@.len()
                &&& size_matches(modes@[i as int], w, h)
                &&& forall|j: int|
                    0 <= j < modes@.len() && size_matches(#[trigger] modes@[j], w, h)
                        ==> refresh_dist(modes@[i as int], target_mhz) <= refresh_dist(
                        modes@[j],
                        target_mhz,
                    )
                &&& forall|j: int|
                    0 <= j < i && size_matches(#[trigger] modes@[j], w, h) ==> refresh_dist(
                        modes@[j],
                        target_mhz,
                    ) > refresh_dist(modes@[i as int], target_mhz)
            },
            None => forall|j: int|
                0 <= j < modes@.len() ==> !size_matches(#[trigger] modes@[j], w, h),
        },
{
    let mut best: Option<usize> = None;
    let mut idx: usize = 0;
    while idx < modes.len()
        invariant
            0 <= idx <= modes@.len(),
            match best {
                Some(b) => {
                    &&& 0 <= b < idx
                    &&& size_matches(modes@[b as int], w, h)
                    &&& forall|j: int|
                        0 <= j < idx && size_matches(#[trigger] modes@[j], w, h)
                            ==> refresh_dist(modes@[b as int], target_mhz) <= refresh_dist(
                            modes@[j],
                            target_mhz,
                        )
                    &&& forall|j: int|
                        0 <= j < b && size_matches(#[trigger] modes@[j], w, h) ==> refresh_dist(
                            modes@[j],
                            target_mhz,
                        ) > refresh_dist(modes@[b as int], target_mhz)
                },
                None => forall|j: int|
                    0 <= j < idx ==> !size_matches(#[trigger] modes@[j], w, h),
            },
        decreases modes@.len() - idx,
    {
        let m = modes[idx];
        if m.width == w && m.height == h {
            let d = refresh_dist_exec(m, target_mhz);
            match best {
                None => {
                    best = Some(idx);
                },
                Some(b) => {
                    if d < refresh_dist_exec(modes[b], target_mhz) {
                        best = Some(idx);
                    }
                },
            }
        }
        idx = idx + 1;
    }
    best
}

/// Absolute refresh-rate distance, executable form of [`refresh_dist`].
pub fn refresh_dist_exec(m: Mode, target_mhz: u32) -> (d: u32)
    ensures
        d == refresh_dist(m, target_mhz),
{
    if m.refresh_mhz >= target_mhz {
        m.refresh_mhz - target_mhz
    } else {
        target_mhz - m.refresh_mhz
    }
}

/// Whether `x` occurs in `v`.
pub fn contains_node(v: &Vec<u64>, x: u64) -> (r: bool)
    ensures
        r <==> v@.contains(x),
{
    let mut i: usize = 0;
    while i < v.len()
        invariant
            0 <= i <= v@.len(),
            forall|j: int| 0 <= j < i ==> #[trigger] v@[j] != x,
        decreases v@.len() - i,
    {
        if v[i] == x {
            return true;
        }
        i = i + 1;
    }
    assert(!v@.contains(x)) by {
        if v@.contains(x) {
            let j = choose|j: int| 0 <= j < v@.len() && v@[j] == x;
        }
    }
    false
}

/// How many times `x` occurs in `v`.
pub fn count_in(v: &Vec<u64>, x: u64) -> (c: usize)
    ensures
        c == count_of(v@, x),
{
    let mut c: usize = 0;
    let mut i: usize = 0;
    proof {
        assert(v@.take(0) =~= Seq::<u64>::empty());
    }
    while i < v.len()
        invariant
            0 <= i <= v@.len(),
            c == count_of(v@.take(i as int), x),
            c <= i,
        decreases v@.len() - i,
    {
        proof {
            assert(v@.take(i + 1).drop_last() =~= v@.take(i as int));
            assert(v@.take(i + 1).last() == v@[i as int]);
        }
        if v[i] == x {
            c = c + 1;
        }
        i = i + 1;
    }
    proof {
        assert(v@.take(v@.len() as int) =~= v@);
    }
    c
}

/// Choose the GPU that composites an output.  The output's own `target` GPU
/// wins whenever it is among the client preferences `nodes`, or fewer than
/// [`MAX_CPU_COPIES`] preferences were collected.  Otherwise the most
/// frequently preferred GPU wins; ties are broken deterministically towards
/// the smallest node identity.
pub fn render_node_for_output(target: u64, nodes: &Vec<u64>) -> (r: u64)
    ensures
        (nodes@.contains(target) || nodes@.len() < MAX_CPU_COPIES) ==> r == target,
        !(nodes@.contains(target) || nodes@.len() < MAX_CPU_COPIES) ==> {
            &&& nodes@.contains(r)
            &&& forall|x: u64|
                nodes@.contains(x) ==> count_of(nodes@, x) <= count_of(nodes@, r)
            &&& forall|x: u64|
                nodes@.contains(x) && count_of(nodes@, x) == count_of(nodes@, r) ==> r <= x
        },
{
    if contains_node(nodes, target) || nodes.len() < MAX_CPU_COPIES {
        return target;
    }
    let mut best: u64 = nodes[0];
    let mut best_c: usize = count_in(nodes, best);
    let mut i: usize = 1;
    while i < nodes.len()
        invariant
            1 <= i <= nodes@.len(),
            nodes@.len() >= 1,
            nodes@.contains(best),
            best_c == count_of(nodes@, best),
            forall|j: int|
                0 <= j < i ==> count_of(nodes@, #[trigger] nodes@[j]) < best_c || (count_of(
                    nodes@,
                    nodes@[j],
                ) == best_c && best <= nodes@[j]),
        decreases nodes@.len() - i,
    {
        let c = count_in(nodes, nodes[i]);
        if c > best_c || (c == best_c && nodes[i] < best) {
            best = nodes[i];
            best_c = c;
            assert(nodes@.contains(best)) by {
                assert(nodes@[i as int] == best);
            }
        }
        i = i + 1;
    }
    proof {
        assert forall|x: u64| nodes@.contains(x) implies count_of(nodes@, x) <= count_of(
            nodes@,
            best,
        ) by {
            let j = choose|j: int| 0 <= j < nodes@.len() && nodes@[j] == x;
        }
        assert forall|x: u64|
            nodes@.contains(x) && count_of(nodes@, x) == count_of(nodes@, best) implies best
            <= x by {
            let j = choose|j: int| 0 <= j < nodes@.len() && nodes@[j] == x;
        }
    }
    best
}

/// Pick the GPU used as the default composition target at startup: an
/// explicit override wins, then the seat's primary GPU's render node, then
/// the first enumerated GPU for which a render node could be derived.
pub fn select_primary_node(
    override_node: Option<u64>,
    primary_render: Option<u64>,
    fallback: &Vec<Option<u64>>,
) -> (r: Option<u64>)
    ensures
        override_node is Some ==> r == override_node,
        override_node is None && primary_render is Some ==> r == primary_render,
        override_node is None && primary_render is None ==> match r {
            Some(n) => exists|i: int|
                0 <= i < fallback@.len() && #[trigger] fallback@[i] == Some(n) && (forall|j: int|
                    0 <= j < i ==> #[trigger] fallback@[j] is None),
            None => forall|j: int| 0 <= j < fallback@.len() ==> #[trigger] fallback@[j] is None,
        },
{
    if let Some(n) = override_node {
        return Some(n);
    }
    if let Some(n) = primary_render {
        return Some(n);
    }
    let mut i: usize = 0;
    while i < fallback.len()
        invariant
            0 <= i <= fallback@.len(),
            override_node is None,
            primary_render is None,
            forall|j: int| 0 <= j < i ==> #[trigger] fallback@[j] is None,
        decreases fallback@.len() - i,
    {
        if let Some(n) = fallback[i] {
            return Some(n);
        }
        i = i + 1;
    }
    None
}

} // verus!
