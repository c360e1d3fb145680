//! Mathematical model of the forest: a sequence of optional parent indices.
//! Slot `i` holding `None` marks `i` as a root; `Some(p)` makes `p` the parent
//! of `i`. All structural notions (roots, depths, paths, compression) are
//! defined here as spec functions over that sequence.

use vstd::prelude::*;

verus! {

/// Walks parent links from `i`, spending one unit of `fuel` per link.
/// Returns the root reached together with the number of hops, or `None` when
/// an index leaves the sequence or the fuel runs out before a root appears.
pub open spec fn find_step(s: Seq<Option<usize>>, i: usize, fuel: nat) -> Option<(usize, nat)>
    decreases fuel,
{
    if i >= s.len() {
        None
    } else {
        match s[i as int] {
            None => Some((i, 0)),
            Some(p) => {
                if fuel == 0 {
                    None
                } else {
                    match find_step(s, p, (fuel - 1) as nat) {
                        None => None,
                        Some(rd) => Some((rd.0, rd.1 + 1)),
                    }
                }
            },
        }
    }
}

/// The non-root indices visited on the way from `i` to its root, in order,
/// starting with `i` itself. The root is not listed. Empty when the walk
/// fails (see `find_step`) or when `i` is itself a root.
pub open spec fn path_seq(s: Seq<Option<usize>>, i: usize, fuel: nat) -> Seq<usize>
    decreases fuel,
{
    if i >= s.len() {
        Seq::empty()
    } else {
        match s[i as int] {
            None => Seq::empty(),
            Some(p) => {
                if fuel == 0 {
                    Seq::empty()
                } else {
                    seq![i] + path_seq(s, p, (fuel - 1) as nat)
                }
            },
        }
    }
}

/// Every parent reference stays inside the sequence.
pub open spec fn parents_in_range(s: Seq<Option<usize>>) -> bool {
    forall|k: int| 0 <= k < s.len() ==> ((#[trigger] s[k]) matches Some(p) ==> p < s.len())
}

/// A well-formed forest: every index reaches a root within `len` parent
/// hops. This rules out out-of-range parents and cycles.
pub open spec fn wf(s: Seq<Option<usize>>) -> bool {
    forall|i: usize| i < s.len() ==> (#[trigger] find_step(s, i, s.len() as nat)) is Some
}

/// The representative root of the class containing `i` (meaningful when the
/// forest is well-formed and `i` is in range).
pub open spec fn root_of(s: Seq<Option<usize>>, i: usize) -> usize {
    match find_step(s, i, s.len() as nat) {
        Some(rd) => rd.0,
        None => i,
    }
}

/// The number of parent hops from `i` to its root at this moment.
pub open spec fn depth_of(s: Seq<Option<usize>>, i: usize) -> nat {
    match find_step(s, i, s.len() as nat) {
        Some(rd) => rd.1,
        None => 0,
    }
}

/// The non-root indices on the walk from `i` to its root.
pub open spec fn path_of(s: Seq<Option<usize>>, i: usize) -> Seq<usize> {
    path_seq(s, i, s.len() as nat)
}

/// The set of root indices: the class representatives.
pub open spec fn roots(s: Seq<Option<usize>>) -> Set<int> {
    Set::new(|k: int| 0 <= k < s.len() && s[k] is None)
}

/// The forest after a path-compressing find at `i`: every non-root index on
/// the walk from `i` now points straight at the root; all other slots keep
/// their value.
pub open spec fn compressed(s: Seq<Option<usize>>, i: usize) -> Seq<Option<usize>> {
    Seq::new(
        s.len(),
        |k: int| if path_of(s, i).contains(k as usize) {
            Some(root_of(s, i))
        } else {
            s[k]
        },
    )
}

/// The forest produced by the naive union of the classes of `i` and `j`:
/// unchanged when they already share a root, otherwise the root of `i`'s
/// class is attached under the root of `j`'s class.
pub open spec fn union_spec(s: Seq<Option<usize>>, i: usize, j: usize) -> Seq<Option<usize>> {
    let x = root_of(s, i);
    let y = root_of(s, j);
    if x == y {
        s
    } else {
        s.update(x as int, Some(y))
    }
}

/// The root that survives a depth-balanced union of the classes of `i` and
/// `j`: the deeper query node keeps its root; ties go to `j`'s root.
pub open spec fn union_winner(s: Seq<Option<usize>>, i: usize, j: usize) -> usize {
    if depth_of(s, i) > depth_of(s, j) {
        root_of(s, i)
    } else {
        root_of(s, j)
    }
}

/// The root that is attached under `union_winner` by a depth-balanced union.
pub open spec fn union_loser(s: Seq<Option<usize>>, i: usize, j: usize) -> usize {
    if depth_of(s, i) > depth_of(s, j) {
        root_of(s, j)
    } else {
        root_of(s, i)
    }
}

/// The forest after a compressed union of `i` and `j`: both walks are
/// compressed; when the roots differ, the shallower root is attached under
/// the deeper one (ties attach `i`'s root under `j`'s).
pub open spec fn compressed_union_spec(s: Seq<Option<usize>>, i: usize, j: usize) -> Seq<
    Option<usize>,
> {
    let mid = compressed(compressed(s, i), j);
    if root_of(s, i) == root_of(s, j) {
        mid
    } else {
        mid.update(union_loser(s, i, j) as int, Some(union_winner(s, i, j)))
    }
}

} // verus!
