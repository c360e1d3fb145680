//! The disjoint-set engine: an array-backed forest over indices `0..N`,
//! with a naive, non-mutating tier (`find`, `union`) and a path-compressing,
//! depth-balancing tier (`compressed_find`, `compressed_union`).

use vstd::prelude::*;
use crate::lemmas::{
    lemma_compression_preserves_classes, lemma_find_step_fuel, lemma_link,
    lemma_other_class_untouched, lemma_wf_walk,
};
use crate::model::{
    compressed, compressed_union_spec, depth_of, find_step, parents_in_range, path_of, path_seq,
    root_of, roots, union_loser, union_spec, union_winner, wf,
};

verus! {

/// How an operation on the forest can fail.
#[derive(Clone, Copy, Debug, PartialEq, Eq, Structural)]
pub enum ForestError {
    /// An index lies outside `[0, N)`.
    RangeError,
    /// The initial mapping contains a parent cycle, so some index never
    /// reaches a root.
    CycleInvariantViolation,
}

/// A forest of rooted trees over the fixed universe `0..N`. Slot `i` holds
/// `None` when `i` is a root (the representative of its class) and `Some(p)`
/// when `p` is the parent of `i`. Construction rejects out-of-range parents
/// and cycles, and every operation preserves well-formedness, so parent
/// walks always terminate at a root.
pub struct DisjointSet {
    slots: Vec<Option<usize>>,
}

impl View for DisjointSet {
    type V = Seq<Option<usize>>;

    closed spec fn view(&self) -> Seq<Option<usize>> {
        self.slots@
    }
}

impl DisjointSet {
    /// Builds a forest from an initial parent mapping. Accepts exactly the
    /// well-formed mappings: every parent in range and no cycle.
    pub fn from_parents(slots: Vec<Option<usize>>) -> (r: Result<DisjointSet, ForestError>)
        ensures
            r matches Ok(ds) ==> ds@ == slots@ && wf(slots@),
            wf(slots@) ==> (r matches Ok(ds) && ds@ == slots@),
            !parents_in_range(slots@) ==> (r matches Err(e) && e == ForestError::RangeError),
            parents_in_range(slots@) && !wf(slots@) ==> (r matches Err(e) && e
                == ForestError::CycleInvariantViolation),
    {
        let n = slots.len();
        let mut k: usize = 0;
        while k < n
            invariant
                n == slots@.len(),
                k <= n,
                forall|t: int| 0 <= t < k ==> ((#[trigger] slots@[t]) matches Some(p) ==> p < n),
            decreases n - k,
        {
            match slots[k] {
                Some(p) => {
                    if p >= n {
                        proof {
                            assert(!parents_in_range(slots@));
                            assert(!wf(slots@)) by {
                                if wf(slots@) {
                                    assert(find_step(slots@, k, n as nat) is Some);
                                    assert(find_step(slots@, p, (n - 1) as nat) is None);
                                }
                            }
                        }
                        return Err(ForestError::RangeError);
                    }
                },
                None => {},
            }
            k += 1;
        }
        assert(parents_in_range(slots@));
        let mut k: usize = 0;
        while k < n
            invariant
                n == slots@.len(),
                k <= n,
                parents_in_range(slots@),
                forall|t: usize| t < k ==> (#[trigger] find_step(slots@, t, n as nat)) is Some,
            decreases n - k,
        {
            let mut cur: usize = k;
            let mut steps: usize = 0;
            loop
                invariant
                    n == slots@.len(),
                    parents_in_range(slots@),
                    k < n,
                    cur < n,
                    steps <= n,
                    find_step(slots@, k, n as nat) is Some <==> find_step(
                        slots@,
                        cur,
                        (n - steps) as nat,
                    ) is Some,
                ensures
                    find_step(slots@, k, n as nat) is Some,
                decreases n - steps,
            {
                match slots[cur] {
                    None => {
                        assert(find_step(slots@, cur, (n - steps) as nat) == Some((cur, 0nat)));
                        break ;
                    },
                    Some(p) => {
                        if steps == n {
                            proof {
                                assert(find_step(slots@, cur, 0) is None);
                                assert(!wf(slots@)) by {
                                    if wf(slots@) {
                                        assert(find_step(slots@, k, n as nat) is Some);
                                    }
                                }
                            }
                            return Err(ForestError::CycleInvariantViolation);
                        }
                        proof {
                            assert(find_step(slots@, cur, (n - steps) as nat) is Some
                                <==> find_step(slots@, p, (n - steps - 1) as nat) is Some);
                        }
                        cur = p;
                        steps += 1;
                    },
                }
            }
            k += 1;
        }
        assert(wf(slots@));
        Ok(DisjointSet { slots })
    }

    /// The underlying parent mapping, one optional parent per index.
    pub fn parents(&self) -> (r: &Vec<Option<usize>>)
        ensures
            r@ == self@,
    {
        &self.slots
    }

    /// The number of elements in the universe.
    pub fn len(&self) -> (n: usize)
        ensures
            n == self@.len(),
    {
        self.slots.len()
    }

    /// Returns the representative root of the class containing `i`, without
    /// touching the forest. Rejects an out-of-range index.
    pub fn find(&self, i: usize) -> (r: Result<usize, ForestError>)
        requires
            wf(self@),
        ensures
            i < self@.len() ==> (r matches Ok(root) && root == root_of(self@, i)),
            i >= self@.len() ==> (r matches Err(e) && e == ForestError::RangeError),
    {
        let n = self.slots.len();
        if i >= n {
            return Err(ForestError::RangeError);
        }
        proof {
            lemma_wf_walk(self@, i);
            lemma_find_step_fuel(
                self@,
                i,
                root_of(self@, i),
                depth_of(self@, i),
                self@.len() as nat,
                depth_of(self@, i),
            );
        }
        let mut cur: usize = i;
        let ghost mut rem: nat = depth_of(self@, i);
        loop
            invariant
                wf(self@),
                n == self@.len(),
                i < n,
                cur < n,
                find_step(self@, cur, rem) == Some((root_of(self@, i), rem)),
            decreases rem,
        {
            match self.slots[cur] {
                None => {
                    assert(find_step(self@, cur, rem) == Some((cur, 0nat)));
                    return Ok(cur);
                },
                Some(p) => {
                    proof {
                        assert(find_step(self@, p, (rem - 1) as nat) == Some(
                            (root_of(self@, i), (rem - 1) as nat),
                        ));
                        rem = (rem - 1) as nat;
                    }
                    cur = p;
                },
            }
        }
    }
    /// Merges the classes of `i` and `j` into a fresh forest, leaving this
    /// one untouched: when the roots differ, the root of `i`'s class is
    /// attached under the root of `j`'s class, with no balancing. Rejects an
    /// out-of-range index.
    pub fn union(&self, i: usize, j: usize) -> (r: Result<DisjointSet, ForestError>)
        requires
            wf(self@),
        ensures
            i < self@.len() && j < self@.len() ==> (r matches Ok(ds) && {
                let x = root_of(self@, i);
                let y = root_of(self@, j);
                &&& ds@ == union_spec(self@, i, j)
                &&& ds@.len() == self@.len()
                &&& wf(ds@)
                &&& root_of(ds@, i) == root_of(ds@, j)
                &&& forall|k: usize|
                    k < self@.len() ==> #[trigger] root_of(ds@, k) == (if x != y && root_of(
                        self@,
                        k,
                    ) == x {
                        y
                    } else {
                        root_of(self@, k)
                    })
                &&& roots(ds@).len() <= roots(self@).len()
                &&& (roots(ds@).len() == roots(self@).len() <==> x == y)
            }),
            !(i < self@.len() && j < self@.len()) ==> (r matches Err(e) && e
                == ForestError::RangeError),
    {
        let n = self.slots.len();
        if i >= n || j >= n {
            return Err(ForestError::RangeError);
        }
        let x = match self.find(i) {
            Ok(v) => v,
            Err(e) => {
                return Err(e);
            },
        };
        let y = match self.find(j) {
            Ok(v) => v,
            Err(e) => {
                return Err(e);
            },
        };
        proof {
            lemma_wf_walk(self@, i);
            lemma_wf_walk(self@, j);
        }
        let mut copy: Vec<Option<usize>> = Vec::new();
        let mut t: usize = 0;
        while t < n
            invariant
                t <= n,
                n == self@.len(),
                copy@ == self@.take(t as int),
            decreases n - t,
        {
            copy.push(self.slots[t]);
            proof {
                assert(self@.take(t + 1 as int) =~= self@.take(t as int).push(self@[t as int]));
            }
            t += 1;
        }
        assert(copy@ =~= self@);
        if x != y {
            proof {
                lemma_link(self@, x, y);
            }
            copy.set(x, Some(y));
        }
        let ds = DisjointSet { slots: copy };
        proof {
            if x == y {
                assert(ds@ == union_spec(self@, i, j));
            }
        }
        Ok(ds)
    }

    /// The working core of the compressed find: walks from `i` to its root,
    /// rewrites every visited node to point straight at the root, and
    /// returns the root together with `depth` plus the number of hops the
    /// walk took before compression. Rejects an out-of-range index without
    /// touching the forest.
    pub fn compressed_find_depth(&mut self, i: usize, depth: usize) -> (r: Result<
        (usize, usize),
        ForestError,
    >)
        requires
            wf(old(self)@),
            depth + depth_of(old(self)@, i) <= usize::MAX,
        ensures
            i < old(self)@.len() ==> (r matches Ok(rd) && {
                &&& rd.0 == root_of(old(self)@, i)
                &&& rd.1 == depth + depth_of(old(self)@, i)
                &&& final(self)@ == compressed(old(self)@, i)
                &&& final(self)@.len() == old(self)@.len()
                &&& wf(final(self)@)
                &&& forall|k: usize|
                    k < old(self)@.len() ==> #[trigger] root_of(final(self)@, k) == root_of(
                        old(self)@,
                        k,
                    )
                &&& depth_of(final(self)@, i) <= 1
                &&& roots(final(self)@) == roots(old(self)@)
            }),
            i >= old(self)@.len() ==> (r matches Err(e) && e == ForestError::RangeError
                && final(self)@ == old(self)@),
    {
        let n = self.slots.len();
        if i >= n {
            return Err(ForestError::RangeError);
        }
        let ghost s = self@;
        let ghost gr = root_of(s, i);
        let ghost gd = depth_of(s, i);
        proof {
            lemma_wf_walk(s, i);
            lemma_find_step_fuel(s, i, gr, gd, s.len() as nat, gd);
        }
        let mut path: Vec<usize> = Vec::new();
        let mut cur: usize = i;
        let mut d: usize = depth;
        loop
            invariant
                self@ == s,
                wf(s),
                n == s.len(),
                i < n,
                cur < n,
                gr == root_of(s, i),
                gd == depth_of(s, i),
                depth + gd <= usize::MAX,
                path@.len() <= gd,
                d == depth + path@.len(),
                find_step(s, cur, (gd - path@.len()) as nat) == Some(
                    (gr, (gd - path@.len()) as nat),
                ),
                path_of(s, i) == path@ + path_seq(s, cur, (gd - path@.len()) as nat),
            ensures
                self@ == s,
                cur == gr,
                d == depth + gd,
                path@ == path_of(s, i),
            decreases gd - path@.len(),
        {
            let ghost rem: nat = (gd - path@.len()) as nat;
            match self.slots[cur] {
                None => {
                    proof {
                        assert(find_step(s, cur, rem) == Some((cur, 0nat)));
                        assert(path_seq(s, cur, rem) == Seq::<usize>::empty());
                        assert(path@ + Seq::<usize>::empty() =~= path@);
                    }
                    break ;
                },
                Some(p) => {
                    proof {
                        assert(rem >= 1);
                        assert(find_step(s, p, (rem - 1) as nat) == Some((gr, (rem - 1) as nat)));
                        assert(path_seq(s, cur, rem) == seq![cur] + path_seq(
                            s,
                            p,
                            (rem - 1) as nat,
                        ));
                        assert(path@.push(cur) + path_seq(s, p, (rem - 1) as nat) =~= path@ + (
                        seq![cur] + path_seq(s, p, (rem - 1) as nat)));
                    }
                    path.push(cur);
                    d = d + 1;
                    cur = p;
                },
            }
        }
        let root = cur;
        let mut t: usize = 0;
        while t < path.len()
            invariant
                n == s.len(),
                self@.len() == n,
                wf(s),
                i < n,
                root == gr,
                gr < n,
                gr == root_of(s, i),
                path@ == path_of(s, i),
                forall|tt: int| 0 <= tt < path@.len() ==> (#[trigger] path@[tt]) < n,
                t <= path@.len(),
                forall|k: int|
                    0 <= k < n ==> self@[k] == (if path@.take(t as int).contains(k as usize) {
                        Some(gr)
                    } else {
                        s[k]
                    }),
            decreases path@.len() - t,
        {
            proof {
                lemma_wf_walk(s, i);
            }
            let idx = path[t];
            let ghost prev = self@;
            self.slots.set(idx, Some(root));
            proof {
                assert(path@.take(t + 1 as int) =~= path@.take(t as int).push(path@[t as int]));
                assert forall|k: int| 0 <= k < n implies self@[k] == (if path@.take(
                    t + 1 as int,
                ).contains(k as usize) {
                    Some(gr)
                } else {
                    s[k]
                }) by {
                    let ku = k as usize;
                    assert(ku as int == k);
                    let before = path@.take(t as int);
                    let after = path@.take(t + 1 as int);
                    if k == idx as int {
                        assert(after[t as int] == idx);
                        assert(after.contains(ku));
                    } else {
                        assert(self@[k] == prev[k]);
                        if after.contains(ku) {
                            let w = choose|w: int| 0 <= w < after.len() && after[w] == ku;
                            assert(w < t ==> before[w] == ku && before.contains(ku));
                            assert(w == t ==> after[w] == idx);
                            assert(before.contains(ku));
                        }
                        if before.contains(ku) {
                            let w = choose|w: int| 0 <= w < before.len() && before[w] == ku;
                            assert(after[w] == ku);
                            assert(after.contains(ku));
                        }
                    }
                };
            }
            t += 1;
        }
        proof {
            assert(path@.take(path@.len() as int) =~= path@);
            assert(self@ =~= compressed(s, i));
            lemma_compression_preserves_classes(s, i);
        }
        Ok((root, d))
    }

    /// Returns the root of the class containing `i`, flattening the walk as
    /// a side effect: every node visited now points straight at the root.
    /// Rejects an out-of-range index without touching the forest.
    pub fn compressed_find(&mut self, i: usize) -> (r: Result<usize, ForestError>)
        requires
            wf(old(self)@),
        ensures
            i < old(self)@.len() ==> (r matches Ok(root) && {
                &&& root == root_of(old(self)@, i)
                &&& final(self)@ == compressed(old(self)@, i)
                &&& final(self)@.len() == old(self)@.len()
                &&& wf(final(self)@)
                &&& forall|k: usize|
                    k < old(self)@.len() ==> #[trigger] root_of(final(self)@, k) == root_of(
                        old(self)@,
                        k,
                    )
                &&& depth_of(final(self)@, i) <= 1
                &&& roots(final(self)@) == roots(old(self)@)
            }),
            i >= old(self)@.len() ==> (r matches Err(e) && e == ForestError::RangeError
                && final(self)@ == old(self)@),
    {
        let n = self.slots.len();
        proof {
            if i < n {
                lemma_wf_walk(self@, i);
            } else {
                assert(depth_of(self@, i) == 0);
            }
        }
        match self.compressed_find_depth(i, 0) {
            Ok(rd) => Ok(rd.0),
            Err(e) => Err(e),
        }
    }

    /// Merges the classes of `i` and `j` in place: both walks are first
    /// compressed, then, when the roots differ, the root whose query node
    /// sat shallower is attached under the other (ties attach `i`'s root
    /// under `j`'s). Rejects an out-of-range index without touching the
    /// forest.
    pub fn compressed_union(&mut self, i: usize, j: usize) -> (r: Result<(), ForestError>)
        requires
            wf(old(self)@),
        ensures
            i < old(self)@.len() && j < old(self)@.len() ==> (r is Ok && {
                let s0 = old(self)@;
                let x = root_of(s0, i);
                let y = root_of(s0, j);
                &&& final(self)@ == compressed_union_spec(s0, i, j)
                &&& final(self)@.len() == s0.len()
                &&& wf(final(self)@)
                &&& root_of(final(self)@, i) == root_of(final(self)@, j)
                &&& forall|k: usize|
                    k < s0.len() ==> #[trigger] root_of(final(self)@, k) == (if x != y && root_of(
                        s0,
                        k,
                    ) == union_loser(s0, i, j) {
                        union_winner(s0, i, j)
                    } else {
                        root_of(s0, k)
                    })
                &&& roots(final(self)@).len() <= roots(s0).len()
                &&& (roots(final(self)@).len() == roots(s0).len() <==> x == y)
            }),
            !(i < old(self)@.len() && j < old(self)@.len()) ==> (r matches Err(e) && e
                == ForestError::RangeError && final(self)@ == old(self)@),
    {
        let n = self.slots.len();
        if i >= n || j >= n {
            return Err(ForestError::RangeError);
        }
        let ghost s0 = self@;
        proof {
            lemma_wf_walk(s0, i);
            lemma_wf_walk(s0, j);
        }
        let (x, dx) = match self.compressed_find_depth(i, 0) {
            Ok(v) => v,
            Err(e) => {
                return Err(e);
            },
        };
        let ghost s1 = self@;
        proof {
            lemma_wf_walk(s1, j);
        }
        let (y, dy) = match self.compressed_find_depth(j, 0) {
            Ok(v) => v,
            Err(e) => {
                return Err(e);
            },
        };
        let ghost s2 = self@;
        proof {
            assert(root_of(s1, j) == root_of(s0, j));
            assert forall|k: usize| k < s0.len() implies #[trigger] root_of(s2, k) == root_of(
                s0,
                k,
            ) by {
                assert(root_of(s2, k) == root_of(s1, k));
                assert(root_of(s1, k) == root_of(s0, k));
            };
            assert(roots(s2) == roots(s0));
        }
        if x != y {
            proof {
                lemma_other_class_untouched(s0, i, j);
                assert(dx == depth_of(s0, i));
                assert(dy == depth_of(s1, j));
                assert(dy == depth_of(s0, j));
                assert(roots(s0).contains(x as int));
                assert(roots(s0).contains(y as int));
                assert(s2[x as int] is None);
                assert(s2[y as int] is None);
                if dx > dy {
                    lemma_link(s2, y, x);
                } else {
                    lemma_link(s2, x, y);
                }
            }
            let ghost w = union_winner(s0, i, j);
            let ghost l = union_loser(s0, i, j);
            if dx > dy {
                self.slots.set(y, Some(x));
            } else {
                self.slots.set(x, Some(y));
            }
            proof {
                assert(self@ == s2.update(l as int, Some(w)));
                assert(self@ == compressed_union_spec(s0, i, j));
                assert forall|k: usize| k < s0.len() implies #[trigger] root_of(self@, k) == (
                if root_of(s0, k) == l {
                    w
                } else {
                    root_of(s0, k)
                }) by {
                    assert(root_of(self@, k) == (if root_of(s2, k) == l {
                        w
                    } else {
                        root_of(s2, k)
                    }));
                    assert(root_of(s2, k) == root_of(s0, k));
                };
                assert(root_of(self@, i) == w);
                assert(root_of(self@, j) == w);
                assert(roots(self@).len() == roots(s0).len() - 1);
            }
        } else {
            proof {
                assert(self@ == compressed_union_spec(s0, i, j));
                assert(root_of(self@, i) == root_of(self@, j));
            }
        }
        Ok(())
    }
}

} // verus!
