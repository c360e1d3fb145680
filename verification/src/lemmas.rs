//! Proofs about the forest model: how parent walks behave under fuel, why
//! walks are shorter than the universe, and how compression and linking act
//! on roots, depths and equivalence classes.

use vstd::prelude::*;
use vstd::set_lib::{lemma_int_range, lemma_len_subset, set_int_range};
use crate::model::{compressed, depth_of, find_step, path_of, path_seq, root_of, roots, wf};

verus! {

broadcast use vstd::set::group_set_axioms;

/// A successful walk is insensitive to extra fuel: any fuel at least the hop
/// count gives the same root, hop count and path.
pub proof fn lemma_find_step_fuel(
    s: Seq<Option<usize>>,
    i: usize,
    r: usize,
    d: nat,
    fuel: nat,
    fuel2: nat,
)
    requires
        find_step(s, i, fuel) == Some((r, d)),
        fuel2 >= d,
    ensures
        find_step(s, i, fuel2) == Some((r, d)),
        path_seq(s, i, fuel2) == path_seq(s, i, fuel),
    decreases d,
{
    if s[i as int] is Some {
        let p = s[i as int]->0;
        assert(find_step(s, p, (fuel - 1) as nat) == Some((r, (d - 1) as nat)));
        lemma_find_step_fuel(s, p, r, (d - 1) as nat, (fuel - 1) as nat, (fuel2 - 1) as nat);
    }
}

/// Shape of a successful walk: the path lists exactly the `d` non-root nodes
/// visited, each in range, each `t` hops short of the full walk; the root is
/// in range and has an empty slot.
pub proof fn lemma_path_props(s: Seq<Option<usize>>, i: usize, r: usize, d: nat, fuel: nat)
    requires
        find_step(s, i, fuel) == Some((r, d)),
    ensures
        ({
            let p = path_seq(s, i, fuel);
            &&& p.len() == d
            &&& d <= fuel
            &&& r < s.len()
            &&& s[r as int] is None
            &&& (d > 0 ==> p[0] == i)
            &&& (d == 0 ==> i == r)
            &&& forall|t: int|
                0 <= t < d ==> (#[trigger] p[t]) < s.len() && find_step(s, p[t], fuel) == Some(
                    (r, (d - t) as nat),
                )
        }),
    decreases d,
{
    let p = path_seq(s, i, fuel);
    if s[i as int] is Some {
        let pp = s[i as int]->0;
        assert(find_step(s, pp, (fuel - 1) as nat) == Some((r, (d - 1) as nat)));
        lemma_path_props(s, pp, r, (d - 1) as nat, (fuel - 1) as nat);
        let prest = path_seq(s, pp, (fuel - 1) as nat);
        assert(p == seq![i] + prest);
        assert forall|t: int| 0 <= t < d implies (#[trigger] p[t]) < s.len() && find_step(
            s,
            p[t],
            fuel,
        ) == Some((r, (d - t) as nat)) by {
            if t == 0 {
                assert(p[0] == i);
            } else {
                assert(p[t] == prest[t - 1]);
                assert(find_step(s, prest[t - 1], (fuel - 1) as nat) == Some(
                    (r, ((d - 1) - (t - 1)) as nat),
                ));
                lemma_find_step_fuel(s, prest[t - 1], r, ((d - 1) - (t - 1)) as nat, (fuel
                    - 1) as nat, fuel);
            }
        };
    }
}

/// A successful walk never revisits a node and never lists the root, so its
/// hop count stays below the number of slots.
pub proof fn lemma_path_no_dup(s: Seq<Option<usize>>, i: usize, r: usize, d: nat, fuel: nat)
    requires
        find_step(s, i, fuel) == Some((r, d)),
    ensures
        path_seq(s, i, fuel).no_duplicates(),
        !path_seq(s, i, fuel).contains(r),
        d < s.len(),
{
    broadcast use vstd::seq_lib::seq_to_set_is_finite;

    lemma_path_props(s, i, r, d, fuel);
    let p = path_seq(s, i, fuel);
    assert forall|t1: int, t2: int|
        0 <= t1 < p.len() && 0 <= t2 < p.len() && t1 != t2 implies p[t1] != p[t2] by {
        if p[t1] == p[t2] {
            assert(find_step(s, p[t1], fuel) == Some((r, (d - t1) as nat)));
            assert(find_step(s, p[t2], fuel) == Some((r, (d - t2) as nat)));
        }
    };
    assert forall|t: int| 0 <= t < p.len() implies p[t] != r by {
        if p[t] == r {
            assert(find_step(s, p[t], fuel) == Some((r, (d - t) as nat)));
            assert(find_step(s, r, fuel) == Some((r, 0nat)));
        }
    };
    assert(!p.contains(r));
    let q = p.push(r);
    assert forall|t1: int, t2: int|
        0 <= t1 < q.len() && 0 <= t2 < q.len() && t1 != t2 implies q[t1] != q[t2] by {
        if t1 < p.len() && t2 < p.len() {
            assert(q[t1] == p[t1] && q[t2] == p[t2]);
        } else if t1 < p.len() {
            assert(q[t1] == p[t1] && q[t2] == r);
        } else {
            assert(q[t1] == r && q[t2] == p[t2]);
        }
    };
    let qi = q.map_values(|v: usize| v as int);
    assert forall|t1: int, t2: int|
        0 <= t1 < qi.len() && 0 <= t2 < qi.len() && t1 != t2 implies qi[t1] != qi[t2] by {
        assert(qi[t1] == q[t1] as int && qi[t2] == q[t2] as int);
    };
    assert(qi.no_duplicates());
    qi.unique_seq_to_set();
    let range = set_int_range(0, s.len() as int);
    assert forall|v: int| qi.to_set().contains(v) implies range.contains(v) by {
        let t = choose|t: int| 0 <= t < qi.len() && qi[t] == v;
        assert(qi[t] == q[t] as int);
        if t < p.len() {
            assert(q[t] == p[t] && p[t] < s.len());
        } else {
            assert(q[t] == r);
        }
    };
    lemma_int_range(0, s.len() as int);
    lemma_len_subset(qi.to_set(), range);
    assert(qi.to_set().len() == d + 1);
}

/// In a well-formed forest every in-range index has a walk: its root is in
/// range with an empty slot, and its depth stays below the slot count.
pub proof fn lemma_wf_walk(s: Seq<Option<usize>>, i: usize)
    requires
        wf(s),
        i < s.len(),
    ensures
        find_step(s, i, s.len() as nat) == Some((root_of(s, i), depth_of(s, i))),
        depth_of(s, i) < s.len(),
        root_of(s, i) < s.len(),
        s[root_of(s, i) as int] is None,
        depth_of(s, i) == 0 ==> root_of(s, i) == i,
        depth_of(s, i) == 0 <==> s[i as int] is None,
        path_of(s, i).len() == depth_of(s, i),
        path_of(s, i).no_duplicates(),
        !path_of(s, i).contains(root_of(s, i)),
        depth_of(s, i) > 0 ==> path_of(s, i)[0] == i,
        forall|t: int|
            0 <= t < depth_of(s, i) ==> (#[trigger] path_of(s, i)[t]) < s.len() && find_step(
                s,
                path_of(s, i)[t],
                s.len() as nat,
            ) == Some((root_of(s, i), (depth_of(s, i) - t) as nat)),
{
    assert(find_step(s, i, s.len() as nat) is Some);
    let r = root_of(s, i);
    let d = depth_of(s, i);
    assert(find_step(s, i, s.len() as nat) == Some((r, d)));
    lemma_path_props(s, i, r, d, s.len() as nat);
    lemma_path_no_dup(s, i, r, d, s.len() as nat);
}

/// The set of roots is finite: it sits inside the index range.
pub proof fn lemma_roots_finite(s: Seq<Option<usize>>)
    ensures
        roots(s).finite(),
        roots(s).len() <= s.len(),
{
    let range = set_int_range(0, s.len() as int);
    assert(roots(s).subset_of(range));
    lemma_int_range(0, s.len() as int);
    lemma_len_subset(roots(s), range);
}

/// A walk only reads the slots it visits: any sequence of the same length
/// that agrees on the walked nodes and on the root walks identically.
pub proof fn lemma_find_step_frame(
    s1: Seq<Option<usize>>,
    s2: Seq<Option<usize>>,
    i: usize,
    r: usize,
    d: nat,
    fuel: nat,
)
    requires
        find_step(s1, i, fuel) == Some((r, d)),
        s2.len() == s1.len(),
        forall|t: int|
            0 <= t < d ==> s2[(#[trigger] path_seq(s1, i, fuel)[t]) as int] == s1[path_seq(
                s1,
                i,
                fuel,
            )[t] as int],
        s2[r as int] == s1[r as int],
    ensures
        find_step(s2, i, fuel) == Some((r, d)),
        path_seq(s2, i, fuel) == path_seq(s1, i, fuel),
    decreases d,
{
    lemma_path_props(s1, i, r, d, fuel);
    let p1 = path_seq(s1, i, fuel);
    if s1[i as int] is None {
        assert(i == r && d == 0);
        assert(s2[i as int] is None);
    } else {
        let pp = s1[i as int]->0;
        assert(p1[0] == i);
        assert(s2[i as int] == s1[i as int]);
        assert(find_step(s1, pp, (fuel - 1) as nat) == Some((r, (d - 1) as nat)));
        let prest = path_seq(s1, pp, (fuel - 1) as nat);
        assert(p1 == seq![i] + prest);
        assert forall|t: int|
            0 <= t < d - 1 implies s2[(#[trigger] path_seq(s1, pp, (fuel - 1) as nat)[t]) as int]
            == s1[path_seq(s1, pp, (fuel - 1) as nat)[t] as int] by {
            assert(prest[t] == p1[t + 1]);
        };
        lemma_find_step_frame(s1, s2, pp, r, (d - 1) as nat, (fuel - 1) as nat);
        assert(path_seq(s2, i, fuel) == seq![i] + path_seq(s2, pp, (fuel - 1) as nat));
    }
}

/// Compression seen from one node: after compressing the walk of `i`, node
/// `k` keeps its root and its walk gets no longer.
proof fn lemma_compressed_node(s: Seq<Option<usize>>, i: usize, k: usize)
    requires
        wf(s),
        i < s.len(),
        k < s.len(),
    ensures
        find_step(compressed(s, i), k, s.len() as nat) is Some,
        root_of(compressed(s, i), k) == root_of(s, k),
        depth_of(compressed(s, i), k) <= depth_of(s, k),
    decreases depth_of(s, k),
{
    let s2 = compressed(s, i);
    assert(s2.len() == s.len());
    lemma_wf_walk(s, i);
    lemma_wf_walk(s, k);
    let r = root_of(s, i);
    let pi = path_of(s, i);
    assert(s2[r as int] == s[r as int]);
    if pi.contains(k) {
        let t = choose|t: int| 0 <= t < pi.len() && pi[t] == k;
        assert(find_step(s, k, s.len() as nat) == Some((r, (depth_of(s, i) - t) as nat)));
        assert(root_of(s, k) == r && depth_of(s, k) == depth_of(s, i) - t);
        assert(s2[k as int] == Some(r));
        assert(find_step(s2, r, (s.len() - 1) as nat) == Some((r, 0nat)));
        assert(find_step(s2, k, s.len() as nat) == Some((r, 1nat)));
        assert(depth_of(s2, k) == 1 && root_of(s2, k) == r);
    } else {
        assert(s2[k as int] == s[k as int]);
        if s[k as int] is None {
            assert(find_step(s2, k, s.len() as nat) == Some((k, 0nat)));
            assert(find_step(s, k, s.len() as nat) == Some((k, 0nat)));
        } else {
            let p = s[k as int]->0;
            let rk = root_of(s, k);
            let dk = depth_of(s, k);
            assert(find_step(s, p, (s.len() - 1) as nat) == Some((rk, (dk - 1) as nat)));
            lemma_find_step_fuel(s, p, rk, (dk - 1) as nat, (s.len() - 1) as nat, s.len() as nat);
            assert(depth_of(s, p) == dk - 1 && root_of(s, p) == rk);
            lemma_compressed_node(s, i, p);
            let dp = depth_of(s2, p);
            assert(find_step(s2, p, s.len() as nat) == Some((rk, dp)));
            lemma_find_step_fuel(s2, p, rk, dp, s.len() as nat, (s.len() - 1) as nat);
            assert(find_step(s2, k, s.len() as nat) == Some((rk, dp + 1)));
        }
    }
}

/// Path compression never changes which class an element belongs to: every
/// index keeps its root, the set of roots is untouched, no walk gets longer,
/// and the compressed index now sits at most one hop from its root.
pub proof fn lemma_compression_preserves_classes(s: Seq<Option<usize>>, i: usize)
    requires
        wf(s),
        i < s.len(),
        s.len() <= usize::MAX,
    ensures
        ({
            let s2 = compressed(s, i);
            &&& s2.len() == s.len()
            &&& wf(s2)
            &&& forall|k: usize| k < s.len() ==> #[trigger] root_of(s2, k) == root_of(s, k)
            &&& forall|k: usize| k < s.len() ==> #[trigger] depth_of(s2, k) <= depth_of(s, k)
            &&& depth_of(s2, i) <= 1
            &&& roots(s2) == roots(s)
        }),
{
    let s2 = compressed(s, i);
    assert(s2.len() == s.len());
    lemma_wf_walk(s, i);
    let r = root_of(s, i);
    let pi = path_of(s, i);
    assert forall|k: usize| k < s.len() implies (#[trigger] find_step(s2, k, s2.len() as nat))
        is Some && root_of(s2, k) == root_of(s, k) && depth_of(s2, k) <= depth_of(s, k) by {
        lemma_compressed_node(s, i, k);
    };
    if s[i as int] is None {
        assert(s2[i as int] == s[i as int]);
        assert(find_step(s2, i, s.len() as nat) == Some((i, 0nat)));
    } else {
        assert(pi[0] == i && pi.contains(i));
        assert(s2[i as int] == Some(r));
        assert(s2[r as int] == s[r as int]);
        assert(find_step(s2, r, (s.len() - 1) as nat) == Some((r, 0nat)));
        assert(find_step(s2, i, s.len() as nat) == Some((r, 1nat)));
    }
    assert forall|k: int| 0 <= k < s.len() implies (s2[k] is None <==> s[k] is None) by {
        let ku = k as usize;
        assert(ku as int == k);
        if pi.contains(ku) {
            let t = choose|t: int| 0 <= t < pi.len() && pi[t] == ku;
            assert(find_step(s, ku, s.len() as nat) == Some((r, (depth_of(s, i) - t) as nat)));
            assert(t < depth_of(s, i));
            if s[k] is None {
                assert(find_step(s, ku, s.len() as nat) == Some((ku, 0nat)));
            }
            assert(s[k] is Some);
            assert(s2[k] == Some(r));
        } else {
            assert(s2[k] == s[k]);
        }
    };
    assert(roots(s2) =~= roots(s));
}

/// Compressing one class twice in a row changes nothing the second time, and
/// the compressed index keeps its root: path compression is idempotent.
pub proof fn lemma_compressed_find_idempotent(s: Seq<Option<usize>>, i: usize)
    requires
        wf(s),
        i < s.len(),
        s.len() <= usize::MAX,
    ensures
        ({
            let s2 = compressed(s, i);
            &&& root_of(s2, i) == root_of(s, i)
            &&& depth_of(s2, i) <= 1
            &&& compressed(s2, i) == s2
        }),
{
    lemma_compression_preserves_classes(s, i);
    lemma_wf_walk(s, i);
    let s2 = compressed(s, i);
    let r = root_of(s, i);
    if s[i as int] is None {
        assert(path_of(s, i) == Seq::<usize>::empty());
        assert forall|k: int| 0 <= k < s2.len() implies compressed(s2, i)[k] == s2[k] by {
            assert(s2[i as int] == s[i as int]);
            assert(path_of(s2, i) == Seq::<usize>::empty());
            assert(!path_of(s2, i).contains(k as usize));
        };
        assert(compressed(s2, i) =~= s2);
    } else {
        assert(path_of(s, i).contains(i));
        assert(s2[i as int] == Some(r));
        assert(s2[r as int] == s[r as int]);
        assert(path_seq(s2, r, (s.len() - 1) as nat) == Seq::<usize>::empty());
        assert(find_step(s2, r, (s.len() - 1) as nat) == Some((r, 0nat)));
        assert(path_of(s2, i) == seq![i] + Seq::<usize>::empty());
        assert(path_of(s2, i) =~= seq![i]);
        assert(find_step(s2, i, s.len() as nat) == Some((r, 1nat)));
        assert(root_of(s2, i) == r);
        assert forall|k: int| 0 <= k < s2.len() implies compressed(s2, i)[k] == s2[k] by {
            if path_of(s2, i).contains(k as usize) {
                assert((k as usize) as int == k);
                let idx = choose|idx: int|
                    0 <= idx < path_of(s2, i).len() && path_of(s2, i)[idx] == k as usize;
                assert(path_of(s2, i)[idx] == i);
                assert(k == i);
            }
        };
        assert(compressed(s2, i) =~= s2);
    }
}

/// Linking seen from one node: after pointing root `x` at root `y`, node `k`
/// answers to `y` exactly when it answered to `x`, and otherwise keeps its
/// root; its walk grows by at most one hop.
proof fn lemma_link_node(s: Seq<Option<usize>>, x: usize, y: usize, k: usize)
    requires
        wf(s),
        x < s.len(),
        y < s.len(),
        x != y,
        s[x as int] is None,
        s[y as int] is None,
        k < s.len(),
    ensures
        ({
            let s2 = s.update(x as int, Some(y));
            &&& find_step(s2, k, s.len() as nat) is Some
            &&& root_of(s2, k) == (if root_of(s, k) == x {
                y
            } else {
                root_of(s, k)
            })
            &&& depth_of(s2, k) <= depth_of(s, k) + 1
        }),
    decreases depth_of(s, k),
{
    let s2 = s.update(x as int, Some(y));
    assert(s2.len() == s.len());
    lemma_wf_walk(s, k);
    if s[k as int] is None {
        if k == x {
            assert(s2[x as int] == Some(y));
            assert(s2[y as int] == s[y as int]);
            assert(find_step(s2, y, (s.len() - 1) as nat) == Some((y, 0nat)));
            assert(find_step(s2, x, s.len() as nat) == Some((y, 1nat)));
            assert(find_step(s, k, s.len() as nat) == Some((k, 0nat)));
        } else {
            assert(s2[k as int] == s[k as int]);
            assert(find_step(s2, k, s.len() as nat) == Some((k, 0nat)));
            assert(find_step(s, k, s.len() as nat) == Some((k, 0nat)));
        }
    } else {
        assert(k != x);
        let p = s[k as int]->0;
        let rk = root_of(s, k);
        let dk = depth_of(s, k);
        assert(find_step(s, p, (s.len() - 1) as nat) == Some((rk, (dk - 1) as nat)));
        lemma_find_step_fuel(s, p, rk, (dk - 1) as nat, (s.len() - 1) as nat, s.len() as nat);
        assert(depth_of(s, p) == dk - 1 && root_of(s, p) == rk);
        lemma_link_node(s, x, y, p);
        let rp = root_of(s2, p);
        let dp = depth_of(s2, p);
        assert(find_step(s2, p, s.len() as nat) == Some((rp, dp)));
        assert(dp <= dk);
        lemma_find_step_fuel(s2, p, rp, dp, s.len() as nat, (s.len() - 1) as nat);
        assert(s2[k as int] == Some(p));
        assert(find_step(s2, k, s.len() as nat) == Some((rp, dp + 1)));
    }
}

/// Linking root `x` under root `y` merges exactly the two classes, keeps the
/// forest well-formed, and removes exactly `x` from the set of roots.
pub proof fn lemma_link(s: Seq<Option<usize>>, x: usize, y: usize)
    requires
        wf(s),
        x < s.len(),
        y < s.len(),
        x != y,
        s[x as int] is None,
        s[y as int] is None,
    ensures
        ({
            let s2 = s.update(x as int, Some(y));
            &&& s2.len() == s.len()
            &&& wf(s2)
            &&& forall|k: usize|
                k < s.len() ==> #[trigger] root_of(s2, k) == (if root_of(s, k) == x {
                    y
                } else {
                    root_of(s, k)
                })
            &&& roots(s).contains(x as int)
            &&& roots(s2) == roots(s).remove(x as int)
            &&& roots(s).finite()
            &&& roots(s2).len() == roots(s).len() - 1
        }),
{
    let s2 = s.update(x as int, Some(y));
    assert forall|k: usize| k < s.len() implies (#[trigger] find_step(s2, k, s2.len() as nat))
        is Some && root_of(s2, k) == (if root_of(s, k) == x {
        y
    } else {
        root_of(s, k)
    }) by {
        lemma_link_node(s, x, y, k);
    };
    assert(roots(s2) =~= roots(s).remove(x as int));
    lemma_roots_finite(s);
    vstd::set::axiom_set_remove_len(roots(s), x as int);
}

/// Compressing the walk of `i` does not touch the walk of a `j` in another
/// class: `j` keeps both its root and its depth.
pub proof fn lemma_other_class_untouched(s: Seq<Option<usize>>, i: usize, j: usize)
    requires
        wf(s),
        i < s.len(),
        j < s.len(),
        root_of(s, i) != root_of(s, j),
    ensures
        root_of(compressed(s, i), j) == root_of(s, j),
        depth_of(compressed(s, i), j) == depth_of(s, j),
{
    let s2 = compressed(s, i);
    assert(s2.len() == s.len());
    let x = root_of(s, i);
    let y = root_of(s, j);
    let di = depth_of(s, i);
    let dj = depth_of(s, j);
    lemma_wf_walk(s, i);
    lemma_wf_walk(s, j);
    let pi = path_of(s, i);
    let pj = path_of(s, j);
    assert forall|t: int|
        0 <= t < dj implies s2[(#[trigger] path_seq(s, j, s.len() as nat)[t]) as int] == s[path_seq(
        s,
        j,
        s.len() as nat,
    )[t] as int] by {
        assert(find_step(s, pj[t], s.len() as nat) == Some((y, (dj - t) as nat)));
        if pi.contains(pj[t]) {
            let tt = choose|tt: int| 0 <= tt < pi.len() && pi[tt] == pj[t];
            assert(find_step(s, pi[tt], s.len() as nat) == Some((x, (di - tt) as nat)));
        }
        assert(!pi.contains(pj[t]));
    };
    assert(s2[y as int] == s[y as int]) by {
        if pi.contains(y) {
            let tt = choose|tt: int| 0 <= tt < pi.len() && pi[tt] == y;
            assert(find_step(s, pi[tt], s.len() as nat) == Some((x, (di - tt) as nat)));
            assert(find_step(s, y, s.len() as nat) == Some((y, 0nat)));
        }
    };
    lemma_find_step_frame(s, s2, j, y, dj, s.len() as nat);
}

} // verus!
