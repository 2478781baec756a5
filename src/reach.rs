//! The shape of a tree: which slots lie below a slot, and what a search that is
//! neither cut short by its cap nor by its threshold finds.
use vstd::prelude::*;
use vstd::set_lib::{lemma_set_disjoint_lens, set_int_range};
use crate::node::{Hit, Node, Slot, slots_wf, link_ok, inserted, landing, leaf, lemma_landing, follows, walk, search_found, hits_of, bump};
use crate::score::greater_than;

verus! {

/// The slots of the subtree at `at`: `at` itself and, through its links, all below it.
pub open spec fn below(s: Seq<Slot>, at: int) -> Set<int>
    decreases s.len() - at,
{
    if !(0 <= at < s.len()) {
        Set::empty()
    } else {
        let a = if follows(s, at, s[at].node_a) {
            below(s, s[at].node_a.unwrap() as int)
        } else {
            Set::empty()
        };
        let b = if follows(s, at, s[at].node_b) {
            below(s, s[at].node_b.unwrap() as int)
        } else {
            Set::empty()
        };
        set![at] + a + b
    }
}

/// Every slot lies below the root, and the subtrees of two sibling links share no
/// slot: each slot is reached from the root in exactly one way.
pub open spec fn is_tree(s: Seq<Slot>) -> bool {
    &&& below(s, 0) == set_int_range(0, s.len() as int)
    &&& forall|i: int|
        0 <= i < s.len() && follows(s, i, s[i].node_a) && follows(s, i, #[trigger] s[i].node_b)
            ==> below(s, s[i].node_a.unwrap() as int).disjoint(below(s, s[i].node_b.unwrap() as int))
}

pub proof fn lemma_below_bounds(s: Seq<Slot>, at: int)
    ensures
        below(s, at).finite(),
        forall|j: int| below(s, at).contains(j) ==> at <= j < s.len(),
    decreases s.len() - at,
{
    if 0 <= at < s.len() {
        if follows(s, at, s[at].node_a) {
            lemma_below_bounds(s, s[at].node_a.unwrap() as int);
        }
        if follows(s, at, s[at].node_b) {
            lemma_below_bounds(s, s[at].node_b.unwrap() as int);
        }
    }
}

proof fn lemma_walk_covers(
    s: Seq<Slot>,
    scores: Seq<u64>,
    thr: u64,
    cap: nat,
    at: int,
    tally: u32,
    f: Seq<(usize, u32)>,
)
    requires
        is_tree(s),
        s.len() <= u32::MAX,
        0 <= at < s.len(),
        scores.len() == s.len(),
        f.len() + below(s, at).len() <= cap,
    ensures
        ({
            let w = walk(s, scores, thr, cap, at, tally, f).1;
            &&& f.len() <= w.len() <= f.len() + below(s, at).len()
            &&& forall|k: int| 0 <= k < f.len() ==> w[k] == f[k]
            &&& forall|j: int|
                below(s, at).contains(j) && greater_than(scores[j], thr) ==> exists|k: int|
                    0 <= k < w.len() && (#[trigger] w[k]).0 == j
        }),
    decreases s.len() - at,
{
    let t = bump(tally);
    let pass = greater_than(scores[at], thr);
    let f1 = if pass { f.push((at as usize, t)) } else { f };
    let sa = s[at].node_a;
    let sb = s[at].node_b;
    let fa = follows(s, at, sa);
    let fb = follows(s, at, sb);
    let A = if fa { below(s, sa.unwrap() as int) } else { Set::<int>::empty() };
    let B = if fb { below(s, sb.unwrap() as int) } else { Set::<int>::empty() };
    if fa {
        lemma_below_bounds(s, sa.unwrap() as int);
    }
    if fb {
        lemma_below_bounds(s, sb.unwrap() as int);
    }
    assert(A.disjoint(B));
    assert(set![at].disjoint(A));
    assert(set![at].disjoint(B));
    lemma_set_disjoint_lens(A, B);
    assert((set![at] + (A + B)) == (set![at] + A + B));
    assert(set![at].disjoint(A + B));
    lemma_set_disjoint_lens(set![at], A + B);
    assert(set![at].len() == 1);
    assert(below(s, at) == set![at] + A + B);
    assert(below(s, at).len() == 1 + A.len() + B.len());
    if fa {
        assert(A.contains(sa.unwrap() as int));
    }
    if fb {
        assert(B.contains(sb.unwrap() as int));
    }
    let w = walk(s, scores, thr, cap, at, tally, f).1;
    if f1.len() < cap {
        let ra = if fa {
            walk(s, scores, thr, cap, sa.unwrap() as int, t, f1)
        } else {
            (t, f1)
        };
        if fa {
            lemma_walk_covers(s, scores, thr, cap, sa.unwrap() as int, t, f1);
        }
        assert(f1.len() <= ra.1.len() <= f1.len() + A.len());
        if fb {
            lemma_walk_covers(s, scores, thr, cap, sb.unwrap() as int, ra.0, ra.1);
        }
        assert(f.len() <= w.len() <= f.len() + below(s, at).len());
        assert forall|j: int|
            below(s, at).contains(j) && greater_than(scores[j], thr) implies exists|k: int|
            0 <= k < w.len() && (#[trigger] w[k]).0 == j by {
            if j == at {
                assert(w[f.len() as int] == f1[f.len() as int]);
                assert(w[f.len() as int].0 == j);
            } else if A.contains(j) {
                let k = choose|k: int| 0 <= k < ra.1.len() && (#[trigger] ra.1[k]).0 == j;
                assert(w[k] == ra.1[k]);
            } else {
                assert(B.contains(j));
            }
        }
    } else {
        assert(A.len() == 0 && B.len() == 0);
        assert(!fa && !fb);
        assert(w == f1);
        assert forall|j: int|
            below(s, at).contains(j) && greater_than(scores[j], thr) implies exists|k: int|
            0 <= k < w.len() && (#[trigger] w[k]).0 == j by {
            assert(w[f.len() as int].0 == j);
        }
    }
}

/// Some hit carries this label and this score.
pub open spec fn has_hit(h: Seq<Hit>, url: String, score: u64) -> bool {
    exists|k: int| 0 <= k < h.len() && (#[trigger] h[k]).url == url && h[k].score == score
}

/// A search over a tree whose cap is at least its number of slots visits every slot,
/// so it finds each slot whose score is above the threshold, with its label and
/// score. A tree built by inserting vectors, searched for one of them with a cap of
/// at least the number of slots, thus finds that vector wherever its own similarity
/// is above the threshold.
pub proof fn lemma_search_finds_every_slot(t: Node, scores: Seq<u64>, thr: u64, cap: nat)
    requires
        t.wf(),
        is_tree(t@),
        scores.len() == t@.len(),
        cap >= t@.len(),
    ensures
        forall|j: int|
            0 <= j < t@.len() && greater_than(#[trigger] scores[j], thr) ==> has_hit(
                hits_of(t@, scores, search_found(t@, scores, thr, cap)),
                t@[j].url,
                scores[j],
            ),
{
    let s = t@;
    vstd::set_lib::lemma_int_range(0, s.len() as int);
    lemma_walk_covers(s, scores, thr, cap, 0, 0, seq![]);
    let w = search_found(s, scores, thr, cap);
    let h = hits_of(s, scores, w);
    assert forall|j: int| 0 <= j < s.len() && greater_than(#[trigger] scores[j], thr) implies has_hit(
        h,
        s[j].url,
        scores[j],
    ) by {
        assert(below(s, 0).contains(j));
        let k = choose|k: int| 0 <= k < w.len() && (#[trigger] w[k]).0 == j;
        assert(h[k].url == s[j].url && h[k].score == scores[j]);
    }
}

} // verus!

verus! {

/// The links of two slots agree.
pub open spec fn same_links(x: Slot, y: Slot) -> bool {
    x.node_a == y.node_a && x.node_b == y.node_b
}

proof fn lemma_below_same_links(s: Seq<Slot>, s2: Seq<Slot>, at: int)
    requires
        s.len() == s2.len(),
        forall|i: int| 0 <= i < s.len() ==> same_links(#[trigger] s[i], s2[i]),
    ensures
        below(s2, at) == below(s, at),
    decreases s.len() - at,
{
    if 0 <= at < s.len() {
        assert(same_links(s[at], s2[at]));
        if follows(s, at, s[at].node_a) {
            lemma_below_same_links(s, s2, s[at].node_a.unwrap() as int);
        }
        if follows(s, at, s[at].node_b) {
            lemma_below_same_links(s, s2, s[at].node_b.unwrap() as int);
        }
    }
}

/// The links of slot `t` after a new slot `n` is attached to it.
pub open spec fn attached(old_t: Slot, new_t: Slot, n: int) -> bool {
    ||| (old_t.node_a is None && old_t.node_b is None && new_t.node_a == Some(n as usize)
        && new_t.node_b is None)
    ||| (old_t.node_a is Some && old_t.node_b is None && new_t.node_a == old_t.node_a
        && new_t.node_b == Some(n as usize))
}

proof fn lemma_below_attached(s: Seq<Slot>, s2: Seq<Slot>, t: int, at: int)
    requires
        slots_wf(s),
        s2.len() == s.len() + 1,
        0 <= t < s.len(),
        forall|i: int| 0 <= i < s.len() && i != t ==> same_links(#[trigger] s[i], s2[i]),
        attached(s[t], s2[t], s.len() as int),
        s2[s.len() as int].node_a is None,
        s2[s.len() as int].node_b is None,
        s.len() < usize::MAX,
    ensures
        below(s2, s.len() as int) == set![s.len() as int],
        0 <= at < s.len() ==> below(s2, at) == below(s, at) + if below(s, at).contains(t) {
            set![s.len() as int]
        } else {
            Set::<int>::empty()
        },
    decreases s.len() - at,
{
    let n = s.len() as int;
    assert(below(s2, n) =~= set![n]);
    if 0 <= at < n {
        assert(link_ok(s[at].node_a, at, n));
        let sa = s[at].node_a;
        let sb = s[at].node_b;
        if follows(s, at, sa) {
            lemma_below_attached(s, s2, t, sa.unwrap() as int);
            lemma_below_bounds(s, sa.unwrap() as int);
        }
        if follows(s, at, sb) {
            lemma_below_attached(s, s2, t, sb.unwrap() as int);
            lemma_below_bounds(s, sb.unwrap() as int);
        }
        assert(below(s2, at) =~= below(s, at) + if below(s, at).contains(t) {
            set![n]
        } else {
            Set::<int>::empty()
        });
    }
}

/// Insertion keeps a tree a tree.
pub proof fn lemma_inserted_is_tree(s: Seq<Slot>, sims: Seq<u64>, embedding: Vec<u64>, url: String)
    requires
        slots_wf(s),
        is_tree(s),
        sims.len() == s.len(),
        s.len() < u32::MAX,
    ensures
        is_tree(inserted(s, sims, embedding, url)),
{
    let s2 = inserted(s, sims, embedding, url);
    let t = landing(s, sims, 0);
    lemma_landing(s, sims, 0);
    let n = s.len() as int;
    if s[t].embedding@.len() == 0 {
        assert forall|i: int| 0 <= i < s.len() implies same_links(#[trigger] s[i], s2[i]) by {}
        lemma_below_same_links(s, s2, 0);
        assert forall|i: int|
            0 <= i < s2.len() && follows(s2, i, s2[i].node_a) && follows(s2, i, #[trigger] s2[i].node_b)
            implies below(s2, s2[i].node_a.unwrap() as int).disjoint(
            below(s2, s2[i].node_b.unwrap() as int),
        ) by {
            assert(s[i].node_b == s2[i].node_b);
            lemma_below_same_links(s, s2, s2[i].node_a.unwrap() as int);
            lemma_below_same_links(s, s2, s2[i].node_b.unwrap() as int);
        }
    } else {
        assert forall|i: int| 0 <= i < s.len() && i != t implies same_links(#[trigger] s[i], s2[i]) by {}
        lemma_below_attached(s, s2, t, 0);
        vstd::set_lib::lemma_int_range(0, n);
        lemma_below_bounds(s, 0);
        assert(below(s, 0).contains(t));
        assert(below(s2, 0) =~= set_int_range(0, n + 1));
        assert forall|i: int|
            0 <= i < s2.len() && follows(s2, i, s2[i].node_a) && follows(s2, i, #[trigger] s2[i].node_b)
            implies below(s2, s2[i].node_a.unwrap() as int).disjoint(
            below(s2, s2[i].node_b.unwrap() as int),
        ) by {
            let a = s2[i].node_a.unwrap() as int;
            let b = s2[i].node_b.unwrap() as int;
            assert(i < n);
            lemma_below_attached(s, s2, t, a);
            lemma_below_attached(s, s2, t, b);
            lemma_below_bounds(s, a);
            lemma_below_bounds(s, b);
            assert(link_ok(s[i].node_a, i, n));
            if i == t {
                assert(b == n);
                assert(!below(s, a).contains(t));
            } else {
                assert(same_links(s[i], s2[i]));
                assert(follows(s, i, s[i].node_b));
                assert(below(s, a).disjoint(below(s, b)));
            }
        }
    }
}

/// A tree of one slot is a tree.
pub proof fn lemma_leaf_is_tree(depth: u32, embedding: Vec<u64>, url: String)
    ensures
        is_tree(seq![leaf(depth, embedding, url)]),
{
    let s = seq![leaf(depth, embedding, url)];
    assert(below(s, 0) =~= set_int_range(0, 1));
}

} // verus!

verus! {

/// Below each slot from `from` on, the two children's subtrees share no slot.
pub open spec fn tail_tree(s: Seq<Slot>, from: int) -> bool {
    forall|i: int|
        from <= i < s.len() && follows(s, i, s[i].node_a) && follows(s, i, #[trigger] s[i].node_b)
            ==> below(s, s[i].node_a.unwrap() as int).disjoint(below(s, s[i].node_b.unwrap() as int))
}

/// What lies below `at` is the same in `s2` as in `s` where the two agree on the links
/// of a window `[lo, hi)` whose links stay inside it.
pub proof fn lemma_below_frame(s: Seq<Slot>, s2: Seq<Slot>, lo: int, hi: int, at: int)
    requires
        lo <= at < hi,
        hi <= s.len(),
        hi <= s2.len(),
        forall|k: int| lo <= k < hi ==> same_links(#[trigger] s[k], s2[k]),
        forall|k: int|
            lo <= k < hi ==> link_ok(#[trigger] s[k].node_a, k, hi) && link_ok(s[k].node_b, k, hi),
    ensures
        below(s2, at) == below(s, at),
    decreases hi - at,
{
    assert(same_links(s[at], s2[at]));
    assert(link_ok(s[at].node_a, at, hi));
    if follows(s, at, s[at].node_a) {
        lemma_below_frame(s, s2, lo, hi, s[at].node_a.unwrap() as int);
    }
    if follows(s, at, s[at].node_b) {
        lemma_below_frame(s, s2, lo, hi, s[at].node_b.unwrap() as int);
    }
}

} // verus!

verus! {

/// In a tree, a slot's subtree counts the slot and its children's subtrees.
pub proof fn lemma_below_len(s: Seq<Slot>, at: int)
    requires
        is_tree(s),
        0 <= at < s.len(),
    ensures
        below(s, at).finite(),
        below(s, at).len() == 1 + (if follows(s, at, s[at].node_a) {
            below(s, s[at].node_a.unwrap() as int).len()
        } else {
            0
        }) + (if follows(s, at, s[at].node_b) {
            below(s, s[at].node_b.unwrap() as int).len()
        } else {
            0
        }),
{
    let sa = s[at].node_a;
    let sb = s[at].node_b;
    let fa = follows(s, at, sa);
    let fb = follows(s, at, sb);
    let A = if fa { below(s, sa.unwrap() as int) } else { Set::<int>::empty() };
    let B = if fb { below(s, sb.unwrap() as int) } else { Set::<int>::empty() };
    lemma_below_bounds(s, at);
    if fa {
        lemma_below_bounds(s, sa.unwrap() as int);
    }
    if fb {
        lemma_below_bounds(s, sb.unwrap() as int);
    }
    assert(A.disjoint(B));
    assert(set![at].disjoint(A));
    assert(set![at].disjoint(B));
    lemma_set_disjoint_lens(A, B);
    assert((set![at] + (A + B)) == (set![at] + A + B));
    assert(set![at].disjoint(A + B));
    lemma_set_disjoint_lens(set![at], A + B);
    assert(set![at].len() == 1);
    assert(below(s, at) == set![at] + A + B);
}

} // verus!
