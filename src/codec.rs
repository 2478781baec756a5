//! The nested document form of a tree, as it is persisted: each node with its
//! children inline.
use vstd::prelude::*;
use crate::node::{Node, Slot, link_ok, child_depth_ok, slots_wf, walk, hits_of, hit_at, follows, bump, search_found};
use crate::score::greater_than;
use crate::reach::{below, is_tree, lemma_below_len, tail_tree, same_links, lemma_below_frame};
use vstd::set_lib::set_int_range;
use crate::error::NodeError;

verus! {

/// A node and, inline, its subtree.
pub struct Record {
    pub depth: u32,
    pub embeddings: Vec<u64>,
    pub url: String,
    pub node_a: Option<Box<Record>>,
    pub node_a_dist: u64,
    pub node_b: Option<Box<Record>>,
    pub node_b_dist: u64,
}

/// The number of nodes in a record.
pub open spec fn size(r: Record) -> nat
    decreases r,
{
    1 + match r.node_a {
        Some(c) => size(*c),
        None => 0,
    } + match r.node_b {
        Some(c) => size(*c),
        None => 0,
    }
}

/// A record a tree can be built from: child B only beside child A, each child one
/// level deeper than its parent.
pub open spec fn well_nested(r: Record) -> bool
    decreases r,
{
    &&& (r.node_b is Some ==> r.node_a is Some)
    &&& match r.node_a {
        Some(c) => c.depth == r.depth + 1 && well_nested(*c),
        None => true,
    }
    &&& match r.node_b {
        Some(c) => c.depth == r.depth + 1 && well_nested(*c),
        None => true,
    }
}

/// Slot `at` of the arena `s` and everything below it hold what the record holds:
/// the same fields, and children exactly where the record has them.
pub open spec fn mirrors(s: Seq<Slot>, at: int, r: Record) -> bool
    decreases r,
{
    &&& 0 <= at < s.len()
    &&& s[at].depth == r.depth
    &&& s[at].embedding@ == r.embeddings@
    &&& s[at].url == r.url
    &&& s[at].node_a_dist == r.node_a_dist
    &&& s[at].node_b_dist == r.node_b_dist
    &&& (s[at].node_a is Some <==> r.node_a is Some)
    &&& (s[at].node_b is Some <==> r.node_b is Some)
    &&& match r.node_a {
        Some(c) => mirrors(s, s[at].node_a.unwrap() as int, *c),
        None => true,
    }
    &&& match r.node_b {
        Some(c) => mirrors(s, s[at].node_b.unwrap() as int, *c),
        None => true,
    }
}

} // verus!

verus! {

/// Links of slot `k` point further on in the arena.
pub open spec fn links_forward(s: Seq<Slot>, k: int) -> bool {
    &&& (s[k].node_a is Some ==> s[k].node_a.unwrap() > k)
    &&& (s[k].node_b is Some ==> s[k].node_b.unwrap() > k)
}

/// What `at` mirrors in `s` it mirrors in `t` as well, where `t` keeps every slot of
/// `s` from `lo` on and those slots link forward.
proof fn lemma_mirrors_frame(s: Seq<Slot>, t: Seq<Slot>, lo: int, at: int, r: Record)
    requires
        mirrors(s, at, r),
        lo <= at,
        s.len() <= t.len(),
        forall|k: int| lo <= k < s.len() ==> t[k] == s[k],
        forall|k: int| lo <= k < s.len() ==> links_forward(s, k),
    ensures
        mirrors(t, at, r),
    decreases r,
{
    assert(links_forward(s, at));
    match r.node_a {
        Some(c) => lemma_mirrors_frame(s, t, lo, s[at].node_a.unwrap() as int, *c),
        None => {},
    }
    match r.node_b {
        Some(c) => lemma_mirrors_frame(s, t, lo, s[at].node_b.unwrap() as int, *c),
        None => {},
    }
}

fn record_at(t: &Node, at: usize) -> (r: Record)
    requires
        t.wf(),
        at < t@.len(),
    ensures
        mirrors(t@, at as int, r),
        well_nested(r),
        is_tree(t@) ==> size(r) == below(t@, at as int).len(),
    decreases t@.len() - at,
{
    let s = t.slot(at);
    assert(link_ok(t@[at as int].node_a, at as int, t@.len() as int));
    assert(child_depth_ok(t@, at as int, t@[at as int].node_a));
    proof {
        if is_tree(t@) {
            lemma_below_len(t@, at as int);
        }
    }
    let node_a = match s.node_a {
        Some(a) => Some(Box::new(record_at(t, a))),
        None => None,
    };
    let node_b = match s.node_b {
        Some(b) => Some(Box::new(record_at(t, b))),
        None => None,
    };
    let embeddings = s.embedding.clone();
    assert(embeddings@ =~= s.embedding@);
    Record {
        depth: s.depth,
        embeddings,
        url: s.url.clone(),
        node_a,
        node_a_dist: s.node_a_dist,
        node_b,
        node_b_dist: s.node_b_dist,
    }
}

/// The document form of a tree: every slot reached from the root, with its
/// children inline.
pub fn serialize(t: &Node) -> (r: Record)
    requires
        t.wf(),
    ensures
        mirrors(t@, 0, r),
        well_nested(r),
        is_tree(t@) ==> size(r) == t@.len(),
{
    let r = record_at(t, 0);
    proof {
        vstd::set_lib::lemma_int_range(0, t@.len() as int);
    }
    r
}

fn nested_ok(r: &Record) -> (b: bool)
    ensures
        b == well_nested(*r),
    decreases r,
{
    if r.node_b.is_some() && r.node_a.is_none() {
        return false;
    }
    let a_ok = match &r.node_a {
        Some(c) => r.depth < u32::MAX && c.depth == r.depth + 1 && nested_ok(c),
        None => true,
    };
    let b_ok = match &r.node_b {
        Some(c) => r.depth < u32::MAX && c.depth == r.depth + 1 && nested_ok(c),
        None => true,
    };
    a_ok && b_ok
}

/// The number of nodes in `r`, or `None` where it is above `limit`.
fn count_nodes(r: &Record, limit: usize) -> (c: Option<usize>)
    ensures
        match c {
            Some(n) => n == size(*r) && n <= limit,
            None => size(*r) > limit,
        },
    decreases r,
{
    if limit == 0 {
        return None;
    }
    let mut n: usize = 1;
    match &r.node_a {
        Some(c) => match count_nodes(c, limit - n) {
            Some(k) => {
                n = n + k;
            },
            None => {
                return None;
            },
        },
        None => {},
    }
    match &r.node_b {
        Some(c) => {
            if n == limit {
                assert(size(**c) >= 1);
                return None;
            }
            match count_nodes(c, limit - n) {
                Some(k) => {
                    n = n + k;
                },
                None => {
                    return None;
                },
            }
        },
        None => {},
    }
    Some(n)
}

/// The slots from `from` on link inside `s`, child A first, and stay within the
/// depth bound of a root at depth `d0`.
pub open spec fn tail_wf(s: Seq<Slot>, from: int, d0: int) -> bool {
    forall|k: int|
        from <= k < s.len() ==> {
            &&& link_ok(#[trigger] s[k].node_a, k, s.len() as int)
            &&& link_ok(s[k].node_b, k, s.len() as int)
            &&& (s[k].node_b is Some ==> s[k].node_a is Some)
            &&& child_depth_ok(s, k, s[k].node_a)
            &&& child_depth_ok(s, k, s[k].node_b)
            &&& s[k].depth <= d0 + k
        }
}

/// Appends the nodes of `r` in pre-order.
fn build(r: &Record, slots: &mut Vec<Slot>, Ghost(d0): Ghost<int>)
    requires
        well_nested(*r),
        r.depth <= d0 + old(slots)@.len(),
        old(slots)@.len() + size(*r) <= u32::MAX,
    ensures
        final(slots)@.len() == old(slots)@.len() + size(*r),
        forall|k: int| 0 <= k < old(slots)@.len() ==> final(slots)@[k] == old(slots)@[k],
        mirrors(final(slots)@, old(slots)@.len() as int, *r),
        tail_wf(final(slots)@, old(slots)@.len() as int, d0),
        below(final(slots)@, old(slots)@.len() as int) == set_int_range(
            old(slots)@.len() as int,
            final(slots)@.len() as int,
        ),
        tail_tree(final(slots)@, old(slots)@.len() as int),
    decreases r,
{
    let ghost s0 = slots@;
    let i = slots.len();
    let node_a: Option<usize> = if r.node_a.is_some() { Some(i + 1) } else { None };
    let embeddings = r.embeddings.clone();
    assert(embeddings@ =~= r.embeddings@);
    slots.push(
        Slot {
            depth: r.depth,
            embedding: embeddings,
            url: r.url.clone(),
            node_a,
            node_a_dist: r.node_a_dist,
            node_b: None,
            node_b_dist: r.node_b_dist,
        },
    );
    if let Some(c) = &r.node_a {
        let ghost s1 = slots@;
        build(c, slots, Ghost(d0));
        let ghost s2 = slots@;
        if let Some(c2) = &r.node_b {
            let j = slots.len();
            slots[i].node_b = Some(j);
            let ghost s3 = slots@;
            proof {
                assert forall|k: int| (i + 1) <= k < s2.len() implies links_forward(s2, k) by {
                    assert(link_ok(s2[k].node_a, k, s2.len() as int));
                }
                lemma_mirrors_frame(s2, s3, i + 1, i + 1, **c);
            }
            build(c2, slots, Ghost(d0));
            let ghost s4 = slots@;
            proof {
                assert forall|k: int| (i + 1) <= k < s3.len() implies links_forward(s3, k) by {
                    assert(link_ok(s2[k].node_a, k, s2.len() as int));
                }
                lemma_mirrors_frame(s3, s4, i + 1, i + 1, **c);
                let hi = s2.len() as int;
                assert forall|k: int| (i + 1) <= k < hi implies same_links(#[trigger] s2[k], s4[k]) by {}
                assert forall|k: int| (i + 1) <= k < hi implies link_ok(#[trigger] s2[k].node_a, k, hi)
                    && link_ok(s2[k].node_b, k, hi) by {}
                lemma_below_frame(s2, s4, i + 1, hi, i + 1);
                assert(below(s4, i as int) =~= set_int_range(i as int, s4.len() as int));
                assert(tail_tree(s4, i as int)) by {
                    assert forall|k: int|
                        i <= k < s4.len() && follows(s4, k, s4[k].node_a) && follows(
                            s4,
                            k,
                            #[trigger] s4[k].node_b,
                        ) implies below(s4, s4[k].node_a.unwrap() as int).disjoint(
                        below(s4, s4[k].node_b.unwrap() as int),
                    ) by {
                        if k == i {
                        } else if k < hi {
                            assert(link_ok(s2[k].node_a, k, hi));
                            assert(follows(s2, k, s2[k].node_b));
                            lemma_below_frame(s2, s4, i + 1, hi, s2[k].node_a.unwrap() as int);
                            lemma_below_frame(s2, s4, i + 1, hi, s2[k].node_b.unwrap() as int);
                        }
                    }
                }
                assert(tail_wf(s4, i as int, d0)) by {
                    assert forall|k: int| i <= k < s4.len() implies {
                        &&& link_ok(#[trigger] s4[k].node_a, k, s4.len() as int)
                        &&& link_ok(s4[k].node_b, k, s4.len() as int)
                        &&& (s4[k].node_b is Some ==> s4[k].node_a is Some)
                        &&& child_depth_ok(s4, k, s4[k].node_a)
                        &&& child_depth_ok(s4, k, s4[k].node_b)
                        &&& s4[k].depth <= d0 + k
                    } by {
                        if k > i && k < s3.len() {
                            assert(link_ok(s2[k].node_a, k, s2.len() as int));
                        }
                    }
                }
            }
        } else {
            proof {
                assert(below(s2, i as int) =~= set_int_range(i as int, s2.len() as int));
                assert(tail_tree(s2, i as int));
                assert(tail_wf(s2, i as int, d0)) by {
                    assert forall|k: int| i <= k < s2.len() implies {
                        &&& link_ok(#[trigger] s2[k].node_a, k, s2.len() as int)
                        &&& link_ok(s2[k].node_b, k, s2.len() as int)
                        &&& (s2[k].node_b is Some ==> s2[k].node_a is Some)
                        &&& child_depth_ok(s2, k, s2[k].node_a)
                        &&& child_depth_ok(s2, k, s2[k].node_b)
                        &&& s2[k].depth <= d0 + k
                    } by {
                        if k > i {
                            assert(link_ok(s2[k].node_a, k, s2.len() as int));
                        }
                    }
                }
            }
        }
    }
}

/// The tree a document describes, or an error where the document does not nest as
/// a tree must (child B without child A, a child not one level below its parent)
/// or has more nodes than `u32` counts.
pub fn deserialize(r: &Record) -> (res: Result<Node, NodeError>)
    ensures
        res is Ok <==> well_nested(*r) && size(*r) <= u32::MAX,
        res matches Ok(t) ==> t.wf() && is_tree(t@) && mirrors(t@, 0, *r) && t@.len() == size(*r),
{
    if !nested_ok(r) {
        return Err(NodeError::from("a child is not one level below its parent, or B stands without A"));
    }
    if count_nodes(r, u32::MAX as usize).is_none() {
        return Err(NodeError::from("too many nodes"));
    }
    let mut slots: Vec<Slot> = Vec::new();
    build(r, &mut slots, Ghost(r.depth as int));
    assert(slots@[0].depth == r.depth);
    assert(is_tree(slots@));
    let t = Node::from_slots(slots);
    Ok(t)
}

} // verus!

verus! {

/// Scores of the slots of `s` against a query, given as the similarity `q` of each
/// slot's vector to it.
pub open spec fn scores_of(s: Seq<Slot>, q: spec_fn(Seq<u64>) -> u64) -> Seq<u64> {
    Seq::new(s.len(), |j: int| q(s[j].embedding@))
}

proof fn lemma_hits_push(s: Seq<Slot>, sc: Seq<u64>, f: Seq<(usize, u32)>, m: (usize, u32))
    ensures
        hits_of(s, sc, f.push(m)) == hits_of(s, sc, f).push(hit_at(s, sc, m)),
{
    assert(hits_of(s, sc, f.push(m)) =~= hits_of(s, sc, f).push(hit_at(s, sc, m)));
}

/// Two walks from slots that mirror one record, with scores taken from the slots'
/// vectors, count the same visits and find the same hits.
proof fn lemma_walk_mirrored(
    s1: Seq<Slot>,
    s2: Seq<Slot>,
    q: spec_fn(Seq<u64>) -> u64,
    thr: u64,
    cap: nat,
    at1: int,
    at2: int,
    tally: u32,
    f1: Seq<(usize, u32)>,
    f2: Seq<(usize, u32)>,
    r: Record,
)
    requires
        slots_wf(s1),
        slots_wf(s2),
        mirrors(s1, at1, r),
        mirrors(s2, at2, r),
        hits_of(s1, scores_of(s1, q), f1) == hits_of(s2, scores_of(s2, q), f2),
    ensures
        ({
            let w1 = walk(s1, scores_of(s1, q), thr, cap, at1, tally, f1);
            let w2 = walk(s2, scores_of(s2, q), thr, cap, at2, tally, f2);
            w1.0 == w2.0 && hits_of(s1, scores_of(s1, q), w1.1) == hits_of(
                s2,
                scores_of(s2, q),
                w2.1,
            )
        }),
    decreases r,
{
    let sc1 = scores_of(s1, q);
    let sc2 = scores_of(s2, q);
    let t = bump(tally);
    assert(sc1[at1] == sc2[at2]);
    let g1 = if greater_than(sc1[at1], thr) { f1.push((at1 as usize, t)) } else { f1 };
    let g2 = if greater_than(sc2[at2], thr) { f2.push((at2 as usize, t)) } else { f2 };
    if greater_than(sc1[at1], thr) {
        lemma_hits_push(s1, sc1, f1, (at1 as usize, t));
        lemma_hits_push(s2, sc2, f2, (at2 as usize, t));
    }
    assert(hits_of(s1, sc1, g1) == hits_of(s2, sc2, g2));
    assert(g1.len() == hits_of(s1, sc1, g1).len());
    assert(g2.len() == hits_of(s2, sc2, g2).len());
    assert(link_ok(s1[at1].node_a, at1, s1.len() as int));
    assert(link_ok(s2[at2].node_a, at2, s2.len() as int));
    if g1.len() < cap {
        let ra1 = if follows(s1, at1, s1[at1].node_a) {
            walk(s1, sc1, thr, cap, s1[at1].node_a.unwrap() as int, t, g1)
        } else {
            (t, g1)
        };
        let ra2 = if follows(s2, at2, s2[at2].node_a) {
            walk(s2, sc2, thr, cap, s2[at2].node_a.unwrap() as int, t, g2)
        } else {
            (t, g2)
        };
        match r.node_a {
            Some(c) => {
                lemma_walk_mirrored(
                    s1,
                    s2,
                    q,
                    thr,
                    cap,
                    s1[at1].node_a.unwrap() as int,
                    s2[at2].node_a.unwrap() as int,
                    t,
                    g1,
                    g2,
                    *c,
                );
            },
            None => {},
        }
        match r.node_b {
            Some(c) => {
                lemma_walk_mirrored(
                    s1,
                    s2,
                    q,
                    thr,
                    cap,
                    s1[at1].node_b.unwrap() as int,
                    s2[at2].node_b.unwrap() as int,
                    ra1.0,
                    ra1.1,
                    ra2.1,
                    *c,
                );
            },
            None => {},
        }
    }
}

/// Saving a tree and loading it back keeps what a search finds: two well-formed
/// trees that both mirror one document (as `serialize` and `deserialize` ensure)
/// find, for any query, threshold and cap, the same hits (scores, labels, visit
/// counts) in the same order, though their slots may be numbered differently.
pub proof fn lemma_round_trip_search(
    t: Node,
    u: Node,
    r: Record,
    q: spec_fn(Seq<u64>) -> u64,
    thr: u64,
    cap: nat,
)
    requires
        t.wf(),
        u.wf(),
        mirrors(t@, 0, r),
        mirrors(u@, 0, r),
    ensures
        hits_of(t@, scores_of(t@, q), search_found(t@, scores_of(t@, q), thr, cap)) == hits_of(
            u@,
            scores_of(u@, q),
            search_found(u@, scores_of(u@, q), thr, cap),
        ),
{
    assert(hits_of(t@, scores_of(t@, q), seq![]) =~= hits_of(u@, scores_of(u@, q), seq![]));
    lemma_walk_mirrored(t@, u@, q, thr, cap, 0, 0, 0, seq![], seq![], r);
}

} // verus!

verus! {

/// Saving a tree and loading it back succeeds and keeps it: for a tree `t`, a
/// document `r` as `serialize(t)` returns it meets the condition on which
/// `deserialize(r)` returns `Ok`, and a tree `u` as `deserialize(r)` then returns has
/// as many slots, mirrors the same document (same shape, depths, vectors, labels and
/// cached distances at every position), and finds the same hits as `t` for every
/// query, threshold and cap.
pub proof fn lemma_save_then_load(
    t: Node,
    r: Record,
    u: Node,
    q: spec_fn(Seq<u64>) -> u64,
    thr: u64,
    cap: nat,
)
    requires
        t.wf(),
        is_tree(t@),
        mirrors(t@, 0, r),
        well_nested(r),
        is_tree(t@) ==> size(r) == t@.len(),
        u.wf(),
        mirrors(u@, 0, r),
        u@.len() == size(r),
    ensures
        well_nested(r) && size(r) <= u32::MAX,
        u@.len() == t@.len(),
        hits_of(t@, scores_of(t@, q), search_found(t@, scores_of(t@, q), thr, cap)) == hits_of(
            u@,
            scores_of(u@, q),
            search_found(u@, scores_of(u@, q), thr, cap),
        ),
{
    lemma_round_trip_search(t, u, r, q, thr, cap);
}

} // verus!
