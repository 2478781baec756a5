//! The tree: an arena of slots, greedy insertion, and threshold-bounded search.
use vstd::prelude::*;
use vstd::string::StringExecFns;
use crate::reach::{is_tree, lemma_inserted_is_tree, lemma_leaf_is_tree};
use crate::score::{less_than, greater_than, order_key, score_lt, score_gt, total_key};

verus! {

/// One vector of the tree with its label and its links to at most two children.
/// Distances are similarity scores (double bit patterns) cached when a child was attached.
pub struct Slot {
    pub depth: u32,
    pub embedding: Vec<u64>,
    pub url: String,
    pub node_a: Option<usize>,
    pub node_a_dist: u64,
    pub node_b: Option<usize>,
    pub node_b_dist: u64,
}

/// A tree rooted at slot 0 of its arena.
pub struct Node {
    slots: Vec<Slot>,
}

/// A link, if present, points forward in the arena and inside it.
pub open spec fn link_ok(c: Option<usize>, i: int, n: int) -> bool {
    match c {
        Some(j) => i < j < n,
        None => true,
    }
}

/// A linked child, if any, lies one level below slot `i`.
pub open spec fn child_depth_ok(s: Seq<Slot>, i: int, c: Option<usize>) -> bool {
    c is Some ==> s[c.unwrap() as int].depth == s[i].depth + 1
}

/// Well-formed arena: a root exists, links point forward (so there is no cycle),
/// slot A is filled before slot B, each child lies one level below its parent, and
/// depths stay within `u32`.
pub open spec fn slots_wf(s: Seq<Slot>) -> bool {
    &&& 0 < s.len() <= u32::MAX
    &&& forall|i: int|
        0 <= i < s.len() ==> {
            &&& link_ok(#[trigger] s[i].node_a, i, s.len() as int)
            &&& link_ok(s[i].node_b, i, s.len() as int)
            &&& (s[i].node_b is Some ==> s[i].node_a is Some)
            &&& child_depth_ok(s, i, s[i].node_a)
            &&& child_depth_ok(s, i, s[i].node_b)
            &&& s[i].depth <= s[0].depth + i
        }
}

/// A fresh slot holding a vector and no children.
pub open spec fn leaf(depth: u32, embedding: Vec<u64>, url: String) -> Slot {
    Slot { depth, embedding, url, node_a: None, node_a_dist: 0, node_b: None, node_b_dist: 0 }
}

/// The slot at which greedy insertion stops, starting from `at`: the first slot on the
/// way down that is unpopulated or has a free child link; where both links are taken,
/// the way goes on to the child more similar to the new vector (`sims[j]` is the
/// similarity of slot `j` to it), child A unless B is strictly more similar.
pub open spec fn landing(s: Seq<Slot>, sims: Seq<u64>, at: int) -> int
    decreases s.len() - at,
{
    if !(0 <= at < s.len()) {
        at
    } else if s[at].embedding@.len() == 0 || s[at].node_a is None || s[at].node_b is None {
        at
    } else {
        let a = s[at].node_a.unwrap() as int;
        let b = s[at].node_b.unwrap() as int;
        let next = if less_than(sims[a], sims[b]) { b } else { a };
        if at < next < s.len() { landing(s, sims, next) } else { at }
    }
}

/// The arena after inserting `embedding` labelled `url`.
pub open spec fn inserted(s: Seq<Slot>, sims: Seq<u64>, embedding: Vec<u64>, url: String) -> Seq<Slot> {
    let t = landing(s, sims, 0);
    let p = s[t];
    let n = s.len() as usize;
    if p.embedding@.len() == 0 {
        s.update(t, Slot { embedding, url, ..p })
    } else if p.node_a is None {
        s.update(t, Slot { node_a: Some(n), node_a_dist: sims[t], ..p }).push(
            leaf((p.depth + 1) as u32, embedding, url),
        )
    } else {
        s.update(t, Slot { node_b: Some(n), node_b_dist: sims[t], ..p }).push(
            leaf((p.depth + 1) as u32, embedding, url),
        )
    }
}

pub proof fn lemma_landing(s: Seq<Slot>, sims: Seq<u64>, at: int)
    requires
        slots_wf(s),
        0 <= at < s.len(),
    ensures
        at <= landing(s, sims, at) < s.len(),
        ({
            let t = landing(s, sims, at);
            s[t].embedding@.len() == 0 || s[t].node_a is None || s[t].node_b is None
        }),
    decreases s.len() - at,
{
    let a = s[at].node_a;
    let b = s[at].node_b;
    if !(s[at].embedding@.len() == 0 || a is None || b is None) {
        let next = if less_than(sims[a.unwrap() as int], sims[b.unwrap() as int]) {
            b.unwrap() as int
        } else {
            a.unwrap() as int
        };
        lemma_landing(s, sims, next);
    }
}

/// One search match: the score, the slot's label, and the visit count when it was found.
pub struct Hit {
    pub score: u64,
    pub url: String,
    pub visit: u32,
}

/// The visit counter after one more visit; it stops at `u32::MAX`.
pub open spec fn bump(t: u32) -> u32 {
    if t < u32::MAX {
        (t + 1) as u32
    } else {
        t
    }
}

/// The link `c` of slot `at` leads to a slot further on.
pub open spec fn follows(s: Seq<Slot>, at: int, c: Option<usize>) -> bool {
    c is Some && at < c.unwrap() < s.len()
}

/// Depth-first, pre-order search from slot `at`, with the visit counter at `tally` and
/// the matches found so far in `found` (slot index and visit count). Each visit counts
/// one; a slot whose score (`scores[j]`, its similarity to the query) is above `thr`
/// is a match; the children, A then B, are visited only while fewer than `cap`
/// matches have been found. Returns the counter and the matches after the visit.
pub open spec fn walk(
    s: Seq<Slot>,
    scores: Seq<u64>,
    thr: u64,
    cap: nat,
    at: int,
    tally: u32,
    found: Seq<(usize, u32)>,
) -> (u32, Seq<(usize, u32)>)
    decreases s.len() - at,
{
    if !(0 <= at < s.len()) {
        (tally, found)
    } else {
        let t = bump(tally);
        let f = if greater_than(scores[at], thr) {
            found.push((at as usize, t))
        } else {
            found
        };
        if f.len() < cap {
            let ra = if follows(s, at, s[at].node_a) {
                walk(s, scores, thr, cap, s[at].node_a.unwrap() as int, t, f)
            } else {
                (t, f)
            };
            if follows(s, at, s[at].node_b) {
                walk(s, scores, thr, cap, s[at].node_b.unwrap() as int, ra.0, ra.1)
            } else {
                ra
            }
        } else {
            (t, f)
        }
    }
}

/// The matches of a search from the root, in the order they were found.
pub open spec fn search_found(s: Seq<Slot>, scores: Seq<u64>, thr: u64, cap: nat) -> Seq<(usize, u32)> {
    walk(s, scores, thr, cap, 0, 0, seq![]).1
}

/// The hit reported for a match.
pub open spec fn hit_at(s: Seq<Slot>, scores: Seq<u64>, m: (usize, u32)) -> Hit {
    Hit { score: scores[m.0 as int], url: s[m.0 as int].url, visit: m.1 }
}

/// The hits for a sequence of matches.
pub open spec fn hits_of(s: Seq<Slot>, scores: Seq<u64>, f: Seq<(usize, u32)>) -> Seq<Hit> {
    f.map_values(|m: (usize, u32)| hit_at(s, scores, m))
}

/// `a` comes no later than `b`: ascending by the total order of scores, then by visit.
pub open spec fn hit_le(a: Hit, b: Hit) -> bool {
    order_key(a.score) < order_key(b.score) || (order_key(a.score) == order_key(b.score)
        && a.visit <= b.visit)
}

/// Hits in ascending order.
pub open spec fn sorted_hits(h: Seq<Hit>) -> bool {
    forall|i: int, j: int| 0 <= i < j < h.len() ==> hit_le(#[trigger] h[i], #[trigger] h[j])
}

fn hit_before(a: &Hit, b: &Hit) -> (r: bool)
    ensures
        r == hit_le(*a, *b),
{
    let ka = total_key(a.score);
    let kb = total_key(b.score);
    ka < kb || (ka == kb && a.visit <= b.visit)
}

/// Puts `h` into sorted `out` after every hit that comes no later than it.
fn insert_sorted(out: &mut Vec<Hit>, h: Hit)
    requires
        sorted_hits(old(out)@),
    ensures
        sorted_hits(final(out)@),
        final(out)@.to_multiset() == old(out)@.to_multiset().insert(h),
{
    let mut j: usize = 0;
    while j < out.len()
        invariant
            0 <= j <= out@.len(),
            sorted_hits(out@),
            forall|q: int| 0 <= q < j ==> hit_le(#[trigger] out@[q], h),
        ensures
            0 <= j <= out@.len(),
            sorted_hits(out@),
            forall|q: int| 0 <= q < j ==> hit_le(#[trigger] out@[q], h),
            j < out@.len() ==> hit_le(h, out@[j as int]),
        decreases out@.len() - j,
    {
        if !hit_before(&out[j], &h) {
            break;
        }
        j = j + 1;
    }
    let ghost o = out@;
    proof {
        vstd::seq_lib::to_multiset_insert(o, j as int, h);
    }
    out.insert(j, h);
    assert(sorted_hits(out@)) by {
        assert forall|p: int, q: int| 0 <= p < q < out@.len() implies hit_le(
            #[trigger] out@[p],
            #[trigger] out@[q],
        ) by {
            if q < j {
                assert(hit_le(o[p], o[q]));
            } else if q == j {
                assert(hit_le(o[p], h));
            } else if p < j {
                assert(hit_le(o[p], h));
                assert(hit_le(h, o[j as int]));
                if q - 1 > j {
                    assert(hit_le(o[j as int], o[q - 1]));
                }
            } else if p == j {
                assert(hit_le(h, o[j as int]));
                if q - 1 > j {
                    assert(hit_le(o[j as int], o[q - 1]));
                }
            } else {
                assert(hit_le(o[p - 1], o[q - 1]));
            }
        }
    }
}

/// Two spaces for each level of depth.
pub open spec fn indent(d: nat) -> Seq<char>
    decreases d,
{
    if d == 0 {
        seq![]
    } else {
        indent((d - 1) as nat) + seq![' ', ' ']
    }
}

/// The outline of the subtree at slot `at`: its label, then under an indented
/// heading for each child link the outline of that child (empty where there is none).
pub open spec fn compact(s: Seq<Slot>, at: int) -> Seq<char>
    decreases s.len() - at,
{
    if !(0 <= at < s.len()) {
        seq![]
    } else {
        let sp = indent(s[at].depth as nat);
        let a = if follows(s, at, s[at].node_a) {
            compact(s, s[at].node_a.unwrap() as int)
        } else {
            seq![]
        };
        let b = if follows(s, at, s[at].node_b) {
            compact(s, s[at].node_b.unwrap() as int)
        } else {
            seq![]
        };
        s[at].url@ + seq!['\n'] + sp + seq!['n', 'o', 'd', 'e', '_', 'a', ':', '\n'] + sp + a
            + seq!['\n'] + sp + seq!['n', 'o', 'd', 'e', '_', 'b', ':', '\n'] + sp + b
    }
}

/// Match `m1` comes no later than `m2`: ascending by the total order of their slots'
/// scores, then by visit.
pub open spec fn match_le(scores: Seq<u64>, m1: (usize, u32), m2: (usize, u32)) -> bool {
    let k1 = order_key(scores[m1.0 as int]);
    let k2 = order_key(scores[m2.0 as int]);
    k1 < k2 || (k1 == k2 && m1.1 <= m2.1)
}

/// Matches in ascending order.
pub open spec fn sorted_matches(scores: Seq<u64>, f: Seq<(usize, u32)>) -> bool {
    forall|i: int, j: int| 0 <= i < j < f.len() ==> match_le(scores, #[trigger] f[i], #[trigger] f[j])
}

fn match_before(scores: &Vec<u64>, m1: (usize, u32), m2: (usize, u32)) -> (r: bool)
    requires
        m1.0 < scores@.len(),
        m2.0 < scores@.len(),
    ensures
        r == match_le(scores@, m1, m2),
{
    let k1 = total_key(scores[m1.0]);
    let k2 = total_key(scores[m2.0]);
    k1 < k2 || (k1 == k2 && m1.1 <= m2.1)
}

/// Puts `m` into sorted `out` after every match that comes no later than it.
fn insert_match(out: &mut Vec<(usize, u32)>, m: (usize, u32), scores: &Vec<u64>)
    requires
        sorted_matches(scores@, old(out)@),
        m.0 < scores@.len(),
        forall|q: int| 0 <= q < old(out)@.len() ==> (#[trigger] old(out)@[q]).0 < scores@.len(),
    ensures
        sorted_matches(scores@, final(out)@),
        final(out)@.to_multiset() == old(out)@.to_multiset().insert(m),
        forall|q: int| 0 <= q < final(out)@.len() ==> (#[trigger] final(out)@[q]).0 < scores@.len(),
{
    let mut j: usize = 0;
    while j < out.len()
        invariant
            0 <= j <= out@.len(),
            m.0 < scores@.len(),
            sorted_matches(scores@, out@),
            forall|q: int| 0 <= q < out@.len() ==> (#[trigger] out@[q]).0 < scores@.len(),
            forall|q: int| 0 <= q < j ==> match_le(scores@, #[trigger] out@[q], m),
        ensures
            0 <= j <= out@.len(),
            sorted_matches(scores@, out@),
            forall|q: int| 0 <= q < j ==> match_le(scores@, #[trigger] out@[q], m),
            j < out@.len() ==> match_le(scores@, m, out@[j as int]),
        decreases out@.len() - j,
    {
        if !match_before(scores, out[j], m) {
            break;
        }
        j = j + 1;
    }
    let ghost o = out@;
    proof {
        vstd::seq_lib::to_multiset_insert(o, j as int, m);
    }
    out.insert(j, m);
    assert(sorted_matches(scores@, out@)) by {
        assert forall|p: int, q: int| 0 <= p < q < out@.len() implies match_le(
            scores@,
            #[trigger] out@[p],
            #[trigger] out@[q],
        ) by {
            if q < j {
                assert(match_le(scores@, o[p], o[q]));
            } else if q == j {
                assert(match_le(scores@, o[p], m));
            } else if p < j {
                assert(match_le(scores@, o[p], m));
                assert(match_le(scores@, m, o[j as int]));
                if q - 1 > j {
                    assert(match_le(scores@, o[j as int], o[q - 1]));
                }
            } else if p == j {
                assert(match_le(scores@, m, o[j as int]));
                if q - 1 > j {
                    assert(match_le(scores@, o[j as int], o[q - 1]));
                }
            } else {
                assert(match_le(scores@, o[p - 1], o[q - 1]));
            }
        }
    }
    assert forall|q: int| 0 <= q < out@.len() implies (#[trigger] out@[q]).0 < scores@.len() by {
        if q < j {
            assert(out@[q] == o[q]);
        } else if q > j {
            assert(out@[q] == o[q - 1]);
        }
    }
}

/// The matches of `f` in ascending order.
fn sort_matches(f: Vec<(usize, u32)>, scores: &Vec<u64>) -> (r: Vec<(usize, u32)>)
    requires
        forall|q: int| 0 <= q < f@.len() ==> (#[trigger] f@[q]).0 < scores@.len(),
    ensures
        sorted_matches(scores@, r@),
        r@.to_multiset() == f@.to_multiset(),
        forall|q: int| 0 <= q < r@.len() ==> (#[trigger] r@[q]).0 < scores@.len(),
{
    let mut out: Vec<(usize, u32)> = Vec::new();
    let mut k: usize = 0;
    proof {
        broadcast use vstd::seq_lib::group_to_multiset_ensures;

        assert(f@.take(0) =~= Seq::<(usize, u32)>::empty());
    }
    while k < f.len()
        invariant
            0 <= k <= f@.len(),
            forall|q: int| 0 <= q < f@.len() ==> (#[trigger] f@[q]).0 < scores@.len(),
            forall|q: int| 0 <= q < out@.len() ==> (#[trigger] out@[q]).0 < scores@.len(),
            sorted_matches(scores@, out@),
            out@.to_multiset() == f@.take(k as int).to_multiset(),
        decreases f@.len() - k,
    {
        let m = f[k];
        assert(f@.take(k + 1) =~= f@.take(k as int).push(m));
        proof {
            vstd::seq_lib::to_multiset_build(f@.take(k as int), m);
        }
        insert_match(&mut out, m, scores);
        k = k + 1;
    }
    assert(f@.take(f@.len() as int) =~= f@);
    out
}

impl View for Node {
    type V = Seq<Slot>;

    closed spec fn view(&self) -> Seq<Slot> {
        self.slots@
    }
}

impl Node {
    /// The tree is well formed.
    pub open spec fn wf(&self) -> bool {
        slots_wf(self@)
    }

    /// There is room for one more slot: depths and visit counts stay within `u32`.
    pub open spec fn room(&self) -> bool {
        self@[0].depth + self@.len() < u32::MAX
    }

    /// A tree of one root slot.
    pub fn new(depth: u32, embeddings: Vec<u64>, url: String) -> (r: Node)
        ensures
            r.wf(),
            is_tree(r@),
            r@ == seq![leaf(depth, embeddings, url)],
    {
        let mut slots: Vec<Slot> = Vec::new();
        slots.push(
            Slot {
                depth,
                embedding: embeddings,
                url,
                node_a: None,
                node_a_dist: 0,
                node_b: None,
                node_b_dist: 0,
            },
        );
        let r = Node { slots };
        assert(r@ =~= seq![leaf(depth, embeddings, url)]);
        proof {
            lemma_leaf_is_tree(depth, embeddings, url);
        }
        r
    }

    /// The number of slots.
    pub fn len(&self) -> (r: usize)
        ensures
            r == self@.len(),
    {
        self.slots.len()
    }

    /// Slot `i` of the arena.
    pub fn slot(&self, i: usize) -> (r: &Slot)
        requires
            i < self@.len(),
        ensures
            *r == self@[i as int],
    {
        &self.slots[i]
    }

    /// A tree over a well-formed arena.
    pub fn from_slots(slots: Vec<Slot>) -> (r: Node)
        requires
            slots_wf(slots@),
        ensures
            r@ == slots@,
    {
        Node { slots }
    }

    /// Whether one more vector can be inserted.
    pub fn has_room(&self) -> (r: bool)
        requires
            self.wf(),
        ensures
            r == self.room(),
    {
        (self.slots[0].depth as u64) + (self.slots.len() as u64) < u32::MAX as u64
    }

    /// Greedy insertion of a vector with its label; `sims[j]` is the similarity of
    /// slot `j`'s vector to the new one. Nothing is rebalanced.
    pub fn add_child(&mut self, embeddings: Vec<u64>, url: String, sims: &Vec<u64>)
        requires
            old(self).wf(),
            old(self).room(),
            sims@.len() == old(self)@.len(),
        ensures
            final(self).wf(),
            final(self)@ == inserted(old(self)@, sims@, embeddings, url),
            is_tree(old(self)@) ==> is_tree(final(self)@),
    {
        let ghost s0 = self@;
        proof {
            if is_tree(s0) {
                lemma_inserted_is_tree(s0, sims@, embeddings, url);
            }
        }
        let ghost goal = landing(s0, sims@, 0);
        proof {
            lemma_landing(s0, sims@, 0);
        }
        let n = self.slots.len();
        let mut at: usize = 0;
        loop
            invariant
                self@ == s0,
                slots_wf(s0),
                n == s0.len(),
                sims@.len() == n,
                0 <= at < n,
                landing(s0, sims@, at as int) == goal,
            ensures
                at == goal,
            decreases n - at,
        {
            let slot = &self.slots[at];
            if slot.embedding.len() == 0 || slot.node_a.is_none() || slot.node_b.is_none() {
                assert(landing(s0, sims@, at as int) == at as int);
                break;
            }
            let a = slot.node_a.unwrap();
            let b = slot.node_b.unwrap();
            assert(link_ok(s0[at as int].node_a, at as int, n as int));
            if score_lt(sims[a], sims[b]) {
                at = b;
            } else {
                at = a;
            }
        }
        assert(at == goal);
        let ghost p = s0[at as int];
        if self.slots[at].embedding.len() == 0 {
            self.slots[at].embedding = embeddings;
            self.slots[at].url = url;
            assert(self@ =~= inserted(s0, sims@, embeddings, url));
        } else {
            let depth = self.slots[at].depth + 1;
            let dist = sims[at];
            if self.slots[at].node_a.is_none() {
                self.slots[at].node_a = Some(n);
                self.slots[at].node_a_dist = dist;
            } else {
                self.slots[at].node_b = Some(n);
                self.slots[at].node_b_dist = dist;
            }
            self.slots.push(
                Slot {
                    depth,
                    embedding: embeddings,
                    url,
                    node_a: None,
                    node_a_dist: 0,
                    node_b: None,
                    node_b_dist: 0,
                },
            );
            assert(self@ =~= inserted(s0, sims@, embeddings, url));
        }
        assert(slots_wf(self@)) by {
            let s = self@;
            assert forall|i: int| 0 <= i < s.len() implies {
                &&& link_ok(#[trigger] s[i].node_a, i, s.len() as int)
                &&& link_ok(s[i].node_b, i, s.len() as int)
                &&& (s[i].node_b is Some ==> s[i].node_a is Some)
                &&& child_depth_ok(s, i, s[i].node_a)
                &&& child_depth_ok(s, i, s[i].node_b)
                &&& s[i].depth <= s[0].depth + i
            } by {
                if i < s0.len() {
                    assert(link_ok(s0[i].node_a, i, s0.len() as int));
                    assert(child_depth_ok(s0, i, s0[i].node_a));
                    assert(child_depth_ok(s0, i, s0[i].node_b));
                    if s0[i].node_a is Some && (s0[i].node_a.unwrap() as int) < s0.len() {
                        assert(s[s0[i].node_a.unwrap() as int].depth == s0[s0[i].node_a.unwrap() as int].depth);
                    }
                    if s0[i].node_b is Some && (s0[i].node_b.unwrap() as int) < s0.len() {
                        assert(s[s0[i].node_b.unwrap() as int].depth == s0[s0[i].node_b.unwrap() as int].depth);
                    }
                }
            }
        }
    }

    /// The label of the root.
    pub fn get_url(&self) -> (r: String)
        requires
            self.wf(),
        ensures
            r@ == self@[0].url@,
    {
        self.slots[0].url.clone()
    }

    fn compact_at(&self, at: usize) -> (r: String)
        requires
            self.wf(),
            at < self@.len(),
        ensures
            r@ == compact(self@, at as int),
        decreases self@.len() - at,
    {
        let slot = &self.slots[at];
        assert(link_ok(self@[at as int].node_a, at as int, self@.len() as int));
        let mut space = String::new();
        let mut i: u32 = 0;
        while i < slot.depth
            invariant
                i <= slot.depth,
                space@ == indent(i as nat),
            decreases slot.depth - i,
        {
            proof {
                reveal_strlit("  ");
            }
            space.append("  ");
            i = i + 1;
        }
        let a = match slot.node_a {
            Some(c) => self.compact_at(c),
            None => String::new(),
        };
        let b = match slot.node_b {
            Some(c) => self.compact_at(c),
            None => String::new(),
        };
        proof {
            reveal_strlit("\n");
            reveal_strlit("node_a:\n");
            reveal_strlit("node_b:\n");
        }
        let mut out = slot.url.clone();
        out.append("\n");
        out.append(space.as_str());
        out.append("node_a:\n");
        out.append(space.as_str());
        out.append(a.as_str());
        out.append("\n");
        out.append(space.as_str());
        out.append("node_b:\n");
        out.append(space.as_str());
        out.append(b.as_str());
        assert(out@ =~= compact(self@, at as int));
        out
    }

    /// An indented outline of the whole tree; see `compact`.
    pub fn to_compact_string(&self) -> (r: String)
        requires
            self.wf(),
        ensures
            r@ == compact(self@, 0),
    {
        self.compact_at(0)
    }

    /// The pre-order visit from slot `at`, matches in the order they are found; see `walk`.
    fn collect(
        &self,
        at: usize,
        tally: &mut u32,
        scores: &Vec<u64>,
        found: Vec<(usize, u32)>,
        limits: (usize, u64),
    ) -> (r: Vec<(usize, u32)>)
        requires
            self.wf(),
            at < self@.len(),
            scores@.len() == self@.len(),
            forall|q: int| 0 <= q < found@.len() ==> (#[trigger] found@[q]).0 < self@.len(),
        ensures
            forall|q: int| 0 <= q < r@.len() ==> (#[trigger] r@[q]).0 < self@.len(),
            (*final(tally), r@) == walk(
                self@,
                scores@,
                limits.1,
                limits.0 as nat,
                at as int,
                *old(tally),
                found@,
            ),
        decreases self@.len() - at,
    {
        let ghost s = self@;
        let mut found = found;
        if *tally < u32::MAX {
            *tally = *tally + 1;
        }
        if score_gt(scores[at], limits.1) {
            found.push((at, *tally));
        }
        if found.len() < limits.0 {
            let slot = &self.slots[at];
            assert(link_ok(s[at as int].node_a, at as int, s.len() as int));
            if let Some(a) = slot.node_a {
                found = self.collect(a, tally, scores, found, limits);
            }
            if let Some(b) = slot.node_b {
                found = self.collect(b, tally, scores, found, limits);
            }
        }
        found
    }

    /// The pre-order visit from slot `at`; see `walk`. `scores[j]` is the similarity of
    /// slot `j` to the query; `limits` holds the match count that stops the descent and
    /// the threshold a score must exceed. The matches passed in and those found come
    /// back together, in ascending order of score, then of visit.
    pub fn traverse(
        &self,
        at: usize,
        tally: &mut u32,
        scores: &Vec<u64>,
        found: Vec<(usize, u32)>,
        limits: (usize, u64),
    ) -> (r: Vec<(usize, u32)>)
        requires
            self.wf(),
            at < self@.len(),
            scores@.len() == self@.len(),
            forall|q: int| 0 <= q < found@.len() ==> (#[trigger] found@[q]).0 < self@.len(),
        ensures
            *final(tally) == walk(
                self@,
                scores@,
                limits.1,
                limits.0 as nat,
                at as int,
                *old(tally),
                found@,
            ).0,
            sorted_matches(scores@, r@),
            r@.to_multiset() == walk(
                self@,
                scores@,
                limits.1,
                limits.0 as nat,
                at as int,
                *old(tally),
                found@,
            ).1.to_multiset(),
            forall|q: int| 0 <= q < r@.len() ==> (#[trigger] r@[q]).0 < self@.len(),
    {
        let all = self.collect(at, tally, scores, found, limits);
        sort_matches(all, scores)
    }

    /// Search for the slots whose similarity to the query (`scores[j]` for slot `j`) is
    /// above `threshold`, descending only while fewer than `search_size` matches were
    /// found; the hits come in ascending order of score, then of visit.
    pub fn search(&self, threshold: u64, search_size: usize, scores: &Vec<u64>) -> (r: Vec<Hit>)
        requires
            self.wf(),
            scores@.len() == self@.len(),
        ensures
            sorted_hits(r@),
            r@.to_multiset() == hits_of(
                self@,
                scores@,
                search_found(self@, scores@, threshold, search_size as nat),
            ).to_multiset(),
    {
        let ghost s = self@;
        let mut tally: u32 = 0;
        let found = self.collect(0, &mut tally, scores, Vec::new(), (search_size, threshold));
        let ghost fs = found@;
        proof {
            broadcast use vstd::seq_lib::group_to_multiset_ensures;

            assert(hits_of(s, scores@, fs.take(0)) =~= Seq::<Hit>::empty());
        }
        let mut out: Vec<Hit> = Vec::new();
        let mut k: usize = 0;
        while k < found.len()
            invariant
                self.wf(),
                self@ == s,
                scores@.len() == s.len(),
                found@ == fs,
                forall|q: int| 0 <= q < fs.len() ==> (#[trigger] fs[q]).0 < s.len(),
                0 <= k <= fs.len(),
                sorted_hits(out@),
                out@.to_multiset() == hits_of(s, scores@, fs.take(k as int)).to_multiset(),
            decreases fs.len() - k,
        {
            let (i, v) = found[k];
            let h = Hit { score: scores[i], url: self.slots[i].url.clone(), visit: v };
            assert(h == hit_at(s, scores@, fs[k as int]));
            assert(hits_of(s, scores@, fs.take(k + 1)) =~= hits_of(
                s,
                scores@,
                fs.take(k as int),
            ).push(h));
            proof {
                vstd::seq_lib::to_multiset_build(hits_of(s, scores@, fs.take(k as int)), h);
            }
            insert_sorted(&mut out, h);
            k = k + 1;
        }
        assert(fs.take(fs.len() as int) =~= fs);
        out
    }
}

} // verus!

verus! {

/// What one insertion is handed: the similarity, under `sim`, of each slot's vector
/// to the new vector `e`.
pub open spec fn sims_for(s: Seq<Slot>, sim: spec_fn(Seq<u64>, Seq<u64>) -> u64, e: Seq<u64>) -> Seq<u64> {
    Seq::new(s.len(), |j: int| sim(s[j].embedding@, e))
}

/// The arena after inserting `items` (vector and label) one after another.
pub open spec fn grown(
    s: Seq<Slot>,
    items: Seq<(Vec<u64>, String)>,
    sim: spec_fn(Seq<u64>, Seq<u64>) -> u64,
) -> Seq<Slot>
    decreases items.len(),
{
    if items.len() == 0 {
        s
    } else {
        let p = grown(s, items.drop_last(), sim);
        let it = items.last();
        inserted(p, sims_for(p, sim, it.0@), it.0, it.1)
    }
}

/// Insertion is deterministic: two fresh trees made by `Node::new` from the same
/// arguments (each equal to `seq![leaf(depth, embedding, url)]`, as `new` ensures), fed
/// by `add_child` the same vectors and labels in the same order, each call handed the
/// similarities `sims_for(tree, sim, vector)` (so `add_child` ensures each step is the
/// one `grown` takes), end equal slot for slot: same shape, depths, vectors, labels and
/// cached distances.
pub proof fn lemma_insertion_deterministic(
    t1: Node,
    t2: Node,
    depth: u32,
    embedding: Vec<u64>,
    url: String,
    items: Seq<(Vec<u64>, String)>,
    sim: spec_fn(Seq<u64>, Seq<u64>) -> u64,
)
    requires
        t1@ == seq![leaf(depth, embedding, url)],
        t2@ == seq![leaf(depth, embedding, url)],
    ensures
        grown(t1@, items, sim) == grown(t2@, items, sim),
    decreases items.len(),
{
    if items.len() > 0 {
        lemma_insertion_deterministic(t1, t2, depth, embedding, url, items.drop_last(), sim);
    }
}

/// With a cap of zero a search still visits and scores the root, and goes no
/// further: it counts exactly one visit, and finds the root (at visit one) exactly
/// when the root's score is above the threshold, and nothing otherwise.
pub proof fn lemma_zero_cap_search(t: Node, scores: Seq<u64>, thr: u64)
    requires
        t.wf(),
        scores.len() == t@.len(),
    ensures
        walk(t@, scores, thr, 0, 0, 0, seq![]).0 == 1,
        search_found(t@, scores, thr, 0) == if greater_than(scores[0], thr) {
            seq![(0usize, 1u32)]
        } else {
            Seq::<(usize, u32)>::empty()
        },
{
    assert(seq![].push((0usize, 1u32)) =~= seq![(0usize, 1u32)]);
}

} // verus!
