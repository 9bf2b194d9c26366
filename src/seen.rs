//! An index of the puzzles that the search has met, bucketed by a hash of
//! their contents, so that a repeated layout is found without a full scan.
use vstd::prelude::*;

use crate::color::{ordinal_of, Color};
use crate::puzzle::{Layout, Puzzle};

verus! {

/// The number of buckets.
pub const BUCKETS: usize = 4096;

/// The layouts of a row of puzzles.
pub open spec fn views(states: Seq<Puzzle>) -> Seq<Layout> {
    states.map_values(|p: Puzzle| p@)
}

/// Slot `i` of a vial as a digit: 0 when empty, else the color's ordinal plus one.
pub open spec fn slot_digit(v: Seq<Color>, i: int) -> nat {
    if 0 <= i < v.len() {
        ordinal_of(v[i]) + 1
    } else {
        0
    }
}

/// A vial's four slots as a four-digit decimal number.
pub open spec fn vial_hash(v: Seq<Color>) -> nat {
    slot_digit(v, 0) + 10 * slot_digit(v, 1) + 100 * slot_digit(v, 2) + 1000 * slot_digit(v, 3)
}

/// The bucket of a layout.
#[verifier::opaque]
pub open spec fn layout_hash(p: Layout) -> nat
    decreases p.len(),
{
    if p.len() == 0 {
        0
    } else {
        ((layout_hash(p.drop_last()) * 31 + vial_hash(p.last())) % (BUCKETS as nat)) as nat
    }
}

/// `b` lists, in the bucket of each layout of `sv`, that layout's index, and
/// holds no index outside `sv`.
pub open spec fn indexed(b: Seq<Vec<usize>>, sv: Seq<Layout>) -> bool {
    &&& b.len() == BUCKETS
    &&& entries_below(b, sv.len())
    &&& all_listed(b, sv)
}

/// Every index in `b` is below `n`.
pub open spec fn entries_below(b: Seq<Vec<usize>>, n: nat) -> bool {
    forall|h: int, t: int| 0 <= h < b.len() && 0 <= t < b[h]@.len() ==> (#[trigger] b[h]@[t]) < n
}

/// Bucket `h` of `b` lists index `j`.
pub open spec fn listed(b: Seq<Vec<usize>>, h: int, j: int) -> bool {
    exists|t: int| 0 <= t < b[h]@.len() && b[h]@[t] as int == j
}

/// Each index of `sv` is listed in the bucket of its layout.
pub open spec fn all_listed(b: Seq<Vec<usize>>, sv: Seq<Layout>) -> bool {
    forall|j: int| 0 <= j < sv.len() ==> listed(b, layout_hash(#[trigger] sv[j]) as int, j)
}

proof fn lemma_layout_hash_range(p: Layout)
    ensures
        layout_hash(p) < BUCKETS,
{
    reveal(layout_hash);
}

/// The bucket of a puzzle's layout.
pub fn hash_of(p: &Puzzle) -> (r: usize)
    requires
        p.wf(),
    ensures
        r == layout_hash(p@),
        r < BUCKETS,
{
    let mut h: usize = 0;
    let mut i: usize = 0;
    proof {
        reveal(layout_hash);
    }
    while i < p.0.len()
        invariant
            p.wf(),
            i <= p.0@.len(),
            h < BUCKETS,
            h == layout_hash(p@.subrange(0, i as int)),
        decreases p.0@.len() - i,
    {
        let v = p.0[i];
        let mut vh: usize = 0;
        let mut scale: usize = 1;
        let mut k: usize = 0;
        assert(v.wf());
        while k < 4
            invariant
                v.wf(),
                k <= 4,
                scale == if k == 0 { 1nat } else if k == 1 { 10nat } else if k == 2 { 100nat } else if k == 3 { 1000nat } else { 10000nat },
                vh == (if k > 0 { slot_digit(v@, 0) } else { 0 }) + (if k > 1 { 10 * slot_digit(v@, 1) } else { 0 })
                    + (if k > 2 { 100 * slot_digit(v@, 2) } else { 0 }) + (if k > 3 { 1000 * slot_digit(v@, 3) } else { 0 }),
            decreases 4 - k,
        {
            let d: usize = match v.0[k] {
                Some(c) => {
                    assert(v@[k as int] == c);
                    c.ordinal() as usize + 1
                },
                None => 0,
            };
            assert(d == slot_digit(v@, k as int));
            vh = vh + scale * d;
            scale = scale * 10;
            k = k + 1;
        }
        let ghost pre = p@.subrange(0, i as int);
        h = (h * 31 + vh) % BUCKETS;
        proof {
            let next = p@.subrange(0, i + 1);
            assert(next.drop_last() =~= pre);
            assert(next.last() == v@);
            reveal(layout_hash);
        }
        i = i + 1;
    }
    assert(p@.subrange(0, i as int) =~= p@);
    h
}

/// An index with nothing in it.
pub fn new_index() -> (r: Vec<Vec<usize>>)
    ensures
        indexed(r@, Seq::empty()),
{
    let mut r: Vec<Vec<usize>> = Vec::new();
    let mut i: usize = 0;
    while i < BUCKETS
        invariant
            i <= BUCKETS,
            r@.len() == i,
            forall|h: int| 0 <= h < i ==> (#[trigger] r@[h])@.len() == 0,
        decreases BUCKETS - i,
    {
        r.push(Vec::new());
        i = i + 1;
    }
    r
}

proof fn lemma_listed_after_push(
    ob: Seq<Vec<usize>>,
    nb: Seq<Vec<usize>>,
    sv: Seq<Layout>,
    q: Layout,
    h: int,
    idx: usize,
)
    requires
        all_listed(ob, sv),
        ob.len() == BUCKETS,
        0 <= h < ob.len(),
        nb.len() == ob.len(),
        nb[h]@ == ob[h]@.push(idx),
        forall|k: int| 0 <= k < ob.len() && k != h ==> nb[k] == ob[k],
        idx == sv.len(),
        h == layout_hash(q),
    ensures
        all_listed(nb, sv.push(q)),
{
    let nsv = sv.push(q);
    assert forall|j: int| 0 <= j < nsv.len() implies listed(
        nb,
        layout_hash(#[trigger] nsv[j]) as int,
        j,
    ) by {
        if j == sv.len() {
            let t = ob[h]@.len() as int;
            assert(nsv[j] == q);
            assert(nb[h]@[t] == idx);
        } else {
            assert(nsv[j] == sv[j]);
            let hj = layout_hash(sv[j]) as int;
            lemma_layout_hash_range(sv[j]);
            assert(listed(ob, hj, j));
            let t = choose|t: int| 0 <= t < ob[hj]@.len() && ob[hj]@[t] as int == j;
            if hj != h {
                assert(nb[hj] == ob[hj]);
            } else {
                assert(nb[hj]@[t] == ob[hj]@[t]);
            }
            assert(0 <= t < nb[hj]@.len() && nb[hj]@[t] as int == j);
        }
    }
}

/// Records that the layout `q`, with bucket `h`, stands at index `sv.len()`.
pub fn index_insert(
    b: &mut Vec<Vec<usize>>,
    h: usize,
    idx: usize,
    Ghost(sv): Ghost<Seq<Layout>>,
    Ghost(q): Ghost<Layout>,
)
    requires
        indexed(old(b)@, sv),
        idx == sv.len(),
        h == layout_hash(q),
    ensures
        indexed(final(b)@, sv.push(q)),
{
    let ghost ob = b@;
    proof {
        lemma_layout_hash_range(q);
    }
    b[h].push(idx);
    let ghost nsv = sv.push(q);
    proof {
        assert(b@ == ob.update(h as int, b@[h as int]));
        assert(b@[h as int]@ == ob[h as int]@.push(idx));
        assert forall|hh: int, t: int| 0 <= hh < b@.len() && 0 <= t < b@[hh]@.len() implies (
        #[trigger] b@[hh]@[t]) < nsv.len() by {
            if hh == h && t == ob[hh]@.len() {
            } else {
                assert(b@[hh]@[t] == ob[hh]@[t]);
            }
        }
        lemma_listed_after_push(ob, b@, sv, q, h as int, idx);
        assert(b@.len() == BUCKETS);
        assert(entries_below(b@, nsv.len()));
    }
}

/// Whether the layout of `q` is among those of `states`.
pub fn find_state(states: &Vec<Puzzle>, b: &Vec<Vec<usize>>, q: &Puzzle) -> (r: bool)
    requires
        q.wf(),
        forall|j: int| 0 <= j < states@.len() ==> (#[trigger] states@[j]).wf(),
        indexed(b@, views(states@)),
    ensures
        r == exists|j: int| 0 <= j < states@.len() && #[trigger] views(states@)[j] == q@,
{
    let h = hash_of(q);
    let bucket = &b[h];
    let mut t: usize = 0;
    while t < bucket.len()
        invariant
            q.wf(),
            h == layout_hash(q@),
            h < BUCKETS,
            bucket == b@[h as int],
            forall|j: int| 0 <= j < states@.len() ==> (#[trigger] states@[j]).wf(),
            indexed(b@, views(states@)),
            t <= bucket@.len(),
            forall|tt: int| 0 <= tt < t ==> views(states@)[#[trigger] bucket@[tt] as int] != q@,
        decreases bucket@.len() - t,
    {
        let j = bucket[t];
        assert(j < states@.len());
        if states[j].same_layout(q) {
            assert(views(states@)[j as int] == q@);
            return true;
        }
        t = t + 1;
    }
    proof {
        let sv = views(states@);
        if exists|j: int| 0 <= j < states@.len() && #[trigger] sv[j] == q@ {
            let j = choose|j: int| 0 <= j < states@.len() && #[trigger] sv[j] == q@;
            assert(listed(b@, layout_hash(sv[j]) as int, j));
            let tt = choose|tt: int|
                0 <= tt < b@[layout_hash(sv[j]) as int]@.len() && b@[layout_hash(
                    sv[j],
                ) as int]@[tt] as int == j;
            assert(views(states@)[bucket@[tt] as int] != q@);
        }
    }
    false
}

} // verus!
