//! Best-first search over the pour graph.
use vstd::prelude::*;

use crate::bound::{bounded_layout, layout_bound, lemma_distinct_layouts_bounded};
use crate::error::PuzzleError;
use crate::puzzle::{all_uniform, move_result, search_move, uniform_count, Layout, Move, Puzzle};
use crate::queue::{queue_items, queue_new, queue_pop, queue_push, Queue};
use crate::seen::{find_state, hash_of, index_insert, indexed, new_index, views};

verus! {

/// The layout reached from `p` by the moves `ms`, each a move that the search
/// considers; `None` when one of them is not.
pub open spec fn walk(p: Layout, ms: Seq<Move>) -> Option<Layout>
    decreases ms.len(),
{
    if ms.len() == 0 {
        Some(p)
    } else {
        match walk(p, ms.drop_last()) {
            Some(q) => if search_move(q, ms.last()) {
                Some(move_result(q, ms.last())->Ok_0)
            } else {
                None
            },
            None => None,
        }
    }
}

/// The layout reached from `p` by applying the moves `ms` in order; `None`
/// when one of them fails.
pub open spec fn replay(p: Layout, ms: Seq<Move>) -> Option<Layout>
    decreases ms.len(),
{
    if ms.len() == 0 {
        Some(p)
    } else {
        match replay(p, ms.drop_last()) {
            Some(q) => match move_result(q, ms.last()) {
                Ok(r) => Some(r),
                Err(_) => None,
            },
            None => None,
        }
    }
}

/// Some sequence of search moves takes `p` to a sorted layout.
pub open spec fn solvable(p: Layout) -> bool {
    exists|ms: Seq<Move>| #[trigger] walk(p, ms) matches Some(q) && all_uniform(q)
}

/// Every path of search moves is a path of moves that all succeed.
pub proof fn lemma_walk_replays(p: Layout, ms: Seq<Move>)
    requires
        walk(p, ms) is Some,
    ensures
        replay(p, ms) == walk(p, ms),
    decreases ms.len(),
{
    if ms.len() > 0 {
        lemma_walk_replays(p, ms.drop_last());
    }
}

/// `q` is one of the layouts in `sv`.
spec fn known(sv: Seq<Layout>, q: Layout) -> bool {
    exists|j: int| 0 <= j < sv.len() && #[trigger] sv[j] == q
}

/// Every search move from `p` leads to a layout in `sv`.
spec fn expanded(sv: Seq<Layout>, p: Layout) -> bool {
    forall|m: Move| #[trigger] search_move(p, m) ==> known(sv, move_result(p, m)->Ok_0)
}

/// A set of layouts that holds the start and is closed under search moves
/// holds every layout that a path of search moves reaches.
proof fn lemma_closed_reaches(sv: Seq<Layout>, start: Layout, ms: Seq<Move>)
    requires
        known(sv, start),
        forall|j: int| 0 <= j < sv.len() ==> expanded(sv, #[trigger] sv[j]),
        walk(start, ms) is Some,
    ensures
        known(sv, walk(start, ms)->Some_0),
    decreases ms.len(),
{
    if ms.len() > 0 {
        lemma_closed_reaches(sv, start, ms.drop_last());
        let q = walk(start, ms.drop_last())->Some_0;
        let j = choose|j: int| 0 <= j < sv.len() && #[trigger] sv[j] == q;
        assert(expanded(sv, sv[j]));
        assert(search_move(q, ms.last()));
    }
}

proof fn lemma_known_push(sv: Seq<Layout>, x: Layout, q: Layout)
    requires
        known(sv, q),
    ensures
        known(sv.push(x), q),
{
    let j = choose|j: int| 0 <= j < sv.len() && #[trigger] sv[j] == q;
    assert(sv.push(x)[j] == q);
}

proof fn lemma_expanded_push(sv: Seq<Layout>, x: Layout, p: Layout)
    requires
        expanded(sv, p),
    ensures
        expanded(sv.push(x), p),
{
    assert forall|m: Move| #[trigger] search_move(p, m) implies known(
        sv.push(x),
        move_result(p, m)->Ok_0,
    ) by {
        lemma_known_push(sv, x, move_result(p, m)->Ok_0);
    }
}

/// The layouts met along the moves `ms` from `p`, `p` itself included, are
/// pairwise distinct.
pub open spec fn distinct_along(p: Layout, ms: Seq<Move>) -> bool {
    forall|a: int, b: int|
        0 <= a < b <= ms.len() ==> #[trigger] walk(p, ms.take(a)) != #[trigger] walk(p, ms.take(b))
}

/// Every layout met along the moves `ms` from `p` is in `sv`.
spec fn known_along(sv: Seq<Layout>, p: Layout, ms: Seq<Move>) -> bool {
    forall|k: int|
        0 <= k <= ms.len() ==> (#[trigger] walk(p, ms.take(k))) is Some && known(
            sv,
            walk(p, ms.take(k))->Some_0,
        )
}

proof fn lemma_known_along_push(sv: Seq<Layout>, x: Layout, p: Layout, ms: Seq<Move>)
    requires
        known_along(sv, p, ms),
    ensures
        known_along(sv.push(x), p, ms),
{
    assert forall|k: int| 0 <= k <= ms.len() implies (#[trigger] walk(p, ms.take(k))) is Some
        && known(sv.push(x), walk(p, ms.take(k))->Some_0) by {
        lemma_known_push(sv, x, walk(p, ms.take(k))->Some_0);
    }
}

/// Extending a path by a move to a layout not met before keeps the layouts
/// along it distinct.
proof fn lemma_extend_path(sv: Seq<Layout>, p: Layout, ms: Seq<Move>, m: Move, q: Layout)
    requires
        known_along(sv, p, ms),
        distinct_along(p, ms),
        walk(p, ms.push(m)) == Some(q),
        !known(sv, q),
    ensures
        known_along(sv.push(q), p, ms.push(m)),
        distinct_along(p, ms.push(m)),
{
    let np = ms.push(m);
    assert(np.take(np.len() as int) =~= np);
    assert forall|k: int| 0 <= k <= ms.len() implies #[trigger] np.take(k) == ms.take(k) by {
        assert(np.take(k) =~= ms.take(k));
    }
    lemma_known_along_push(sv, q, p, ms);
    let sq = sv.push(q);
    assert(sq[sv.len() as int] == q);
    assert forall|k: int| 0 <= k <= np.len() implies (#[trigger] walk(p, np.take(k))) is Some
        && known(sq, walk(p, np.take(k))->Some_0) by {
        if k <= ms.len() {
            assert(np.take(k) == ms.take(k));
        }
    }
    assert forall|a: int, b: int| 0 <= a < b <= np.len() implies #[trigger] walk(p, np.take(a))
        != #[trigger] walk(p, np.take(b)) by {
        assert(np.take(a) == ms.take(a));
        if b <= ms.len() {
            assert(np.take(b) == ms.take(b));
        } else {
            assert(walk(p, ms.take(a)) is Some && known(sv, walk(p, ms.take(a))->Some_0));
        }
    }
}

fn copy_moves(ms: &Vec<Move>) -> (r: Vec<Move>)
    ensures
        r@ == ms@,
{
    let mut r: Vec<Move> = Vec::new();
    let mut i: usize = 0;
    while i < ms.len()
        invariant
            i <= ms@.len(),
            r@ == ms@.subrange(0, i as int),
        decreases ms@.len() - i,
    {
        r.push(ms[i]);
        i = i + 1;
        assert(r@ =~= ms@.subrange(0, i as int));
    }
    assert(r@ =~= ms@);
    r
}


/// What one step of the search found.
pub enum SearchStep {
    /// The puzzle taken from the queue is sorted; these moves reach it.
    Solved(Vec<Move>),
    /// The queue ran empty: no sequence of search moves sorts the puzzle.
    Exhausted,
    /// The puzzle taken from the queue was expanded. `new_depth` is set when
    /// a longer move path than before was reached, and `new_best` when more
    /// vials were sorted than before, with the moves that did it.
    Expanded { new_depth: Option<usize>, new_best: Option<(usize, Vec<Move>)> },
}

/// One step of `before` that took from the queue the puzzle met with index
/// `i`, one of highest priority, and expanded it, leading to `after`.
/// `new_depth` reports a path one move longer than any reported before, and
/// `new_best` a count of sorted vials higher than any reported before.
pub open spec fn expansion(
    before: Search,
    after: Search,
    i: usize,
    new_depth: Option<usize>,
    new_best: Option<(usize, Vec<Move>)>,
) -> bool {
    let p = before.layout_at(i as int);
    let priority = before.queued()[i];
    &&& before.queued().contains_key(i)
    &&& forall|j: usize| #[trigger]
        before.queued().contains_key(j) ==> before.queued()[j] <= priority
    &&& priority == uniform_count(p)
    &&& !all_uniform(p)
    &&& !after.queued().contains_key(i)
    &&& after.closed_under_moves(p)
    &&& (new_depth is Some <==> (before.path_at(i as int).len() == before.depth() && before.depth()
        < usize::MAX))
    &&& (new_depth matches Some(d) ==> d == before.depth() + 1 && after.depth() == d)
    &&& (new_depth is None ==> after.depth() == before.depth())
    &&& (new_best is Some <==> priority > before.best())
    &&& (new_best matches Some((c, ms)) ==> c == priority && ms@ == before.path_at(i as int)
        && after.best() == c)
    &&& (new_best is None ==> after.best() == before.best())
}

/// A best-first search in progress: the puzzles met so far, the moves that
/// reach each, the queue of those still to expand by the number of vials
/// sorted, and an index of the puzzles met.
pub struct Search {
    states: Vec<Puzzle>,
    paths: Vec<Vec<Move>>,
    queue: Queue,
    index: Vec<Vec<usize>>,
    depth: usize,
    best: usize,
    start: Ghost<Layout>,
}

impl Search {
    /// The puzzle that the search started from.
    pub closed spec fn start(&self) -> Layout {
        self.start@
    }

    /// How much work is left, at most.
    pub closed spec fn measure(&self) -> int {
        2 * (layout_bound(self.start@.len()) - self.states@.len()) + queue_items(self.queue).dom().len()
    }

    /// The search's bookkeeping is consistent: every puzzle met is reached by
    /// its moves, no two are equal, the queue holds indices of puzzles met,
    /// and each puzzle met is in the queue or was expanded and is unsorted.
    pub closed spec fn inv(&self) -> bool {
        let start = self.start@;
        let n = start.len();
        &&& self.states@.len() == self.paths@.len()
        &&& self.states@.len() >= 1
        &&& views(self.states@)[0] == start
        &&& forall|j: int| 0 <= j < self.states@.len() ==> (#[trigger] self.states@[j]).wf()
        &&& forall|j: int|
            0 <= j < self.states@.len() ==> bounded_layout(#[trigger] views(self.states@)[j], n)
        &&& forall|a: int, b: int|
            0 <= a < b < self.states@.len() ==> #[trigger] views(self.states@)[a]
                != #[trigger] views(self.states@)[b]
        &&& forall|j: int|
            0 <= j < self.states@.len() ==> walk(start, (#[trigger] self.paths@[j])@) == Some(
                views(self.states@)[j],
            )
        &&& queue_items(self.queue).dom().finite()
        &&& forall|i: usize| #[trigger]
            queue_items(self.queue).contains_key(i) ==> i < self.states@.len()
        &&& forall|j: int|
            0 <= j < self.states@.len() ==> queue_items(self.queue).contains_key(j as usize) || (
            expanded(views(self.states@), #[trigger] views(self.states@)[j]) && !all_uniform(
                views(self.states@)[j],
            ))
        &&& self.states@.len() <= layout_bound(n)
        &&& indexed(self.index@, views(self.states@))
        &&& forall|j: int|
            0 <= j < self.states@.len() ==> known_along(views(self.states@), start, (
            #[trigger] self.paths@[j])@) && distinct_along(start, self.paths@[j]@)
        &&& forall|i: usize| #[trigger]
            queue_items(self.queue).contains_key(i) ==> queue_items(self.queue)[i] == uniform_count(
                views(self.states@)[i as int],
            )
    }

    /// The queued puzzles, by index, with their priorities.
    pub closed spec fn queued(&self) -> Map<usize, usize> {
        queue_items(self.queue)
    }

    /// The layout of the puzzle met with index `i`.
    pub closed spec fn layout_at(&self, i: int) -> Layout {
        views(self.states@)[i]
    }

    /// The moves that reach the puzzle met with index `i`.
    pub closed spec fn path_at(&self, i: int) -> Seq<Move> {
        self.paths@[i]@
    }

    /// The longest move path reported so far.
    pub closed spec fn depth(&self) -> nat {
        self.depth as nat
    }

    /// The most vials sorted reported so far.
    pub closed spec fn best(&self) -> nat {
        self.best as nat
    }

    /// Every search move from `p` leads to a puzzle already met.
    pub closed spec fn closed_under_moves(&self, p: Layout) -> bool {
        expanded(views(self.states@), p)
    }

    /// A consistent search has a measure of work left that is not negative:
    /// it meets no more puzzles than `layout_bound` allows.
    pub proof fn lemma_measure_nonnegative(&self)
        requires
            self.inv(),
        ensures
            self.measure() >= 0,
    {
    }

    /// A search that starts from `initial`.
    pub fn new(initial: Puzzle) -> (r: Search)
        requires
            initial.wf(),
        ensures
            r.inv(),
            r.start() == initial@,
    {
        let ghost n = initial@.len();
        let ghost start = initial@;
        let mut queue = queue_new();
        let mut states: Vec<Puzzle> = Vec::new();
        let mut paths: Vec<Vec<Move>> = Vec::new();
        let mut index = new_index();
        let h0 = hash_of(&initial);
        let p0 = initial.vials_solved();
        let ghost sv0 = views(states@);
        index_insert(&mut index, h0, 0, Ghost(sv0), Ghost(initial@));
        states.push(initial);
        assert(views(states@) =~= sv0.push(start));
        paths.push(Vec::new());
        queue_push(&mut queue, 0, p0);
        proof {
            assert(views(states@)[0] == start);
            assert(paths@[0]@ =~= Seq::<Move>::empty());
            assert(paths@[0]@.take(0) =~= Seq::<Move>::empty());
            assert(known(views(states@), start));
            assert(walk(start, paths@[0]@) == Some(start));
            assert(views(states@)[0] == start);
            assert(views(states@) =~= seq![start]);
            assert(bounded_layout(start, n)) by {
                assert forall|k: int| 0 <= k < start.len() implies (#[trigger] start[k]).len() <= 4 by {
                    assert(states@[0].0@[k].wf());
                }
            }
            lemma_distinct_layouts_bounded(views(states@), n);
        }
        Search { states, paths, queue, index, depth: 0, best: 0, start: Ghost(start) }
    }

    /// Takes the puzzle with the most vials sorted from the queue. A sorted one
    /// ends the search; otherwise each puzzle that one search move leads to and
    /// that was not met before is recorded and queued.
    pub fn step(&mut self) -> (r: SearchStep)
        requires
            old(self).inv(),
        ensures
            final(self).inv(),
            final(self).start() == old(self).start(),
            match r {
                SearchStep::Solved(moves) => walk(final(self).start(), moves@) matches Some(q)
                    && all_uniform(q) && distinct_along(final(self).start(), moves@),
                SearchStep::Exhausted => !solvable(final(self).start()),
                SearchStep::Expanded { new_depth, new_best } => {
                    &&& final(self).measure() < old(self).measure()
                    &&& new_best matches Some((c, moves)) ==> walk(final(self).start(), moves@) is Some
                    &&& exists|i: usize| expansion(*old(self), *final(self), i, new_depth, new_best)
                },
            },
    {
        let ghost start = self.start@;
        let ghost n = start.len();
        let ghost before = *self;
        let cur_len = self.states.len();
        let ghost q0 = queue_items(self.queue);
        let ghost m0 = 2 * (layout_bound(n) - self.states@.len()) + q0.dom().len();
            assert(m0 == self.measure());
        match queue_pop(&mut self.queue) {
            None => {
                proof {
                    let sv = views(self.states@);
                    assert forall|j: int| 0 <= j < sv.len() implies expanded(sv, #[trigger] sv[j])
                        && !all_uniform(sv[j]) by {
                        assert(j < cur_len);
                        assert(!queue_items(self.queue).contains_key(j as usize));
                    }
                    assert(known(sv, start));
                    assert(!solvable(start)) by {
                        if solvable(start) {
                            let ms = choose|ms: Seq<Move>| #[trigger]
                                walk(start, ms) matches Some(q) && all_uniform(q);
                            lemma_closed_reaches(sv, start, ms);
                            let q = walk(start, ms)->Some_0;
                            let j = choose|j: int| 0 <= j < sv.len() && #[trigger] sv[j] == q;
                            assert(!all_uniform(sv[j]));
                        }
                    }
                }
                return SearchStep::Exhausted;
            },
            Some((i, priority)) => {
                proof {
                    assert(q0.dom().remove(i) =~= queue_items(self.queue).dom());
                }
                if self.states[i].is_solved() {
                    assert(views(self.states@)[i as int] == self.states@[i as int]@);
                    queue_push(&mut self.queue, i, priority);
                    assert(queue_items(self.queue) =~= q0);
                    return SearchStep::Solved(copy_moves(&self.paths[i]));
                }
                proof {
                    let sv = views(self.states@);
                    assert forall|j: int|
                        0 <= j < self.states@.len() && j != i && !queue_items(self.queue).contains_key(
                            j as usize,
                        ) implies expanded(sv, #[trigger] sv[j]) && !all_uniform(sv[j]) by {
                        assert(j < cur_len);
                        assert(j as usize != i);
                        assert(!q0.contains_key(j as usize));
                    }
                    assert(sv[i as int] == self.states@[i as int]@);
                }
                let mut new_depth: Option<usize> = None;
                if self.paths[i].len() == self.depth && self.depth < usize::MAX {
                    self.depth = self.depth + 1;
                    new_depth = Some(self.depth);
                }
                let mut new_best: Option<(usize, Vec<Move>)> = None;
                if priority > self.best {
                    self.best = priority;
                    new_best = Some((priority, copy_moves(&self.paths[i])));
                }
                let ghost dep1 = self.depth;
                let ghost best1 = self.best;
                proof {
                    assert(before.queued()[i] == priority);
                    assert(before.layout_at(i as int) == views(self.states@)[i as int]);
                    assert(priority == uniform_count(views(self.states@)[i as int]));
                    assert(new_best matches Some((c, ms)) ==> ms@ == before.path_at(i as int));
                }
                let succ = self.states[i].gen_all_moves();
                let ghost pi = views(self.states@)[i as int];
                let mut k: usize = 0;
                while k < succ.len()
                    invariant
                        0 <= i < self.states@.len(),
                        pi == views(self.states@)[i as int],
                        !all_uniform(pi),
                        !queue_items(self.queue).contains_key(i),
                        forall|kk: int|
                            0 <= kk < succ@.len() ==> {
                                &&& search_move(pi, (#[trigger] succ@[kk]).0)
                                &&& succ@[kk].1.wf()
                                &&& move_result(pi, succ@[kk].0) == Ok::<Layout, PuzzleError>(
                                    succ@[kk].1@,
                                )
                            },
                        forall|m: Move| #[trigger]
                            search_move(pi, m) ==> exists|kk: int|
                                0 <= kk < succ@.len() && #[trigger] succ@[kk].0 == m,
                        forall|kk: int| 0 <= kk < k ==> known(views(self.states@), (#[trigger] succ@[kk]).1@),
                        k <= succ@.len(),
                        self.states@.len() == self.paths@.len(),
                        views(self.states@)[0] == start,
                        forall|j: int| 0 <= j < self.states@.len() ==> (#[trigger] self.states@[j]).wf(),
                        forall|j: int|
                            0 <= j < self.states@.len() ==> bounded_layout(#[trigger] views(self.states@)[j], n),
                        forall|a: int, b: int|
                            0 <= a < b < self.states@.len() ==> #[trigger] views(self.states@)[a]
                                != #[trigger] views(self.states@)[b],
                        forall|j: int|
                            0 <= j < self.states@.len() ==> walk(start, (#[trigger] self.paths@[j])@) == Some(
                                views(self.states@)[j],
                            ),
                        queue_items(self.queue).dom().finite(),
                        forall|ii: usize| #[trigger]
                            queue_items(self.queue).contains_key(ii) ==> ii < self.states@.len(),
                        forall|j: int|
                            0 <= j < self.states@.len() && j != i ==> queue_items(self.queue).contains_key(
                                j as usize,
                            ) || (expanded(views(self.states@), #[trigger] views(self.states@)[j])
                                && !all_uniform(views(self.states@)[j])),
                        self.states@.len() <= layout_bound(n),
                        start == self.start@,
                        n == start.len(),
                        indexed(self.index@, views(self.states@)),
                        2 * (layout_bound(n) - self.states@.len()) + queue_items(self.queue).dom().len() < m0,
                        forall|j: int|
                            0 <= j < self.states@.len() ==> known_along(views(self.states@), start, (
                            #[trigger] self.paths@[j])@) && distinct_along(start, self.paths@[j]@),
                        forall|ii: usize| #[trigger]
                            queue_items(self.queue).contains_key(ii) ==> queue_items(self.queue)[ii]
                                == uniform_count(views(self.states@)[ii as int]),
                        self.depth == dep1,
                        self.best == best1,
                    decreases succ@.len() - k,
                {
                    let m = succ[k].0;
                    let q = &succ[k].1;
                    if !find_state(&self.states, &self.index, q) {
                        let mut np = copy_moves(&self.paths[i]);
                        np.push(m);
                        let priority = q.vials_solved();
                        let ghost sv_old = views(self.states@);
                        let ghost qi_old = queue_items(self.queue);
                        let ghost paths_old = self.paths@;
                        let h = hash_of(q);
                        let idx = self.states.len();
                        index_insert(&mut self.index, h, idx, Ghost(sv_old), Ghost(q@));
                        self.states.push(q.duplicate());
                        self.paths.push(np);
                        queue_push(&mut self.queue, idx, priority);
                        proof {
                            let sv = views(self.states@);
                            assert(sv =~= sv_old.push(q@));
                            assert(sv[idx as int] == q@);
                            assert(self.paths@[idx as int]@.drop_last() =~= self.paths@[i as int]@);
                            assert(walk(start, self.paths@[idx as int]@) == Some(q@));
                            assert(bounded_layout(q@, n)) by {
                                assert forall|kk: int| 0 <= kk < q@.len() implies (
                                #[trigger] q@[kk]).len() <= 4 by {
                                    assert(q.0@[kk].wf());
                                }
                            }
                            lemma_distinct_layouts_bounded(sv, n);
                            assert(!qi_old.contains_key(idx));
                            assert(queue_items(self.queue).dom() =~= qi_old.dom().insert(idx));
                            assert forall|kk: int| 0 <= kk < k implies known(
                                sv,
                                (#[trigger] succ@[kk]).1@,
                            ) by {
                                lemma_known_push(sv_old, q@, succ@[kk].1@);
                            }
                            assert forall|j: int|
                                0 <= j < self.states@.len() && j != i && !queue_items(self.queue).contains_key(
                                    j as usize,
                                ) implies expanded(sv, #[trigger] sv[j]) by {
                                assert(sv[j] == sv_old[j]);
                                lemma_expanded_push(sv_old, q@, sv[j]);
                            }
                            let pi_path = paths_old[i as int]@;
                            assert(self.paths@[idx as int]@ == pi_path.push(m));
                            lemma_extend_path(sv_old, start, pi_path, m, q@);
                            assert forall|j: int| 0 <= j < self.states@.len() implies known_along(
                                sv,
                                start,
                                (#[trigger] self.paths@[j])@,
                            ) && distinct_along(start, self.paths@[j]@) by {
                                if j < idx {
                                    assert(self.paths@[j] == paths_old[j]);
                                    lemma_known_along_push(sv_old, q@, start, paths_old[j]@);
                                }
                            }
                            assert forall|ii: usize| #[trigger]
                                queue_items(self.queue).contains_key(ii) implies queue_items(
                                self.queue,
                            )[ii] == uniform_count(sv[ii as int]) by {
                                if ii != idx {
                                    assert(sv[ii as int] == sv_old[ii as int]);
                                }
                            }
                        }
                    }
                    proof {
                        assert(known(views(self.states@), succ@[k as int].1@));
                    }
                    k = k + 1;
                }
                proof {
                    let sv = views(self.states@);
                    assert forall|m: Move| #[trigger] search_move(pi, m) implies known(
                        sv,
                        move_result(pi, m)->Ok_0,
                    ) by {
                        let kk = choose|kk: int| 0 <= kk < succ@.len() && #[trigger] succ@[kk].0 == m;
                        assert(known(sv, succ@[kk].1@));
                    }
                    assert(expanded(sv, pi));
                    assert(expansion(before, *self, i, new_depth, new_best));
                }
                SearchStep::Expanded { new_depth, new_best }
            },
        }
    }
}

/// Searches for moves that sort every vial, exploring first the puzzles with
/// the most vials sorted. Returns the moves, or `NoSolution` when no sequence
/// of moves between distinct unsolved vials sorts the puzzle.
pub fn solve(initial: Puzzle) -> (r: Result<Vec<Move>, PuzzleError>)
    requires
        initial.wf(),
    ensures
        match r {
            Ok(moves) => walk(initial@, moves@) matches Some(q) && all_uniform(q) && replay(
                initial@,
                moves@,
            ) == walk(initial@, moves@) && distinct_along(initial@, moves@),
            Err(e) => e == PuzzleError::NoSolution && !solvable(initial@),
        },
{
    let ghost start = initial@;
    let mut search = Search::new(initial);
    loop
        invariant
            search.inv(),
            search.start() == start,
            start == initial@,
        decreases search.measure(),
    {
        proof {
            search.lemma_measure_nonnegative();
        }
        match search.step() {
            SearchStep::Solved(moves) => {
                proof {
                    lemma_walk_replays(start, moves@);
                }
                return Ok(moves);
            },
            SearchStep::Exhausted => {
                return Err(PuzzleError::NoSolution);
            },
            SearchStep::Expanded { .. } => {},
        }
    }
}

} // verus!
