use vstd::prelude::*;
use vstd::string::StringExecFns;

use crate::color::Color;
use crate::error::PuzzleError;
use crate::text::{chars_of, push_char};
use crate::vial::{
    lemma_parse_ser_letters, lemma_ser_parse_letters, lemma_ser_vial_no_comma, parse_vial, pour_result, ser_vial, uniform,
    Vial,
};

verus! {

/// A pour from the vial at index `from` into the vial at index `to`.
#[derive(Debug, Clone, Copy, PartialEq, Eq, Structural, Hash)]
pub struct Move {
    pub from: usize,
    pub to: usize,
}

/// An ordered row of vials; a vial's index addresses it in moves and in the text form.
#[derive(Debug, Clone, PartialEq, Eq, Hash, Default)]
pub struct Puzzle(pub Vec<Vial>);

/// The contents of each vial, in order.
pub type Layout = Seq<Seq<Color>>;

/// A full vial of a single color: it never takes part in a search move.
pub open spec fn solved_vial(v: Seq<Color>) -> bool {
    uniform(v) && v.len() == 4
}

/// Every vial is empty or full of a single color.
pub open spec fn all_uniform(p: Layout) -> bool {
    forall|i: int| 0 <= i < p.len() ==> #[trigger] uniform(p[i])
}

/// How many vials are empty or full of a single color.
pub open spec fn uniform_count(p: Layout) -> nat
    decreases p.len(),
{
    if p.len() == 0 {
        0
    } else {
        uniform_count(p.drop_last()) + if uniform(p.last()) { 1nat } else { 0nat }
    }
}

/// The result of applying move `m` to the layout `p`: a pour between two
/// distinct vials of `p`.
pub open spec fn move_result(p: Layout, m: Move) -> Result<Layout, PuzzleError> {
    if m.from >= p.len() || m.to >= p.len() {
        Err(PuzzleError::IndexOutOfRange)
    } else if m.from == m.to {
        Err(PuzzleError::SameVial)
    } else {
        match pour_result(p[m.from as int], p[m.to as int]) {
            Ok((a, b)) => Ok(p.update(m.from as int, a).update(m.to as int, b)),
            Err(e) => Err(e),
        }
    }
}

/// A move that the search considers: two distinct vials, neither of them
/// solved, and a pour between them that succeeds.
pub open spec fn search_move(p: Layout, m: Move) -> bool {
    &&& m.from != m.to
    &&& m.from < p.len()
    &&& m.to < p.len()
    &&& !solved_vial(p[m.from as int])
    &&& !solved_vial(p[m.to as int])
    &&& move_result(p, m) is Ok
}

/// Moves ordered by source index, then by destination index.
pub open spec fn move_before(a: Move, b: Move) -> bool {
    a.from < b.from || (a.from == b.from && a.to < b.to)
}

/// The text form of a layout: the vials' text forms joined by commas.
pub open spec fn ser_layout(p: Layout) -> Seq<char>
    decreases p.len(),
{
    if p.len() == 0 {
        Seq::empty()
    } else if p.len() == 1 {
        ser_vial(p[0])
    } else {
        ser_layout(p.drop_last()) + seq![','] + ser_vial(p.last())
    }
}

/// The comma-separated tokens of `s`; there is always at least one.
pub open spec fn split_commas(s: Seq<char>) -> Seq<Seq<char>>
    decreases s.len(),
{
    if s.len() == 0 {
        seq![Seq::empty()]
    } else {
        let p = split_commas(s.drop_last());
        if s.last() == ',' {
            p.push(Seq::empty())
        } else {
            p.update(p.len() - 1, p.last().push(s.last()))
        }
    }
}

/// Reads tokens into vial contents, reporting the error of the leftmost bad token.
pub open spec fn parse_tokens(ts: Seq<Seq<char>>) -> Result<Layout, PuzzleError>
    decreases ts.len(),
{
    if ts.len() == 0 {
        Ok(Seq::empty())
    } else {
        match parse_tokens(ts.drop_last()) {
            Err(e) => Err(e),
            Ok(vs) => match parse_vial(ts.last()) {
                Ok(v) => Ok(vs.push(v)),
                Err(e) => Err(e),
            },
        }
    }
}

/// How the text form reads a whole puzzle.
pub open spec fn parse_layout(s: Seq<char>) -> Result<Layout, PuzzleError> {
    parse_tokens(split_commas(s))
}

impl Puzzle {
    /// Every vial is well formed.
    pub open spec fn wf(self) -> bool {
        forall|i: int| 0 <= i < self.0@.len() ==> (#[trigger] self.0@[i]).wf()
    }
}

impl View for Puzzle {
    type V = Layout;

    open spec fn view(&self) -> Layout {
        self.0@.map_values(|v: Vial| v@)
    }
}

/// Splitting on commas always gives at least one token.
pub proof fn lemma_split_nonempty(s: Seq<char>)
    ensures
        split_commas(s).len() >= 1,
    decreases s.len(),
{
    if s.len() > 0 {
        lemma_split_nonempty(s.drop_last());
    }
}

/// An error in the first tokens is the error of the whole.
proof fn lemma_parse_tokens_prefix_err(ts: Seq<Seq<char>>, j: int)
    requires
        0 <= j <= ts.len(),
        parse_tokens(ts.subrange(0, j)) is Err,
    ensures
        parse_tokens(ts) == parse_tokens(ts.subrange(0, j)),
    decreases ts.len() - j,
{
    if j < ts.len() {
        assert(ts.subrange(0, j + 1).drop_last() =~= ts.subrange(0, j));
        lemma_parse_tokens_prefix_err(ts, j + 1);
    } else {
        assert(ts.subrange(0, j) =~= ts);
    }
}

impl Puzzle {
    /// A puzzle of one empty vial.
    pub fn new() -> (r: Puzzle)
        ensures
            r.wf(),
            r@ == seq![Seq::<Color>::empty()],
    {
        let r = Puzzle(vec![Vial::empty()]);
        assert(r@ =~= seq![Seq::<Color>::empty()]);
        r
    }

    /// Appends an empty vial.
    pub fn push_vial(&mut self)
        requires
            old(self).wf(),
        ensures
            final(self).wf(),
            final(self)@ == old(self)@.push(Seq::<Color>::empty()),
    {
        self.0.push(Vial::empty());
        assert(self@ =~= old(self)@.push(Seq::<Color>::empty()));
    }

    /// Removes the last vial; a puzzle left with none gets one empty vial.
    pub fn pop_vial(&mut self)
        requires
            old(self).wf(),
        ensures
            final(self).wf(),
            final(self)@ == if old(self)@.len() <= 1 {
                seq![Seq::<Color>::empty()]
            } else {
                old(self)@.drop_last()
            },
    {
        self.0.pop();
        proof {
            if old(self)@.len() > 0 {
                assert(self@ =~= old(self)@.drop_last());
            }
        }
        if self.0.len() == 0 {
            self.push_vial();
            assert(self@ =~= seq![Seq::<Color>::empty()]);
        }
    }

    /// The last vial, for the caller to replace; a puzzle with no vials gets
    /// one empty vial first.
    pub fn last_vial(&mut self) -> (r: &mut Vial)
        requires
            old(self).wf(),
        ensures
            old(self).0@.len() > 0 ==> *r == old(self).0@.last() && final(self).0@ == old(
                self,
            ).0@.update(old(self).0@.len() - 1, *final(r)),
            old(self).0@.len() == 0 ==> r.wf() && r@.len() == 0 && final(self).0@ == seq![*r].update(0, *final(r)),
    {
        if self.0.len() == 0 {
            self.0.push(Vial::empty());
        }
        let n = self.0.len();
        assert(n == 0 ==> false);
        proof {
            if old(self).0@.len() == 0 {
                assert(self.0@ =~= seq![self.0@[0]]);
            }
        }
        &mut self.0[n - 1]
    }
}

impl Puzzle {
    /// Applies a move, returning the new puzzle; only the two addressed vials change.
    pub fn do_move(&self, m: Move) -> (r: Result<Puzzle, PuzzleError>)
        requires
            self.wf(),
        ensures
            match move_result(self@, m) {
                Ok(q) => r matches Ok(p) && p.wf() && p@ == q,
                Err(e) => r == Err::<Puzzle, PuzzleError>(e),
            },
    {
        let n = self.0.len();
        if m.from >= n || m.to >= n {
            return Err(PuzzleError::IndexOutOfRange);
        }
        if m.from == m.to {
            return Err(PuzzleError::SameVial);
        }
        let from = self.0[m.from];
        let to = self.0[m.to];
        let (a, b) = from.pour_into(to)?;
        let mut vials: Vec<Vial> = Vec::new();
        let mut j: usize = 0;
        while j < n
            invariant
                n == self.0@.len(),
                j <= n,
                m.from < n,
                m.to < n,
                a.wf(),
                b.wf(),
                self.wf(),
                vials@.len() == j,
                forall|k: int|
                    0 <= k < j ==> #[trigger] vials@[k] == if k == m.to {
                        b
                    } else if k == m.from {
                        a
                    } else {
                        self.0@[k]
                    },
            decreases n - j,
        {
            if j == m.to {
                vials.push(b);
            } else if j == m.from {
                vials.push(a);
            } else {
                vials.push(self.0[j]);
            }
            j = j + 1;
        }
        let r = Puzzle(vials);
        assert(r@ =~= self@.update(m.from as int, a@).update(m.to as int, b@));
        Ok(r)
    }

    /// Every pair of distinct vials, neither of them solved, whose pour
    /// succeeds, with the puzzle that the pour leaves; ordered by source
    /// index, then destination index.
    pub fn gen_all_moves(&self) -> (r: Vec<(Move, Puzzle)>)
        requires
            self.wf(),
        ensures
            forall|k: int|
                0 <= k < r@.len() ==> {
                    &&& search_move(self@, (#[trigger] r@[k]).0)
                    &&& r@[k].1.wf()
                    &&& move_result(self@, r@[k].0) == Ok::<Layout, PuzzleError>(r@[k].1@)
                },
            forall|m: Move| #[trigger]
                search_move(self@, m) ==> exists|k: int| 0 <= k < r@.len() && #[trigger] r@[k].0 == m,
            forall|k1: int, k2: int|
                0 <= k1 < k2 < r@.len() ==> move_before(#[trigger] r@[k1].0, #[trigger] r@[k2].0),
    {
        let n = self.0.len();
        let mut r: Vec<(Move, Puzzle)> = Vec::new();
        let mut from: usize = 0;
        while from < n
            invariant
                n == self.0@.len(),
                n == self@.len(),
                from <= n,
                self.wf(),
                forall|k: int|
                    0 <= k < r@.len() ==> {
                        &&& search_move(self@, (#[trigger] r@[k]).0)
                        &&& r@[k].1.wf()
                        &&& move_result(self@, r@[k].0) == Ok::<Layout, PuzzleError>(r@[k].1@)
                        &&& r@[k].0.from < from
                    },
                forall|m: Move| #[trigger]
                    search_move(self@, m) && m.from < from ==> exists|k: int|
                        0 <= k < r@.len() && #[trigger] r@[k].0 == m,
                forall|k1: int, k2: int|
                    0 <= k1 < k2 < r@.len() ==> move_before(#[trigger] r@[k1].0, #[trigger] r@[k2].0),
            decreases n - from,
        {
            let mut to: usize = 0;
            while to < n
                invariant
                    n == self.0@.len(),
                    n == self@.len(),
                    from < n,
                    to <= n,
                    self.wf(),
                    forall|k: int|
                        0 <= k < r@.len() ==> {
                            &&& search_move(self@, (#[trigger] r@[k]).0)
                            &&& r@[k].1.wf()
                            &&& move_result(self@, r@[k].0) == Ok::<Layout, PuzzleError>(r@[k].1@)
                            &&& (r@[k].0.from < from || (r@[k].0.from == from && r@[k].0.to < to))
                        },
                    forall|m: Move| #[trigger]
                        search_move(self@, m) && (m.from < from || (m.from == from && m.to < to))
                            ==> exists|k: int| 0 <= k < r@.len() && #[trigger] r@[k].0 == m,
                    forall|k1: int, k2: int|
                        0 <= k1 < k2 < r@.len() ==> move_before(
                            #[trigger] r@[k1].0,
                            #[trigger] r@[k2].0,
                        ),
                decreases n - to,
            {
                let m = Move { from, to };
                assert(self@[from as int] == self.0@[from as int]@);
                assert(self@[to as int] == self.0@[to as int]@);
                if from != to && !self.0[from].is_solved() && !self.0[to].is_solved() {
                    match self.do_move(m) {
                        Ok(q) => {
                            let ghost old_r = r@;
                            r.push((m, q));
                            assert forall|mm: Move| #[trigger]
                                search_move(self@, mm) && (mm.from < from || (mm.from == from
                                    && mm.to < to + 1)) implies exists|k: int|
                                0 <= k < r@.len() && #[trigger] r@[k].0 == mm by {
                                if mm == m {
                                    assert(r@[old_r.len() as int].0 == mm);
                                } else {
                                    let k = choose|k: int| 0 <= k < old_r.len() && #[trigger] old_r[k].0 == mm;
                                    assert(r@[k].0 == mm);
                                }
                            }
                        },
                        Err(_) => {},
                    }
                }
                to = to + 1;
            }
            from = from + 1;
        }
        r
    }

    /// Every vial is empty or full of a single color.
    pub fn is_solved(&self) -> (r: bool)
        requires
            self.wf(),
        ensures
            r == all_uniform(self@),
    {
        let mut i: usize = 0;
        while i < self.0.len()
            invariant
                self.wf(),
                i <= self.0@.len(),
                forall|k: int| 0 <= k < i ==> #[trigger] uniform(self@[k]),
            decreases self.0@.len() - i,
        {
            if !self.0[i].is_solved_or_empty() {
                assert(!uniform(self@[i as int]));
                return false;
            }
            i = i + 1;
        }
        true
    }

    /// How many vials are empty or full of a single color.
    pub fn vials_solved(&self) -> (r: usize)
        requires
            self.wf(),
        ensures
            r == uniform_count(self@),
    {
        let mut count: usize = 0;
        let mut i: usize = 0;
        while i < self.0.len()
            invariant
                self.wf(),
                i <= self.0@.len(),
                count <= i,
                count == uniform_count(self@.subrange(0, i as int)),
            decreases self.0@.len() - i,
        {
            assert(self@.subrange(0, i + 1).drop_last() =~= self@.subrange(0, i as int));
            if self.0[i].is_solved_or_empty() {
                count = count + 1;
            }
            i = i + 1;
        }
        assert(self@.subrange(0, i as int) =~= self@);
        count
    }
}

/// A token without commas is split into itself alone.
proof fn lemma_split_no_comma(w: Seq<char>)
    requires
        forall|i: int| 0 <= i < w.len() ==> w[i] != ',',
    ensures
        split_commas(w) == seq![w],
    decreases w.len(),
{
    if w.len() > 0 {
        lemma_split_no_comma(w.drop_last());
        assert(w.drop_last().push(w.last()) =~= w);
        assert(seq![w.drop_last()].update(0, w.drop_last().push(w.last())) =~= seq![w]);
    } else {
        assert(w =~= Seq::<char>::empty());
    }
}

/// Appending a comma and a token without commas appends that token.
proof fn lemma_split_append(a: Seq<char>, b: Seq<char>)
    requires
        forall|i: int| 0 <= i < b.len() ==> b[i] != ',',
    ensures
        split_commas(a + seq![','] + b) == split_commas(a).push(b),
    decreases b.len(),
{
    let s = a + seq![','] + b;
    if b.len() == 0 {
        assert(s.drop_last() =~= a);
        assert(b =~= Seq::<char>::empty());
    } else {
        let b0 = b.drop_last();
        lemma_split_append(a, b0);
        assert(s.drop_last() =~= a + seq![','] + b0);
        assert(b0.push(b.last()) =~= b);
        assert(split_commas(a).push(b0).update(split_commas(a).len() as int, b) =~= split_commas(
            a,
        ).push(b));
    }
}

/// The tokens of a layout's text form are its vials' text forms.
proof fn lemma_split_ser(p: Layout)
    requires
        p.len() >= 1,
    ensures
        split_commas(ser_layout(p)) == p.map_values(|v: Seq<Color>| ser_vial(v)),
    decreases p.len(),
{
    lemma_ser_vial_no_comma(p.last());
    if p.len() == 1 {
        lemma_split_no_comma(ser_vial(p[0]));
        assert(p.map_values(|v: Seq<Color>| ser_vial(v)) =~= seq![ser_vial(p[0])]);
    } else {
        lemma_split_ser(p.drop_last());
        lemma_split_append(ser_layout(p.drop_last()), ser_vial(p.last()));
        assert(p.drop_last().map_values(|v: Seq<Color>| ser_vial(v)).push(ser_vial(p.last()))
            =~= p.map_values(|v: Seq<Color>| ser_vial(v)));
    }
}

/// Reading the text forms of vials of at most four segments gives the vials back.
proof fn lemma_parse_tokens_ser(p: Layout)
    requires
        forall|i: int| 0 <= i < p.len() ==> (#[trigger] p[i]).len() <= 4,
    ensures
        parse_tokens(p.map_values(|v: Seq<Color>| ser_vial(v))) == Ok::<Layout, PuzzleError>(p),
    decreases p.len(),
{
    let ts = p.map_values(|v: Seq<Color>| ser_vial(v));
    if p.len() > 0 {
        lemma_parse_tokens_ser(p.drop_last());
        assert(ts.drop_last() =~= p.drop_last().map_values(|v: Seq<Color>| ser_vial(v)));
        lemma_parse_ser_letters(p.last());
        lemma_ser_vial_no_comma(p.last());
        assert(parse_vial(ts.last()) == Ok::<Seq<Color>, PuzzleError>(p.last()));
        assert(p.drop_last().push(p.last()) =~= p);
    } else {
        assert(p =~= Seq::<Seq<Color>>::empty());
    }
}

/// Reading the text form of a puzzle of at least one well-formed vial gives
/// the puzzle back.
pub proof fn lemma_round_trip(p: Puzzle)
    requires
        p.wf(),
        p@.len() >= 1,
    ensures
        parse_layout(ser_layout(p@)) == Ok::<Layout, PuzzleError>(p@),
{
    assert forall|i: int| 0 <= i < p@.len() implies (#[trigger] p@[i]).len() <= 4 by {
        assert(p.0@[i].wf());
    }
    lemma_split_ser(p@);
    lemma_parse_tokens_ser(p@);
}

/// Joins tokens with commas.
spec fn join_tokens(ts: Seq<Seq<char>>) -> Seq<char>
    decreases ts.len(),
{
    if ts.len() == 0 {
        Seq::empty()
    } else if ts.len() == 1 {
        ts[0]
    } else {
        join_tokens(ts.drop_last()) + seq![','] + ts.last()
    }
}

proof fn lemma_join_extend_last(ts: Seq<Seq<char>>, c: char)
    requires
        ts.len() >= 1,
    ensures
        join_tokens(ts.update(ts.len() - 1, ts.last().push(c))) == join_tokens(ts).push(c),
{
    let us = ts.update(ts.len() - 1, ts.last().push(c));
    if ts.len() > 1 {
        assert(us.drop_last() =~= ts.drop_last());
    }
    assert(join_tokens(us) =~= join_tokens(ts).push(c));
}

proof fn lemma_join_split(s: Seq<char>)
    ensures
        join_tokens(split_commas(s)) == s,
    decreases s.len(),
{
    if s.len() > 0 {
        let s0 = s.drop_last();
        lemma_join_split(s0);
        lemma_split_nonempty(s0);
        let p = split_commas(s0);
        if s.last() == ',' {
            assert(p.push(Seq::<char>::empty()).drop_last() =~= p);
            assert(join_tokens(p.push(Seq::<char>::empty())) =~= s);
        } else {
            lemma_join_extend_last(p, s.last());
            assert(s0.push(s.last()) =~= s);
        }
    } else {
        assert(s =~= Seq::<char>::empty());
    }
}

proof fn lemma_ser_is_join(p: Layout)
    ensures
        ser_layout(p) == join_tokens(p.map_values(|v: Seq<Color>| ser_vial(v))),
    decreases p.len(),
{
    let ts = p.map_values(|v: Seq<Color>| ser_vial(v));
    if p.len() > 1 {
        lemma_ser_is_join(p.drop_last());
        assert(ts.drop_last() =~= p.drop_last().map_values(|v: Seq<Color>| ser_vial(v)));
    }
}

proof fn lemma_parsed_tokens_ser(ts: Seq<Seq<char>>)
    requires
        parse_tokens(ts) is Ok,
    ensures
        parse_tokens(ts)->Ok_0.map_values(|v: Seq<Color>| ser_vial(v)) == ts,
    decreases ts.len(),
{
    if ts.len() > 0 {
        lemma_parsed_tokens_ser(ts.drop_last());
        lemma_ser_parse_letters(ts.last());
        let vs = parse_tokens(ts.drop_last())->Ok_0;
        let v = parse_vial(ts.last())->Ok_0;
        assert(vs.push(v).map_values(|v: Seq<Color>| ser_vial(v)) =~= vs.map_values(
            |v: Seq<Color>| ser_vial(v),
        ).push(ser_vial(v)));
        assert(ts.drop_last().push(ts.last()) =~= ts);
    } else {
        assert(parse_tokens(ts)->Ok_0.map_values(|v: Seq<Color>| ser_vial(v)) =~= ts);
    }
}

/// Text that reads without error is written back unchanged.
pub proof fn lemma_text_round_trip(s: Seq<char>)
    requires
        parse_layout(s) is Ok,
    ensures
        ser_layout(parse_layout(s)->Ok_0) == s,
{
    let ts = split_commas(s);
    lemma_parsed_tokens_ser(ts);
    lemma_ser_is_join(parse_layout(s)->Ok_0);
    lemma_join_split(s);
}

fn split_tokens(t: &Vec<char>) -> (r: Vec<Vec<char>>)
    ensures
        r@.map_values(|x: Vec<char>| x@) == split_commas(t@),
{
    let mut done: Vec<Vec<char>> = Vec::new();
    let mut cur: Vec<char> = Vec::new();
    let mut i: usize = 0;
    assert(t@.subrange(0, 0) =~= Seq::<char>::empty());
    assert(done@.map_values(|x: Vec<char>| x@).push(cur@) =~= split_commas(Seq::<char>::empty()));
    while i < t.len()
        invariant
            i <= t@.len(),
            done@.map_values(|x: Vec<char>| x@).push(cur@) == split_commas(t@.subrange(0, i as int)),
        decreases t@.len() - i,
    {
        let c = t[i];
        let ghost pre = t@.subrange(0, i as int);
        assert(t@.subrange(0, i + 1).drop_last() =~= pre);
        if c == ',' {
            done.push(cur);
            cur = Vec::new();
            assert(done@.map_values(|x: Vec<char>| x@) =~= split_commas(pre));
            assert(done@.map_values(|x: Vec<char>| x@).push(cur@) =~= split_commas(pre).push(
                Seq::<char>::empty(),
            ));
        } else {
            let ghost old_cur = cur@;
            cur.push(c);
            assert(done@.map_values(|x: Vec<char>| x@).push(cur@) =~= split_commas(pre).update(
                split_commas(pre).len() - 1,
                old_cur.push(c),
            ));
        }
        i = i + 1;
    }
    assert(t@.subrange(0, i as int) =~= t@);
    done.push(cur);
    assert(done@.map_values(|x: Vec<char>| x@) =~= split_commas(t@));
    done
}

impl Puzzle {
    /// The text form: the vials' text forms joined by commas.
    pub fn ser(&self) -> (r: String)
        requires
            self.wf(),
        ensures
            r@ == ser_layout(self@),
    {
        let mut r = String::new();
        let mut i: usize = 0;
        while i < self.0.len()
            invariant
                self.wf(),
                i <= self.0@.len(),
                r@ == ser_layout(self@.subrange(0, i as int)),
            decreases self.0@.len() - i,
        {
            let ghost pre = self@.subrange(0, i as int);
            if i > 0 {
                push_char(&mut r, ',');
            }
            let v = self.0[i].ser();
            r.append(v.as_str());
            proof {
                let next = self@.subrange(0, i + 1);
                assert(next.drop_last() =~= pre);
                if i == 0 {
                    assert(pre =~= Seq::<Seq<Color>>::empty());
                    assert(r@ =~= ser_vial(next[0]));
                } else {
                    assert(r@ =~= ser_layout(pre) + seq![','] + ser_vial(next.last()));
                }
            }
            i = i + 1;
        }
        assert(self@.subrange(0, i as int) =~= self@);
        r
    }

    /// Reads a puzzle from its text form.
    pub fn deser(s: &str) -> (r: Result<Puzzle, PuzzleError>)
        ensures
            match parse_layout(s@) {
                Ok(q) => r matches Ok(p) && p.wf() && p@ == q,
                Err(e) => r == Err::<Puzzle, PuzzleError>(e),
            },
    {
        let chars = chars_of(s);
        let tokens = split_tokens(&chars);
        let ghost ts = split_commas(s@);
        let mut vials: Vec<Vial> = Vec::new();
        let mut k: usize = 0;
        assert(ts.subrange(0, 0) =~= Seq::<Seq<char>>::empty());
        assert(vials@.map_values(|v: Vial| v@) =~= Seq::<Seq<Color>>::empty());
        while k < tokens.len()
            invariant
                tokens@.map_values(|x: Vec<char>| x@) == ts,
                ts == split_commas(s@),
                k <= tokens@.len(),
                forall|j: int| 0 <= j < vials@.len() ==> (#[trigger] vials@[j]).wf(),
                parse_tokens(ts.subrange(0, k as int)) == Ok::<Layout, PuzzleError>(
                    vials@.map_values(|v: Vial| v@),
                ),
            decreases tokens@.len() - k,
        {
            let ghost pre = ts.subrange(0, k as int);
            assert(ts.subrange(0, k + 1).drop_last() =~= pre);
            assert(ts[k as int] == tokens@[k as int]@);
            match Vial::from_letters(&tokens[k]) {
                Ok(v) => {
                    let ghost old_v = vials@;
                    vials.push(v);
                    assert(vials@.map_values(|v: Vial| v@) =~= old_v.map_values(|v: Vial| v@).push(
                        v@,
                    ));
                },
                Err(e) => {
                    proof {
                        lemma_parse_tokens_prefix_err(ts, k + 1);
                    }
                    return Err(e);
                },
            }
            k = k + 1;
        }
        assert(ts.subrange(0, k as int) =~= ts);
        Ok(Puzzle(vials))
    }
}

impl Puzzle {
    /// A copy of this puzzle.
    pub fn duplicate(&self) -> (r: Puzzle)
        ensures
            r.0@ == self.0@,
            r@ == self@,
    {
        let mut v: Vec<Vial> = Vec::new();
        let mut i: usize = 0;
        while i < self.0.len()
            invariant
                i <= self.0@.len(),
                v@ == self.0@.subrange(0, i as int),
            decreases self.0@.len() - i,
        {
            v.push(self.0[i]);
            i = i + 1;
            assert(v@ =~= self.0@.subrange(0, i as int));
        }
        assert(v@ =~= self.0@);
        Puzzle(v)
    }

    /// Has the same vials, with the same contents, as `other`.
    pub fn same_layout(&self, other: &Puzzle) -> (r: bool)
        requires
            self.wf(),
            other.wf(),
        ensures
            r == (self@ == other@),
    {
        if self.0.len() != other.0.len() {
            assert(self@.len() != other@.len());
            return false;
        }
        let mut i: usize = 0;
        while i < self.0.len()
            invariant
                self.wf(),
                other.wf(),
                self.0@.len() == other.0@.len(),
                i <= self.0@.len(),
                forall|k: int| 0 <= k < i ==> self@[k] == other@[k],
            decreases self.0@.len() - i,
        {
            if !self.0[i].same_contents(other.0[i]) {
                assert(self@[i as int] != other@[i as int]);
                return false;
            }
            i = i + 1;
        }
        assert(self@ =~= other@);
        true
    }
}

impl Puzzle {
    /// Every vial is well formed: its filled slots are contiguous from the bottom.
    pub fn is_well_formed(&self) -> (r: bool)
        ensures
            r == self.wf(),
    {
        let mut i: usize = 0;
        while i < self.0.len()
            invariant
                i <= self.0@.len(),
                forall|k: int| 0 <= k < i ==> (#[trigger] self.0@[k]).wf(),
            decreases self.0@.len() - i,
        {
            if !self.0[i].is_well_formed() {
                return false;
            }
            i = i + 1;
        }
        true
    }
}

} // verus!
