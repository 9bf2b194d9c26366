use vstd::prelude::*;
use vstd::seq_lib::lemma_multiset_commutative;

use crate::color::{color_from_letter, letter_of, lemma_letter_round_trip, Color};
use crate::error::PuzzleError;
use crate::text::{chars_of, push_char};

verus! {

/// How many segments a vial holds when full.
pub const CAPACITY: usize = 4;

/// A vial: four slots, bottom to top, each empty or holding one color.
/// Filled slots are contiguous from the bottom (see `wf`).
#[derive(Debug, Clone, Copy, PartialEq, Eq, Hash, Default)]
pub struct Vial(pub [Option<Color>; 4]);

/// The number of trailing segments of color `c` in `s`.
pub open spec fn run_len(s: Seq<Color>, c: Color) -> nat
    decreases s.len(),
{
    if s.len() > 0 && s.last() == c {
        1 + run_len(s.drop_last(), c)
    } else {
        0
    }
}

/// `n` segments of color `c`.
pub open spec fn segments(c: Color, n: nat) -> Seq<Color> {
    Seq::new(n, |i: int| c)
}

/// A vial's contents are uniform when it is empty, or full of a single color.
pub open spec fn uniform(s: Seq<Color>) -> bool {
    s.len() == 0 || (s.len() == 4 && s[1] == s[0] && s[2] == s[0] && s[3] == s[0])
}

/// The result of pouring a vial holding `s` into one holding `d`: the whole
/// top run of the source's top color moves, as far as the destination has room.
pub open spec fn pour_result(s: Seq<Color>, d: Seq<Color>) -> Result<
    (Seq<Color>, Seq<Color>),
    PuzzleError,
> {
    if s.len() == 0 {
        Err(PuzzleError::VialEmpty)
    } else if d.len() > 0 && d.last() != s.last() {
        Err(PuzzleError::ColorMismatch)
    } else if d.len() >= 4 {
        Err(PuzzleError::VialFull)
    } else {
        let c = s.last();
        let room = (4 - d.len()) as nat;
        let n = if run_len(s, c) <= room { run_len(s, c) } else { room };
        Ok((s.subrange(0, s.len() - n), d + segments(c, n)))
    }
}

/// The text form of a vial's contents: one letter per segment, bottom to top.
pub open spec fn ser_vial(s: Seq<Color>) -> Seq<char> {
    s.map_values(|c: Color| letter_of(c))
}

/// Reads letters into colors, reporting the leftmost letter that is not one.
pub open spec fn parse_letters(t: Seq<char>) -> Result<Seq<Color>, PuzzleError>
    decreases t.len(),
{
    if t.len() == 0 {
        Ok(Seq::empty())
    } else {
        match parse_letters(t.drop_last()) {
            Err(e) => Err(e),
            Ok(cs) => match color_from_letter(t.last()) {
                Ok(c) => Ok(cs.push(c)),
                Err(e) => Err(e),
            },
        }
    }
}

/// How the text form reads one vial token.
pub open spec fn parse_vial(t: Seq<char>) -> Result<Seq<Color>, PuzzleError> {
    if t.len() > 4 {
        Err(PuzzleError::TooManyColorsInVial)
    } else {
        parse_letters(t)
    }
}

impl Vial {
    /// The number of filled slots counted up from the bottom.
    pub open spec fn filled(self) -> nat {
        if self.0[0] is None {
            0
        } else if self.0[1] is None {
            1
        } else if self.0[2] is None {
            2
        } else if self.0[3] is None {
            3
        } else {
            4
        }
    }

    /// Filled slots are exactly the bottom `filled()` ones.
    pub open spec fn wf(self) -> bool {
        forall|i: int| 0 <= i < 4 ==> (self.0[i] is Some <==> i < self.filled())
    }

    /// All four slots hold the same optional value.
    pub open spec fn slots_equal(self) -> bool {
        self.0[1] == self.0[0] && self.0[2] == self.0[0] && self.0[3] == self.0[0]
    }
}

impl View for Vial {
    type V = Seq<Color>;

    /// The colors held, bottom to top.
    open spec fn view(&self) -> Seq<Color> {
        Seq::new(self.filled(), |i: int| self.0[i]->Some_0)
    }
}

fn same_slot(a: Option<Color>, b: Option<Color>) -> (r: bool)
    ensures
        r == (a == b),
{
    match (a, b) {
        (None, None) => true,
        (Some(x), Some(y)) => x == y,
        _ => false,
    }
}

proof fn lemma_view_len(v: Vial)
    requires
        v.wf(),
    ensures
        v@.len() == v.filled(),
        v.filled() <= 4,
{
}

/// Taking `k` segments of the top run off leaves a run shorter by `k`.
proof fn lemma_run_len_drop(s: Seq<Color>, c: Color, k: nat)
    requires
        k <= run_len(s, c),
    ensures
        k <= s.len(),
        run_len(s.subrange(0, s.len() - k), c) == run_len(s, c) - k,
        forall|i: int| s.len() - k <= i < s.len() ==> s[i] == c,
    decreases k,
{
    if k > 0 {
        lemma_run_len_drop(s.drop_last(), c, (k - 1) as nat);
        assert(s.drop_last().subrange(0, s.drop_last().len() - (k - 1)) =~= s.subrange(
            0,
            s.len() - k,
        ));
    } else {
        assert(s.subrange(0, s.len() as int) =~= s);
    }
    if s.len() > 0 && s.last() == c {
        assert forall|i: int| s.len() - k <= i < s.len() implies s[i] == c by {
            if i < s.len() - 1 {
                assert(s.drop_last()[i] == s[i]);
            }
        }
    }
}


/// An error on a prefix of the letters is the error on the whole.
proof fn lemma_parse_prefix_err(t: Seq<char>, j: int)
    requires
        0 <= j <= t.len(),
        parse_letters(t.subrange(0, j)) is Err,
    ensures
        parse_letters(t) == parse_letters(t.subrange(0, j)),
    decreases t.len() - j,
{
    if j < t.len() {
        assert(t.subrange(0, j + 1).drop_last() =~= t.subrange(0, j));
        lemma_parse_prefix_err(t, j + 1);
    } else {
        assert(t.subrange(0, j) =~= t);
    }
}

/// Reading the letters of a vial's contents gives the contents back.
pub proof fn lemma_parse_ser_letters(s: Seq<Color>)
    ensures
        parse_letters(ser_vial(s)) == Ok::<Seq<Color>, PuzzleError>(s),
    decreases s.len(),
{
    if s.len() > 0 {
        lemma_parse_ser_letters(s.drop_last());
        assert(ser_vial(s).drop_last() =~= ser_vial(s.drop_last()));
        assert(ser_vial(s).last() == letter_of(s.last()));
        lemma_letter_round_trip(s.last());
        let t = ser_vial(s);
        assert(parse_letters(t.drop_last()) == Ok::<Seq<Color>, PuzzleError>(s.drop_last()));
        assert(color_from_letter(t.last()) == Ok::<Color, PuzzleError>(s.last()));
        assert(s.drop_last().push(s.last()) =~= s);
    } else {
        assert(ser_vial(s) =~= Seq::<char>::empty());
        assert(s =~= Seq::<Color>::empty());
    }
}

/// Letters that read without error are written back unchanged.
pub proof fn lemma_ser_parse_letters(t: Seq<char>)
    requires
        parse_letters(t) is Ok,
    ensures
        ser_vial(parse_letters(t)->Ok_0) == t,
    decreases t.len(),
{
    if t.len() > 0 {
        lemma_ser_parse_letters(t.drop_last());
        let cs = parse_letters(t.drop_last())->Ok_0;
        let c = color_from_letter(t.last())->Ok_0;
        assert(letter_of(c) == t.last());
        assert(ser_vial(cs.push(c)) =~= ser_vial(cs).push(letter_of(c)));
        assert(t.drop_last().push(t.last()) =~= t);
    } else {
        assert(ser_vial(Seq::<Color>::empty()) =~= t);
    }
}

/// No letter of a vial's text form is a comma.
pub proof fn lemma_ser_vial_no_comma(s: Seq<Color>)
    ensures
        forall|i: int| 0 <= i < ser_vial(s).len() ==> ser_vial(s)[i] != ',',
        ser_vial(s).len() == s.len(),
{
    assert forall|i: int| 0 <= i < ser_vial(s).len() implies ser_vial(s)[i] != ',' by {
        lemma_letter_round_trip(s[i]);
    }
}

/// A well-formed vial holds at most four segments, in its lowest slots.
pub proof fn lemma_capacity(v: Vial)
    requires
        v.wf(),
    ensures
        v@.len() <= 4,
        forall|i: int| 0 <= i < 4 ==> (v.0[i] is Some <==> i < v@.len()),
{
}

/// A pour that succeeds moves at least one segment, and creates or destroys none:
/// the two vials hold, together, the same colors as before.
pub proof fn lemma_pour_conserves(s: Seq<Color>, d: Seq<Color>)
    ensures
        pour_result(s, d) matches Ok((a, b)) ==> {
            &&& a.len() < s.len()
            &&& b.len() > d.len()
            &&& a.len() + b.len() == s.len() + d.len()
            &&& a.to_multiset().add(b.to_multiset()) == s.to_multiset().add(d.to_multiset())
        },
{
    if pour_result(s, d) is Ok {
        let c = s.last();
        let room = (4 - d.len()) as nat;
        reveal_with_fuel(run_len, 2);
        let n = if run_len(s, c) <= room { run_len(s, c) } else { room };
        lemma_run_len_drop(s, c, n);
        let a = s.subrange(0, s.len() - n);
        let moved = segments(c, n);
        assert(s =~= a + moved);
        lemma_multiset_commutative(a, moved);
        lemma_multiset_commutative(d, moved);
        assert(a.to_multiset().add(moved.to_multiset()).add(d.to_multiset()) =~= a.to_multiset().add(
            d.to_multiset().add(moved.to_multiset()),
        ));
    }
}

impl Vial {
    /// A vial with nothing in it.
    pub fn empty() -> (r: Vial)
        ensures
            r.wf(),
            r@ == Seq::<Color>::empty(),
    {
        let r = Vial([None, None, None, None]);
        assert(r@ =~= Seq::<Color>::empty());
        r
    }

    fn with_slot(self, i: usize, x: Option<Color>) -> (r: Vial)
        requires
            i < 4,
        ensures
            forall|j: int| 0 <= j < 4 ==> r.0[j] == if j == i { x } else { self.0[j] },
    {
        Vial(
            [
                if i == 0 { x } else { self.0[0] },
                if i == 1 { x } else { self.0[1] },
                if i == 2 { x } else { self.0[2] },
                if i == 3 { x } else { self.0[3] },
            ],
        )
    }

    /// The topmost color, or `None` for an empty vial.
    pub fn top_color(&self) -> (r: Option<Color>)
        requires
            self.wf(),
        ensures
            r == if self@.len() == 0 { None } else { Some(self@.last()) },
    {
        match self.last_full_slot() {
            Ok(i) => self.0[i],
            Err(_) => None,
        }
    }

    /// The index of the topmost filled slot.
    fn last_full_slot(&self) -> (r: Result<usize, PuzzleError>)
        requires
            self.wf(),
        ensures
            match r {
                Ok(i) => self@.len() > 0 && i == self@.len() - 1,
                Err(e) => self@.len() == 0 && e == PuzzleError::VialEmpty,
            },
    {
        if self.0[3].is_some() {
            Ok(3)
        } else if self.0[2].is_some() {
            Ok(2)
        } else if self.0[1].is_some() {
            Ok(1)
        } else if self.0[0].is_some() {
            Ok(0)
        } else {
            Err(PuzzleError::VialEmpty)
        }
    }

    /// The index of the lowest empty slot.
    fn first_empty_slot(&self) -> (r: Result<usize, PuzzleError>)
        requires
            self.wf(),
        ensures
            match r {
                Ok(i) => self@.len() < 4 && i == self@.len(),
                Err(e) => self@.len() == 4 && e == PuzzleError::VialFull,
            },
    {
        if self.0[0].is_none() {
            Ok(0)
        } else if self.0[1].is_none() {
            Ok(1)
        } else if self.0[2].is_none() {
            Ok(2)
        } else if self.0[3].is_none() {
            Ok(3)
        } else {
            Err(PuzzleError::VialFull)
        }
    }


    /// The text form: one letter per segment, bottom to top.
    pub fn ser(self) -> (r: String)
        requires
            self.wf(),
        ensures
            r@ == ser_vial(self@),
    {
        let mut r = String::new();
        let mut i: usize = 0;
        while i < 4
            invariant
                self.wf(),
                i <= 4,
                r@ == ser_vial(self@.subrange(0, if i <= self@.len() { i as int } else { self@.len() as int })),
            decreases 4 - i,
        {
            match self.0[i] {
                Some(c) => {
                    push_char(&mut r, c.ser());
                    assert(ser_vial(self@.subrange(0, i + 1)) =~= ser_vial(self@.subrange(0, i as int)).push(letter_of(c)));
                },
                None => {},
            }
            i = i + 1;
        }
        assert(self@.subrange(0, self@.len() as int) =~= self@);
        r
    }

    /// Builds a vial from the letters of one token of the text form.
    pub fn from_letters(t: &Vec<char>) -> (r: Result<Vial, PuzzleError>)
        ensures
            match parse_vial(t@) {
                Ok(s) => r matches Ok(v) && v.wf() && v@ == s,
                Err(e) => r == Err::<Vial, PuzzleError>(e),
            },
    {
        if t.len() > 4 {
            return Err(PuzzleError::TooManyColorsInVial);
        }
        let mut v = Vial::empty();
        let mut i: usize = 0;
        while i < t.len()
            invariant
                t@.len() <= 4,
                i <= t@.len(),
                v.wf(),
                v@.len() == i,
                parse_letters(t@.subrange(0, i as int)) == Ok::<Seq<Color>, PuzzleError>(v@),
            decreases t@.len() - i,
        {
            proof {
                assert(t@.subrange(0, i + 1).drop_last() =~= t@.subrange(0, i as int));
            }
            match Color::deser(t[i]) {
                Ok(c) => {
                    proof { lemma_view_len(v); }
                    match v.push(c) {
                        Ok(w) => { v = w; },
                        Err(e) => { return Err(e); },
                    }
                },
                Err(e) => {
                    proof {
                        lemma_parse_prefix_err(t@, i + 1);
                    }
                    return Err(e);
                },
            }
            i = i + 1;
        }
        assert(t@.subrange(0, i as int) =~= t@);
        Ok(v)
    }

    /// Reads a vial from its text form.
    pub fn deser(s: &str) -> (r: Result<Vial, PuzzleError>)
        ensures
            match parse_vial(s@) {
                Ok(c) => r matches Ok(v) && v.wf() && v@ == c,
                Err(e) => r == Err::<Vial, PuzzleError>(e),
            },
    {
        let t = chars_of(s);
        Vial::from_letters(&t)
    }

    /// Holds the same colors, in the same order, as `other`.
    pub fn same_contents(self, other: Vial) -> (r: bool)
        requires
            self.wf(),
            other.wf(),
        ensures
            r == (self@ == other@),
    {
        let r = same_slot(self.0[0], other.0[0]) && same_slot(self.0[1], other.0[1]) && same_slot(
            self.0[2],
            other.0[2],
        ) && same_slot(self.0[3], other.0[3]);
        proof {
            if r {
                assert(self@ =~= other@);
            }
            if self@ == other@ {
                assert(self.filled() == other.filled());
                assert forall|i: int| 0 <= i < 4 implies self.0[i] == other.0[i] by {
                    if i < self.filled() {
                        assert(self@[i] == other@[i]);
                        assert(self.0[i] == Some(self@[i]));
                        assert(other.0[i] == Some(other@[i]));
                    } else {
                        assert(self.0[i] is None && other.0[i] is None);
                    }
                }
            }
        }
        r
    }

    /// The filled slots are contiguous from the bottom.
    pub fn is_well_formed(self) -> (r: bool)
        ensures
            r == self.wf(),
    {
        let r = (self.0[0].is_some() || self.0[1].is_none()) && (self.0[1].is_some()
            || self.0[2].is_none()) && (self.0[2].is_some() || self.0[3].is_none());
        proof {
            if r {
                assert(self.wf());
            }
            if self.wf() {
                assert(r);
            }
        }
        r
    }

    /// Places `color` in the lowest empty slot; fails on a full vial.
    pub fn push(self, color: Color) -> (r: Result<Vial, PuzzleError>)
        requires
            self.wf(),
        ensures
            self@.len() < 4 <==> r is Ok,
            r matches Ok(v) ==> v.wf() && v@ == self@.push(color),
            r matches Err(e) ==> e == PuzzleError::VialFull,
    {
        let i = self.first_empty_slot()?;
        let r = self.with_slot(i, Some(color));
        assert(r@ =~= self@.push(color));
        Ok(r)
    }

    /// Like `push`, but the vial must be empty or already topped by `color`.
    pub fn push_color(self, color: Color) -> (r: Result<Vial, PuzzleError>)
        requires
            self.wf(),
        ensures
            (self@.len() == 0 || (self@.len() < 4 && self@.last() == color)) <==> r is Ok,
            r matches Ok(v) ==> v.wf() && v@ == self@.push(color),
            r matches Err(e) ==> e == if self@.len() > 0 && self@.last() != color {
                PuzzleError::ColorMismatch
            } else {
                PuzzleError::VialFull
            },
    {
        if self.is_empty() || self.top_color() == Some(color) {
            self.push(color)
        } else {
            Err(PuzzleError::ColorMismatch)
        }
    }

    /// Removes the topmost segment; fails on an empty vial.
    pub fn pop(self) -> (r: Result<Vial, PuzzleError>)
        requires
            self.wf(),
        ensures
            self@.len() > 0 <==> r is Ok,
            r matches Ok(v) ==> v.wf() && v@ == self@.drop_last(),
            r matches Err(e) ==> e == PuzzleError::VialEmpty,
    {
        let i = self.last_full_slot()?;
        let r = self.with_slot(i, None);
        assert(r@ =~= self@.drop_last());
        Ok(r)
    }

    /// Like `pop`, but only when the top color is `color`.
    pub fn pop_color(self, color: Color) -> (r: Result<Vial, PuzzleError>)
        requires
            self.wf(),
        ensures
            (self@.len() > 0 && self@.last() == color) <==> r is Ok,
            r matches Ok(v) ==> v.wf() && v@ == self@.drop_last(),
            r matches Err(e) ==> e == PuzzleError::ColorMismatch,
    {
        match self.top_color() {
            Some(c) if c == color => self.pop(),
            _ => Err(PuzzleError::ColorMismatch),
        }
    }

    /// Pours the top run of this vial's top color into `other`, as far as
    /// `other` has room. Fails, moving nothing, when this vial is empty or
    /// when not even one segment can move.
    pub fn pour_into(self, other: Vial) -> (r: Result<(Vial, Vial), PuzzleError>)
        requires
            self.wf(),
            other.wf(),
        ensures
            match pour_result(self@, other@) {
                Ok((s, d)) => r matches Ok((a, b)) && a.wf() && b.wf() && a@ == s && b@ == d,
                Err(e) => r == Err::<(Vial, Vial), PuzzleError>(e),
            },
    {
        let ghost s = self@;
        let ghost d = other@;
        let i = self.last_full_slot()?;
        let c = match self.0[i] {
            Some(c) => c,
            None => { return Err(PuzzleError::VialEmpty); },
        };
        let mut src = self.pop_color(c)?;
        let mut dst = other.push_color(c)?;
        let ghost mut k: nat = 1;
        proof {
            assert(run_len(s, c) >= 1) by {
                reveal_with_fuel(run_len, 2);
            }
            assert(dst@ =~= d + segments(c, 1));
            assert(src@ =~= s.subrange(0, s.len() - 1));
        }
        loop
            invariant
                src.wf(),
                dst.wf(),
                s.len() > 0,
                c == s.last(),
                1 <= k <= run_len(s, c),
                d.len() + k <= 4,
                src@ == s.subrange(0, s.len() - k),
                dst@ == d + segments(c, k),
            ensures
                run_len(s, c) == k || d.len() + k == 4,
            decreases src@.len(),
        {
            proof {
                lemma_run_len_drop(s, c, k);
            }
            match src.pop_color(c) {
                Ok(a) => match dst.push_color(c) {
                    Ok(b) => {
                        proof {
                            assert(a@ =~= s.subrange(0, s.len() - (k + 1)));
                            assert(b@ =~= d + segments(c, k + 1));
                            k = k + 1;
                        }
                        src = a;
                        dst = b;
                    },
                    Err(_) => {
                        break ;
                    },
                },
                Err(_) => {
                    proof {
                        let t = s.subrange(0, s.len() - k);
                        reveal_with_fuel(run_len, 2);
                        assert(run_len(t, c) == 0);
                    }
                    break ;
                },
            }
        }
        Ok((src, dst))
    }

    /// All four slots hold the same optional value: the vial is empty, or
    /// full of a single color.
    pub fn is_solved_or_empty(self) -> (r: bool)
        ensures
            r == self.slots_equal(),
            self.wf() ==> r == uniform(self@),
    {
        let r = same_slot(self.0[1], self.0[0]) && same_slot(self.0[2], self.0[0]) && same_slot(
            self.0[3],
            self.0[0],
        );
        proof {
            if self.wf() {
                if self.filled() == 4 {
                    assert(self@[1] == self@[0] <==> self.0[1] == self.0[0]);
                    assert(self@[2] == self@[0] <==> self.0[2] == self.0[0]);
                    assert(self@[3] == self@[0] <==> self.0[3] == self.0[0]);
                }
            }
        }
        r
    }

    /// Full of a single color.
    pub fn is_solved(self) -> (r: bool)
        ensures
            r == (self.slots_equal() && self.0[0] is Some),
            self.wf() ==> r == (uniform(self@) && self@.len() == 4),
    {
        self.is_solved_or_empty() && self.0[0].is_some()
    }

    /// Holds nothing.
    pub fn is_empty(self) -> (r: bool)
        ensures
            r == (self.slots_equal() && self.0[0] is None),
            self.wf() ==> r == (self@.len() == 0),
    {
        self.is_solved_or_empty() && self.0[0].is_none()
    }
}

} // verus!
