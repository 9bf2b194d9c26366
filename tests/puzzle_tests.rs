use watersort::color::{Color, COLORS};
use watersort::puzzle::{Move, Puzzle};
use watersort::solver::{solve, Search, SearchStep};
use watersort::vial::Vial;
use watersort::PuzzleError;

fn vial(s: &str) -> Vial {
    Vial::deser(s).unwrap()
}

fn apply_all(p: &Puzzle, moves: &[Move]) -> Puzzle {
    let mut cur = p.clone();
    for m in moves {
        cur = cur.do_move(*m).unwrap();
    }
    cur
}

#[test]
fn pour_onto_other_color_is_mismatch() {
    let p = Puzzle::deser("AA,BB").unwrap();
    assert_eq!(p.0[0].pour_into(p.0[1]), Err(PuzzleError::ColorMismatch));
    assert_eq!(p.do_move(Move { from: 0, to: 1 }), Err(PuzzleError::ColorMismatch));
}

#[test]
fn pour_moves_whole_top_run() {
    let p = Puzzle::deser("AABB,,").unwrap();
    let (a, b) = p.0[0].pour_into(p.0[1]).unwrap();
    assert_eq!(a.ser(), "AA");
    assert_eq!(b.ser(), "BB");
    let q = p.do_move(Move { from: 0, to: 1 }).unwrap();
    assert_eq!(q.ser(), "AA,BB,");
}

#[test]
fn pour_stops_when_destination_full() {
    let (a, b) = vial("ABBB").pour_into(vial("BB")).unwrap();
    assert_eq!(a.ser(), "AB");
    assert_eq!(b.ser(), "BBBB");
}

#[test]
fn pour_conserves_segments() {
    let s = vial("CABB");
    let d = vial("B");
    let (a, b) = s.pour_into(d).unwrap();
    assert_eq!(a.ser().len() + b.ser().len(), s.ser().len() + d.ser().len());
    assert_eq!(a.ser(), "CA");
    assert_eq!(b.ser(), "BBB");
}

#[test]
fn pour_errors() {
    assert_eq!(Vial::empty().pour_into(vial("A")), Err(PuzzleError::VialEmpty));
    assert_eq!(vial("A").pour_into(vial("AAAA")), Err(PuzzleError::VialFull));
    assert_eq!(vial("A").pour_into(vial("AAAB")), Err(PuzzleError::ColorMismatch));
}

#[test]
fn solved_puzzle_needs_no_moves() {
    let p = Puzzle::deser("AAAA").unwrap();
    assert_eq!(solve(p), Ok(vec![]));
}

#[test]
fn two_of_each_color_cannot_be_sorted() {
    // Two segments of each color can never fill a vial of four.
    let p = Puzzle::deser("AB,BA").unwrap();
    assert_eq!(solve(p), Err(PuzzleError::NoSolution));
}

#[test]
fn single_unsorted_vial_has_no_solution() {
    let p = Puzzle::deser("AB").unwrap();
    assert_eq!(solve(p), Err(PuzzleError::NoSolution));
}

#[test]
fn solution_replays_to_sorted_puzzle() {
    let p = Puzzle::deser("AABB,BBAA,,").unwrap();
    let moves = solve(p.clone()).unwrap();
    assert!(!moves.is_empty());
    let end = apply_all(&p, &moves);
    assert!(end.is_solved());
}

#[test]
fn larger_puzzle_is_solved() {
    let p = Puzzle::deser("ABCA,CBAB,BCAC,,").unwrap();
    let moves = solve(p.clone()).unwrap();
    let end = apply_all(&p, &moves);
    assert!(end.is_solved());
    assert_eq!(end.vials_solved(), 5);
}

#[test]
fn too_many_colors_in_vial() {
    assert_eq!(Puzzle::deser("AAAAA"), Err(PuzzleError::TooManyColorsInVial));
    assert_eq!(Vial::deser("AAAAA"), Err(PuzzleError::TooManyColorsInVial));
}

#[test]
fn letter_past_last_color_is_out_of_range() {
    assert_eq!(Puzzle::deser("Z"), Err(PuzzleError::ColorOutOfRange));
    assert_eq!(Color::deser('J'), Err(PuzzleError::ColorOutOfRange));
}

#[test]
fn non_letter_is_unknown_symbol() {
    assert_eq!(Puzzle::deser("A,a"), Err(PuzzleError::UnknownColorSymbol));
    assert_eq!(Puzzle::deser("A, B"), Err(PuzzleError::UnknownColorSymbol));
    assert_eq!(Color::deser('1'), Err(PuzzleError::UnknownColorSymbol));
}

#[test]
fn leftmost_error_is_reported() {
    assert_eq!(Puzzle::deser("a,AAAAA"), Err(PuzzleError::UnknownColorSymbol));
    assert_eq!(Puzzle::deser("AAAAA,a"), Err(PuzzleError::TooManyColorsInVial));
}

#[test]
fn text_round_trip() {
    let mut p = Puzzle::new();
    *p.last_vial() = Vial::empty().push(Color::Red).unwrap().push(Color::Mint).unwrap();
    p.push_vial();
    p.push_vial();
    *p.last_vial() = Vial::empty().push(Color::Cornflower).unwrap();
    let s = p.ser();
    assert_eq!(s, "IC,,A");
    assert_eq!(Puzzle::deser(&s), Ok(p));
    for s in ["A", "", ",", "ABCD,EFGH,I", "II,,,HH"] {
        assert_eq!(Puzzle::deser(s).unwrap().ser(), s);
    }
}

#[test]
fn empty_text_is_one_empty_vial() {
    assert_eq!(Puzzle::deser(""), Ok(Puzzle::new()));
    assert_eq!(Puzzle::deser(",").unwrap().0.len(), 2);
}

#[test]
fn color_letters() {
    for (i, c) in COLORS.iter().enumerate() {
        let ch = c.ser();
        assert_eq!(ch as usize, 'A' as usize + i);
        assert_eq!(Color::deser(ch), Ok(*c));
        assert_eq!(c.ordinal() as usize, i);
        assert_eq!(Color::from_ordinal(i as u8), Some(*c));
    }
    assert_eq!(Color::from_ordinal(9), None);
    assert_eq!(Color::Red.ser(), 'I');
}

#[test]
fn color_names_and_rgb() {
    assert_eq!(Color::Cornflower.name(), "cornflower");
    assert_eq!(Color::Cornflower.simple_name(), "blue");
    assert_eq!(Color::Pickle.simple_name(), "green");
    assert_eq!(Color::Grey.rgb(), (99, 99, 100));
    assert_eq!(Color::Red.rgb(), (164, 50, 37));
}

#[test]
fn push_and_pop() {
    let v = Vial::empty().push(Color::Navy).unwrap();
    assert_eq!(v.top_color(), Some(Color::Navy));
    assert_eq!(v.pop().unwrap(), Vial::empty());
    assert_eq!(Vial::empty().pop(), Err(PuzzleError::VialEmpty));
    assert_eq!(vial("AAAA").push(Color::Cornflower), Err(PuzzleError::VialFull));
    assert_eq!(Vial::empty().top_color(), None);
}

#[test]
fn push_color_and_pop_color() {
    assert_eq!(vial("AB").push_color(Color::Cornflower), Err(PuzzleError::ColorMismatch));
    assert_eq!(vial("AB").push_color(Color::Grey).unwrap().ser(), "ABB");
    assert_eq!(Vial::empty().push_color(Color::Grey).unwrap().ser(), "B");
    assert_eq!(vial("BBBB").push_color(Color::Grey), Err(PuzzleError::VialFull));
    assert_eq!(vial("AB").pop_color(Color::Cornflower), Err(PuzzleError::ColorMismatch));
    assert_eq!(Vial::empty().pop_color(Color::Cornflower), Err(PuzzleError::ColorMismatch));
    assert_eq!(vial("AB").pop_color(Color::Grey).unwrap().ser(), "A");
}

#[test]
fn vial_kinds() {
    assert!(Vial::empty().is_empty());
    assert!(Vial::empty().is_solved_or_empty());
    assert!(!Vial::empty().is_solved());
    assert!(vial("CCCC").is_solved());
    assert!(vial("CCCC").is_solved_or_empty());
    assert!(!vial("CCC").is_solved_or_empty());
    assert!(!vial("CCCA").is_solved_or_empty());
    let v = vial("CCC");
    assert_eq!(v.is_solved_or_empty(), v.is_solved_or_empty());
}

#[test]
fn move_index_out_of_range() {
    let p = Puzzle::deser("A,").unwrap();
    assert_eq!(p.do_move(Move { from: 0, to: 2 }), Err(PuzzleError::IndexOutOfRange));
    assert_eq!(p.do_move(Move { from: 5, to: 0 }), Err(PuzzleError::IndexOutOfRange));
}

#[test]
fn all_moves_skip_solved_and_illegal() {
    let p = Puzzle::deser("AAAA,B,,C").unwrap();
    let moves: Vec<Move> = p.gen_all_moves().into_iter().map(|(m, _)| m).collect();
    let expect = vec![
        Move { from: 1, to: 2 },
        Move { from: 3, to: 2 },
    ];
    assert_eq!(moves, expect);
    for (m, q) in p.gen_all_moves() {
        assert_eq!(p.do_move(m), Ok(q));
    }
}

#[test]
fn counting_sorted_vials() {
    let p = Puzzle::deser("AAAA,B,,CCCC").unwrap();
    assert_eq!(p.vials_solved(), 3);
    assert!(!p.is_solved());
    assert!(Puzzle::deser("AAAA,,BBBB").unwrap().is_solved());
}

#[test]
fn vial_editing() {
    let mut p = Puzzle::new();
    p.push_vial();
    assert_eq!(p.0.len(), 2);
    p.pop_vial();
    assert_eq!(p.0.len(), 1);
    p.pop_vial();
    assert_eq!(p, Puzzle::new());
    let mut q = Puzzle(vec![]);
    *q.last_vial() = vial("A");
    assert_eq!(q.ser(), "A");
}

#[test]
fn error_messages() {
    assert_eq!(PuzzleError::NoSolution.message(), "no solution");
    assert_eq!(PuzzleError::TooManyColorsInVial.message(), "too many colors in one vial");
}

#[test]
fn five_color_puzzle_is_solved() {
    let p = Puzzle::deser("ABCD,EABC,DEAB,CDEA,BCDE,,").unwrap();
    let moves = solve(p.clone()).unwrap();
    let end = apply_all(&p, &moves);
    assert!(end.is_solved());
    assert_eq!(end.vials_solved(), 7);
}

#[test]
fn well_formedness_check() {
    assert!(Puzzle::deser("AB,,C").unwrap().is_well_formed());
    let gap = Vial([None, Some(Color::Red), None, None]);
    assert!(!gap.is_well_formed());
    assert!(!Puzzle(vec![Vial::empty(), gap]).is_well_formed());
}

#[test]
fn stepping_reports_progress_and_solves() {
    let p = Puzzle::deser("AABB,BBAA,,").unwrap();
    let mut search = Search::new(p.clone());
    let mut depths = vec![];
    let mut best = 0;
    let moves = loop {
        match search.step() {
            SearchStep::Solved(moves) => break moves,
            SearchStep::Exhausted => panic!("puzzle has a solution"),
            SearchStep::Expanded { new_depth, new_best } => {
                if let Some(d) = new_depth {
                    depths.push(d);
                }
                if let Some((vials, path)) = new_best {
                    assert!(vials > best);
                    best = vials;
                    assert_eq!(apply_all(&p, &path).vials_solved(), vials);
                }
            }
        }
    };
    assert_eq!(depths[0], 1);
    assert!(depths.windows(2).all(|w| w[1] == w[0] + 1));
    assert!(apply_all(&p, &moves).is_solved());
}

#[test]
fn stepping_exhausts_unsolvable_puzzle() {
    let mut search = Search::new(Puzzle::deser("AB,BA").unwrap());
    let mut steps = 0;
    loop {
        match search.step() {
            SearchStep::Exhausted => break,
            SearchStep::Solved(_) => panic!("no solution exists"),
            SearchStep::Expanded { .. } => steps += 1,
        }
    }
    assert!(steps > 0);
}

#[test]
fn move_into_same_vial_is_rejected() {
    let p = Puzzle::deser("A").unwrap();
    assert_eq!(p.do_move(Move { from: 0, to: 0 }), Err(PuzzleError::SameVial));
    let q = Puzzle::deser("AB,,B").unwrap();
    assert_eq!(q.do_move(Move { from: 2, to: 2 }), Err(PuzzleError::SameVial));
    assert_eq!(q.do_move(Move { from: 3, to: 3 }), Err(PuzzleError::IndexOutOfRange));
}

#[test]
fn solution_never_revisits_a_puzzle() {
    let p = Puzzle::deser("ABCA,CBAB,BCAC,,").unwrap();
    let moves = solve(p.clone()).unwrap();
    let mut seen = vec![p.clone()];
    let mut cur = p;
    for m in &moves {
        cur = cur.do_move(*m).unwrap();
        assert!(!seen.contains(&cur));
        seen.push(cur.clone());
    }
}

#[test]
fn first_step_takes_the_start() {
    let p = Puzzle::deser("AAAA,AB,B,").unwrap();
    let mut search = Search::new(p);
    match search.step() {
        SearchStep::Expanded { new_depth, new_best } => {
            assert_eq!(new_depth, Some(1));
            assert_eq!(new_best, Some((2, vec![])));
        }
        _ => panic!("the start is not sorted"),
    }
}
