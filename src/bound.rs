//! The search space is finite: puzzles with a fixed number of vials, each of
//! at most four segments, can be numbered below a fixed bound.
use vstd::arithmetic::div_mod::lemma_fundamental_div_mod_converse;
use vstd::prelude::*;
use vstd::set_lib::{lemma_int_range, lemma_len_subset, set_int_range};

use crate::color::{ordinal_of, Color};
use crate::puzzle::Layout;

verus! {

/// Every vial of `p` holds at most four segments, and there are `n` vials.
pub open spec fn bounded_layout(p: Layout, n: nat) -> bool {
    p.len() == n && forall|k: int| 0 <= k < p.len() ==> (#[trigger] p[k]).len() <= 4
}

/// How many puzzles of `n` vials there can be, at most.
pub open spec fn layout_bound(n: nat) -> int
    decreases n,
{
    if n == 0 {
        1
    } else {
        10000 * layout_bound((n - 1) as nat)
    }
}

/// A vial's contents as a decimal number, one nonzero digit per segment.
spec fn vial_code(v: Seq<Color>) -> int
    decreases v.len(),
{
    if v.len() == 0 {
        0
    } else {
        (ordinal_of(v[0]) + 1) + 10 * vial_code(v.drop_first())
    }
}

/// A layout as a number in base 10000, one digit per vial.
spec fn layout_code(p: Layout) -> int
    decreases p.len(),
{
    if p.len() == 0 {
        0
    } else {
        vial_code(p[0]) + 10000 * layout_code(p.drop_first())
    }
}

spec fn pow10(n: nat) -> int
    decreases n,
{
    if n == 0 {
        1
    } else {
        10 * pow10((n - 1) as nat)
    }
}

proof fn lemma_vial_code_range(v: Seq<Color>)
    ensures
        0 <= vial_code(v) < pow10(v.len()),
        v.len() > 0 ==> vial_code(v) > 0,
    decreases v.len(),
{
    if v.len() > 0 {
        lemma_vial_code_range(v.drop_first());
        let d = ordinal_of(v[0]) + 1;
        let r = vial_code(v.drop_first());
        let b = pow10(v.drop_first().len());
        assert(d + 10 * r < 10 * b) by (nonlinear_arith)
            requires
                1 <= d <= 9,
                0 <= r < b,
        ;
    }
}

proof fn lemma_vial_code_injective(v: Seq<Color>, w: Seq<Color>)
    requires
        vial_code(v) == vial_code(w),
    ensures
        v == w,
    decreases v.len(),
{
    lemma_vial_code_range(v);
    lemma_vial_code_range(w);
    if v.len() == 0 || w.len() == 0 {
        assert(v.len() == 0 && w.len() == 0);
        assert(v =~= w);
    } else {
        let x = vial_code(v);
        lemma_vial_code_range(v.drop_first());
        lemma_vial_code_range(w.drop_first());
        lemma_fundamental_div_mod_converse(x, 10, vial_code(v.drop_first()), ordinal_of(v[0]) + 1 as int);
        lemma_fundamental_div_mod_converse(x, 10, vial_code(w.drop_first()), ordinal_of(w[0]) + 1 as int);
        assert(ordinal_of(v[0]) == ordinal_of(w[0]));
        assert(v[0] == w[0]);
        lemma_vial_code_injective(v.drop_first(), w.drop_first());
        assert(v =~= seq![v[0]] + v.drop_first());
        assert(w =~= seq![w[0]] + w.drop_first());
    }
}

proof fn lemma_small_vial_code(v: Seq<Color>)
    requires
        v.len() <= 4,
    ensures
        0 <= vial_code(v) < 10000,
{
    lemma_vial_code_range(v);
    reveal_with_fuel(pow10, 5);
}

proof fn lemma_layout_code_range(p: Layout, n: nat)
    requires
        bounded_layout(p, n),
    ensures
        0 <= layout_code(p) < layout_bound(n),
    decreases n,
{
    if n > 0 {
        let rest = p.drop_first();
        assert(bounded_layout(rest, (n - 1) as nat)) by {
            assert forall|k: int| 0 <= k < rest.len() implies (#[trigger] rest[k]).len() <= 4 by {
                assert(rest[k] == p[k + 1]);
            }
        }
        lemma_layout_code_range(rest, (n - 1) as nat);
        lemma_small_vial_code(p[0]);
        let d = vial_code(p[0]);
        let r = layout_code(rest);
        let b = layout_bound((n - 1) as nat);
        assert(d + 10000 * r < 10000 * b) by (nonlinear_arith)
            requires
                0 <= d < 10000,
                0 <= r < b,
        ;
    }
}

proof fn lemma_layout_code_injective(p: Layout, q: Layout, n: nat)
    requires
        bounded_layout(p, n),
        bounded_layout(q, n),
        layout_code(p) == layout_code(q),
    ensures
        p == q,
    decreases n,
{
    if n == 0 {
        assert(p =~= q);
    } else {
        let pr = p.drop_first();
        let qr = q.drop_first();
        assert(bounded_layout(pr, (n - 1) as nat)) by {
            assert forall|k: int| 0 <= k < pr.len() implies (#[trigger] pr[k]).len() <= 4 by {
                assert(pr[k] == p[k + 1]);
            }
        }
        assert(bounded_layout(qr, (n - 1) as nat)) by {
            assert forall|k: int| 0 <= k < qr.len() implies (#[trigger] qr[k]).len() <= 4 by {
                assert(qr[k] == q[k + 1]);
            }
        }
        lemma_layout_code_range(pr, (n - 1) as nat);
        lemma_layout_code_range(qr, (n - 1) as nat);
        lemma_small_vial_code(p[0]);
        lemma_small_vial_code(q[0]);
        let x = layout_code(p);
        lemma_fundamental_div_mod_converse(x, 10000, layout_code(pr), vial_code(p[0]));
        lemma_fundamental_div_mod_converse(x, 10000, layout_code(qr), vial_code(q[0]));
        lemma_vial_code_injective(p[0], q[0]);
        lemma_layout_code_injective(pr, qr, (n - 1) as nat);
        assert(p =~= seq![p[0]] + pr);
        assert(q =~= seq![q[0]] + qr);
    }
}

/// Pairwise distinct layouts of `n` vials, each of at most four segments,
/// number at most `layout_bound(n)`.
pub proof fn lemma_distinct_layouts_bounded(sv: Seq<Layout>, n: nat)
    requires
        forall|j: int| 0 <= j < sv.len() ==> bounded_layout(#[trigger] sv[j], n),
        forall|a: int, b: int| 0 <= a < b < sv.len() ==> #[trigger] sv[a] != #[trigger] sv[b],
    ensures
        sv.len() <= layout_bound(n),
{
    let codes = sv.map_values(|p: Layout| layout_code(p));
    assert(codes.no_duplicates()) by {
        assert forall|a: int, b: int| 0 <= a < codes.len() && 0 <= b < codes.len() && a != b
            implies codes[a] != codes[b] by {
            if codes[a] == codes[b] {
                lemma_layout_code_injective(sv[a], sv[b], n);
                if a < b {
                    assert(sv[a] != sv[b]);
                } else {
                    assert(sv[b] != sv[a]);
                }
            }
        }
    }
    codes.unique_seq_to_set();
    let range = set_int_range(0, layout_bound(n));
    lemma_layout_code_range(Seq::new(n, |i: int| Seq::<Color>::empty()), n);
    lemma_int_range(0, layout_bound(n));
    assert(codes.to_set().subset_of(range)) by {
        assert forall|x: int| codes.to_set().contains(x) implies range.contains(x) by {
            let j = choose|j: int| 0 <= j < codes.len() && codes[j] == x;
            lemma_layout_code_range(sv[j], n);
        }
    }
    lemma_len_subset(codes.to_set(), range);
}

} // verus!
