//! The engine's laws: properties of regeneration and filling that hold for
//! every board, stated over the relations that the operations' contracts
//! establish and proved once and for all.

use vstd::prelude::*;

use crate::cell::CellV;
use crate::cell::default_cell;
use crate::cell::spec_fill;
use crate::cell::spec_infer;
use crate::consts::Num;
use crate::model;

verus! {

/// Elimination correctness: on a board with no duplicate values, after a
/// regeneration every cell sharing a row, column or box with a cell assigned
/// digit `d` has lost `d` from its candidate set.
pub proof fn lemma_elimination_correctness(
    pre: Seq<CellV>,
    post: Seq<CellV>,
    c1: int,
    c2: int,
    d: Num,
)
    requires
        model::regenerated(pre, post),
        model::no_duplicates(pre),
        model::cell_ok(c1),
        model::cell_ok(c2),
        model::peers(c1, c2),
        model::digit_ok(d),
        pre[c1].value == Some(d),
    ensures
        !post[c2].poss[d - 1],
{
    assert(model::peers(c2, c1));
    assert(model::elim_by(pre, 81, c2, d));
    match pre[c2].value {
        Some(w) => {
            if w == d {
                assert(pre[c1].value is None || pre[c1].value != pre[c2].value);
                assert(false);
            }
        },
        None => {},
    }
    assert(!model::elim_poss(pre, c2, d));
}

/// Conflict signalling: after a regeneration, two cells of one group that
/// are both assigned the same digit end up with entirely empty candidate
/// sets.
pub proof fn lemma_conflict_signalling(pre: Seq<CellV>, post: Seq<CellV>, c1: int, c2: int, d: Num)
    requires
        model::regenerated(pre, post),
        model::cell_ok(c1),
        model::cell_ok(c2),
        model::peers(c1, c2),
        model::digit_ok(d),
        pre[c1].value == Some(d),
        pre[c2].value == Some(d),
    ensures
        forall|dd: Num| model::digit_ok(dd) ==> !post[c1].poss[dd - 1] && !post[c2].poss[dd - 1],
{
    assert(model::peers(c2, c1));
    assert forall|dd: Num| model::digit_ok(dd) implies !post[c1].poss[dd - 1] && !post[c2].poss[dd
        - 1] by {
        assert(model::elim_by(pre, 81, c1, d));
        assert(model::elim_by(pre, 81, c2, d));
        assert(!model::elim_poss(pre, c1, dd));
        assert(!model::elim_poss(pre, c2, dd));
    };
}

/// Idempotence: regenerating twice without an intervening mutation yields
/// the same board both times, since the derived fields are a pure projection
/// of the values and pencil-marks, which regeneration never touches.
pub proof fn lemma_regenerate_idempotent(a: Seq<CellV>, b: Seq<CellV>, c2: Seq<CellV>)
    requires
        model::regenerated(a, b),
        model::regenerated(b, c2),
    ensures
        forall|c: int| model::cell_ok(c) ==> c2[c] == b[c],
{
    model::lemma_derived_congruence(a, b);
    assert forall|c: int| model::cell_ok(c) implies c2[c] == b[c] by {
        assert(c2[c].value == b[c].value);
        assert(c2[c].removed == b[c].removed);
        assert forall|i: int| 0 <= i < 9 implies c2[c].poss[i] == b[c].poss[i] by {
            let d = (i + 1) as Num;
            assert(model::digit_ok(d) && d - 1 == i);
            assert(c2[c].poss[d - 1] == model::elim_poss(b, c, d));
            assert(b[c].poss[d - 1] == model::elim_poss(a, c, d));
            assert(model::elim_poss(a, c, d) == model::elim_poss(b, c, d));
        };
        assert(c2[c].poss =~= b[c].poss);
        assert(c2[c].solo == model::solo_spec(b, c) && b[c].solo == model::solo_spec(a, c));
        assert(c2[c].invalid == model::invalid_spec(b, c) && b[c].invalid == model::invalid_spec(
            a,
            c,
        ));
        assert(c2[c] =~= b[c]);
    };
}

/// Clear round-trip: regenerating a board of all-default cells leaves every
/// cell in the all-default state: every digit possible, no hints, no
/// invalid groups.
pub proof fn lemma_clear_regenerate_default(pre: Seq<CellV>, post: Seq<CellV>)
    requires
        pre.len() == 81,
        forall|c: int| model::cell_ok(c) ==> pre[c] == default_cell(),
        model::regenerated(pre, post),
    ensures
        forall|c: int| model::cell_ok(c) ==> post[c] == default_cell(),
{
    assert forall|c: int, d: Num|
        model::cell_ok(c) && model::digit_ok(d) implies #[trigger] model::admits_at(
        pre,
        c,
        d,
    ) by {
        if model::elim_by(pre, 81, c, d) {
            let w = choose|w: int|
                0 <= w < 81 && w != c && model::peers(c, w) && (#[trigger] pre[w]).value == Some(
                    d,
                );
            assert(model::cell_ok(w));
            assert(pre[w] == default_cell());
            assert(false);
        }
        assert(model::elim_poss(pre, c, d));
        assert(pre[c].removed[d - 1] == false);
    };
    assert forall|g: int, d: Num, c: int|
        model::group_ok(g) && model::digit_ok(d) implies !#[trigger] model::sole_admitter(
        pre,
        g,
        d,
        c,
    ) by {
        model::lemma_member_in_group(g, 0);
        model::lemma_member_in_group(g, 1);
        model::lemma_members_distinct(g);
        let m0 = model::group_member(g, 0);
        let m1 = model::group_member(g, 1);
        assert(model::admits_at(pre, m0, d) && model::admits_at(pre, m1, d));
        if model::sole_admitter(pre, g, d, c) {
            assert(m0 == c && m1 == c);
        }
    };
    assert forall|g: int, d: Num|
        model::group_ok(g) && model::digit_ok(d) implies !#[trigger] model::group_unsat(
        pre,
        g,
        d,
    ) by {
        model::lemma_member_in_group(g, 0);
        let m0 = model::group_member(g, 0);
        assert(model::admits_at(pre, m0, d));
    };
    assert forall|c: int| model::cell_ok(c) implies post[c] == default_cell() by {
        assert(post[c].value == pre[c].value && post[c].removed == pre[c].removed);
        assert(pre[c] == default_cell());
        assert forall|i: int| 0 <= i < 9 implies post[c].poss[i] == true by {
            let d = (i + 1) as Num;
            assert(model::digit_ok(d) && d - 1 == i);
            assert(post[c].poss[d - 1] == model::elim_poss(pre, c, d));
            assert(model::admits_at(pre, c, d));
        };
        assert(post[c].poss =~= default_cell().poss);
        let pnom = |d: Num| model::digit_ok(d) && model::nominated(pre, c, d);
        assert forall|d: Num| !#[trigger] pnom(d) by {
            if model::digit_ok(d) && model::nominated(pre, c, d) {
                let g = choose|g: int|
                    model::group_ok(g) && #[trigger] model::sole_admitter(pre, g, d, c);
                assert(!model::sole_admitter(pre, g, d, c));
            }
        };
        assert(model::solo_spec(pre, c) == crate::solo_state::SoloState::<Num>::Empty);
        if model::invalid_spec(pre, c) {
            let (g, d) = choose|g: int, d: Num|
                model::in_group(g, c) && model::digit_ok(d) && #[trigger] model::group_unsat(
                    pre,
                    g,
                    d,
                );
            assert(false);
        }
        assert(post[c] =~= default_cell());
    };
}

/// Fill progress: a fill pass never clears a cell, and when it reports a
/// change it has strictly increased the number of assigned cells. Since that
/// number is bounded by 81 and regeneration preserves it, alternating `fill`
/// and `regenerate` reaches, after at most 81 rounds, a state where `fill`
/// reports no change: the board is either fully assigned or has no further
/// forced cell.
pub proof fn lemma_fill_progress(pre: Seq<CellV>, post: Seq<CellV>, r: bool)
    requires
        pre.len() == 81,
        post.len() == 81,
        forall|c: int| model::cell_ok(c) ==> post[c] == spec_fill(#[trigger] pre[c]),
        r == exists|c: int| model::cell_ok(c) && #[trigger] spec_infer(pre[c]) is Some,
    ensures
        model::filled_count(post) >= model::filled_count(pre),
        r ==> model::filled_count(post) >= model::filled_count(pre) + 1,
        0 <= model::filled_count(pre) <= 81,
        0 <= model::filled_count(post) <= 81,
{
    assert forall|c: int| 0 <= c < 81 implies ((#[trigger] pre[c]).value is Some ==> (
    #[trigger] post[c]).value is Some) by {
        assert(post[c] == spec_fill(pre[c]));
    };
    model::lemma_filled_below_grows(pre, post, 81);
    model::lemma_filled_below_bounds(pre, 81);
    model::lemma_filled_below_bounds(post, 81);
    if r {
        let w = choose|c: int| model::cell_ok(c) && #[trigger] spec_infer(pre[c]) is Some;
        assert(pre[w].value is None);
        assert(post[w] == spec_fill(pre[w]));
        assert(post[w].value is Some);
    }
}

/// Regeneration assigns no cell and clears none, so it keeps the number of
/// assigned cells unchanged.
pub proof fn lemma_regenerate_preserves_filled(pre: Seq<CellV>, post: Seq<CellV>)
    requires
        model::regenerated(pre, post),
    ensures
        model::filled_count(post) == model::filled_count(pre),
{
    assert forall|c: int| 0 <= c < 81 implies (#[trigger] pre[c]).value == (
    #[trigger] post[c]).value by {}
    model::lemma_filled_below_same(pre, post, 81);
}

} // verus!
