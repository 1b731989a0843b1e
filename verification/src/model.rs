//! The mathematical model of the board: the group topology (rows, columns,
//! boxes), the candidate-elimination relation, and the group-analysis
//! relation. Every public operation of the engine is specified against the
//! functions in this module.

use vstd::prelude::*;

use crate::cell::CellV;
use crate::consts::Num;
use crate::solo_state::SoloState;

verus! {

use vstd::arithmetic::div_mod::lemma_fundamental_div_mod;
use vstd::arithmetic::div_mod::lemma_fundamental_div_mod_converse;
use vstd::arithmetic::div_mod::lemma_mod_pos_bound;

/// A valid digit.
pub open spec fn digit_ok(d: Num) -> bool {
    1 <= d <= 9
}

/// A valid flat cell index; cell (y, x) sits at 9 * y + x.
pub open spec fn cell_ok(c: int) -> bool {
    0 <= c < 81
}

pub open spec fn row_of(c: int) -> int {
    c / 9
}

pub open spec fn col_of(c: int) -> int {
    c % 9
}

pub open spec fn box_of(c: int) -> int {
    3 * (c / 27) + (c % 9) / 3
}

/// Two distinct cells share a row, a column, or a box.
pub open spec fn peers(c1: int, c2: int) -> bool {
    &&& c1 != c2
    &&& (row_of(c1) == row_of(c2) || col_of(c1) == col_of(c2) || box_of(c1) == box_of(c2))
}

/// A valid group index: rows are groups 0..9, columns 9..18, boxes 18..27.
pub open spec fn group_ok(g: int) -> bool {
    0 <= g < 27
}

/// Whether cell `c` belongs to group `g`.
pub open spec fn in_group(g: int, c: int) -> bool {
    &&& group_ok(g)
    &&& cell_ok(c)
    &&& if g < 9 {
        row_of(c) == g
    } else if g < 18 {
        col_of(c) == g - 9
    } else {
        box_of(c) == g - 18
    }
}

/// The flat index of the `i`-th cell of group `g`.
pub open spec fn group_member(g: int, i: int) -> int {
    if g < 9 {
        9 * g + i
    } else if g < 18 {
        9 * i + (g - 9)
    } else {
        27 * ((g - 18) / 3) + 9 * (i / 3) + 3 * ((g - 18) % 3) + i % 3
    }
}

/// Every board has exactly 81 well-formed cells.
pub open spec fn board_wf(b: Seq<CellV>) -> bool {
    &&& b.len() == 81
    &&& forall|c: int| cell_ok(c) ==> crate::cell::cell_wf(#[trigger] b[c])
}

/// A cell whose derived fields have just been reset: every digit possible,
/// no hints.
pub open spec fn reset_cell(cv: CellV) -> bool {
    &&& cv.poss.len() == 9
    &&& forall|i: int| 0 <= i < 9 ==> cv.poss[i]
    &&& cv.solo == SoloState::<Num>::Empty
    &&& !cv.invalid
}

/// The two boards agree on everything the user controls: assigned values and
/// pencil-marks. The derived fields are pure functions of these.
pub open spec fn same_core(a: Seq<CellV>, b: Seq<CellV>) -> bool {
    &&& a.len() == b.len()
    &&& forall|c: int| 0 <= c < a.len() ==> (#[trigger] b[c]).value == a[c].value && b[c].removed
        == a[c].removed
}

/// Some cell among the first `k` (in row-major order), other than `c` and
/// sharing a group with it, is assigned digit `d`.
pub open spec fn elim_by(pre: Seq<CellV>, k: int, c: int, d: Num) -> bool {
    exists|c2: int|
        0 <= c2 < k && c2 != c && peers(c, c2) && (#[trigger] pre[c2]).value == Some(d)
}

/// The candidate flag of cell `c` for digit `d` after the elimination pass
/// has processed the first `k` cells in row-major order.
pub open spec fn elim_partial(pre: Seq<CellV>, k: int, c: int, d: Num) -> bool {
    match pre[c].value {
        Some(v) => if c < k {
            d == v && !elim_by(pre, k, c, d)
        } else {
            !elim_by(pre, k, c, d)
        },
        None => !elim_by(pre, k, c, d),
    }
}

/// The candidate flag of cell `c` for digit `d` after the whole elimination
/// pass: an empty cell keeps `d` unless a peer is assigned `d`; a filled cell
/// keeps only its own value, and loses even that when a peer duplicates it
/// (the conflict signal).
pub open spec fn elim_poss(pre: Seq<CellV>, c: int, d: Num) -> bool {
    elim_partial(pre, 81, c, d)
}

/// Cell `c` admits digit `d`: it is empty, `d` survives elimination, and the
/// user has not pencil-marked `d` away.
pub open spec fn admits_at(pre: Seq<CellV>, c: int, d: Num) -> bool {
    &&& pre[c].value is None
    &&& elim_poss(pre, c, d)
    &&& !pre[c].removed[d - 1]
}

/// Cell `c` is the only cell of group `g` that admits digit `d`.
pub open spec fn sole_admitter(pre: Seq<CellV>, g: int, d: Num, c: int) -> bool {
    &&& in_group(g, c)
    &&& admits_at(pre, c, d)
    &&& forall|c2: int| in_group(g, c2) && admits_at(pre, c2, d) ==> c2 == c
}

/// Some group nominates cell `c` as the only home of digit `d` (a hidden
/// single).
pub open spec fn nominated(pre: Seq<CellV>, c: int, d: Num) -> bool {
    exists|g: int| group_ok(g) && #[trigger] sole_admitter(pre, g, d, c)
}

/// The tri-state summary of a set of digits: which digit is in it, if exactly
/// one.
pub open spec fn digit_tri(p: spec_fn(Num) -> bool) -> SoloState<Num> {
    if exists|d1: Num, d2: Num| d1 != d2 && #[trigger] p(d1) && #[trigger] p(d2) {
        SoloState::Ambiguous
    } else if exists|d: Num| #[trigger] p(d) {
        SoloState::Unique(choose|d: Num| #[trigger] p(d))
    } else {
        SoloState::Empty
    }
}

/// The tri-state summary of a set of cells: which cell is in it, if exactly
/// one.
pub open spec fn cell_tri(p: spec_fn(int) -> bool) -> SoloState<usize> {
    if exists|c1: int, c2: int| c1 != c2 && #[trigger] p(c1) && #[trigger] p(c2) {
        SoloState::Ambiguous
    } else if exists|c: int| #[trigger] p(c) {
        SoloState::Unique((choose|c: int| #[trigger] p(c)) as usize)
    } else {
        SoloState::Empty
    }
}

/// The solo hint of cell `c`: `Unique(d)` when every nomination of `c` is for
/// the one digit `d`, `Ambiguous` when groups nominate it for two different
/// digits, `Empty` when nothing nominates it.
pub open spec fn solo_spec(pre: Seq<CellV>, c: int) -> SoloState<Num> {
    digit_tri(|d: Num| digit_ok(d) && nominated(pre, c, d))
}

/// Group `g` can never legally contain digit `d`: no cell of the group admits
/// it and no cell of the group is assigned it.
pub open spec fn group_unsat(pre: Seq<CellV>, g: int, d: Num) -> bool {
    &&& forall|c: int| in_group(g, c) ==> !admits_at(pre, c, d)
    &&& forall|c: int| in_group(g, c) ==> (#[trigger] pre[c]).value != Some(d)
}

/// Cell `c` sits in some unsatisfiable group.
pub open spec fn invalid_spec(pre: Seq<CellV>, c: int) -> bool {
    exists|g: int, d: Num| in_group(g, c) && digit_ok(d) && #[trigger] group_unsat(pre, g, d)
}

/// Splits a cell index into its coordinates: cell (y, x) is cell 9 * y + x,
/// its row is y, its column x, and its box is found from y / 3 and x / 3.
pub proof fn lemma_coords(y: int, x: int)
    requires
        0 <= y < 9,
        0 <= x < 9,
    ensures
        cell_ok(9 * y + x),
        row_of(9 * y + x) == y,
        col_of(9 * y + x) == x,
        box_of(9 * y + x) == 3 * (y / 3) + x / 3,
{
    let c = 9 * y + x;
    lemma_fundamental_div_mod_converse(c, 9, y, x);
    lemma_fundamental_div_mod(y, 3);
    lemma_mod_pos_bound(y, 3);
    assert(c == (y / 3) * 27 + (9 * (y % 3) + x));
    lemma_fundamental_div_mod_converse(c, 27, y / 3, 9 * (y % 3) + x);
}

/// Every position of a group names a cell of that group.
pub proof fn lemma_member_in_group(g: int, i: int)
    requires
        group_ok(g),
        0 <= i < 9,
    ensures
        cell_ok(group_member(g, i)),
        in_group(g, group_member(g, i)),
{
    if g < 9 {
        lemma_coords(g, i);
    } else if g < 18 {
        lemma_coords(i, g - 9);
    } else {
        let b = g - 18;
        lemma_fundamental_div_mod(b, 3);
        lemma_mod_pos_bound(b, 3);
        lemma_fundamental_div_mod(i, 3);
        lemma_mod_pos_bound(i, 3);
        let y = 3 * (b / 3) + i / 3;
        let x = 3 * (b % 3) + i % 3;
        assert(group_member(g, i) == 9 * y + x);
        lemma_coords(y, x);
        lemma_fundamental_div_mod_converse(y, 3, b / 3, i / 3);
        lemma_fundamental_div_mod_converse(x, 3, b % 3, i % 3);
    }
}

/// Every cell of a group stands at some position of it.
pub proof fn lemma_member_complete(g: int, c: int)
    requires
        in_group(g, c),
    ensures
        exists|i: int| 0 <= i < 9 && group_member(g, i) == c,
{
    lemma_fundamental_div_mod(c, 9);
    lemma_mod_pos_bound(c, 9);
    let y = c / 9;
    let x = c % 9;
    assert(0 <= y < 9);
    if g < 9 {
        assert(group_member(g, x) == c);
    } else if g < 18 {
        assert(group_member(g, y) == c);
    } else {
        let b = g - 18;
        lemma_fundamental_div_mod(y, 3);
        lemma_mod_pos_bound(y, 3);
        lemma_fundamental_div_mod(x, 3);
        lemma_mod_pos_bound(x, 3);
        assert(c == (c / 27) * 27 + (9 * (y % 3) + x)) by {
            lemma_fundamental_div_mod_converse(c, 27, y / 3, 9 * (y % 3) + x);
        };
        lemma_fundamental_div_mod_converse(c, 27, y / 3, 9 * (y % 3) + x);
        let i = 3 * (y % 3) + x % 3;
        assert(0 <= i < 9);
        lemma_fundamental_div_mod_converse(i, 3, y % 3, x % 3);
        assert(b == 3 * (c / 27) + x / 3);
        lemma_fundamental_div_mod_converse(b, 3, c / 27, x / 3);
        assert(group_member(g, i) == 27 * (b / 3) + 9 * (i / 3) + 3 * (b % 3) + i % 3);
        assert(group_member(g, i) == c);
    }
}

/// The first two positions of a group name two different cells.
pub proof fn lemma_members_distinct(g: int)
    requires
        group_ok(g),
    ensures
        group_member(g, 0) != group_member(g, 1),
{
}

/// The three groups of a cell, and no others, contain it.
pub proof fn lemma_groups_of_cell(g: int, c: int)
    requires
        cell_ok(c),
        group_ok(g),
    ensures
        in_group(g, c) <==> (g == row_of(c) || g == 9 + col_of(c) || g == 18 + box_of(c)),
{
    lemma_fundamental_div_mod(c, 9);
    lemma_mod_pos_bound(c, 9);
    lemma_fundamental_div_mod(c, 27);
    lemma_mod_pos_bound(c, 27);
    lemma_fundamental_div_mod(c % 9, 3);
    lemma_mod_pos_bound(c % 9, 3);
    assert(0 <= c / 27 < 3);
    assert(0 <= (c % 9) / 3 < 3);
}

/// The two boards differ at most in candidate flags.
pub open spec fn only_poss_changed(a: Seq<CellV>, b: Seq<CellV>) -> bool {
    &&& b.len() == a.len()
    &&& forall|c: int|
        0 <= c < a.len() ==> {
            &&& (#[trigger] b[c]).value == a[c].value
            &&& b[c].removed == a[c].removed
            &&& b[c].solo == a[c].solo
            &&& b[c].invalid == a[c].invalid
        }
}

/// The two boards differ at most in solo hints and invalid-group flags.
pub open spec fn only_hints_changed(a: Seq<CellV>, b: Seq<CellV>) -> bool {
    &&& b.len() == a.len()
    &&& forall|c: int|
        0 <= c < a.len() ==> {
            &&& (#[trigger] b[c]).value == a[c].value
            &&& b[c].removed == a[c].removed
            &&& b[c].poss == a[c].poss
        }
}

/// A group covers exactly the cells its positions name.
pub proof fn lemma_group_members_cover(g: int)
    requires
        group_ok(g),
    ensures
        forall|c: int|
            #[trigger] in_group(g, c) <==> exists|i: int| 0 <= i < 9 && #[trigger] group_member(
                g,
                i,
            ) == c,
{
    assert forall|c: int| #[trigger] in_group(g, c) implies exists|i: int|
        0 <= i < 9 && #[trigger] group_member(g, i) == c by {
        lemma_member_complete(g, c);
    };
    assert forall|c: int|
        (exists|i: int| 0 <= i < 9 && #[trigger] group_member(g, i) == c) implies in_group(
        g,
        c,
    ) by {
        let i = choose|i: int| 0 <= i < 9 && #[trigger] group_member(g, i) == c;
        lemma_member_in_group(g, i);
    };
}

/// The three groups of cell `k` cover, besides `k` itself, exactly the peers
/// of `k`.
pub proof fn lemma_peer_groups(k: int, c: int)
    requires
        cell_ok(k),
        cell_ok(c),
    ensures
        (in_group(row_of(k), c) || in_group(9 + col_of(k), c) || in_group(18 + box_of(k), c))
            <==> (peers(k, c) || c == k),
{
    lemma_fundamental_div_mod(k, 9);
    lemma_mod_pos_bound(k, 9);
    lemma_fundamental_div_mod(k, 27);
    lemma_mod_pos_bound(k, 27);
    lemma_fundamental_div_mod(k % 9, 3);
    lemma_mod_pos_bound(k % 9, 3);
    lemma_fundamental_div_mod(c, 9);
    lemma_mod_pos_bound(c, 9);
}

/// Processing one more cell in the elimination pass extends the set of
/// eliminating peers by that cell, when it is assigned the digit.
pub proof fn lemma_elim_by_step(pre: Seq<CellV>, k: int, c: int, d: Num)
    requires
        cell_ok(k),
    ensures
        elim_by(pre, k + 1, c, d) == (elim_by(pre, k, c, d) || (peers(c, k) && pre[k].value
            == Some(d))),
{
    if elim_by(pre, k + 1, c, d) {
        let c2 = choose|c2: int|
            0 <= c2 < k + 1 && c2 != c && peers(c, c2) && (#[trigger] pre[c2]).value == Some(d);
        if c2 < k {
            assert(elim_by(pre, k, c, d));
        } else {
            assert(c2 == k);
        }
    }
    if peers(c, k) && pre[k].value == Some(d) {
        assert(0 <= k < k + 1 && k != c && peers(c, k) && pre[k].value == Some(d));
        assert(elim_by(pre, k + 1, c, d));
    }
}

/// What one regeneration does: values and pencil-marks are untouched, and
/// every derived field is overwritten with its pure projection from them.
pub open spec fn regenerated(pre: Seq<CellV>, post: Seq<CellV>) -> bool {
    &&& pre.len() == 81
    &&& post.len() == 81
    &&& same_core(pre, post)
    &&& forall|c: int| cell_ok(c) ==> (#[trigger] post[c]).poss.len() == 9
    &&& forall|c: int, d: Num|
        cell_ok(c) && digit_ok(d) ==> (#[trigger] post[c].poss[d - 1]) == elim_poss(pre, c, d)
    &&& forall|c: int| cell_ok(c) ==> (#[trigger] post[c]).solo == solo_spec(pre, c)
    &&& forall|c: int| cell_ok(c) ==> (#[trigger] post[c]).invalid == invalid_spec(pre, c)
}

/// Two pointwise-equal digit sets have the same tri-state summary.
pub proof fn lemma_digit_tri_congruence(p1: spec_fn(Num) -> bool, p2: spec_fn(Num) -> bool)
    requires
        forall|d: Num| #[trigger] p1(d) == #[trigger] p2(d),
    ensures
        digit_tri(p1) == digit_tri(p2),
{
    if exists|d1: Num, d2: Num| d1 != d2 && #[trigger] p1(d1) && #[trigger] p1(d2) {
        let (d1, d2) = choose|d1: Num, d2: Num| d1 != d2 && #[trigger] p1(d1) && #[trigger] p1(d2);
        assert(p2(d1) && p2(d2));
    } else if exists|d: Num| #[trigger] p1(d) {
        let d1 = choose|d: Num| #[trigger] p1(d);
        assert(p2(d1));
        assert forall|e1: Num, e2: Num|
            !(e1 != e2 && #[trigger] p2(e1) && #[trigger] p2(e2)) by {
            assert(p1(e1) == p2(e1));
            assert(p1(e2) == p2(e2));
        };
        let d2 = choose|d: Num| #[trigger] p2(d);
        assert(p1(d2));
        assert(d1 == d2);
    } else {
        assert forall|d: Num| !#[trigger] p2(d) by {
            assert(p1(d) == p2(d));
        };
    }
}

/// Adding the one digit `d` to a digit set summarizes as one accumulator
/// step with `d`.
pub proof fn lemma_digit_tri_insert(p1: spec_fn(Num) -> bool, p2: spec_fn(Num) -> bool, d: Num)
    requires
        forall|dd: Num| #[trigger] p2(dd) == (p1(dd) || dd == d),
    ensures
        digit_tri(p2) == digit_tri(p1).spec_increment(d),
{
    assert(p2(d));
    if exists|d1: Num, d2: Num| d1 != d2 && #[trigger] p1(d1) && #[trigger] p1(d2) {
        let (d1, d2) = choose|d1: Num, d2: Num| d1 != d2 && #[trigger] p1(d1) && #[trigger] p1(d2);
        assert(p2(d1) && p2(d2));
    } else if exists|dd: Num| #[trigger] p1(dd) {
        let d1 = choose|dd: Num| #[trigger] p1(dd);
        assert(forall|dd: Num| #[trigger] p1(dd) ==> dd == d1);
        assert(p2(d1));
        if d1 == d {
            assert(forall|dd: Num| #[trigger] p2(dd) ==> dd == d1);
            let dc = choose|dd: Num| #[trigger] p2(dd);
            assert(dc == d1);
        } else {
            assert(d1 != d && p2(d1) && p2(d));
        }
    } else {
        assert(forall|dd: Num| #[trigger] p2(dd) ==> dd == d);
        let dc = choose|dd: Num| #[trigger] p2(dd);
        assert(dc == d);
    }
}

/// Two pointwise-equal cell sets have the same tri-state summary.
pub proof fn lemma_cell_tri_congruence(p1: spec_fn(int) -> bool, p2: spec_fn(int) -> bool)
    requires
        forall|c: int| #[trigger] p1(c) == #[trigger] p2(c),
    ensures
        cell_tri(p1) == cell_tri(p2),
{
    if exists|c1: int, c2: int| c1 != c2 && #[trigger] p1(c1) && #[trigger] p1(c2) {
        let (c1, c2) = choose|c1: int, c2: int| c1 != c2 && #[trigger] p1(c1) && #[trigger] p1(c2);
        assert(p2(c1) && p2(c2));
    } else if exists|c: int| #[trigger] p1(c) {
        let c1 = choose|c: int| #[trigger] p1(c);
        assert(p2(c1));
        assert forall|e1: int, e2: int|
            !(e1 != e2 && #[trigger] p2(e1) && #[trigger] p2(e2)) by {
            assert(p1(e1) == p2(e1));
            assert(p1(e2) == p2(e2));
        };
        let c2 = choose|c: int| #[trigger] p2(c);
        assert(p1(c2));
        assert(c1 == c2);
    } else {
        assert forall|c: int| !#[trigger] p2(c) by {
            assert(p1(c) == p2(c));
        };
    }
}

/// Adding the one in-range cell `k` to a cell set of in-range cells
/// summarizes as one accumulator step with `k`.
pub proof fn lemma_cell_tri_insert(p1: spec_fn(int) -> bool, p2: spec_fn(int) -> bool, k: int)
    requires
        cell_ok(k),
        !p1(k),
        forall|c: int| #[trigger] p1(c) ==> cell_ok(c),
        forall|c: int| #[trigger] p2(c) == (p1(c) || c == k),
    ensures
        cell_tri(p2) == cell_tri(p1).spec_increment(k as usize),
{
    assert(p2(k));
    if exists|c1: int, c2: int| c1 != c2 && #[trigger] p1(c1) && #[trigger] p1(c2) {
        let (c1, c2) = choose|c1: int, c2: int| c1 != c2 && #[trigger] p1(c1) && #[trigger] p1(c2);
        assert(p2(c1) && p2(c2));
    } else if exists|c: int| #[trigger] p1(c) {
        let c1 = choose|c: int| #[trigger] p1(c);
        assert(forall|c: int| #[trigger] p1(c) ==> c == c1);
        assert(c1 != k);
        assert(p2(c1) && p2(k));
        assert(cell_tri(p2) == SoloState::<usize>::Ambiguous);
        assert(cell_ok(c1));
        assert(c1 as usize != k as usize);
    } else {
        assert(forall|c: int| #[trigger] p2(c) ==> c == k);
        let cc = choose|c: int| #[trigger] p2(c);
        assert(cc == k);
    }
}

/// Cell `c` has been fed into the accumulator of group `g` and digit `d` once
/// the scan has processed every cell before `k` and, within cell `k`, every
/// digit before `dlim`.
pub open spec fn fed(pre: Seq<CellV>, g: int, d: Num, c: int, k: int, dlim: Num) -> bool {
    &&& in_group(g, c)
    &&& admits_at(pre, c, d)
    &&& (c < k || (c == k && d < dlim))
}

/// The accumulator of group `g` and digit `d` at that point of the scan.
pub open spec fn acc_state(pre: Seq<CellV>, g: int, d: Num, k: int, dlim: Num) -> SoloState<
    usize,
> {
    cell_tri(|c: int| fed(pre, g, d, c, k, dlim))
}

/// Before the scan every accumulator is empty.
pub proof fn lemma_acc_init(pre: Seq<CellV>, g: int, d: Num)
    requires
        digit_ok(d),
    ensures
        acc_state(pre, g, d, 0, 1) == SoloState::<usize>::Empty,
{
    let p = |c: int| fed(pre, g, d, c, 0, 1);
    assert forall|c: int| !#[trigger] p(c) by {
        assert(!fed(pre, g, d, c, 0, 1));
    };
}

/// Stepping past digit `d` of cell `k` feeds `k` into the accumulators of
/// the groups of `k` when `k` admits `d`, and changes nothing else.
pub proof fn lemma_acc_step(pre: Seq<CellV>, g: int, dd: Num, k: int, d: Num)
    requires
        cell_ok(k),
        digit_ok(d),
    ensures
        in_group(g, k) && admits_at(pre, k, dd) && dd == d ==> acc_state(
            pre,
            g,
            dd,
            k,
            (d + 1) as Num,
        ) == acc_state(pre, g, dd, k, d).spec_increment(k as usize),
        !(in_group(g, k) && admits_at(pre, k, dd) && dd == d) ==> acc_state(
            pre,
            g,
            dd,
            k,
            (d + 1) as Num,
        ) == acc_state(pre, g, dd, k, d),
{
    let p1 = |c: int| fed(pre, g, dd, c, k, d);
    let p2 = |c: int| fed(pre, g, dd, c, k, (d + 1) as Num);
    if in_group(g, k) && admits_at(pre, k, dd) && dd == d {
        assert(!p1(k));
        assert forall|c: int| #[trigger] p1(c) implies cell_ok(c) by {}
        assert forall|c: int| #[trigger] p2(c) == (p1(c) || c == k) by {}
        lemma_cell_tri_insert(p1, p2, k);
    } else {
        assert forall|c: int| #[trigger] p1(c) == #[trigger] p2(c) by {}
        lemma_cell_tri_congruence(p1, p2);
    }
}

/// Finishing the digits of cell `k` is the same as standing before cell
/// `k + 1`.
pub proof fn lemma_acc_cell_boundary(pre: Seq<CellV>, g: int, d: Num, k: int)
    requires
        digit_ok(d),
    ensures
        acc_state(pre, g, d, k, 10) == acc_state(pre, g, d, k + 1, 1),
{
    let p1 = |c: int| fed(pre, g, d, c, k, 10);
    let p2 = |c: int| fed(pre, g, d, c, k + 1, 1);
    assert forall|c: int| #[trigger] p1(c) == #[trigger] p2(c) by {}
    lemma_cell_tri_congruence(p1, p2);
}

/// What a finished accumulator says about its group and digit.
pub proof fn lemma_acc_final(pre: Seq<CellV>, g: int, d: Num)
    requires
        group_ok(g),
        digit_ok(d),
    ensures
        acc_state(pre, g, d, 81, 1) is Empty ==> forall|c: int|
            in_group(g, c) ==> !admits_at(pre, c, d),
        acc_state(pre, g, d, 81, 1) matches SoloState::Unique(p) ==> p < 81 && sole_admitter(
            pre,
            g,
            d,
            p as int,
        ) && !group_unsat(pre, g, d),
        acc_state(pre, g, d, 81, 1) is Ambiguous ==> (forall|c: int|
            !sole_admitter(pre, g, d, c)) && !group_unsat(pre, g, d),
{
    let p = |c: int| fed(pre, g, d, c, 81, 1);
    assert(forall|c: int| #[trigger] p(c) == (in_group(g, c) && admits_at(pre, c, d)));
    if exists|c1: int, c2: int| c1 != c2 && #[trigger] p(c1) && #[trigger] p(c2) {
        let (c1, c2) = choose|c1: int, c2: int| c1 != c2 && #[trigger] p(c1) && #[trigger] p(c2);
        assert forall|c: int| !sole_admitter(pre, g, d, c) by {
            if sole_admitter(pre, g, d, c) {
                assert(c1 == c && c2 == c);
            }
        };
        assert(in_group(g, c1) && admits_at(pre, c1, d));
        assert(!group_unsat(pre, g, d));
    } else if exists|c: int| #[trigger] p(c) {
        let c0 = choose|c: int| #[trigger] p(c);
        assert(cell_ok(c0));
        assert(c0 as usize as int == c0);
        assert forall|c2: int| in_group(g, c2) && admits_at(pre, c2, d) implies c2 == c0 by {
            assert(p(c2));
        };
        assert(in_group(g, c0) && admits_at(pre, c0, d));
        assert(!group_unsat(pre, g, d));
    } else {
        assert forall|c: int| in_group(g, c) implies !admits_at(pre, c, d) by {
            assert(!p(c));
        };
    }
}

/// The position of the pair (group `g`, digit `d`) in the resolution scan.
pub open spec fn pair_index(g: int, d: Num) -> int {
    9 * g + (d - 1)
}

/// Distinct group/digit pairs stand at distinct scan positions.
pub proof fn lemma_pair_index_inj(g1: int, d1: Num, g2: int, d2: Num)
    requires
        group_ok(g1),
        digit_ok(d1),
        group_ok(g2),
        digit_ok(d2),
        pair_index(g1, d1) == pair_index(g2, d2),
    ensures
        g1 == g2,
        d1 == d2,
{
}

/// Some group scanned before position `t` nominates cell `c` as the only
/// home of digit `d`.
pub open spec fn nominated_before(pre: Seq<CellV>, c: int, d: Num, t: int) -> bool {
    exists|g: int| group_ok(g) && pair_index(g, d) < t && #[trigger] sole_admitter(pre, g, d, c)
}

/// The solo hint of cell `c` once the resolution scan has processed the
/// pairs before position `t`.
pub open spec fn partial_solo(pre: Seq<CellV>, c: int, t: int) -> SoloState<Num> {
    digit_tri(|d: Num| digit_ok(d) && nominated_before(pre, c, d, t))
}

/// Cell `c` sits in a group that some pair before position `t` found
/// unsatisfiable.
pub open spec fn partial_invalid(pre: Seq<CellV>, c: int, t: int) -> bool {
    exists|g: int, d: Num|
        in_group(g, c) && digit_ok(d) && pair_index(g, d) < t && #[trigger] group_unsat(pre, g, d)
}

/// Stepping the resolution scan past pair (`g`, `d`) adds exactly that
/// pair's nomination.
pub proof fn lemma_nominated_step(pre: Seq<CellV>, c: int, dd: Num, g: int, d: Num)
    requires
        group_ok(g),
        digit_ok(d),
        digit_ok(dd),
    ensures
        nominated_before(pre, c, dd, pair_index(g, d) + 1) == (nominated_before(
            pre,
            c,
            dd,
            pair_index(g, d),
        ) || (dd == d && sole_admitter(pre, g, d, c))),
{
    let t = pair_index(g, d);
    if nominated_before(pre, c, dd, t + 1) {
        let g2 = choose|g2: int|
            group_ok(g2) && pair_index(g2, dd) < t + 1 && #[trigger] sole_admitter(pre, g2, dd, c);
        if pair_index(g2, dd) < t {
            assert(nominated_before(pre, c, dd, t));
        } else {
            lemma_pair_index_inj(g2, dd, g, d);
        }
    }
    if nominated_before(pre, c, dd, t) {
        let g2 = choose|g2: int|
            group_ok(g2) && pair_index(g2, dd) < t && #[trigger] sole_admitter(pre, g2, dd, c);
        assert(nominated_before(pre, c, dd, t + 1));
    }
    if dd == d && sole_admitter(pre, g, d, c) {
        assert(group_ok(g) && pair_index(g, dd) < t + 1 && sole_admitter(pre, g, dd, c));
        assert(nominated_before(pre, c, dd, t + 1));
    }
}

/// Stepping the resolution scan past pair (`g`, `d`) updates the solo hint
/// of each cell by one accumulator step exactly when the pair nominates it.
pub proof fn lemma_partial_solo_step(pre: Seq<CellV>, c: int, g: int, d: Num)
    requires
        group_ok(g),
        digit_ok(d),
    ensures
        sole_admitter(pre, g, d, c) ==> partial_solo(pre, c, pair_index(g, d) + 1) == partial_solo(
            pre,
            c,
            pair_index(g, d),
        ).spec_increment(d),
        !sole_admitter(pre, g, d, c) ==> partial_solo(pre, c, pair_index(g, d) + 1) == partial_solo(
            pre,
            c,
            pair_index(g, d),
        ),
{
    let t = pair_index(g, d);
    let p1 = |dd: Num| digit_ok(dd) && nominated_before(pre, c, dd, t);
    let p2 = |dd: Num| digit_ok(dd) && nominated_before(pre, c, dd, t + 1);
    assert forall|dd: Num| digit_ok(dd) implies nominated_before(pre, c, dd, t + 1) == (
    nominated_before(pre, c, dd, t) || (dd == d && sole_admitter(pre, g, d, c))) by {
        lemma_nominated_step(pre, c, dd, g, d);
    };
    if sole_admitter(pre, g, d, c) {
        assert forall|dd: Num| #[trigger] p2(dd) == (p1(dd) || dd == d) by {}
        lemma_digit_tri_insert(p1, p2, d);
    } else {
        assert forall|dd: Num| #[trigger] p1(dd) == #[trigger] p2(dd) by {}
        lemma_digit_tri_congruence(p1, p2);
    }
}

/// Stepping the resolution scan past pair (`g`, `d`) marks exactly the
/// cells of an unsatisfiable `g`.
pub proof fn lemma_partial_invalid_step(pre: Seq<CellV>, c: int, g: int, d: Num)
    requires
        group_ok(g),
        digit_ok(d),
    ensures
        partial_invalid(pre, c, pair_index(g, d) + 1) == (partial_invalid(
            pre,
            c,
            pair_index(g, d),
        ) || (in_group(g, c) && group_unsat(pre, g, d))),
{
    let t = pair_index(g, d);
    if partial_invalid(pre, c, t + 1) {
        let (g2, d2) = choose|g2: int, d2: Num|
            in_group(g2, c) && digit_ok(d2) && pair_index(g2, d2) < t + 1 && #[trigger] group_unsat(
                pre,
                g2,
                d2,
            );
        if pair_index(g2, d2) < t {
            assert(partial_invalid(pre, c, t));
        } else {
            lemma_pair_index_inj(g2, d2, g, d);
        }
    }
    if partial_invalid(pre, c, t) {
        let (g2, d2) = choose|g2: int, d2: Num|
            in_group(g2, c) && digit_ok(d2) && pair_index(g2, d2) < t && #[trigger] group_unsat(
                pre,
                g2,
                d2,
            );
        assert(partial_invalid(pre, c, t + 1));
    }
    if in_group(g, c) && group_unsat(pre, g, d) {
        assert(in_group(g, c) && digit_ok(d) && pair_index(g, d) < t + 1 && group_unsat(pre, g, d));
        assert(partial_invalid(pre, c, t + 1));
    }
}

/// No two cells sharing a group are assigned the same digit.
pub open spec fn no_duplicates(b: Seq<CellV>) -> bool {
    forall|c1: int, c2: int|
        cell_ok(c1) && cell_ok(c2) && peers(c1, c2) ==> ((#[trigger] b[c1]).value is None || b[c1].value
            != (#[trigger] b[c2]).value)
}

/// How many of the first `k` cells are assigned a value.
pub open spec fn filled_below(b: Seq<CellV>, k: int) -> int
    decreases k,
{
    if k <= 0 {
        0
    } else {
        filled_below(b, k - 1) + if b[k - 1].value is Some {
            1int
        } else {
            0int
        }
    }
}

/// How many cells of the board are assigned a value.
pub open spec fn filled_count(b: Seq<CellV>) -> int {
    filled_below(b, 81)
}

/// The count of assigned cells lies between 0 and `k`, and reaches `k` only
/// when every counted cell is assigned.
pub proof fn lemma_filled_below_bounds(b: Seq<CellV>, k: int)
    requires
        0 <= k,
    ensures
        0 <= filled_below(b, k) <= k,
    decreases k,
{
    if k > 0 {
        lemma_filled_below_bounds(b, k - 1);
    }
}

/// A pass that assigns values but never clears them cannot shrink the count,
/// and strictly grows it when it assigns some empty cell among the first `k`.
pub proof fn lemma_filled_below_grows(a: Seq<CellV>, b: Seq<CellV>, k: int)
    requires
        0 <= k,
        forall|c: int| 0 <= c < k ==> ((#[trigger] a[c]).value is Some ==> (#[trigger] b[c]).value is Some),
    ensures
        filled_below(b, k) >= filled_below(a, k),
        forall|w: int|
            0 <= w < k && (#[trigger] a[w]).value is None && b[w].value is Some ==> filled_below(
                b,
                k,
            ) >= filled_below(a, k) + 1,
    decreases k,
{
    if k > 0 {
        lemma_filled_below_grows(a, b, k - 1);
        assert forall|w: int|
            0 <= w < k && (#[trigger] a[w]).value is None && b[w].value is Some implies filled_below(
            b,
            k,
        ) >= filled_below(a, k) + 1 by {
            if w == k - 1 {
                assert(filled_below(b, k - 1) >= filled_below(a, k - 1));
            } else {
                assert(filled_below(b, k - 1) >= filled_below(a, k - 1) + 1);
            }
        };
    }
}

/// Two boards with the same values have the same count of assigned cells.
pub proof fn lemma_filled_below_same(a: Seq<CellV>, b: Seq<CellV>, k: int)
    requires
        0 <= k,
        forall|c: int| 0 <= c < k ==> (#[trigger] a[c]).value == (#[trigger] b[c]).value,
    ensures
        filled_below(a, k) == filled_below(b, k),
    decreases k,
{
    if k > 0 {
        lemma_filled_below_same(a, b, k - 1);
    }
}

/// Two boards with the same values and pencil-marks derive the same fields:
/// the derived state is a pure projection of the user-controlled state.
pub proof fn lemma_derived_congruence(a: Seq<CellV>, b: Seq<CellV>)
    requires
        a.len() == 81,
        b.len() == 81,
        same_core(a, b),
    ensures
        forall|c: int, d: Num| cell_ok(c) ==> #[trigger] elim_poss(a, c, d) == elim_poss(b, c, d),
        forall|c: int| cell_ok(c) ==> #[trigger] solo_spec(a, c) == solo_spec(b, c),
        forall|c: int| cell_ok(c) ==> #[trigger] invalid_spec(a, c) == invalid_spec(b, c),
{
    assert forall|c: int, d: Num| cell_ok(c) implies #[trigger] elim_poss(a, c, d) == elim_poss(
        b,
        c,
        d,
    ) by {
        if elim_by(a, 81, c, d) {
            let c2 = choose|c2: int|
                0 <= c2 < 81 && c2 != c && peers(c, c2) && (#[trigger] a[c2]).value == Some(d);
            assert(b[c2].value == a[c2].value);
            assert(elim_by(b, 81, c, d));
        }
        if elim_by(b, 81, c, d) {
            let c2 = choose|c2: int|
                0 <= c2 < 81 && c2 != c && peers(c, c2) && (#[trigger] b[c2]).value == Some(d);
            assert(a[c2].value == b[c2].value);
            assert(elim_by(a, 81, c, d));
        }
    };
    assert forall|c: int, d: Num| cell_ok(c) implies #[trigger] admits_at(a, c, d) == admits_at(
        b,
        c,
        d,
    ) by {
        assert(elim_poss(a, c, d) == elim_poss(b, c, d));
        assert(a[c].value == b[c].value && a[c].removed == b[c].removed);
    };
    assert forall|g: int, d: Num, c: int| #[trigger] sole_admitter(a, g, d, c) == sole_admitter(
        b,
        g,
        d,
        c,
    ) by {
        if sole_admitter(a, g, d, c) {
            assert(admits_at(b, c, d) == admits_at(a, c, d));
            assert forall|c2: int| in_group(g, c2) && admits_at(b, c2, d) implies c2 == c by {
                assert(admits_at(a, c2, d) == admits_at(b, c2, d));
            };
        }
        if sole_admitter(b, g, d, c) {
            assert(admits_at(a, c, d) == admits_at(b, c, d));
            assert forall|c2: int| in_group(g, c2) && admits_at(a, c2, d) implies c2 == c by {
                assert(admits_at(b, c2, d) == admits_at(a, c2, d));
            };
        }
    };
    assert forall|c: int, d: Num| #[trigger] nominated(a, c, d) == nominated(b, c, d) by {
        if nominated(a, c, d) {
            let g = choose|g: int| group_ok(g) && #[trigger] sole_admitter(a, g, d, c);
            assert(sole_admitter(b, g, d, c));
        }
        if nominated(b, c, d) {
            let g = choose|g: int| group_ok(g) && #[trigger] sole_admitter(b, g, d, c);
            assert(sole_admitter(a, g, d, c));
        }
    };
    assert forall|c: int| cell_ok(c) implies #[trigger] solo_spec(a, c) == solo_spec(b, c) by {
        let p1 = |d: Num| digit_ok(d) && nominated(a, c, d);
        let p2 = |d: Num| digit_ok(d) && nominated(b, c, d);
        assert forall|d: Num| #[trigger] p1(d) == #[trigger] p2(d) by {
            assert(nominated(a, c, d) == nominated(b, c, d));
        };
        lemma_digit_tri_congruence(p1, p2);
    };
    assert forall|g: int, d: Num| #[trigger] group_unsat(a, g, d) == group_unsat(b, g, d) by {
        if group_unsat(a, g, d) {
            assert forall|c: int| in_group(g, c) implies !admits_at(b, c, d) by {
                assert(admits_at(a, c, d) == admits_at(b, c, d));
            };
            assert forall|c: int| in_group(g, c) implies (#[trigger] b[c]).value != Some(d) by {
                assert(a[c].value == b[c].value);
            };
        }
        if group_unsat(b, g, d) {
            assert forall|c: int| in_group(g, c) implies !admits_at(a, c, d) by {
                assert(admits_at(b, c, d) == admits_at(a, c, d));
            };
            assert forall|c: int| in_group(g, c) implies (#[trigger] a[c]).value != Some(d) by {
                assert(b[c].value == a[c].value);
            };
        }
    };
    assert forall|c: int| cell_ok(c) implies #[trigger] invalid_spec(a, c) == invalid_spec(
        b,
        c,
    ) by {
        if invalid_spec(a, c) {
            let (g, d) = choose|g: int, d: Num|
                in_group(g, c) && digit_ok(d) && #[trigger] group_unsat(a, g, d);
            assert(group_unsat(b, g, d));
        }
        if invalid_spec(b, c) {
            let (g, d) = choose|g: int, d: Num|
                in_group(g, c) && digit_ok(d) && #[trigger] group_unsat(b, g, d);
            assert(group_unsat(a, g, d));
        }
    };
}

/// After the whole resolution scan the partial hints are the specified ones.
pub proof fn lemma_analysis_complete(pre: Seq<CellV>, c: int)
    ensures
        partial_solo(pre, c, 243) == solo_spec(pre, c),
        partial_invalid(pre, c, 243) == invalid_spec(pre, c),
{
    let p1 = |d: Num| digit_ok(d) && nominated_before(pre, c, d, 243);
    let p2 = |d: Num| digit_ok(d) && nominated(pre, c, d);
    assert forall|d: Num| #[trigger] p1(d) == #[trigger] p2(d) by {
        if p2(d) {
            let g = choose|g: int| group_ok(g) && #[trigger] sole_admitter(pre, g, d, c);
            assert(pair_index(g, d) < 243);
            assert(nominated_before(pre, c, d, 243));
        }
        if p1(d) {
            let g = choose|g: int|
                group_ok(g) && pair_index(g, d) < 243 && #[trigger] sole_admitter(pre, g, d, c);
            assert(nominated(pre, c, d));
        }
    };
    lemma_digit_tri_congruence(p1, p2);
    if partial_invalid(pre, c, 243) {
        let (g, d) = choose|g: int, d: Num|
            in_group(g, c) && digit_ok(d) && pair_index(g, d) < 243 && #[trigger] group_unsat(
                pre,
                g,
                d,
            );
        assert(invalid_spec(pre, c));
    }
    if invalid_spec(pre, c) {
        let (g, d) = choose|g: int, d: Num|
            in_group(g, c) && digit_ok(d) && #[trigger] group_unsat(pre, g, d);
        assert(pair_index(g, d) < 243);
        assert(partial_invalid(pre, c, 243));
    }
}

} // verus!
