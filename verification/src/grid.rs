//! The board and the engine's operations on it: `regenerate`, `fill`,
//! `clear`, `toggle_pencil_mark` and `set_value`.

use vstd::prelude::*;

use crate::cell::Cell;
use crate::cell::CellV;
use crate::cell::default_cell;
use crate::cell::spec_fill;
use crate::cell::spec_infer;
use crate::consts::Num;
use crate::model;
use crate::solo_state::SoloState;
use crate::sudoku_array::SudokuArray;

verus! {

/// The 9 x 9 board, its cells in row-major order: cell (y, x) at 9 * y + x.
pub struct State {
    cells: Vec<Cell>,
}

impl View for State {
    type V = Seq<CellV>;

    closed spec fn view(&self) -> Seq<CellV> {
        self.cells@.map_values(|c: Cell| c@)
    }
}

impl State {
    pub open spec fn wf(&self) -> bool {
        model::board_wf(self@)
    }

    /// A fresh board of 81 default cells.
    pub fn new() -> (r: Self)
        ensures
            r.wf(),
            forall|c: int| model::cell_ok(c) ==> r@[c] == default_cell(),
    {
        let mut cells: Vec<Cell> = Vec::new();
        let mut k: usize = 0;
        while k < 81
            invariant
                k <= 81,
                cells@.len() == k,
                forall|c: int| 0 <= c < k ==> (#[trigger] cells@[c])@ == default_cell(),
            decreases 81 - k,
        {
            cells.push(Cell::default());
            k += 1;
        }
        let r = State { cells };
        proof {
            assert(forall|c: int| model::cell_ok(c) ==> r@[c] == (#[trigger] r.cells@[c])@);
        }
        r
    }

    /// A read-only view of the cell at row `y`, column `x`.
    pub fn cell(&self, y: usize, x: usize) -> (r: &Cell)
        requires
            self.wf(),
            y < 9,
            x < 9,
        ensures
            r@ == self@[9 * y + x],
            r.wf(),
    {
        proof {
            assert(crate::cell::cell_wf(self@[9 * y + x]));
        }
        &self.cells[9 * y + x]
    }

    /// Assigns or clears the value of the cell at row `y`, column `x`. The
    /// caller is expected to regenerate afterwards.
    pub fn set_value(&mut self, y: usize, x: usize, v: Option<Num>)
        requires
            old(self).wf(),
            y < 9,
            x < 9,
            match v {
                Some(n) => 1 <= n <= 9,
                None => true,
            },
        ensures
            final(self).wf(),
            final(self)@ == old(self)@.update(
                9 * y + x,
                CellV { value: v, ..old(self)@[9 * y + x] },
            ),
    {
        let k = 9 * y + x;
        proof {
            assert(crate::cell::cell_wf(self@[k as int]));
        }
        self.cells[k].set_value(v);
        proof {
            assert(self@ =~= old(self)@.update(
                k as int,
                (CellV { value: v, ..old(self)@[k as int] }),
            ));
        }
    }

    /// Flips the pencil-mark for digit `d` on the cell at row `y`, column
    /// `x`, but only while the cell is empty and `d` is still a candidate
    /// there; otherwise does nothing. The caller is expected to regenerate
    /// afterwards.
    pub fn toggle_pencil_mark(&mut self, y: usize, x: usize, d: Num)
        requires
            old(self).wf(),
            y < 9,
            x < 9,
            1 <= d <= 9,
        ensures
            final(self).wf(),
            ({
                let k = 9 * y + x;
                let cv = old(self)@[k];
                if cv.value is None && cv.poss[d - 1] {
                    final(self)@ == old(self)@.update(
                        k,
                        CellV { removed: cv.removed.update(d - 1, !cv.removed[d - 1]), ..cv },
                    )
                } else {
                    final(self)@ == old(self)@
                }
            }),
    {
        let k = 9 * y + x;
        proof {
            assert(crate::cell::cell_wf(self@[k as int]));
        }
        if self.cells[k].value().is_none() && self.cells[k].poss_get(d) {
            let cur = self.cells[k].removed_get(d);
            self.cells[k].removed_set(d, !cur);
            proof {
                let cv = old(self)@[k as int];
                assert(self@ =~= old(self)@.update(
                    k as int,
                    (CellV { removed: cv.removed.update(d - 1, !cv.removed[d - 1]), ..cv }),
                ));
            }
        } else {
            proof {
                assert(self@ =~= old(self)@);
            }
        }
    }

    /// Resets every cell to its default. The derived fields then already
    /// describe the empty board.
    pub fn clear(&mut self)
        requires
            old(self).wf(),
        ensures
            final(self).wf(),
            final(self)@.len() == 81,
            forall|c: int| model::cell_ok(c) ==> final(self)@[c] == default_cell(),
    {
        let mut k: usize = 0;
        while k < 81
            invariant
                k <= 81,
                self.cells@.len() == 81,
                forall|c: int| 0 <= c < k ==> (#[trigger] self.cells@[c])@ == default_cell(),
            decreases 81 - k,
        {
            self.cells.set(k, Cell::default());
            k += 1;
        }
        proof {
            assert(forall|c: int|
                model::cell_ok(c) ==> self@[c] == (#[trigger] self.cells@[c])@);
        }
    }

    /// Assigns its forced digit to every cell that has one; reports whether
    /// any cell changed. The caller is expected to regenerate afterwards
    /// when it did.
    pub fn fill(&mut self) -> (r: bool)
        requires
            old(self).wf(),
        ensures
            final(self).wf(),
            final(self)@.len() == 81,
            forall|c: int| model::cell_ok(c) ==> final(self)@[c] == spec_fill(old(self)@[c]),
            r == exists|c: int|
                model::cell_ok(c) && #[trigger] spec_infer(old(self)@[c]) is Some,
    {
        let mut changed = false;
        let mut k: usize = 0;
        while k < 81
            invariant
                k <= 81,
                self@.len() == 81,
                old(self).wf(),
                forall|c: int| k <= c < 81 ==> self@[c] == old(self)@[c],
                forall|c: int| 0 <= c < k ==> self@[c] == spec_fill(old(self)@[c]),
                changed == exists|c: int|
                    0 <= c < k && #[trigger] spec_infer(old(self)@[c]) is Some,
            decreases 81 - k,
        {
            proof {
                assert(self@[k as int] == old(self)@[k as int]);
                assert(crate::cell::cell_wf(self@[k as int]));
            }
            let ghost snap = self@;
            let did = self.cells[k].attempt_fill();
            proof {
                assert(forall|c: int| 0 <= c < 81 && c != k ==> self@[c] == snap[c]);
                assert(self@[k as int] == self.cells@[k as int]@);
                assert(self@[k as int] =~= spec_fill(old(self)@[k as int]));
                assert forall|c: int| 0 <= c < k + 1 implies self@[c] == spec_fill(
                    old(self)@[c],
                ) by {
                    if c < k {
                        assert(self@[c] == snap[c]);
                        assert(snap[c] == spec_fill(old(self)@[c]));
                    }
                };
            }
            changed = changed || did;
            k += 1;
        }
        changed
    }
}

/// The flat index of the `i`-th cell of group `g`.
fn group_cell(g: usize, i: usize) -> (c: usize)
    requires
        g < 27,
        i < 9,
    ensures
        c < 81,
        c as int == model::group_member(g as int, i as int),
        model::in_group(g as int, c as int),
{
    proof {
        model::lemma_member_in_group(g as int, i as int);
    }
    if g < 9 {
        9 * g + i
    } else if g < 18 {
        9 * i + (g - 9)
    } else {
        let b = g - 18;
        27 * (b / 3) + 9 * (i / 3) + 3 * (b % 3) + i % 3
    }
}

impl State {
    /// Overwrites the derived fields of every cell with their defaults.
    fn reset_all_generated(&mut self)
        requires
            old(self).wf(),
        ensures
            final(self).wf(),
            final(self)@.len() == 81,
            model::same_core(old(self)@, final(self)@),
            forall|c: int| model::cell_ok(c) ==> model::reset_cell(#[trigger] final(self)@[c]),
    {
        let mut k: usize = 0;
        while k < 81
            invariant
                k <= 81,
                self@.len() == 81,
                self.wf(),
                model::same_core(old(self)@, self@),
                forall|c: int| 0 <= c < k ==> model::reset_cell(#[trigger] self@[c]),
            decreases 81 - k,
        {
            let ghost snap = self@;
            proof {
                assert(crate::cell::cell_wf(self@[k as int]));
            }
            self.cells[k].reset_generated();
            proof {
                assert(forall|c: int| 0 <= c < 81 && c != k ==> self@[c] == snap[c]);
                assert(self@[k as int] == self.cells@[k as int]@);
                assert(model::reset_cell(self@[k as int]));
                assert forall|c: int| 0 <= c < k + 1 implies model::reset_cell(
                    #[trigger] self@[c],
                ) by {
                    if c < k {
                        assert(self@[c] == snap[c]);
                        assert(model::reset_cell(snap[c]));
                    }
                };
                assert forall|c: int| 0 <= c < 81 implies crate::cell::cell_wf(
                    #[trigger] self@[c],
                ) by {
                    if c != k {
                        assert(self@[c] == snap[c]);
                    }
                };
                assert forall|c: int| 0 <= c < 81 implies (#[trigger] self@[c]).value == old(
                    self,
                )@[c].value && self@[c].removed == old(self)@[c].removed by {
                    if c != k {
                        assert(self@[c] == snap[c]);
                    }
                };
            }
            k += 1;
        }
    }

    /// Removes digit `v` from the candidate set of every cell of group `g`.
    fn clear_digit_in_group(&mut self, g: usize, v: Num)
        requires
            old(self).wf(),
            g < 27,
            1 <= v <= 9,
        ensures
            final(self).wf(),
            final(self)@.len() == 81,
            model::only_poss_changed(old(self)@, final(self)@),
            forall|c: int, d: Num|
                model::cell_ok(c) && model::digit_ok(d) ==> (#[trigger] final(self)@[c].poss[d
                    - 1]) == (old(self)@[c].poss[d - 1] && !(d == v && model::in_group(
                    g as int,
                    c,
                ))),
    {
        let mut i: usize = 0;
        while i < 9
            invariant
                i <= 9,
                g < 27,
                1 <= v <= 9,
                self@.len() == 81,
                self.wf(),
                model::only_poss_changed(old(self)@, self@),
                forall|c: int, d: Num|
                    model::cell_ok(c) && model::digit_ok(d) ==> (#[trigger] self@[c].poss[d - 1])
                        == (old(self)@[c].poss[d - 1] && !(d == v && exists|j: int|
                        0 <= j < i && #[trigger] model::group_member(g as int, j) == c)),
            decreases 9 - i,
        {
            let c = group_cell(g, i);
            let ghost snap = self@;
            proof {
                assert(crate::cell::cell_wf(self@[c as int]));
            }
            self.cells[c].poss_set(v, false);
            proof {
                assert(forall|cc: int| 0 <= cc < 81 && cc != c ==> self@[cc] == snap[cc]);
                assert(self@[c as int] == self.cells@[c as int]@);
                assert forall|cc: int, d: Num|
                    model::cell_ok(cc) && model::digit_ok(d) implies (#[trigger] self@[cc].poss[d
                    - 1]) == (old(self)@[cc].poss[d - 1] && !(d == v && exists|j: int|
                    0 <= j < i + 1 && #[trigger] model::group_member(g as int, j) == cc)) by {
                    assert(snap[cc].poss[d - 1] == (old(self)@[cc].poss[d - 1] && !(d == v
                        && exists|j: int|
                        0 <= j < i && #[trigger] model::group_member(g as int, j) == cc)));
                    if cc == c as int {
                        assert(self@[cc].poss == snap[cc].poss.update(v - 1, false));
                        if d == v {
                            assert(model::group_member(g as int, i as int) == cc);
                            assert(exists|j: int|
                                0 <= j < i + 1 && #[trigger] model::group_member(g as int, j)
                                    == cc);
                            assert(!self@[cc].poss[d - 1]);
                        } else {
                            assert(self@[cc].poss[d - 1] == snap[cc].poss[d - 1]);
                        }
                    } else {
                        assert(self@[cc] == snap[cc]);
                        assert forall|j: int|
                            0 <= j < i + 1 && #[trigger] model::group_member(g as int, j)
                                == cc implies j < i by {
                            if j == i {
                                assert(model::group_member(g as int, j) == c as int);
                            }
                        };
                    }
                };
                assert forall|cc: int| 0 <= cc < 81 implies crate::cell::cell_wf(
                    #[trigger] self@[cc],
                ) by {
                    if cc != c as int {
                        assert(self@[cc] == snap[cc]);
                    }
                };
                assert forall|cc: int| 0 <= cc < 81 implies (#[trigger] self@[cc]).value
                    == old(self)@[cc].value && self@[cc].removed == old(self)@[cc].removed
                    && self@[cc].solo == old(self)@[cc].solo && self@[cc].invalid
                    == old(self)@[cc].invalid by {
                    if cc != c as int {
                        assert(self@[cc] == snap[cc]);
                    }
                };
            }
            i += 1;
        }
        proof {
            model::lemma_group_members_cover(g as int);
            assert forall|c: int, d: Num|
                model::cell_ok(c) && model::digit_ok(d) implies (#[trigger] self@[c].poss[d - 1])
                == (old(self)@[c].poss[d - 1] && !(d == v && model::in_group(g as int, c))) by {
                assert((exists|j: int|
                    0 <= j < 9 && #[trigger] model::group_member(g as int, j) == c)
                    == model::in_group(g as int, c));
            };
        }
    }

    /// The elimination pass: scans the cells in row-major order and, for each
    /// assigned digit, removes it from the candidate sets of the cell's peers
    /// and overwrites the cell's own candidate set with the conflict-aware
    /// singleton.
    fn eliminate_all(&mut self, Ghost(pre): Ghost<Seq<CellV>>)
        requires
            old(self).wf(),
            pre.len() == 81,
            model::same_core(pre, old(self)@),
            forall|c: int| model::cell_ok(c) ==> model::reset_cell(#[trigger] old(self)@[c]),
        ensures
            final(self).wf(),
            final(self)@.len() == 81,
            model::only_poss_changed(old(self)@, final(self)@),
            forall|c: int, d: Num|
                model::cell_ok(c) && model::digit_ok(d) ==> (#[trigger] final(self)@[c].poss[d
                    - 1]) == model::elim_poss(pre, c, d),
    {
        let mut k: usize = 0;
        while k < 81
            invariant
                k <= 81,
                self@.len() == 81,
                self.wf(),
                pre.len() == 81,
                model::same_core(pre, old(self)@),
                model::only_poss_changed(old(self)@, self@),
                forall|c: int, d: Num|
                    model::cell_ok(c) && model::digit_ok(d) ==> (#[trigger] self@[c].poss[d - 1])
                        == model::elim_partial(pre, k as int, c, d),
            decreases 81 - k,
        {
            proof {
                assert(crate::cell::cell_wf(self@[k as int]));
                assert(self@[k as int].value == pre[k as int].value);
            }
            let val = self.cells[k].value();
            if let Some(v) = val {
                let was = self.cells[k].poss_get(v);
                let y = k / 9;
                let x = k % 9;
                let b = 3 * (k / 27) + (k % 9) / 3;
                proof {
                    assert(y as int == model::row_of(k as int));
                    assert(x as int == model::col_of(k as int));
                    assert(b as int == model::box_of(k as int));
                    vstd::arithmetic::div_mod::lemma_mod_pos_bound(k as int, 9);
                    vstd::arithmetic::div_mod::lemma_mod_pos_bound(k as int, 27);
                    assert(y < 9 && x < 9 && b < 9);
                }
                let ghost s0 = self@;
                self.clear_digit_in_group(9 + x, v);
                let ghost s1 = self@;
                self.clear_digit_in_group(y, v);
                let ghost s2 = self@;
                self.clear_digit_in_group(18 + b, v);
                let ghost s3 = self@;
                let mut arr = SudokuArray::new(false);
                arr.set(v, was);
                proof {
                    assert(crate::cell::cell_wf(self@[k as int]));
                }
                self.cells[k].poss_assign(arr);
                proof {
                    let ghost s4 = self@;
                    let ki = k as int;
                    assert(forall|c: int| 0 <= c < 81 && c != ki ==> s4[c] == s3[c]);
                    assert(s4[ki] == self.cells@[ki]@);
                    assert(pre[ki].value == Some(v));
                    assert(was == model::elim_partial(pre, ki, ki, v));
                    assert forall|c: int, d: Num|
                        model::cell_ok(c) && model::digit_ok(d) implies (
                    #[trigger] s4[c].poss[d - 1]) == model::elim_partial(pre, ki + 1, c, d) by {
                        model::lemma_elim_by_step(pre, ki, c, d);
                        model::lemma_peer_groups(ki, c);
                        if c == ki {
                            assert(s4[c].poss == arr@);
                            if d == v {
                                assert(arr@[d - 1] == was);
                                assert(!model::peers(ki, ki));
                                assert(model::elim_by(pre, ki + 1, ki, v) == model::elim_by(
                                    pre,
                                    ki,
                                    ki,
                                    v,
                                ));
                            } else {
                                assert(arr@[d - 1] == false);
                            }
                        } else {
                            assert(s4[c].poss[d - 1] == s3[c].poss[d - 1]);
                            assert(s3[c].poss[d - 1] == (s2[c].poss[d - 1] && !(d == v
                                && model::in_group(18 + b, c))));
                            assert(s2[c].poss[d - 1] == (s1[c].poss[d - 1] && !(d == v
                                && model::in_group(y as int, c))));
                            assert(s1[c].poss[d - 1] == (s0[c].poss[d - 1] && !(d == v
                                && model::in_group(9 + x, c))));
                            assert(s0[c].poss[d - 1] == model::elim_partial(pre, ki, c, d));
                            assert(model::peers(ki, c) == model::peers(c, ki));
                        }
                    };
                    assert forall|c: int| 0 <= c < 81 implies crate::cell::cell_wf(
                        #[trigger] s4[c],
                    ) by {
                        if c != ki {
                            assert(s4[c] == s3[c]);
                        }
                    };
                    assert forall|c: int| 0 <= c < 81 implies (#[trigger] s4[c]).value == old(
                        self,
                    )@[c].value && s4[c].removed == old(self)@[c].removed && s4[c].solo == old(
                        self,
                    )@[c].solo && s4[c].invalid == old(self)@[c].invalid by {
                        if c != ki {
                            assert(s4[c] == s3[c]);
                        }
                    };
                }
            } else {
                proof {
                    let ki = k as int;
                    assert(pre[ki].value is None);
                    assert forall|c: int, d: Num|
                        model::cell_ok(c) && model::digit_ok(d) implies (
                    #[trigger] self@[c].poss[d - 1]) == model::elim_partial(pre, ki + 1, c, d) by {
                        model::lemma_elim_by_step(pre, ki, c, d);
                    };
                }
            }
            k += 1;
        }
    }

    /// The group analysis: accumulates, per group and digit, which cell
    /// alone admits the digit, then resolves the accumulators into per-cell
    /// solo hints and unsatisfiable-group flags.
    fn solve_groups(&mut self, Ghost(pre): Ghost<Seq<CellV>>)
        requires
            old(self).wf(),
            pre.len() == 81,
            model::same_core(pre, old(self)@),
            forall|c: int, d: Num|
                model::cell_ok(c) && model::digit_ok(d) ==> (#[trigger] old(self)@[c].poss[d - 1])
                    == model::elim_poss(pre, c, d),
            forall|c: int|
                model::cell_ok(c) ==> (#[trigger] old(self)@[c]).solo == SoloState::<Num>::Empty
                    && !old(self)@[c].invalid,
        ensures
            final(self).wf(),
            final(self)@.len() == 81,
            model::only_hints_changed(old(self)@, final(self)@),
            forall|c: int|
                model::cell_ok(c) ==> (#[trigger] final(self)@[c]).solo == model::solo_spec(
                    pre,
                    c,
                ),
            forall|c: int|
                model::cell_ok(c) ==> (#[trigger] final(self)@[c]).invalid == model::invalid_spec(
                    pre,
                    c,
                ),
    {
        let mut acc: Vec<SudokuArray<SoloState<usize>>> = Vec::new();
        let mut g: usize = 0;
        while g < 27
            invariant
                g <= 27,
                acc@.len() == g,
                forall|gg: int| 0 <= gg < g ==> (#[trigger] acc@[gg]).wf(),
                forall|gg: int, i: int|
                    0 <= gg < g && 0 <= i < 9 ==> (#[trigger] acc@[gg]@[i])
                        == SoloState::<usize>::Empty,
            decreases 27 - g,
        {
            acc.push(SudokuArray::new(SoloState::Empty));
            g += 1;
        }
        proof {
            assert forall|gg: int, dd: Num| 0 <= gg < 27 && 1 <= dd <= 9 implies (
            #[trigger] acc@[gg]@[dd - 1]) == model::acc_state(pre, gg, dd, 0, 1) by {
                model::lemma_acc_init(pre, gg, dd);
            };
        }
        let mut k: usize = 0;
        while k < 81
            invariant
                k <= 81,
                self == old(self),
                self@.len() == 81,
                self.wf(),
                pre.len() == 81,
                model::same_core(pre, old(self)@),
                forall|c: int, d: Num|
                    model::cell_ok(c) && model::digit_ok(d) ==> (#[trigger] old(
                        self,
                    )@[c].poss[d - 1]) == model::elim_poss(pre, c, d),
                acc@.len() == 27,
                forall|gg: int| 0 <= gg < 27 ==> (#[trigger] acc@[gg]).wf(),
                forall|gg: int, dd: Num|
                    0 <= gg < 27 && 1 <= dd <= 9 ==> (#[trigger] acc@[gg]@[dd - 1])
                        == model::acc_state(pre, gg, dd, k as int, 1),
            decreases 81 - k,
        {
            proof {
                assert(crate::cell::cell_wf(self@[k as int]));
                vstd::arithmetic::div_mod::lemma_mod_pos_bound(k as int, 9);
                vstd::arithmetic::div_mod::lemma_mod_pos_bound(k as int, 27);
            }
            let y = k / 9;
            let x = k % 9;
            let b = 3 * (k / 27) + (k % 9) / 3;
            let empty = self.cells[k].value().is_none();
            let mut d: Num = 1;
            while d <= 9
                invariant
                    1 <= d <= 10,
                    k < 81,
                    self == old(self),
                    self@.len() == 81,
                    self.wf(),
                    pre.len() == 81,
                    model::same_core(pre, old(self)@),
                    forall|c: int, dd: Num|
                        model::cell_ok(c) && model::digit_ok(dd) ==> (#[trigger] old(
                            self,
                        )@[c].poss[dd - 1]) == model::elim_poss(pre, c, dd),
                    y as int == model::row_of(k as int),
                    x as int == model::col_of(k as int),
                    b as int == model::box_of(k as int),
                    y < 9,
                    x < 9,
                    b < 9,
                    empty == (self@[k as int].value is None),
                    acc@.len() == 27,
                    forall|gg: int| 0 <= gg < 27 ==> (#[trigger] acc@[gg]).wf(),
                    forall|gg: int, dd: Num|
                        0 <= gg < 27 && 1 <= dd <= 9 ==> (#[trigger] acc@[gg]@[dd - 1])
                            == model::acc_state(pre, gg, dd, k as int, d),
                decreases 10 - d,
            {
                proof {
                    assert(crate::cell::cell_wf(self@[k as int]));
                }
                let adm = empty && self.cells[k].poss_get(d) && !self.cells[k].removed_get(d);
                proof {
                    assert(self@[k as int].value == pre[k as int].value);
                    assert(self@[k as int].removed == pre[k as int].removed);
                    assert(self@[k as int].poss[d - 1] == model::elim_poss(pre, k as int, d));
                    assert(adm == model::admits_at(pre, k as int, d));
                }
                let ghost acc0 = acc@;
                if adm {
                    let mut s = acc[y].get(d);
                    s.increment(k);
                    acc[y].set(d, s);
                    let mut s2 = acc[9 + x].get(d);
                    s2.increment(k);
                    acc[9 + x].set(d, s2);
                    let mut s3 = acc[18 + b].get(d);
                    s3.increment(k);
                    acc[18 + b].set(d, s3);
                }
                proof {
                    let ki = k as int;
                    assert forall|gg: int, dd: Num| 0 <= gg < 27 && 1 <= dd <= 9 implies (
                    #[trigger] acc@[gg]@[dd - 1]) == model::acc_state(
                        pre,
                        gg,
                        dd,
                        ki,
                        (d + 1) as Num,
                    ) by {
                        model::lemma_acc_step(pre, gg, dd, ki, d);
                        model::lemma_groups_of_cell(gg, ki);
                        if model::in_group(gg, ki) && model::admits_at(pre, ki, dd) && dd == d {
                            assert(adm);
                            assert(gg == y as int || gg == 9 + x as int || gg == 18 + b as int);
                            assert(acc@[gg]@[dd - 1] == acc0[gg]@[dd - 1].spec_increment(k));
                        } else {
                            if adm {
                                if gg == y as int || gg == 9 + x as int || gg == 18 + b as int {
                                    assert(model::in_group(gg, ki));
                                    assert(acc@[gg]@[dd - 1] == acc0[gg]@[dd - 1]);
                                } else {
                                    assert(acc@[gg]@[dd - 1] == acc0[gg]@[dd - 1]);
                                }
                            } else {
                                assert(acc@[gg]@[dd - 1] == acc0[gg]@[dd - 1]);
                            }
                        }
                    };
                }
                d += 1;
            }
            proof {
                assert forall|gg: int, dd: Num| 0 <= gg < 27 && 1 <= dd <= 9 implies (
                #[trigger] acc@[gg]@[dd - 1]) == model::acc_state(
                    pre,
                    gg,
                    dd,
                    k as int + 1,
                    1,
                ) by {
                    model::lemma_acc_cell_boundary(pre, gg, dd, k as int);
                };
            }
            k += 1;
        }
        let mut g: usize = 0;
        while g < 27
            invariant
                g <= 27,
                self@.len() == 81,
                self.wf(),
                pre.len() == 81,
                acc@.len() == 27,
                forall|gg: int| 0 <= gg < 27 ==> (#[trigger] acc@[gg]).wf(),
                forall|gg: int, dd: Num|
                    0 <= gg < 27 && 1 <= dd <= 9 ==> (#[trigger] acc@[gg]@[dd - 1])
                        == model::acc_state(pre, gg, dd, 81, 1),
                model::same_core(pre, old(self)@),
                model::only_hints_changed(old(self)@, self@),
                forall|c: int|
                    model::cell_ok(c) ==> (#[trigger] self@[c]).solo == model::partial_solo(
                        pre,
                        c,
                        9 * (g as int),
                    ),
                forall|c: int|
                    model::cell_ok(c) ==> (#[trigger] self@[c]).invalid == model::partial_invalid(
                        pre,
                        c,
                        9 * (g as int),
                    ),
            decreases 27 - g,
        {
            let mut d: Num = 1;
            while d <= 9
                invariant
                    1 <= d <= 10,
                    g < 27,
                    self@.len() == 81,
                    self.wf(),
                    pre.len() == 81,
                    acc@.len() == 27,
                    forall|gg: int| 0 <= gg < 27 ==> (#[trigger] acc@[gg]).wf(),
                    forall|gg: int, dd: Num|
                        0 <= gg < 27 && 1 <= dd <= 9 ==> (#[trigger] acc@[gg]@[dd - 1])
                            == model::acc_state(pre, gg, dd, 81, 1),
                    model::same_core(pre, old(self)@),
                    model::only_hints_changed(old(self)@, self@),
                    forall|c: int|
                        model::cell_ok(c) ==> (#[trigger] self@[c]).solo == model::partial_solo(
                            pre,
                            c,
                            9 * (g as int) + d - 1,
                        ),
                    forall|c: int|
                        model::cell_ok(c) ==> (#[trigger] self@[c]).invalid
                            == model::partial_invalid(pre, c, 9 * (g as int) + d - 1),
                decreases 10 - d,
            {
                let ghost t = 9 * (g as int) + d - 1;
                proof {
                    assert(t == model::pair_index(g as int, d));
                }
                let a = acc[g].get(d);
                proof {
                    model::lemma_acc_final(pre, g as int, d);
                }
                match a {
                    SoloState::Unique(p) => {
                        proof {
                            assert(model::sole_admitter(pre, g as int, d, p as int));
                            assert(crate::cell::cell_wf(self@[p as int]));
                        }
                        let ghost snap = self@;
                        self.cells[p].solo_increment(d);
                        proof {
                            let pi = p as int;
                            assert(forall|c: int| 0 <= c < 81 && c != pi ==> self@[c] == snap[c]);
                            assert(self@[pi] == self.cells@[pi]@);
                            assert forall|c: int| model::cell_ok(c) implies (
                            #[trigger] self@[c]).solo == model::partial_solo(pre, c, t + 1) by {
                                model::lemma_partial_solo_step(pre, c, g as int, d);
                                if c == pi {
                                    assert(self@[c].solo == snap[c].solo.spec_increment(d));
                                } else {
                                    if model::sole_admitter(pre, g as int, d, c) {
                                        assert(model::in_group(g as int, pi) && model::admits_at(
                                            pre,
                                            pi,
                                            d,
                                        ));
                                        assert(pi == c);
                                    }
                                    assert(self@[c] == snap[c]);
                                }
                            };
                            assert forall|c: int| model::cell_ok(c) implies (
                            #[trigger] self@[c]).invalid == model::partial_invalid(
                                pre,
                                c,
                                t + 1,
                            ) by {
                                model::lemma_partial_invalid_step(pre, c, g as int, d);
                                if c != pi {
                                    assert(self@[c] == snap[c]);
                                } else {
                                    assert(self@[c].invalid == snap[c].invalid);
                                }
                            };
                            assert forall|c: int| 0 <= c < 81 implies crate::cell::cell_wf(
                                #[trigger] self@[c],
                            ) && self@[c].value == old(self)@[c].value && self@[c].removed == old(
                                self,
                            )@[c].removed && self@[c].poss == old(self)@[c].poss by {
                                if c != pi {
                                    assert(self@[c] == snap[c]);
                                }
                            };
                        }
                    },
                    SoloState::Empty => {
                        let mut found = false;
                        let mut i: usize = 0;
                        while i < 9
                            invariant
                                i <= 9,
                                g < 27,
                                1 <= d <= 9,
                                self@.len() == 81,
                                self.wf(),
                                pre.len() == 81,
                                model::same_core(pre, old(self)@),
                                model::only_hints_changed(old(self)@, self@),
                                found == exists|j: int|
                                    0 <= j < i && pre[#[trigger] model::group_member(
                                        g as int,
                                        j,
                                    )].value == Some(d),
                            decreases 9 - i,
                        {
                            let c = group_cell(g, i);
                            proof {
                                assert(crate::cell::cell_wf(self@[c as int]));
                                assert(self@[c as int].value == pre[c as int].value);
                            }
                            let vv = self.cells[c].value();
                            if let Some(w) = vv {
                                if w == d {
                                    found = true;
                                    proof {
                                        assert(pre[model::group_member(g as int, i as int)].value
                                            == Some(d));
                                    }
                                }
                            }
                            proof {
                                assert(found == exists|j: int|
                                    0 <= j < i + 1 && pre[#[trigger] model::group_member(
                                        g as int,
                                        j,
                                    )].value == Some(d));
                            }
                            i += 1;
                        }
                        proof {
                            model::lemma_group_members_cover(g as int);
                            if found {
                                let j = choose|j: int|
                                    0 <= j < 9 && pre[#[trigger] model::group_member(
                                        g as int,
                                        j,
                                    )].value == Some(d);
                                model::lemma_member_in_group(g as int, j);
                                assert(model::in_group(g as int, model::group_member(g as int, j))
                                    && pre[model::group_member(g as int, j)].value == Some(d));
                            }
                            if exists|c: int|
                                #[trigger] model::in_group(g as int, c) && pre[c].value == Some(
                                    d,
                                ) {
                                let c = choose|c: int|
                                    #[trigger] model::in_group(g as int, c) && pre[c].value
                                        == Some(d);
                                assert(exists|j: int|
                                    0 <= j < 9 && #[trigger] model::group_member(g as int, j)
                                        == c);
                                let j = choose|j: int|
                                    0 <= j < 9 && #[trigger] model::group_member(g as int, j)
                                        == c;
                                assert(pre[model::group_member(g as int, j)].value == Some(d));
                                assert(found);
                            }
                            assert(found == exists|c: int|
                                #[trigger] model::in_group(g as int, c) && pre[c].value == Some(
                                    d,
                                ));
                        }
                        if !found {
                            proof {
                                assert forall|c: int|
                                    model::in_group(g as int, c) implies (#[trigger] pre[c]).value
                                    != Some(d) by {
                                    assert(!(model::in_group(g as int, c) && pre[c].value == Some(
                                        d,
                                    )));
                                };
                                assert(model::group_unsat(pre, g as int, d));
                            }
                            let ghost before = self@;
                            let mut i: usize = 0;
                            while i < 9
                                invariant
                                    i <= 9,
                                    g < 27,
                                    1 <= d <= 9,
                                    self@.len() == 81,
                                    self.wf(),
                                    pre.len() == 81,
                                    before.len() == 81,
                                    model::same_core(pre, old(self)@),
                                    model::only_hints_changed(old(self)@, self@),
                                    forall|c: int|
                                        model::cell_ok(c) ==> (#[trigger] self@[c]).solo
                                            == before[c].solo,
                                    forall|c: int|
                                        model::cell_ok(c) ==> (#[trigger] self@[c]).invalid == (
                                        before[c].invalid || exists|j: int|
                                            0 <= j < i && #[trigger] model::group_member(
                                                g as int,
                                                j,
                                            ) == c),
                                decreases 9 - i,
                            {
                                let c = group_cell(g, i);
                                let ghost snap = self@;
                                proof {
                                    assert(crate::cell::cell_wf(self@[c as int]));
                                }
                                self.cells[c].set_invalid(true);
                                proof {
                                    let ci = c as int;
                                    assert(forall|cc: int|
                                        0 <= cc < 81 && cc != ci ==> self@[cc] == snap[cc]);
                                    assert(self@[ci] == self.cells@[ci]@);
                                    assert forall|cc: int| model::cell_ok(cc) implies (
                                    #[trigger] self@[cc]).invalid == (before[cc].invalid || exists|
                                        j: int,
                                    |
                                        0 <= j < i + 1 && #[trigger] model::group_member(
                                            g as int,
                                            j,
                                        ) == cc) by {
                                        if cc == ci {
                                            assert(model::group_member(g as int, i as int) == ci);
                                            assert(exists|j: int|
                                                0 <= j < i + 1 && #[trigger] model::group_member(
                                                    g as int,
                                                    j,
                                                ) == cc);
                                        } else {
                                            assert(self@[cc] == snap[cc]);
                                            assert forall|j: int|
                                                0 <= j < i + 1 && #[trigger] model::group_member(
                                                    g as int,
                                                    j,
                                                ) == cc implies j < i by {
                                                if j == i {
                                                    assert(model::group_member(g as int, j) == ci);
                                                }
                                            };
                                        }
                                    };
                                    assert forall|cc: int| 0 <= cc < 81 implies crate::cell::cell_wf(
                                        #[trigger] self@[cc],
                                    ) && self@[cc].value == old(self)@[cc].value && self@[cc].removed
                                        == old(self)@[cc].removed && self@[cc].poss == old(
                                        self,
                                    )@[cc].poss && self@[cc].solo == before[cc].solo by {
                                        if cc != ci {
                                            assert(self@[cc] == snap[cc]);
                                        } else {
                                            assert(self@[cc].solo == snap[cc].solo);
                                        }
                                    };
                                }
                                i += 1;
                            }
                            proof {
                                model::lemma_group_members_cover(g as int);
                                assert forall|c: int| model::cell_ok(c) implies (
                                #[trigger] self@[c]).invalid == model::partial_invalid(
                                    pre,
                                    c,
                                    t + 1,
                                ) by {
                                    model::lemma_partial_invalid_step(pre, c, g as int, d);
                                    assert((exists|j: int|
                                        0 <= j < 9 && #[trigger] model::group_member(g as int, j)
                                            == c) == model::in_group(g as int, c));
                                };
                                assert forall|c: int| model::cell_ok(c) implies (
                                #[trigger] self@[c]).solo == model::partial_solo(pre, c, t + 1) by {
                                    model::lemma_partial_solo_step(pre, c, g as int, d);
                                    assert(!model::sole_admitter(pre, g as int, d, c));
                                };
                            }
                        } else {
                            proof {
                                let cw = choose|c: int|
                                    #[trigger] model::in_group(g as int, c) && pre[c].value == Some(
                                        d,
                                    );
                                assert(model::in_group(g as int, cw) && pre[cw].value == Some(d));
                                assert(!model::group_unsat(pre, g as int, d));
                                assert forall|c: int| model::cell_ok(c) implies (
                                #[trigger] self@[c]).invalid == model::partial_invalid(
                                    pre,
                                    c,
                                    t + 1,
                                ) by {
                                    model::lemma_partial_invalid_step(pre, c, g as int, d);
                                };
                                assert forall|c: int| model::cell_ok(c) implies (
                                #[trigger] self@[c]).solo == model::partial_solo(pre, c, t + 1) by {
                                    model::lemma_partial_solo_step(pre, c, g as int, d);
                                    assert(!model::sole_admitter(pre, g as int, d, c));
                                };
                            }
                        }
                    },
                    SoloState::Ambiguous => {
                        proof {
                            assert forall|c: int| model::cell_ok(c) implies (
                            #[trigger] self@[c]).solo == model::partial_solo(pre, c, t + 1) by {
                                model::lemma_partial_solo_step(pre, c, g as int, d);
                                assert(!model::sole_admitter(pre, g as int, d, c));
                            };
                            assert forall|c: int| model::cell_ok(c) implies (
                            #[trigger] self@[c]).invalid == model::partial_invalid(
                                pre,
                                c,
                                t + 1,
                            ) by {
                                model::lemma_partial_invalid_step(pre, c, g as int, d);
                            };
                        }
                    },
                }
                d += 1;
            }
            g += 1;
        }
        proof {
            assert forall|c: int| model::cell_ok(c) implies (#[trigger] self@[c]).solo
                == model::solo_spec(pre, c) && self@[c].invalid == model::invalid_spec(pre, c) by {
                model::lemma_analysis_complete(pre, c);
            };
        }
    }

    /// Recomputes every derived field from the current values and
    /// pencil-marks: resets the derived data, runs the row-major elimination
    /// pass, then the per-group analysis. The result is a pure projection of
    /// the user-controlled state.
    pub fn regenerate(&mut self)
        requires
            old(self).wf(),
        ensures
            final(self).wf(),
            model::regenerated(old(self)@, final(self)@),
    {
        let ghost pre = self@;
        self.reset_all_generated();
        let ghost r1 = self@;
        self.eliminate_all(Ghost(pre));
        let ghost r2 = self@;
        proof {
            assert forall|c: int| 0 <= c < 81 implies (#[trigger] r2[c]).value == pre[c].value
                && r2[c].removed == pre[c].removed && r2[c].solo == SoloState::<Num>::Empty
                && !r2[c].invalid by {
                assert(r2[c].value == r1[c].value && r2[c].removed == r1[c].removed);
                assert(r2[c].solo == r1[c].solo && r2[c].invalid == r1[c].invalid);
                assert(model::reset_cell(r1[c]));
            };
        }
        self.solve_groups(Ghost(pre));
        proof {
            let ghost r3 = self@;
            assert forall|c: int| 0 <= c < 81 implies (#[trigger] r3[c]).value == pre[c].value
                && r3[c].removed == pre[c].removed by {
                assert(r3[c].value == r2[c].value && r3[c].removed == r2[c].removed);
            };
            assert forall|c: int, d: Num|
                model::cell_ok(c) && model::digit_ok(d) implies (#[trigger] r3[c].poss[d - 1])
                == model::elim_poss(pre, c, d) by {
                assert(r3[c].poss == r2[c].poss);
            };
            assert(model::regenerated(pre, r3));
        }
    }
}

impl Default for State {
    /// A fresh board of 81 default cells.
    fn default() -> (r: Self)
        ensures
            r.wf(),
            forall|c: int| model::cell_ok(c) ==> r@[c] == default_cell(),
    {
        State::new()
    }
}

} // verus!
