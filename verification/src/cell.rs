use vstd::prelude::*;

use crate::consts::Num;
use crate::solo_state::SoloState;
use crate::sudoku_array::SudokuArray;

verus! {

/// The spec-level image of a cell: the two user-controlled fields followed by
/// the three derived fields.
#[verifier::ext_equal]
pub ghost struct CellV {
    pub value: Option<Num>,
    pub removed: Seq<bool>,
    pub poss: Seq<bool>,
    pub solo: SoloState<Num>,
    pub invalid: bool,
}

/// The derived per-cell fields, fully overwritten by each regeneration.
pub struct CellGeneratedData {
    pub possibilities: SudokuArray<bool>,
    pub solo: SoloState<Num>,
    pub in_invalid_group: bool,
}

/// One cell of the board: a user-assigned value, the user's pencil-marks
/// (digits excluded from consideration), and the derived data.
pub struct Cell {
    pub(crate) value: Option<Num>,
    pub(crate) user_removed: SudokuArray<bool>,
    pub g: CellGeneratedData,
}

impl View for Cell {
    type V = CellV;

    closed spec fn view(&self) -> CellV {
        CellV {
            value: self.value,
            removed: self.user_removed@,
            poss: self.g.possibilities@,
            solo: self.g.solo,
            invalid: self.g.in_invalid_group,
        }
    }
}

/// One pencil-mark flag and one candidate flag per digit, and every stored
/// digit in range.
pub open spec fn cell_wf(cv: CellV) -> bool {
    &&& cv.removed.len() == 9
    &&& cv.poss.len() == 9
    &&& match cv.value {
        Some(n) => 1 <= n <= 9,
        None => true,
    }
    &&& match cv.solo {
        SoloState::Unique(n) => 1 <= n <= 9,
        _ => true,
    }
}

/// Digit `d` is a live candidate of the cell: still possible after the last
/// regeneration and not pencil-marked away by the user.
pub open spec fn live(cv: CellV, d: Num) -> bool {
    &&& 1 <= d <= 9
    &&& cv.poss[d - 1]
    &&& !cv.removed[d - 1]
}

/// The naked single of the cell: its one live candidate, if there is exactly
/// one.
pub open spec fn one_live(cv: CellV) -> Option<Num> {
    if (exists|d: Num| live(cv, d)) && (forall|d1: Num, d2: Num|
        live(cv, d1) && live(cv, d2) ==> d1 == d2) {
        Some(choose|d: Num| live(cv, d))
    } else {
        None
    }
}

/// The digit an empty cell is forced to hold, if any: the hidden single found
/// by group analysis when the solo hint is reliable, otherwise the naked
/// single.
pub open spec fn spec_infer(cv: CellV) -> Option<Num> {
    if cv.value is Some {
        None
    } else {
        match cv.solo {
            SoloState::Unique(n) => Some(n),
            _ => one_live(cv),
        }
    }
}

/// What one fill pass does to a cell: assigns the forced digit if there is
/// one, and otherwise leaves the cell alone.
pub open spec fn spec_fill(cv: CellV) -> CellV {
    if spec_infer(cv) is Some {
        CellV { value: spec_infer(cv), ..cv }
    } else {
        cv
    }
}

/// The state of a fresh or cleared cell: no value, no pencil-marks, every
/// digit possible, no hints.
pub open spec fn default_cell() -> CellV {
    CellV {
        value: None,
        removed: Seq::new(9, |i: int| false),
        poss: Seq::new(9, |i: int| true),
        solo: SoloState::Empty,
        invalid: false,
    }
}

impl Cell {
    pub open spec fn wf(&self) -> bool {
        cell_wf(self@)
    }

    /// The user-assigned digit, if any.
    pub fn value(&self) -> (r: Option<Num>)
        ensures
            r == self@.value,
    {
        self.value
    }

    /// All digits, each paired with its live-candidate flag.
    pub fn possibility_iter(&self) -> (r: Vec<(Num, bool)>)
        requires
            self.wf(),
        ensures
            r@.len() == 9,
            forall|i: int| 0 <= i < 9 ==> r@[i] == (((i + 1) as Num, live(self@, (i + 1) as Num))),
    {
        let mut r: Vec<(Num, bool)> = Vec::new();
        let mut d: Num = 1;
        while d <= 9
            invariant
                self.wf(),
                1 <= d <= 10,
                r@.len() == d - 1,
                forall|i: int| 0 <= i < d - 1 ==> r@[i] == (((i + 1) as Num, live(self@, (i + 1) as Num))),
            decreases 10 - d,
        {
            let p = self.g.possibilities.get(d) && !self.user_removed.get(d);
            r.push((d, p));
            d += 1;
        }
        r
    }

    /// The one live candidate, if there is exactly one.
    fn one_possibility(&self) -> (r: Option<Num>)
        requires
            self.wf(),
        ensures
            r == one_live(self@),
    {
        let mut res: Option<Num> = None;
        let mut d: Num = 1;
        while d <= 9
            invariant
                self.wf(),
                1 <= d <= 10,
                match res {
                    Some(n) => live(self@, n) && n < d && forall|dd: Num|
                        live(self@, dd) && dd < d ==> dd == n,
                    None => forall|dd: Num| dd < d ==> !live(self@, dd),
                },
            decreases 10 - d,
        {
            if self.g.possibilities.get(d) && !self.user_removed.get(d) {
                if res.is_some() {
                    proof {
                        let n = res->0;
                        assert(live(self@, n) && live(self@, d) && n != d);
                        assert(one_live(self@) is None);
                    }
                    return None;
                }
                res = Some(d);
            }
            d += 1;
        }
        proof {
            match res {
                Some(n) => {
                    assert(exists|dd: Num| live(self@, dd));
                    assert(forall|d1: Num, d2: Num| live(self@, d1) && live(self@, d2) ==> d1 == d2);
                    assert((choose|dd: Num| live(self@, dd)) == n);
                },
                None => {
                    assert(forall|dd: Num| !live(self@, dd));
                },
            }
        }
        res
    }

    /// The digit this cell is forced to hold, if any.
    pub(crate) fn infer_value(&self) -> (r: Option<Num>)
        requires
            self.wf(),
        ensures
            r == spec_infer(self@),
    {
        if self.value.is_none() {
            if let SoloState::Unique(n) = self.g.solo {
                return Some(n);
            }
            return self.one_possibility();
        }
        None
    }

    /// The candidate flag for digit `d`.
    pub fn poss_get(&self, d: Num) -> (r: bool)
        requires
            self.wf(),
            1 <= d <= 9,
        ensures
            r == self@.poss[d - 1],
    {
        self.g.possibilities.get(d)
    }

    /// The pencil-mark flag for digit `d`.
    pub fn removed_get(&self, d: Num) -> (r: bool)
        requires
            self.wf(),
            1 <= d <= 9,
        ensures
            r == self@.removed[d - 1],
    {
        self.user_removed.get(d)
    }

    /// Replaces the pencil-mark flag for digit `d`.
    pub(crate) fn removed_set(&mut self, d: Num, b: bool)
        requires
            old(self).wf(),
            1 <= d <= 9,
        ensures
            final(self).wf(),
            final(self)@ == (CellV { removed: old(self)@.removed.update(d - 1, b), ..old(self)@ }),
    {
        self.user_removed.set(d, b);
        proof {
            assert(self@ =~= (CellV { removed: old(self)@.removed.update(d - 1, b), ..old(self)@ }));
        }
    }

    /// Assigns or clears the value.
    pub(crate) fn set_value(&mut self, v: Option<Num>)
        requires
            old(self).wf(),
            match v {
                Some(n) => 1 <= n <= 9,
                None => true,
            },
        ensures
            final(self).wf(),
            final(self)@ == (CellV { value: v, ..old(self)@ }),
    {
        self.value = v;
        proof {
            assert(self@ =~= (CellV { value: v, ..old(self)@ }));
        }
    }

    /// Overwrites the derived fields with their defaults.
    pub(crate) fn reset_generated(&mut self)
        requires
            old(self).wf(),
        ensures
            final(self).wf(),
            final(self)@ == (CellV {
                poss: Seq::new(9, |i: int| true),
                solo: SoloState::Empty,
                invalid: false,
                ..old(self)@
            }),
    {
        self.g = CellGeneratedData::default();
        proof {
            assert(self@ =~= (CellV {
                poss: Seq::new(9, |i: int| true),
                solo: SoloState::Empty,
                invalid: false,
                ..old(self)@
            }));
        }
    }

    /// Replaces the candidate flag for digit `d`.
    pub(crate) fn poss_set(&mut self, d: Num, b: bool)
        requires
            old(self).wf(),
            1 <= d <= 9,
        ensures
            final(self).wf(),
            final(self)@ == (CellV { poss: old(self)@.poss.update(d - 1, b), ..old(self)@ }),
    {
        self.g.possibilities.set(d, b);
        proof {
            assert(self@ =~= (CellV { poss: old(self)@.poss.update(d - 1, b), ..old(self)@ }));
        }
    }

    /// Overwrites the whole candidate set.
    pub(crate) fn poss_assign(&mut self, a: SudokuArray<bool>)
        requires
            old(self).wf(),
            a.wf(),
        ensures
            final(self).wf(),
            final(self)@ == (CellV { poss: a@, ..old(self)@ }),
    {
        self.g.possibilities = a;
        proof {
            assert(self@ =~= (CellV { poss: a@, ..old(self)@ }));
        }
    }

    /// Feeds digit `d` into the solo hint.
    pub(crate) fn solo_increment(&mut self, d: Num)
        requires
            old(self).wf(),
            1 <= d <= 9,
        ensures
            final(self).wf(),
            final(self)@ == (CellV { solo: old(self)@.solo.spec_increment(d), ..old(self)@ }),
    {
        self.g.solo.increment(d);
        proof {
            assert(self@ =~= (CellV { solo: old(self)@.solo.spec_increment(d), ..old(self)@ }));
        }
    }

    /// Sets the unsatisfiable-group flag.
    pub(crate) fn set_invalid(&mut self, b: bool)
        requires
            old(self).wf(),
        ensures
            final(self).wf(),
            final(self)@ == (CellV { invalid: b, ..old(self)@ }),
    {
        self.g.in_invalid_group = b;
        proof {
            assert(self@ =~= (CellV { invalid: b, ..old(self)@ }));
        }
    }

    /// Assigns the forced digit if there is one; reports whether the cell
    /// changed.
    pub fn attempt_fill(&mut self) -> (r: bool)
        requires
            old(self).wf(),
        ensures
            final(self).wf(),
            r == (spec_infer(old(self)@) is Some),
            final(self)@.value == if r {
                spec_infer(old(self)@)
            } else {
                old(self)@.value
            },
            final(self)@.removed == old(self)@.removed,
            final(self)@.poss == old(self)@.poss,
            final(self)@.solo == old(self)@.solo,
            final(self)@.invalid == old(self)@.invalid,
    {
        if let Some(n) = self.infer_value() {
            self.value = Some(n);
            true
        } else {
            false
        }
    }
}

impl Default for Cell {
    /// A fresh cell, in the state an explicit clear also restores.
    fn default() -> (r: Self)
        ensures
            r.wf(),
            r@ == default_cell(),
    {
        let r = Cell {
            value: None,
            user_removed: SudokuArray::new(false),
            g: CellGeneratedData::default(),
        };
        proof {
            assert(r@ =~= default_cell());
        }
        r
    }
}

impl Default for CellGeneratedData {
    /// The derived fields of a fresh cell: every digit possible, no hints.
    fn default() -> (r: Self)
        ensures
            r.possibilities.wf(),
            r.possibilities@ == Seq::new(9, |i: int| true),
            r.solo == SoloState::<Num>::Empty,
            !r.in_invalid_group,
    {
        let r = CellGeneratedData {
            possibilities: SudokuArray::new(true),
            solo: SoloState::Empty,
            in_invalid_group: false,
        };
        proof {
            assert(r.possibilities@ =~= Seq::new(9, |i: int| true));
        }
        r
    }
}

} // verus!
