use vstd::prelude::*;

use crate::consts::Num;

verus! {

/// A fixed-size array with one entry per digit, indexed by digits 1..=9.
/// The entry for digit `d` is stored at position `d - 1` of the view.
pub struct SudokuArray<T> {
    data: Vec<T>,
}

impl<T> View for SudokuArray<T> {
    type V = Seq<T>;

    closed spec fn view(&self) -> Seq<T> {
        self.data@
    }
}

impl<T> SudokuArray<T> {
    /// There is exactly one entry per digit.
    pub open spec fn wf(&self) -> bool {
        self@.len() == 9
    }
}

impl<T: Copy> SudokuArray<T> {
    /// A fresh array with every digit's entry set to `val`.
    pub fn new(val: T) -> (r: Self)
        ensures
            r.wf(),
            forall|i: int| 0 <= i < 9 ==> r@[i] == val,
    {
        let mut data: Vec<T> = Vec::new();
        let mut i: usize = 0;
        while i < 9
            invariant
                i <= 9,
                data@.len() == i,
                forall|j: int| 0 <= j < i ==> data@[j] == val,
            decreases 9 - i,
        {
            data.push(val);
            i += 1;
        }
        SudokuArray { data }
    }

    /// The entry for digit `n`.
    pub fn get(&self, n: Num) -> (r: T)
        requires
            self.wf(),
            1 <= n <= 9,
        ensures
            r == self@[n - 1],
    {
        self.data[(n - 1) as usize]
    }

    /// Replaces the entry for digit `n` with `val`.
    pub fn set(&mut self, n: Num, val: T)
        requires
            old(self).wf(),
            1 <= n <= 9,
        ensures
            final(self).wf(),
            final(self)@ == old(self)@.update(n - 1, val),
    {
        self.data.set((n - 1) as usize, val);
    }

    /// All entries, each paired with its digit, in digit order.
    pub fn enumerate(&self) -> (r: Vec<(Num, T)>)
        requires
            self.wf(),
        ensures
            r@.len() == 9,
            forall|i: int| 0 <= i < 9 ==> r@[i] == ((i + 1) as Num, self@[i]),
    {
        let mut r: Vec<(Num, T)> = Vec::new();
        let mut i: usize = 0;
        while i < 9
            invariant
                self.wf(),
                i <= 9,
                r@.len() == i,
                forall|j: int| 0 <= j < i ==> r@[j] == ((j + 1) as Num, self@[j]),
            decreases 9 - i,
        {
            r.push(((i + 1) as Num, self.data[i]));
            i += 1;
        }
        r
    }
}

} // verus!
