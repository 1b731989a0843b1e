use vstd::prelude::*;

verus! {

/// A first-wins, second-conflicting-write-poisons accumulator.
///
/// Starting from `Empty`, the first value fed in is remembered as
/// `Unique(v)`; feeding the same value again is a no-op; feeding a different
/// value poisons the state to `Ambiguous`, which absorbs everything after.
#[derive(Copy, Clone, PartialEq, Eq, Debug)]
pub enum SoloState<T> {
    Empty,
    Unique(T),
    Ambiguous,
}

impl<T: Copy + PartialEq> SoloState<T> {
    /// What one `increment` step yields.
    pub open spec fn spec_increment(self, val: T) -> SoloState<T> {
        match self {
            SoloState::Empty => SoloState::Unique(val),
            SoloState::Unique(x) => if x == val {
                self
            } else {
                SoloState::Ambiguous
            },
            SoloState::Ambiguous => SoloState::Ambiguous,
        }
    }

    /// Feeds one value into the accumulator.
    pub fn increment(&mut self, val: T)
        requires
            vstd::laws_eq::obeys_concrete_eq::<T>(),
        ensures
            *final(self) == old(self).spec_increment(val),
    {
        proof {
            reveal(vstd::laws_eq::obeys_concrete_eq);
        }
        match *self {
            SoloState::Empty => {
                *self = SoloState::Unique(val);
            },
            SoloState::Unique(x) => {
                if x != val {
                    *self = SoloState::Ambiguous;
                }
            },
            SoloState::Ambiguous => {},
        }
    }
}

} // verus!
