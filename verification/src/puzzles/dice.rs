//! Dice whose rolls follow from a seed.

use vstd::prelude::*;

verus! {

/// A die: its faces and the state that decides the next roll.
#[derive(Clone, Debug)]
pub struct Die {
    pub faces: Vec<i32>,
    pub seed: usize,
    pub pulse: usize,
    pub front: usize,
    pub roll_number: usize,
}

/// The state of a die as numbers without bounds.
pub struct DieState {
    pub pulse: nat,
    pub front: nat,
    pub roll_number: nat,
}

impl Die {
    /// The state of the die.
    pub open spec fn state(&self) -> DieState {
        DieState {
            pulse: self.pulse as nat,
            front: self.front as nat,
            roll_number: self.roll_number as nat,
        }
    }

    /// The state after the next roll: the roll is counted, the die spins
    /// by the count times the pulse, and the pulse is renewed from the
    /// spin, the count and the seed.
    pub open spec fn rolled(&self) -> DieState {
        let count = self.roll_number as nat + 1;
        let spin = count * (self.pulse as nat);
        DieState {
            pulse: ((self.pulse as nat + spin) % (self.seed as nat)) + 1 + count + self.seed as nat,
            front: self.front as nat + spin,
            roll_number: count,
        }
    }

    /// Whether the state after the next roll can be held.
    pub open spec fn can_roll(&self) -> bool {
        &&& self.rolled().front <= usize::MAX
        &&& self.rolled().pulse <= usize::MAX
        &&& self.roll_number < usize::MAX
        &&& self.pulse + (self.roll_number + 1) * self.pulse <= usize::MAX
    }

    /// A die that has not been rolled.
    pub fn new(faces: Vec<i32>, seed: usize) -> (die: Die)
        ensures
            die.faces == faces,
            die.seed == seed,
            die.pulse == seed,
            die.front == 0,
            die.roll_number == 0,
    {
        Die { faces, seed, pulse: seed, front: 0, roll_number: 0 }
    }

    /// Rolls the die and returns the face that comes up, or returns `None`
    /// and leaves the die as it is when its state would outgrow `usize`.
    pub fn next(&mut self) -> (score: Option<i32>)
        requires
            old(self).faces@.len() > 0,
            old(self).seed > 0,
        ensures
            final(self).faces == old(self).faces,
            final(self).seed == old(self).seed,
            score.is_some() <==> old(self).can_roll(),
            match score {
                Some(s) => final(self).state() == old(self).rolled() && s == old(self).faces@[(
                old(self).rolled().front % old(self).faces@.len()) as int],
                None => *final(self) == *old(self),
            },
    {
        let count: usize = match self.roll_number.checked_add(1) {
            Some(c) => c,
            None => {
                return None;
            },
        };
        let spin: usize = match count.checked_mul(self.pulse) {
            Some(s) => s,
            None => {
                proof {
                    assert(self.pulse + (self.roll_number + 1) * self.pulse > usize::MAX);
                }
                return None;
            },
        };
        let front: usize = match self.front.checked_add(spin) {
            Some(f) => f,
            None => {
                return None;
            },
        };
        let mixed: usize = match self.pulse.checked_add(spin) {
            Some(p) => p % self.seed,
            None => {
                return None;
            },
        };
        let pulse: usize = match mixed.checked_add(1) {
            Some(a) => match a.checked_add(count) {
                Some(b) => match b.checked_add(self.seed) {
                    Some(c) => c,
                    None => {
                        return None;
                    },
                },
                None => {
                    return None;
                },
            },
            None => {
                return None;
            },
        };
        self.roll_number = count;
        self.front = front;
        self.pulse = pulse;
        Some(self.faces[front % self.faces.len()])
    }
}

} // verus!
