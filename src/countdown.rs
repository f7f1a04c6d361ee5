use crate::engine::{Eval, Evaluation, State};
use vstd::prelude::*;

verus! {

/// A subtraction game: a pile of `left` stones, from which a move takes one or two.
#[derive(Debug, Clone, Copy, PartialEq, Eq, Structural)]
pub struct Countdown {
    pub left: u32,
}

/// The takes allowed from a pile of `left` stones, one before two.
pub open spec fn takes(left: u32) -> Seq<u32> {
    if left >= 2 {
        seq![1u32, 2u32]
    } else if left == 1 {
        seq![1u32]
    } else {
        Seq::empty()
    }
}

impl State for Countdown {
    type Decision = u32;

    open spec fn spec_key(&self) -> u64 {
        self.left as u64
    }

    open spec fn rank(&self) -> nat {
        self.left as nat
    }

    open spec fn spec_decisions(&self) -> Seq<u32> {
        takes(self.left)
    }

    open spec fn spec_successor(&self, d: u32) -> Countdown {
        Countdown { left: if d <= self.left { (self.left - d) as u32 } else { 0 } }
    }

    proof fn lemma_key_injective(a: Countdown, b: Countdown) {
    }

    proof fn lemma_rank_decreases(s: Countdown, d: u32) {
        assert(d == 1 || d == 2) by {
            let i = choose|i: int| 0 <= i < takes(s.left).len() && takes(s.left)[i] == d;
        }
    }

    fn copy_decision(d: &u32) -> (r: u32) {
        *d
    }

    fn key(&self) -> (r: u64) {
        self.left as u64
    }

    fn decisions(&self) -> (r: Vec<u32>) {
        let r = if self.left >= 2 {
            vec![1u32, 2u32]
        } else if self.left == 1 {
            vec![1u32]
        } else {
            Vec::new()
        };
        assert(r@ =~= takes(self.left));
        r
    }

    fn successor(&self, d: &u32) -> (r: Countdown) {
        Countdown { left: if *d <= self.left { self.left - *d } else { 0 } }
    }
}

/// An oracle given as a table: the verdict on a pile of `n` stones is entry `n`,
/// and `Value(0)` past the end of the table.
#[derive(Debug, Clone, PartialEq, Eq)]
pub struct Verdicts {
    pub table: Vec<Evaluation>,
}

pub open spec fn verdict_at(table: Seq<Evaluation>, n: int) -> Evaluation {
    if 0 <= n < table.len() {
        table[n]
    } else {
        Evaluation::Value(0)
    }
}

impl Eval<Countdown> for Verdicts {
    open spec fn spec_evaluate(&self, s: Countdown) -> Evaluation {
        verdict_at(self.table@, s.left as int)
    }

    fn evaluate(&self, s: &Countdown) -> (r: Evaluation) {
        if (s.left as usize) < self.table.len() {
            self.table[s.left as usize]
        } else {
            Evaluation::Value(0)
        }
    }
}

} // verus!
