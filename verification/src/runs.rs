//! What a grain does in one block, without memory of its own.
use crate::fof::FofRun;
use vstd::prelude::*;

verus! {

/// The stretches of a block that a grain sounds in: at most one for each phase,
/// and held in place.
#[derive(Clone, Copy, Debug, PartialEq, Eq)]
pub struct FofRuns {
    first: Option<FofRun>,
    second: Option<FofRun>,
    third: Option<FofRun>,
}

impl View for FofRuns {
    type V = Seq<FofRun>;

    closed spec fn view(&self) -> Seq<FofRun> {
        match (self.first, self.second, self.third) {
            (Some(a), Some(b), Some(c)) => seq![a, b, c],
            (Some(a), Some(b), None) => seq![a, b],
            (Some(a), None, _) => seq![a],
            _ => Seq::empty(),
        }
    }
}

impl FofRuns {
    /// No runs.
    pub fn none() -> (runs: FofRuns)
        ensures
            runs@ == Seq::<FofRun>::empty(),
    {
        FofRuns { first: None, second: None, third: None }
    }

    /// Add a run.
    pub fn push(&mut self, run: FofRun)
        requires
            old(self)@.len() < 3,
        ensures
            final(self)@ == old(self)@.push(run),
    {
        let ghost before = self@;
        if self.first.is_none() {
            self.first = Some(run);
            self.second = None;
            self.third = None;
        } else if self.second.is_none() {
            self.second = Some(run);
            self.third = None;
        } else {
            self.third = Some(run);
        }
        proof {
            assert(self@ =~= before.push(run));
        }
    }

    /// How many runs there are.
    pub fn len(&self) -> (n: usize)
        ensures
            n == self@.len(),
            n <= 3,
    {
        if self.first.is_none() {
            0
        } else if self.second.is_none() {
            1
        } else if self.third.is_none() {
            2
        } else {
            3
        }
    }

    /// The run at a position, if there is one.
    pub fn get(&self, i: usize) -> (run: Option<FofRun>)
        ensures
            run == (if i < self@.len() {
                Some(self@[i as int])
            } else {
                None
            }),
    {
        if i >= self.len() {
            None
        } else if i == 0 {
            self.first
        } else if i == 1 {
            self.second
        } else {
            self.third
        }
    }

    /// The runs as a list.
    pub fn to_vec(&self) -> (list: Vec<FofRun>)
        ensures
            list@ == self@,
    {
        let n: usize = self.len();
        let mut list: Vec<FofRun> = Vec::with_capacity(n);
        let mut i: usize = 0;
        while i < n
            invariant
                i <= n == self@.len(),
                list@ == self@.take(i as int),
            decreases n - i,
        {
            if let Some(run) = self.get(i) {
                list.push(run);
            }
            proof {
                assert(list@ =~= self@.take(i + 1));
            }
            i = i + 1;
        }
        proof {
            assert(self@.take(i as int) =~= self@);
        }
        list
    }
}

} // verus!
