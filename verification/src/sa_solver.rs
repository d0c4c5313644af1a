//! The annealing engine: what a problem must offer, and the search state
//! that is advanced one proposal at a time.
//!
//! The engine decides with integers only. The temperature, the acceptance
//! probability and the uniform draw belong to the caller, who tells
//! [`Search::advance`] how the draw came out.

use vstd::prelude::*;

verus! {

/// A problem that simulated annealing can work on: a state with an energy,
/// a way to perturb it, and a way to build the first state.
pub trait SimulatedAnnealingProblem: Clone + Sized {
    /// The states on which the operations below are defined.
    spec fn valid(&self) -> bool;

    /// The number of violated constraints; 0 for a solution.
    spec fn energy(&self) -> nat;

    /// Whether one perturbation of `self` can give `next`.
    spec fn neighbor(&self, next: &Self) -> bool;

    /// Whether `state` can be the first state for `puzzle_input`.
    spec fn initial(puzzle_input: Seq<char>, state: &Self) -> bool;

    /// A clone is equal to the state it was made from.
    proof fn clone_is_equal(&self, copy: &Self)
        requires
            cloned(*self, *copy),
        ensures
            *copy == *self,
    ;

    fn calculate_energy(&self) -> (energy: u32)
        requires
            self.valid(),
        ensures
            energy == self.energy(),
    ;

    fn generate_neighbor(&self) -> (next: Self)
        requires
            self.valid(),
        ensures
            next.valid(),
            self.neighbor(&next),
    ;

    fn get_initial_state(puzzle_input: &str) -> (state: Self)
        ensures
            state.valid(),
            Self::initial(puzzle_input@, &state),
    ;
}

/// Whether `walk` is a non-empty chain of states, each a neighbor of the
/// one before it.
pub open spec fn is_walk<P: SimulatedAnnealingProblem>(walk: Seq<P>) -> bool {
    &&& walk.len() > 0
    &&& forall|i: int| 0 <= i < walk.len() - 1 ==> (#[trigger] walk[i]).neighbor(&walk[i + 1])
}

/// Whether `to` is `from` or comes from it by neighbor moves.
pub open spec fn reachable<P: SimulatedAnnealingProblem>(from: P, to: P) -> bool {
    exists|walk: Seq<P>| #[trigger] is_walk(walk) && walk.first() == from && walk.last() == to
}

/// Every state is reachable from itself.
pub proof fn lemma_reachable_refl<P: SimulatedAnnealingProblem>(state: P)
    ensures
        reachable(state, state),
{
    let walk = seq![state];
    assert(is_walk(walk) && walk.first() == state && walk.last() == state);
}

/// A neighbor of a reachable state is reachable.
pub proof fn lemma_reachable_step<P: SimulatedAnnealingProblem>(from: P, mid: P, to: P)
    requires
        reachable(from, mid),
        mid.neighbor(&to),
    ensures
        reachable(from, to),
{
    let walk = choose|walk: Seq<P>| #[trigger]
        is_walk(walk) && walk.first() == from && walk.last() == mid;
    let longer = walk.push(to);
    assert forall|i: int| 0 <= i < longer.len() - 1 implies (#[trigger] longer[i]).neighbor(
        &longer[i + 1],
    ) by {}
    assert(is_walk(longer) && longer.first() == from && longer.last() == to);
}

/// The acceptance rule: a neighbor of lower energy is always taken, any
/// other only where the caller's draw fell below the acceptance probability.
pub open spec fn accepts(current_energy: nat, neighbor_energy: nat, draw_accepts: bool) -> bool {
    neighbor_energy < current_energy || draw_accepts
}

/// Progress is reported after every iteration whose number is a multiple
/// of this.
pub const REPORT_INTERVAL: u32 = 1000;

/// What the caller does next.
#[derive(Clone, Copy, Debug, PartialEq, Eq, Structural)]
pub enum Step {
    /// The iteration bound is reached.
    Exhausted,
    /// The current state has energy 0.
    Solved,
    /// Neither: ask for a candidate.
    Propose,
}

/// The figures of a progress report.
#[derive(Clone, Copy, Debug, PartialEq, Eq, Structural)]
pub struct Progress {
    pub iteration: u32,
    pub current_energy: u32,
    pub best_energy: u32,
}

/// A neighbor of the current state, with its energy.
pub struct Candidate<P> {
    state: P,
    energy: u32,
}

/// The state of one run: the current state, the best one seen, and the
/// number of iterations made.
pub struct Search<P> {
    current: P,
    current_energy: u32,
    best: P,
    best_energy: u32,
    iteration: u32,
    max_iterations: u32,
    origin: Ghost<P>,
}

impl<P: SimulatedAnnealingProblem> Candidate<P> {
    /// The neighbor that this candidate holds.
    pub closed spec fn state(&self) -> P {
        self.state
    }

    /// Whether this candidate holds a neighbor of the current state of
    /// `search`.
    pub open spec fn proposed_by(&self, search: &Search<P>) -> bool {
        &&& self.state().valid()
        &&& search.current().neighbor(&self.state())
    }

    /// The neighbor that this candidate holds.
    pub fn proposed_state(&self) -> (state: &P)
        ensures
            *state == self.state(),
    {
        &self.state
    }

    /// The candidate's energy.
    pub fn energy(&self) -> (energy: u32)
        requires
            self.well_formed(),
        ensures
            energy == self.state().energy(),
    {
        self.energy
    }

    /// Whether the energy kept beside the state is the state's.
    pub closed spec fn well_formed(&self) -> bool {
        self.energy == self.state.energy()
    }
}

impl<P: SimulatedAnnealingProblem> Search<P> {
    /// The state that the search stands at.
    pub closed spec fn current(&self) -> P {
        self.current
    }

    /// The state of lowest energy that the search has stood at; of
    /// several, the first.
    pub closed spec fn best(&self) -> P {
        self.best
    }

    /// The state the run began with.
    pub closed spec fn origin(&self) -> P {
        self.origin@
    }

    /// The number of iterations made.
    pub closed spec fn iteration(&self) -> nat {
        self.iteration as nat
    }

    /// The number of iterations after which the run ends.
    pub closed spec fn max_iterations(&self) -> nat {
        self.max_iterations as nat
    }

    /// What holds of every search state between two calls.
    pub closed spec fn well_formed(&self) -> bool {
        &&& self.current.valid()
        &&& self.best.valid()
        &&& self.current_energy == self.current.energy()
        &&& self.best_energy == self.best.energy()
        &&& self.best_energy <= self.current_energy
        &&& self.best.energy() <= self.origin@.energy()
        &&& self.iteration <= self.max_iterations
        &&& reachable(self.origin@, self.current)
        &&& reachable(self.origin@, self.best)
    }

    /// What `next_step` answers.
    pub open spec fn step(&self) -> Step {
        if self.iteration() >= self.max_iterations() {
            Step::Exhausted
        } else if self.current().energy() == 0 {
            Step::Solved
        } else {
            Step::Propose
        }
    }

    /// At every step the current state and the best state are valid and
    /// come from the first state by neighbor moves; the best state has no
    /// more energy than the current one, nor than the first one.
    pub proof fn lemma_invariant(&self)
        requires
            self.well_formed(),
        ensures
            self.current().valid(),
            self.best().valid(),
            reachable(self.origin(), self.current()),
            reachable(self.origin(), self.best()),
            self.best().energy() <= self.current().energy(),
            self.best().energy() <= self.origin().energy(),
            self.iteration() <= self.max_iterations(),
            self.max_iterations() <= u32::MAX,
            self.current().energy() <= u32::MAX,
    {
    }

    /// Once the current state has energy 0, no candidate is asked for any
    /// more, and the best state has energy 0 too.
    pub proof fn lemma_solved_stops(&self)
        requires
            self.well_formed(),
            self.current().energy() == 0,
        ensures
            self.step() != Step::Propose,
            self.best().energy() == 0,
    {
    }

    /// The state that the search stands at.
    pub fn current_state(&self) -> (state: &P)
        ensures
            *state == self.current(),
    {
        &self.current
    }

    /// The best state seen so far.
    pub fn best_state(&self) -> (state: &P)
        ensures
            *state == self.best(),
    {
        &self.best
    }

    /// The number of iterations made.
    pub fn iterations(&self) -> (count: u32)
        ensures
            count == self.iteration(),
    {
        self.iteration
    }

    /// The energy of the current state.
    pub fn current_energy(&self) -> (energy: u32)
        requires
            self.well_formed(),
        ensures
            energy == self.current().energy(),
    {
        self.current_energy
    }

    /// The energy of the best state.
    pub fn best_energy(&self) -> (energy: u32)
        requires
            self.well_formed(),
        ensures
            energy == self.best().energy(),
    {
        self.best_energy
    }

    /// Begins a run of at most `max_iterations` iterations at `initial`.
    pub fn start(initial: P, max_iterations: u32) -> (search: Self)
        requires
            initial.valid(),
        ensures
            search.well_formed(),
            search.current() == initial,
            search.best() == initial,
            search.origin() == initial,
            search.iteration() == 0,
            search.max_iterations() == max_iterations,
    {
        let current_energy = initial.calculate_energy();
        let best = initial.clone();
        proof {
            initial.clone_is_equal(&best);
            lemma_reachable_refl(initial);
        }
        Search {
            current: initial,
            current_energy,
            best,
            best_energy: current_energy,
            iteration: 0,
            max_iterations,
            origin: Ghost(initial),
        }
    }

    /// Says whether the run is over, and why.
    pub fn next_step(&self) -> (step: Step)
        requires
            self.well_formed(),
        ensures
            step == self.step(),
    {
        if self.iteration >= self.max_iterations {
            Step::Exhausted
        } else if self.current_energy == 0 {
            Step::Solved
        } else {
            Step::Propose
        }
    }

    /// Generates one neighbor of the current state and evaluates it.
    pub fn propose(&self) -> (candidate: Candidate<P>)
        requires
            self.well_formed(),
        ensures
            candidate.well_formed(),
            candidate.proposed_by(self),
    {
        let state = self.current.generate_neighbor();
        let energy = state.calculate_energy();
        Candidate { state, energy }
    }

    /// How far `candidate` lies above the current state: nothing where it
    /// lies below, so that it is taken without a draw.
    pub fn uphill_by(&self, candidate: &Candidate<P>) -> (delta: Option<u32>)
        requires
            self.well_formed(),
            candidate.well_formed(),
        ensures
            delta == if candidate.state().energy() < self.current().energy() {
                None
            } else {
                Some((candidate.state().energy() - self.current().energy()) as u32)
            },
    {
        if candidate.energy < self.current_energy {
            None
        } else {
            Some(candidate.energy - self.current_energy)
        }
    }

    /// Ends one iteration: takes or drops `candidate`, keeps the better of
    /// the best state and the current one, and counts the iteration.
    pub fn advance(&mut self, candidate: Candidate<P>, draw_accepts: bool) -> (report: Option<
        Progress,
    >)
        requires
            old(self).well_formed(),
            old(self).step() == Step::Propose,
            candidate.well_formed(),
            candidate.proposed_by(old(self)),
        ensures
            final(self).well_formed(),
            final(self).origin() == old(self).origin(),
            final(self).max_iterations() == old(self).max_iterations(),
            final(self).iteration() == old(self).iteration() + 1,
            final(self).current() == if accepts(
                old(self).current().energy(),
                candidate.state().energy(),
                draw_accepts,
            ) {
                candidate.state()
            } else {
                old(self).current()
            },
            final(self).best() == if final(self).current().energy() < old(self).best().energy() {
                final(self).current()
            } else {
                old(self).best()
            },
            final(self).best().energy() <= old(self).best().energy(),
            final(self).best().energy() <= final(self).current().energy(),
            report == if old(self).iteration() % (REPORT_INTERVAL as nat) == 0 {
                Some(
                    Progress {
                        iteration: old(self).iteration() as u32,
                        current_energy: final(self).current().energy() as u32,
                        best_energy: final(self).best().energy() as u32,
                    },
                )
            } else {
                None
            },
    {
        if candidate.energy < self.current_energy || draw_accepts {
            proof {
                lemma_reachable_step(self.origin@, self.current, candidate.state);
            }
            self.current = candidate.state;
            self.current_energy = candidate.energy;
        }
        if self.current_energy < self.best_energy {
            let copy = self.current.clone();
            proof {
                self.current.clone_is_equal(&copy);
            }
            self.best = copy;
            self.best_energy = self.current_energy;
        }
        let finished = self.iteration;
        self.iteration = self.iteration + 1;
        if finished % REPORT_INTERVAL == 0 {
            Some(
                Progress {
                    iteration: finished,
                    current_energy: self.current_energy,
                    best_energy: self.best_energy,
                },
            )
        } else {
            None
        }
    }

    /// Ends the run and hands out the best state seen.
    pub fn into_best(self) -> (best: P)
        requires
            self.well_formed(),
        ensures
            best == self.best(),
            best.valid(),
            reachable(self.origin(), best),
            best.energy() <= self.origin().energy(),
            best.energy() <= self.current().energy(),
    {
        self.best
    }
}

} // verus!
