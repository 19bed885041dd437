use vstd::prelude::*;

use crate::refusal::{Answer, Refusal, RefusalKind};

verus! {

/// What a search considered, and what it turned down, counted as it runs.
///
/// `choices` counts the decisions where the model offered more than one candidate to price; a
/// search that never reaches one was handed a corridor and did no work. `rejected` counts
/// alternatives that were affordable and still lost, so it stays at zero when the evidence, rather
/// than the model, removed the competition.
#[derive(Clone, Copy, Debug, PartialEq, Eq, Structural, Hash, Default)]
pub struct Tally {
    considered: u64,
    choices: u64,
    rejected: u64,
}

impl Tally {
    /// Candidates priced so far.
    pub closed spec fn spec_considered(self) -> nat {
        self.considered as nat
    }

    /// Decisions so far where more than one candidate was priced.
    pub closed spec fn spec_choices(self) -> nat {
        self.choices as nat
    }

    /// Affordable candidates so far that lost to the one kept.
    pub closed spec fn spec_rejected(self) -> nat {
        self.rejected as nat
    }

    /// Nothing counted yet.
    pub fn new() -> (tally: Self)
        ensures
            tally.spec_considered() == 0,
            tally.spec_choices() == 0,
            tally.spec_rejected() == 0,
    {
        Tally { considered: 0, choices: 0, rejected: 0 }
    }

    /// One decision: how many candidates the model offered for it, and how many of those could be
    /// paid for. Offering two is what makes it a decision; affording two is what makes the answer
    /// contested rather than merely correct.
    pub fn decision(&mut self, priced: u64, affordable: u64)
        requires
            old(self).spec_considered() + priced <= u64::MAX,
            priced > 1 ==> old(self).spec_choices() + 1 <= u64::MAX,
            old(self).spec_rejected() + (if affordable > 0 { affordable - 1 } else { 0int })
                <= u64::MAX,
        ensures
            final(self).spec_considered() == old(self).spec_considered() + priced,
            final(self).spec_choices() == old(self).spec_choices() + if priced > 1 { 1int } else { 0int },
            final(self).spec_rejected() == old(self).spec_rejected() + if affordable > 0 { affordable - 1 } else { 0int },
    {
        self.considered = self.considered + priced;
        if priced > 1 {
            self.choices = self.choices + 1;
        }
        self.rejected = self.rejected + affordable.saturating_sub(1);
    }

    /// Candidates the search priced.
    pub fn considered(&self) -> (count: u64)
        ensures
            count == self.spec_considered(),
    {
        self.considered
    }

    /// Decisions where more than one candidate was priced.
    pub fn choices(&self) -> (count: u64)
        ensures
            count == self.spec_choices(),
    {
        self.choices
    }

    /// Affordable candidates that lost to the one kept.
    pub fn rejected(&self) -> (count: u64)
        ensures
            count == self.spec_rejected(),
    {
        self.rejected
    }

    /// Whether the model ever gave the search two candidates to weigh.
    pub fn decided(&self) -> (decided: bool)
        ensures
            decided == (self.spec_choices() > 0),
    {
        self.choices > 0
    }

    /// Accept the search as a decode, or refuse one that had nothing to decide.
    ///
    /// A search that never weighed two candidates found the only answer there was, and returning
    /// it as a decoded result would dress a foregone conclusion as a choice.
    pub fn witness(&self) -> (answer: Answer<()>)
        ensures
            answer is Ok <==> self.spec_choices() > 0,
            answer matches Err(refusal) ==> refusal.spec_kind() == RefusalKind::Uninformative,
    {
        if self.decided() {
            Ok(())
        } else {
            Err(Refusal::uninformative("no step offered an affordable alternative to the path returned"))
        }
    }
}

/// Whether a decode over `steps` steps and `states` candidates can be run at all.
///
/// A problem with nothing in it is refused as unreported. More candidates than the backpointer
/// that records where each was reached from can name is refused as incoherent: a caller with that
/// many has a different problem, and is owed that answer rather than a panic.
pub fn admit_problem(steps: usize, states: usize) -> (answer: Answer<()>)
    ensures
        answer is Ok <==> (steps > 0 && states > 0 && states <= u32::MAX),
        (steps == 0 || states == 0) ==> (answer matches Err(refusal) && refusal.spec_kind()
            == RefusalKind::Unreported),
        (steps > 0 && states > 0 && states > u32::MAX) ==> (answer matches Err(refusal)
            && refusal.spec_kind() == RefusalKind::Incoherent),
{
    if steps == 0 || states == 0 {
        return Err(Refusal::unreported("a decode needs at least one step and one candidate"));
    }
    if states > 4294967295usize {
        return Err(
            Refusal::incoherent(
                "more states than the backpointer that records where each was reached from",
            ),
        );
    }
    Ok(())
}

/// Whether `path` is the trail the backpointers in `back` leave from `end`: it finishes at `end`,
/// and every state on it is the one the next step recorded it was reached from.
pub open spec fn follows(back: Seq<u32>, states: int, end: int, path: Seq<usize>) -> bool {
    &&& path.len() >= 1
    &&& path[path.len() - 1] == end
    &&& forall|step: int|
        0 <= step < path.len() - 1 ==> #[trigger] path[step] == back[(step + 1) * states + path[step
            + 1]]
}

/// Walk the backpointers from the state a path ended in back to its start.
///
/// `back[step * states + state]` records which state `step - 1` was in on the best way to reach
/// `state` at `step`.
pub fn backtrack(back: &[u32], steps: usize, states: usize, end: usize) -> (path: Vec<usize>)
    requires
        steps >= 1,
        states >= 1,
        back@.len() == steps * states,
        end < states,
        forall|at: int| 0 <= at < back@.len() ==> (#[trigger] back@[at]) < states,
    ensures
        path@.len() == steps,
        follows(back@, states as int, end as int, path@),
        forall|step: int| 0 <= step < steps ==> #[trigger] path@[step] < states,
{
    let mut path: Vec<usize> = Vec::new();
    let mut filled: usize = 0;
    while filled < steps
        invariant
            filled <= steps,
            path@.len() == filled,
            forall|step: int| 0 <= step < filled ==> #[trigger] path@[step] == 0,
        decreases steps - filled,
    {
        path.push(0);
        filled = filled + 1;
    }
    let total = back.len();
    let mut current = end;
    path.set(steps - 1, current);
    let mut step = steps - 1;
    while step > 0
        invariant
            1 <= steps,
            step < steps,
            states >= 1,
            back@.len() == steps * states,
            total == back@.len(),
            forall|at: int| 0 <= at < back@.len() ==> (#[trigger] back@[at]) < states,
            path@.len() == steps,
            current < states,
            path@[step as int] == current,
            path@[steps - 1] == end,
            forall|later: int| step <= later < steps ==> #[trigger] path@[later] < states,
            forall|earlier: int|
                step <= earlier < steps - 1 ==> #[trigger] path@[earlier] == back@[(earlier + 1)
                    * states + path@[earlier + 1]],
        decreases step,
    {
        proof {
            assert(step * states <= step * states + current < steps * states) by (nonlinear_arith)
                requires
                    step < steps,
                    current < states,
            ;
        }
        let at = step * states + current;
        let previous = back[at] as usize;
        step = step - 1;
        path.set(step, previous);
        current = previous;
    }
    path
}

/// Where the state `state` was reached from, in one step's trail.
///
/// A trail lists, for every state a step reached, that state and the state it came from, in
/// increasing order of state. A state the step did not reach was reached from nowhere, which is
/// read as the first state.
pub fn came_from(trail: &[(u32, u32)], state: u32) -> (from: usize)
    requires
        forall|j: int, k: int| 0 <= j < k < trail@.len() ==> trail@[j].0 < trail@[k].0,
    ensures
        (exists|k: int| 0 <= k < trail@.len() && trail@[k].0 == state) ==> exists|k: int|
            0 <= k < trail@.len() && trail@[k].0 == state && from == trail@[k].1,
        !(exists|k: int| 0 <= k < trail@.len() && trail@[k].0 == state) ==> from == 0,
{
    let mut low: usize = 0;
    let mut high: usize = trail.len();
    while low < high
        invariant
            low <= high <= trail@.len(),
            forall|j: int, k: int| 0 <= j < k < trail@.len() ==> trail@[j].0 < trail@[k].0,
            forall|k: int| 0 <= k < low ==> trail@[k].0 < state,
            forall|k: int| high <= k < trail@.len() ==> trail@[k].0 > state,
        decreases high - low,
    {
        let middle = low + (high - low) / 2;
        let key = trail[middle].0;
        if key == state {
            return trail[middle].1 as usize;
        } else if key < state {
            low = middle + 1;
        } else {
            high = middle;
        }
    }
    proof {
        assert forall|k: int| 0 <= k < trail@.len() implies trail@[k].0 != state by {
            if k < low {
            } else {
                assert(k >= high);
            }
        }
    }
    0
}

} // verus!
