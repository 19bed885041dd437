use vstd::prelude::*;

use crate::bits::{
    lemma_highest_one, lemma_ones_not, bit, count_ones, lemma_ones_and, lemma_ones_empty, lemma_ones_finite, lemma_ones_injective,
    lemma_ones_single, ones, ones_below,
};
use crate::refusal::{Answer, Refusal, RefusalKind};
use crate::span::Span;

verus! {

/// Largest pool a `u64` mask can hold.
pub const MAX_POOL: usize = 64;

/// Which solver produced a result.
#[derive(Clone, Copy, Debug, PartialEq, Eq, Structural, Hash)]
pub enum Solver {
    /// Every subset was enumerated. The result is a proven optimum.
    Exact,
    /// A width-limited beam. The result is the best found, not a proven optimum.
    Beam {
        /// States kept per size.
        width: usize,
    },
}

/// The members a subset search settled on, and which solver settled on them.
#[derive(Clone, Copy, Debug, PartialEq, Eq, Structural, Hash)]
pub struct Selection {
    members: u64,
    solver: Solver,
}

impl View for Selection {
    type V = Set<int>;

    /// The indices of the members.
    closed spec fn view(&self) -> Set<int> {
        ones(self.members)
    }
}

impl Selection {
    /// The members, as a mask.
    pub closed spec fn spec_members(self) -> u64 {
        self.members
    }

    /// The solver that produced them.
    pub closed spec fn spec_solver(self) -> Solver {
        self.solver
    }

    /// The members a search produced, and the solver that produced them.
    pub fn new(members: u64, solver: Solver) -> (selection: Self)
        ensures
            selection.spec_members() == members,
            selection.spec_solver() == solver,
            selection@ == ones(members),
    {
        Selection { members, solver }
    }

    /// Bit `i` set means item `i` is a member.
    pub fn members(&self) -> (members: u64)
        ensures
            members == self.spec_members(),
    {
        self.members
    }

    /// Whether every subset was enumerated or a beam was run.
    pub fn solver(&self) -> (solver: Solver)
        ensures
            solver == self.spec_solver(),
    {
        self.solver
    }

    /// Whether the result is a proven global optimum, which only exhaustive enumeration gives.
    pub fn is_proven(&self) -> (proven: bool)
        ensures
            proven == (self.spec_solver() is Exact),
    {
        match self.solver {
            Solver::Exact => true,
            Solver::Beam { .. } => false,
        }
    }

    /// Member indices, in increasing order.
    pub fn indices(&self) -> (indices: Vec<usize>)
        ensures
            indices@.len() == self@.len(),
            forall|k: int| 0 <= k < indices@.len() ==> self@.contains(#[trigger] indices@[k] as int),
            forall|index: int| #[trigger] self@.contains(index) ==> indices@.contains(index as usize),
            forall|j: int, k: int| 0 <= j < k < indices@.len() ==> indices@[j] < indices@[k],
    {
        let mask = self.members;
        let mut indices: Vec<usize> = Vec::new();
        let mut index: u64 = 0;
        proof {
            lemma_ones_finite(mask, 0);
            assert(ones_below(mask, 0) =~= Set::<int>::empty());
        }
        while index < 64
            invariant
                index <= 64,
                indices@.len() == ones_below(mask, index as int).len(),
                forall|k: int| 0 <= k < indices@.len() ==> #[trigger] indices@[k] < index,
                forall|k: int|
                    0 <= k < indices@.len() ==> ones_below(mask, index as int).contains(
                        #[trigger] indices@[k] as int,
                    ),
                forall|i: int|
                    #[trigger] ones_below(mask, index as int).contains(i) ==> indices@.contains(
                        i as usize,
                    ),
                forall|j: int, k: int| 0 <= j < k < indices@.len() ==> indices@[j] < indices@[k],
            decreases 64 - index,
        {
            proof {
                lemma_ones_finite(mask, index as int);
                lemma_ones_finite(mask, index + 1);
            }
            let ghost before = indices@;
            if (mask >> index) & 1u64 == 1u64 {
                assert(ones_below(mask, index + 1) =~= ones_below(mask, index as int).insert(
                    index as int,
                ));
                indices.push(index as usize);
                assert(indices@[indices@.len() - 1] == index as usize);
                assert forall|i: int|
                    #[trigger] ones_below(mask, index + 1).contains(i) implies indices@.contains(
                    i as usize,
                ) by {
                    if i == index as int {
                        assert(indices@[indices@.len() - 1] == i as usize);
                    } else {
                        assert(ones_below(mask, index as int).contains(i));
                        let k = choose|k: int| 0 <= k < before.len() && before[k] == i as usize;
                        assert(indices@[k] == i as usize);
                    }
                }
            } else {
                assert(ones_below(mask, index + 1) =~= ones_below(mask, index as int));
            }
            index = index + 1;
        }
        assert(ones_below(mask, 64) =~= ones(mask));
        indices
    }

    /// Number of members.
    pub fn len(&self) -> (count: usize)
        ensures
            count == self@.len(),
    {
        count_ones(self.members) as usize
    }

    /// Whether the subset is empty.
    pub fn is_empty(&self) -> (empty: bool)
        ensures
            empty == self@.is_empty(),
    {
        proof {
            lemma_ones_empty(self.members);
        }
        self.members == 0
    }
}

/// The key a pair of items is filed under: the lower index first.
pub open spec fn pair_key<W>(pair: (usize, usize, Span, W)) -> (usize, usize) {
    (pair.0, pair.1)
}

/// `pairs` without the entry filed under `(low, high)`, if there is one.
pub open spec fn without_pair<W>(pairs: Seq<(usize, usize, Span, W)>, low: usize, high: usize) -> Seq<
    (usize, usize, Span, W),
> {
    if exists|k: int| 0 <= k < pairs.len() && pair_key(#[trigger] pairs[k]) == (low, high) {
        pairs.remove(choose|k: int| 0 <= k < pairs.len() && pair_key(#[trigger] pairs[k]) == (low, high))
    } else {
        pairs
    }
}

/// The spans behind the item weights of `members`, among the first `upto` items, in item order.
pub open spec fn worth_support<W>(worth: Seq<Option<(Span, W)>>, members: u64, upto: int) -> Seq<Span>
    decreases upto,
{
    if upto <= 0 {
        Seq::empty()
    } else {
        let before = worth_support(worth, members, upto - 1);
        match worth[upto - 1] {
            Some(claim) if bit(members, upto - 1) => before.push(claim.0),
            _ => before,
        }
    }
}

/// The spans behind the first `upto` pair weights whose items are both members, in declaration
/// order.
pub open spec fn pair_support<W>(pairs: Seq<(usize, usize, Span, W)>, members: u64, upto: int) -> Seq<Span>
    decreases upto,
{
    if upto <= 0 {
        Seq::empty()
    } else {
        let before = pair_support(pairs, members, upto - 1);
        let pair = pairs[upto - 1];
        if bit(members, pair.0 as int) && bit(members, pair.1 as int) {
            before.push(pair.2)
        } else {
            before
        }
    }
}

/// The spans behind the first `upto` requirements and exclusions that bear on `members`: those of
/// its members, and every exclusion, in declaration order.
pub open spec fn settled_support(settled: Seq<(usize, Span)>, members: u64, forbidden: u64, upto: int) -> Seq<Span>
    decreases upto,
{
    if upto <= 0 {
        Seq::empty()
    } else {
        let before = settled_support(settled, members, forbidden, upto - 1);
        let entry = settled[upto - 1];
        if bit(members, entry.0 as int) || bit(forbidden, entry.0 as int) {
            before.push(entry.1)
        } else {
            before
        }
    }
}

/// The subsets that `members | item` for each item from `from` up to `upto` offers, in item order:
/// every item not forbidden and not already a member whose addition keeps the subset within
/// `ceiling`.
pub open spec fn offered(members: u64, forbidden: u64, ceiling: int, from: int, upto: int) -> Seq<u64>
    decreases upto - from,
{
    if upto <= from {
        Seq::empty()
    } else {
        let before = offered(members, forbidden, ceiling, from, upto - 1);
        let item = upto - 1;
        let grown = members | (1u64 << (item as u64));
        if !bit(forbidden, item) && !bit(members, item) && ones(grown).len() <= ceiling {
            before.push(grown)
        } else {
            before
        }
    }
}

/// The subsets one step of a beam offers from `members`: each adds one item above every member
/// that is not required.
pub open spec fn beam_step(members: u64, required: u64, forbidden: u64, ceiling: int, pool: int) -> Seq<u64> {
    offered(
        members,
        forbidden,
        ceiling,
        64 - vstd::std_specs::bits::u64_leading_zeros(members & !required),
        pool,
    )
}

/// What makes a subset worth choosing, stated over the items rather than over the answer.
///
/// A caller says what each item is worth on its own, what a pair of them is worth together, which
/// items are mandatory or excluded, and how many may be taken. Nothing here can mention a subset,
/// so an objective that returns a predetermined membership is not expressible. Every weight and
/// every hard constraint cites the span of the problem it speaks for.
///
/// A weight's magnitude and the trust it is held with travel as the claim `W`, which this type
/// carries but never reads.
#[derive(Debug, PartialEq)]
pub struct Terms<W> {
    pool: usize,
    worth: Vec<Option<(Span, W)>>,
    pairs: Vec<(usize, usize, Span, W)>,
    required: u64,
    forbidden: u64,
    settled: Vec<(usize, Span)>,
    floor: usize,
    ceiling: usize,
}

impl<W> Terms<W> {
    /// How many items the terms are over.
    pub closed spec fn spec_pool(self) -> nat {
        self.pool as nat
    }

    /// The weight claimed for each item, with the span it cites.
    pub closed spec fn spec_worth(self) -> Seq<Option<(Span, W)>> {
        self.worth@
    }

    /// The weights claimed for pairs, lower index first, in declaration order.
    pub closed spec fn spec_pairs(self) -> Seq<(usize, usize, Span, W)> {
        self.pairs@
    }

    /// The items taken in every subset.
    pub closed spec fn spec_required(self) -> u64 {
        self.required
    }

    /// The items taken in no subset.
    pub closed spec fn spec_forbidden(self) -> u64 {
        self.forbidden
    }

    /// Every requirement and exclusion, with the span it cites, in declaration order.
    pub closed spec fn spec_settled(self) -> Seq<(usize, Span)> {
        self.settled@
    }

    /// The fewest members a subset may have.
    pub closed spec fn spec_floor(self) -> nat {
        self.floor as nat
    }

    /// The most members a subset may have.
    pub closed spec fn spec_ceiling(self) -> nat {
        self.ceiling as nat
    }

    /// Whether the terms hold exactly these declarations.
    pub open spec fn declares(
        self,
        pool: nat,
        worth: Seq<Option<(Span, W)>>,
        pairs: Seq<(usize, usize, Span, W)>,
        required: u64,
        forbidden: u64,
        settled: Seq<(usize, Span)>,
        floor: nat,
        ceiling: nat,
    ) -> bool {
        &&& self.spec_pool() == pool
        &&& self.spec_worth() == worth
        &&& self.spec_pairs() == pairs
        &&& self.spec_required() == required
        &&& self.spec_forbidden() == forbidden
        &&& self.spec_settled() == settled
        &&& self.spec_floor() == floor
        &&& self.spec_ceiling() == ceiling
    }

    /// The declarations are coherent: a pool the mask can hold, one weight slot per item, no item
    /// both required and forbidden, every constraint inside the pool, a floor no higher than the
    /// ceiling and a ceiling no wider than the pool, one weight per pair, and every claim citing a
    /// span that covers something.
    #[verifier::type_invariant]
    spec fn wf(self) -> bool {
        &&& 1 <= self.pool <= MAX_POOL
        &&& self.worth@.len() == self.pool
        &&& ones(self.required).disjoint(ones(self.forbidden))
        &&& forall|i: int| #[trigger] ones(self.required).contains(i) ==> i < self.pool
        &&& forall|i: int| #[trigger] ones(self.forbidden).contains(i) ==> i < self.pool
        &&& self.floor <= self.ceiling <= self.pool
        &&& forall|k: int|
            0 <= k < self.pairs@.len() ==> {
                let pair = #[trigger] self.pairs@[k];
                pair.0 < pair.1 < self.pool && pair.2.start < pair.2.end
            }
        &&& forall|j: int, k: int|
            0 <= j < k < self.pairs@.len() ==> pair_key(#[trigger] self.pairs@[j]) != pair_key(
                #[trigger] self.pairs@[k],
            )
        &&& forall|i: int|
            0 <= i < self.worth@.len() ==> (#[trigger] self.worth@[i] matches Some(claim)
                ==> claim.0.start < claim.0.end)
        &&& forall|k: int|
            0 <= k < self.settled@.len() ==> {
                let entry = #[trigger] self.settled@[k];
                entry.0 < self.pool && entry.1.start < entry.1.end
            }
    }

    /// Whether `members` is a subset the declarations allow: it takes every required item, no
    /// forbidden one, and a count between the floor and the ceiling.
    pub open spec fn permits(self, members: u64) -> bool {
        &&& ones(self.spec_required()).subset_of(ones(members))
        &&& ones(members).disjoint(ones(self.spec_forbidden()))
        &&& self.spec_floor() <= ones(members).len() <= self.spec_ceiling()
    }

    /// The spans that argue for `members`: its item weights, then the pair weights it takes whole,
    /// then the requirements it meets and every exclusion, each in declaration order.
    pub open spec fn spec_support(self, members: u64) -> Seq<Span> {
        worth_support(self.spec_worth(), members, self.spec_worth().len() as int) + pair_support(
            self.spec_pairs(),
            members,
            self.spec_pairs().len() as int,
        ) + settled_support(
            self.spec_settled(),
            members,
            self.spec_forbidden(),
            self.spec_settled().len() as int,
        )
    }

    /// Terms over a pool of `pool` items, every one of them worth nothing until told otherwise.
    ///
    /// Refuses an empty pool, which offers no subset to choose between, and a pool wider than
    /// [`MAX_POOL`], which the mask cannot hold.
    pub fn over(pool: usize) -> (answer: Answer<Self>)
        ensures
            answer is Ok <==> 1 <= pool <= MAX_POOL,
            pool == 0 ==> (answer matches Err(refusal) && refusal.spec_kind()
                == RefusalKind::Unreported),
            pool > MAX_POOL ==> (answer matches Err(refusal) && refusal.spec_kind()
                == RefusalKind::Incoherent),
            answer matches Ok(terms) ==> ones(terms.spec_required()).is_empty()
                && ones(terms.spec_forbidden()).is_empty() && terms.declares(
                pool as nat,
                Seq::new(pool as nat, |i: int| None),
                Seq::empty(),
                0,
                0,
                Seq::empty(),
                0,
                pool as nat,
            ),
    {
        if pool == 0 {
            return Err(Refusal::unreported("an empty pool offers no subset to choose"));
        }
        if pool > MAX_POOL {
            return Err(Refusal::incoherent("a pool wider than the mask that holds it"));
        }
        let mut worth: Vec<Option<(Span, W)>> = Vec::new();
        let mut filled: usize = 0;
        while filled < pool
            invariant
                filled <= pool,
                worth@ == Seq::new(filled as nat, |i: int| None::<(Span, W)>),
            decreases pool - filled,
        {
            worth.push(None);
            filled = filled + 1;
            assert(worth@ =~= Seq::new(filled as nat, |i: int| None::<(Span, W)>));
        }
        proof {
            lemma_ones_empty(0);
        }
        let terms = Terms {
            pool,
            worth,
            pairs: Vec::new(),
            required: 0,
            forbidden: 0,
            settled: Vec::new(),
            floor: 0,
            ceiling: pool,
        };
        Ok(terms)
    }

    /// Refuses an item outside the pool.
    pub fn within(&self, item: usize) -> (answer: Answer<()>)
        ensures
            answer is Ok <==> item < self.spec_pool(),
            answer matches Err(refusal) ==> refusal.spec_kind() == RefusalKind::Incoherent,
    {
        if item >= self.pool {
            return Err(Refusal::incoherent("an item outside the pool"));
        }
        Ok(())
    }

    /// How many items the terms are over.
    pub fn pool(&self) -> (pool: usize)
        ensures
            pool == self.spec_pool(),
    {
        self.pool
    }

    /// The items taken in every subset.
    pub fn required(&self) -> (required: u64)
        ensures
            required == self.spec_required(),
    {
        self.required
    }

    /// The items taken in no subset.
    pub fn forbidden(&self) -> (forbidden: u64)
        ensures
            forbidden == self.spec_forbidden(),
    {
        self.forbidden
    }

    /// The most members a subset may have.
    pub fn ceiling(&self) -> (ceiling: usize)
        ensures
            ceiling == self.spec_ceiling(),
    {
        self.ceiling
    }

    /// The weight claimed for each item, with the span it cites.
    pub fn worth_claims(&self) -> (claims: &Vec<Option<(Span, W)>>)
        ensures
            claims@ == self.spec_worth(),
    {
        &self.worth
    }

    /// The weights claimed for pairs, with the spans they cite.
    pub fn pair_claims(&self) -> (claims: &Vec<(usize, usize, Span, W)>)
        ensures
            claims@ == self.spec_pairs(),
    {
        &self.pairs
    }
}

impl<W> Terms<W> {
    /// What the evidence says taking `item` is worth on its own, citing `span`.
    ///
    /// `measured` is the verdict on the magnitude and the trust it is held with, which this type
    /// does not read. Refuses an item outside the pool, then whatever `measured` refused, then a
    /// span that covers nothing: a weight resting on nothing is the constant this argument exists
    /// to keep out.
    pub fn worth(self, item: usize, span: Span, claim: W, measured: Answer<()>) -> (answer:
        Answer<Self>)
        ensures
            answer is Ok <==> (item < self.spec_pool() && measured is Ok && span.start < span.end),
            item >= self.spec_pool() ==> (answer matches Err(refusal) && refusal.spec_kind()
                == RefusalKind::Incoherent),
            item < self.spec_pool() ==> (measured matches Err(refusal) ==> answer == Err::<
                Self,
                Refusal,
            >(refusal)),
            (item < self.spec_pool() && measured is Ok && span.start >= span.end) ==> (
            answer matches Err(refusal) && refusal.spec_kind() == RefusalKind::Unreported),
            answer matches Ok(terms) ==> terms.declares(
                self.spec_pool(),
                self.spec_worth().update(item as int, Some((span, claim))),
                self.spec_pairs(),
                self.spec_required(),
                self.spec_forbidden(),
                self.spec_settled(),
                self.spec_floor(),
                self.spec_ceiling(),
            ),
    {
        proof {
            use_type_invariant(&self);
        }
        self.within(item)?;
        measured?;
        if span.is_empty() {
            return Err(
                Refusal::unreported(
                    "a weight resting on no span or no confidence is a constant, not a measurement",
                ),
            );
        }
        let Terms { pool, mut worth, pairs, required, forbidden, settled, floor, ceiling } = self;
        let ghost before = worth@;
        worth.set(item, Some((span, claim)));
        proof {
            assert forall|i: int| 0 <= i < worth@.len() implies (#[trigger] worth@[i] matches Some(
                held,
            ) ==> held.0.start < held.0.end) by {
                if i != item as int {
                    assert(worth@[i] == before[i]);
                }
            }
        }
        Ok(Terms { pool, worth, pairs, required, forbidden, settled, floor, ceiling })
    }

    /// What taking `a` and `b` together is worth, beyond what each is worth alone, citing `span`.
    ///
    /// A later weight for the same pair replaces the earlier one. Refuses an item outside the
    /// pool, a pair of one item with itself, then whatever `measured` refused, then a span that
    /// covers nothing.
    pub fn together(self, a: usize, b: usize, span: Span, claim: W, measured: Answer<()>) -> (answer: Answer<Self>)
        ensures
            answer is Ok <==> (a < self.spec_pool() && b < self.spec_pool() && a != b && measured is Ok
                && span.start < span.end),
            (a >= self.spec_pool() || b >= self.spec_pool()) ==> (answer matches Err(refusal)
                && refusal.spec_kind() == RefusalKind::Incoherent),
            (a < self.spec_pool() && b < self.spec_pool() && a == b) ==> (answer matches Err(refusal)
                && refusal.spec_kind() == RefusalKind::Incoherent),
            (a < self.spec_pool() && b < self.spec_pool() && a != b) ==> (measured matches Err(
                refusal,
            ) ==> answer == Err::<Self, Refusal>(refusal)),
            (a < self.spec_pool() && b < self.spec_pool() && a != b && measured is Ok && span.start
                >= span.end) ==> (answer matches Err(refusal) && refusal.spec_kind()
                == RefusalKind::Unreported),
            answer matches Ok(terms) ==> {
                let (low, high) = if a < b { (a, b) } else { (b, a) };
                terms.declares(
                    self.spec_pool(),
                    self.spec_worth(),
                    without_pair(self.spec_pairs(), low, high).push((low, high, span, claim)),
                    self.spec_required(),
                    self.spec_forbidden(),
                    self.spec_settled(),
                    self.spec_floor(),
                    self.spec_ceiling(),
                )
            },
    {
        proof {
            use_type_invariant(&self);
        }
        self.within(a)?;
        self.within(b)?;
        if a == b {
            return Err(Refusal::incoherent("an item paired with itself is its own worth"));
        }
        measured?;
        if span.is_empty() {
            return Err(
                Refusal::unreported(
                    "a weight resting on no span or no confidence is a constant, not a measurement",
                ),
            );
        }
        let (low, high) = if a < b {
            (a, b)
        } else {
            (b, a)
        };
        let Terms { pool, worth, mut pairs, required, forbidden, settled, floor, ceiling } = self;
        let ghost old_pairs = pairs@;
        let mut k: usize = 0;
        let mut found: Option<usize> = None;
        while k < pairs.len()
            invariant
                k <= pairs@.len(),
                pairs@ == old_pairs,
                found matches Some(at) ==> at < old_pairs.len() && pair_key(old_pairs[at as int]) == (
                    low,
                    high,
                ),
                found is None ==> forall|j: int| 0 <= j < k ==> pair_key(#[trigger] old_pairs[j]) != (low, high),
            decreases pairs@.len() - k,
        {
            if pairs[k].0 == low && pairs[k].1 == high {
                found = Some(k);
            }
            k = k + 1;
        }
        if let Some(at) = found {
            proof {
                assert(old_pairs == self.spec_pairs());
                let chosen = choose|j: int| 0 <= j < old_pairs.len() && pair_key(#[trigger] old_pairs[j]) == (low, high);
                assert(pair_key(old_pairs[at as int]) == (low, high));
                if chosen != at as int {
                    if chosen < at {
                        assert(pair_key(old_pairs[chosen]) != pair_key(old_pairs[at as int]));
                    } else {
                        assert(pair_key(old_pairs[at as int]) != pair_key(old_pairs[chosen]));
                    }
                }
                assert(without_pair(old_pairs, low, high) == old_pairs.remove(at as int));
            }
            let _ = pairs.remove(at);
        } else {
            assert(without_pair(old_pairs, low, high) == old_pairs);
        }
        pairs.push((low, high, span, claim));
        proof {
            let pairs = pairs@;
            let kept = without_pair(old_pairs, low, high);
            assert(pairs == kept.push((low, high, span, claim)));
            assert forall|k: int| 0 <= k < kept.len() implies pair_key(#[trigger] kept[k]) != (low, high) && kept[k].0 < kept[k].1 < pool && kept[k].2.start < kept[k].2.end by {
                if let Some(at) = found {
                    let j = if k < at { k } else { k + 1 };
                    assert(kept[k] == old_pairs[j]);
                    if j < at {
                        assert(pair_key(old_pairs[j]) != pair_key(old_pairs[at as int]));
                    } else {
                        assert(pair_key(old_pairs[at as int]) != pair_key(old_pairs[j]));
                    }
                } else {
                    assert(kept[k] == old_pairs[k]);
                }
            }
            assert forall|j: int, k: int| 0 <= j < k < kept.len() implies pair_key(#[trigger] kept[j]) != pair_key(#[trigger] kept[k]) by {
                if let Some(at) = found {
                    let jj = if j < at { j } else { j + 1 };
                    let kk = if k < at { k } else { k + 1 };
                    assert(kept[j] == old_pairs[jj]);
                    assert(kept[k] == old_pairs[kk]);
                } else {
                }
            }
            assert forall|j: int, k: int| 0 <= j < k < pairs.len() implies pair_key(#[trigger] pairs[j]) != pair_key(#[trigger] pairs[k]) by {
                if k == pairs.len() - 1 {
                    assert(pairs[j] == kept[j]);
                } else {
                    assert(pairs[j] == kept[j]);
                    assert(pairs[k] == kept[k]);
                }
            }
            assert forall|k: int| 0 <= k < pairs.len() implies #[trigger] pairs[k].0 < pairs[k].1 < pool && pairs[k].2.start < pairs[k].2.end by {
                if k < pairs.len() - 1 {
                    assert(pairs[k] == kept[k]);
                }
            }
        }
        Ok(Terms { pool, worth, pairs, required, forbidden, settled, floor, ceiling })
    }
}

/// Whether `copy` is a weight slot copied from `original`: the same span, and a clone of its claim.
pub open spec fn copied_worth<W: Clone>(original: Option<(Span, W)>, copy: Option<(Span, W)>) -> bool {
    match (original, copy) {
        (None, None) => true,
        (Some(held), Some(made)) => made.0 == held.0 && cloned(held.1, made.1),
        _ => false,
    }
}

/// Whether `copy` is a pair weight copied from `original`: the same items and span, and a clone of
/// its claim.
pub open spec fn copied_pair<W: Clone>(original: (usize, usize, Span, W), copy: (usize, usize, Span, W)) -> bool {
    &&& copy.0 == original.0
    &&& copy.1 == original.1
    &&& copy.2 == original.2
    &&& cloned(original.3, copy.3)
}

impl<W: Clone> Clone for Terms<W> {
    /// The same declarations, each claim copied by its own `clone`.
    fn clone(&self) -> (copy: Self)
        ensures
            copy.spec_pool() == self.spec_pool(),
            copy.spec_required() == self.spec_required(),
            copy.spec_forbidden() == self.spec_forbidden(),
            copy.spec_settled() == self.spec_settled(),
            copy.spec_floor() == self.spec_floor(),
            copy.spec_ceiling() == self.spec_ceiling(),
            copy.spec_worth().len() == self.spec_worth().len(),
            forall|i: int|
                0 <= i < self.spec_worth().len() ==> copied_worth(
                    self.spec_worth()[i],
                    #[trigger] copy.spec_worth()[i],
                ),
            copy.spec_pairs().len() == self.spec_pairs().len(),
            forall|k: int|
                0 <= k < self.spec_pairs().len() ==> copied_pair(
                    self.spec_pairs()[k],
                    #[trigger] copy.spec_pairs()[k],
                ),
    {
        proof {
            use_type_invariant(self);
        }
        let mut worth: Vec<Option<(Span, W)>> = Vec::new();
        let mut i: usize = 0;
        while i < self.worth.len()
            invariant
                i <= self.worth@.len(),
                worth@.len() == i,
                forall|j: int| 0 <= j < i ==> copied_worth(self.worth@[j], #[trigger] worth@[j]),
            decreases self.worth@.len() - i,
        {
            let slot = match &self.worth[i] {
                Some(held) => Some((held.0, held.1.clone())),
                None => None,
            };
            worth.push(slot);
            i = i + 1;
        }
        let mut pairs: Vec<(usize, usize, Span, W)> = Vec::new();
        let mut k: usize = 0;
        while k < self.pairs.len()
            invariant
                k <= self.pairs@.len(),
                pairs@.len() == k,
                forall|j: int| 0 <= j < k ==> copied_pair(self.pairs@[j], #[trigger] pairs@[j]),
            decreases self.pairs@.len() - k,
        {
            let pair = &self.pairs[k];
            pairs.push((pair.0, pair.1, pair.2, pair.3.clone()));
            k = k + 1;
        }
        let mut settled: Vec<(usize, Span)> = Vec::new();
        let mut k: usize = 0;
        while k < self.settled.len()
            invariant
                k <= self.settled@.len(),
                settled@ == self.settled@.subrange(0, k as int),
            decreases self.settled@.len() - k,
        {
            settled.push(self.settled[k]);
            k = k + 1;
            assert(settled@ =~= self.settled@.subrange(0, k as int));
        }
        assert(settled@ =~= self.settled@);
        proof {
            assert forall|i: int| 0 <= i < worth@.len() implies (#[trigger] worth@[i] matches Some(
                claim,
            ) ==> claim.0.start < claim.0.end) by {
                assert(copied_worth(self.worth@[i], worth@[i]));
            }
            assert forall|k: int| 0 <= k < pairs@.len() implies {
                let pair = #[trigger] pairs@[k];
                pair.0 < pair.1 < self.pool && pair.2.start < pair.2.end
            } by {
                assert(copied_pair(self.pairs@[k], pairs@[k]));
            }
            assert forall|j: int, k: int| 0 <= j < k < pairs@.len() implies pair_key(
                #[trigger] pairs@[j],
            ) != pair_key(#[trigger] pairs@[k]) by {
                assert(copied_pair(self.pairs@[j], pairs@[j]));
                assert(copied_pair(self.pairs@[k], pairs@[k]));
                assert(pair_key(self.pairs@[j]) != pair_key(self.pairs@[k]));
            }
        }
        Terms {
            pool: self.pool,
            worth,
            pairs,
            required: self.required,
            forbidden: self.forbidden,
            settled,
            floor: self.floor,
            ceiling: self.ceiling,
        }
    }
}

/// Bit `item` of `mask` is set exactly when `item` is among its ones, and adding it to `mask`
/// adds exactly it.
proof fn lemma_item_bit(mask: u64, item: u64)
    requires
        item < 64,
    ensures
        (mask & (1u64 << item) != 0) == ones(mask).contains(item as int),
        ones(mask | (1u64 << item)) == ones(mask).insert(item as int),
{
    lemma_ones_and(mask, 1u64 << item);
    lemma_ones_single(item);
    lemma_ones_empty(mask & (1u64 << item));
    crate::bits::lemma_ones_or(mask, 1u64 << item);
    assert(ones(mask).intersect(set![item as int]) =~= if ones(mask).contains(item as int) {
        set![item as int]
    } else {
        Set::<int>::empty()
    });
    assert(ones(mask).union(set![item as int]) =~= ones(mask).insert(item as int));
}

impl<W> Terms<W> {
    /// Take `item` in every subset considered, on the strength of `because`.
    ///
    /// A hard constraint is the strongest thing that can be said here, so it has to say where it
    /// comes from. Refuses an item outside the pool, one already forbidden, and a span that covers
    /// nothing.
    pub fn require(self, item: usize, because: Span) -> (answer: Answer<Self>)
        ensures
            answer is Ok <==> (item < self.spec_pool() && !ones(self.spec_forbidden()).contains(
                item as int,
            ) && because.start < because.end),
            item >= self.spec_pool() ==> (answer matches Err(refusal) && refusal.spec_kind()
                == RefusalKind::Incoherent),
            (item < self.spec_pool() && ones(self.spec_forbidden()).contains(item as int)) ==> (
            answer matches Err(refusal) && refusal.spec_kind() == RefusalKind::Incoherent),
            (item < self.spec_pool() && !ones(self.spec_forbidden()).contains(item as int)
                && because.start >= because.end) ==> (answer matches Err(refusal)
                && refusal.spec_kind() == RefusalKind::Unreported),
            answer matches Ok(terms) ==> ones(terms.spec_required()) == ones(
                self.spec_required(),
            ).insert(item as int) && terms.declares(
                self.spec_pool(),
                self.spec_worth(),
                self.spec_pairs(),
                terms.spec_required(),
                self.spec_forbidden(),
                self.spec_settled().push((item, because)),
                self.spec_floor(),
                self.spec_ceiling(),
            ),
    {
        proof {
            use_type_invariant(&self);
        }
        self.within(item)?;
        proof {
            lemma_item_bit(self.forbidden, item as u64);
            lemma_item_bit(self.required, item as u64);
        }
        if self.forbidden & (1u64 << (item as u64)) != 0 {
            return Err(Refusal::incoherent("an item both required and forbidden"));
        }
        if because.is_empty() {
            return Err(Refusal::unreported("a constraint that cites no region"));
        }
        let Terms { pool, worth, pairs, mut required, mut forbidden, mut settled, floor, ceiling } = self;
        required = required | (1u64 << (item as u64));
        let ghost before = settled@;
        settled.push((item, because));
        proof {
            assert forall|k: int| 0 <= k < settled@.len() implies {
                let entry = #[trigger] settled@[k];
                entry.0 < pool && entry.1.start < entry.1.end
            } by {
                if k < before.len() {
                    assert(settled@[k] == before[k]);
                    assert(self.spec_settled()[k] == before[k]);
                }
            }
        }
        Ok(Terms { pool, worth, pairs, required, forbidden, settled, floor, ceiling })
    }

    /// Take `item` in no subset considered, on the strength of `because`.
    ///
    /// Refuses an item outside the pool, one already required, and a span that covers nothing.
    pub fn forbid(self, item: usize, because: Span) -> (answer: Answer<Self>)
        ensures
            answer is Ok <==> (item < self.spec_pool() && !ones(self.spec_required()).contains(
                item as int,
            ) && because.start < because.end),
            item >= self.spec_pool() ==> (answer matches Err(refusal) && refusal.spec_kind()
                == RefusalKind::Incoherent),
            (item < self.spec_pool() && ones(self.spec_required()).contains(item as int)) ==> (
            answer matches Err(refusal) && refusal.spec_kind() == RefusalKind::Incoherent),
            (item < self.spec_pool() && !ones(self.spec_required()).contains(item as int)
                && because.start >= because.end) ==> (answer matches Err(refusal)
                && refusal.spec_kind() == RefusalKind::Unreported),
            answer matches Ok(terms) ==> ones(terms.spec_forbidden()) == ones(
                self.spec_forbidden(),
            ).insert(item as int) && terms.declares(
                self.spec_pool(),
                self.spec_worth(),
                self.spec_pairs(),
                self.spec_required(),
                terms.spec_forbidden(),
                self.spec_settled().push((item, because)),
                self.spec_floor(),
                self.spec_ceiling(),
            ),
    {
        proof {
            use_type_invariant(&self);
        }
        self.within(item)?;
        proof {
            lemma_item_bit(self.forbidden, item as u64);
            lemma_item_bit(self.required, item as u64);
        }
        if self.required & (1u64 << (item as u64)) != 0 {
            return Err(Refusal::incoherent("an item both required and forbidden"));
        }
        if because.is_empty() {
            return Err(Refusal::unreported("a constraint that cites no region"));
        }
        let Terms { pool, worth, pairs, mut required, mut forbidden, mut settled, floor, ceiling } = self;
        forbidden = forbidden | (1u64 << (item as u64));
        let ghost before = settled@;
        settled.push((item, because));
        proof {
            assert forall|k: int| 0 <= k < settled@.len() implies {
                let entry = #[trigger] settled@[k];
                entry.0 < pool && entry.1.start < entry.1.end
            } by {
                if k < before.len() {
                    assert(settled@[k] == before[k]);
                    assert(self.spec_settled()[k] == before[k]);
                }
            }
        }
        Ok(Terms { pool, worth, pairs, required, forbidden, settled, floor, ceiling })
    }

    /// Consider no subset larger than `count`, or than the pool.
    ///
    /// Refuses a ceiling below the floor already set.
    pub fn at_most(self, count: usize) -> (answer: Answer<Self>)
        ensures
            answer is Ok <==> count >= self.spec_floor(),
            answer matches Err(refusal) ==> refusal.spec_kind() == RefusalKind::Incoherent,
            answer matches Ok(terms) ==> terms.declares(
                self.spec_pool(),
                self.spec_worth(),
                self.spec_pairs(),
                self.spec_required(),
                self.spec_forbidden(),
                self.spec_settled(),
                self.spec_floor(),
                if count < self.spec_pool() { count as nat } else { self.spec_pool() },
            ),
    {
        proof {
            use_type_invariant(&self);
        }
        if count < self.floor {
            return Err(Refusal::incoherent("a ceiling below the floor"));
        }
        let Terms { pool, worth, pairs, required, forbidden, settled, floor, ceiling: _ } = self;
        let ceiling = if count < pool {
            count
        } else {
            pool
        };
        Ok(Terms { pool, worth, pairs, required, forbidden, settled, floor, ceiling })
    }

    /// Consider no subset smaller than `count`.
    ///
    /// Refuses a floor above the ceiling already set, and so above the pool.
    pub fn at_least(self, count: usize) -> (answer: Answer<Self>)
        ensures
            answer is Ok <==> count <= self.spec_ceiling(),
            answer matches Err(refusal) ==> refusal.spec_kind() == RefusalKind::Incoherent,
            answer matches Ok(terms) ==> terms.declares(
                self.spec_pool(),
                self.spec_worth(),
                self.spec_pairs(),
                self.spec_required(),
                self.spec_forbidden(),
                self.spec_settled(),
                count as nat,
                self.spec_ceiling(),
            ),
    {
        proof {
            use_type_invariant(&self);
        }
        if count > self.ceiling {
            return Err(Refusal::incoherent("a floor above the ceiling"));
        }
        let Terms { pool, worth, pairs, required, forbidden, settled, floor: _, ceiling } = self;
        Ok(Terms { pool, worth, pairs, required, forbidden, settled, floor: count, ceiling })
    }

    /// Whether `members` is a subset the declarations allow.
    pub fn allows(&self, members: u64) -> (allowed: bool)
        ensures
            allowed == self.permits(members),
            allowed ==> forall|i: int| #[trigger] bit(self.spec_required(), i) ==> bit(members, i),
            allowed ==> forall|i: int| #[trigger] bit(members, i) ==> !bit(self.spec_forbidden(), i),
            allowed ==> self.spec_floor() <= ones(members).len() <= self.spec_ceiling(),
    {
        proof {
            an_allowed_subset_takes_every_required_item_and_no_forbidden_one(*self, members);
        }
        let size = count_ones(members) as usize;
        let clear = members & self.forbidden == 0;
        let covers = members & self.required == self.required;
        proof {
            lemma_ones_and(members, self.forbidden);
            lemma_ones_empty(members & self.forbidden);
            if ones(members).disjoint(ones(self.forbidden)) {
                assert(ones(members & self.forbidden) =~= Set::<int>::empty());
            }
            if clear {
                assert forall|a: int| ones(members).contains(a) implies !ones(self.forbidden).contains(a) by {
                    assert(!ones(members & self.forbidden).contains(a));
                }
            }
            lemma_ones_and(members, self.required);
            if ones(self.required).subset_of(ones(members)) {
                assert(ones(members).intersect(ones(self.required)) =~= ones(self.required));
                lemma_ones_injective(members & self.required, self.required);
            }
            if covers {
                assert forall|a: int| ones(self.required).contains(a) implies ones(members).contains(a) by {
                    assert(ones(members & self.required).contains(a));
                }
            }
        }
        clear && covers && size >= self.floor && size <= self.ceiling
    }
}

impl<W> Terms<W> {
    /// The spans that argued for `members`, in the order they were declared.
    ///
    /// What the search chose, traced back to the regions of the problem that supported it: the
    /// weight of each member, each pair it takes whole, each requirement it meets, and every
    /// exclusion. Every span named covers a real region of the problem.
    pub fn support(&self, members: u64) -> (spans: Vec<Span>)
        ensures
            spans@ == self.spec_support(members),
            forall|k: int| 0 <= k < spans@.len() ==> #[trigger] spans@[k].start < spans@[k].end,
            forall|k: int|
                0 <= k < spans@.len() ==> argues_for(
                    self.spec_worth(),
                    self.spec_pairs(),
                    self.spec_settled(),
                    self.spec_forbidden(),
                    members,
                    #[trigger] spans@[k],
                ),
            forall|i: int|
                0 <= i < self.spec_worth().len() && bit(members, i) ==> (
                #[trigger] self.spec_worth()[i] matches Some(claim) ==> spans@.contains(claim.0)),
            forall|p: int|
                0 <= p < self.spec_pairs().len() && bit(
                    members,
                    (#[trigger] self.spec_pairs()[p]).0 as int,
                ) && bit(members, self.spec_pairs()[p].1 as int) ==> spans@.contains(
                    self.spec_pairs()[p].2,
                ),
            forall|e: int|
                0 <= e < self.spec_settled().len() && (bit(
                    members,
                    (#[trigger] self.spec_settled()[e]).0 as int,
                ) || bit(self.spec_forbidden(), self.spec_settled()[e].0 as int))
                    ==> spans@.contains(self.spec_settled()[e].1),
    {
        proof {
            use_type_invariant(self);
            lemma_support_cites(*self, members);
            every_span_in_a_support_argues_for_the_subset(*self, members);
            everything_that_argues_for_a_subset_is_cited(*self, members);
        }
        let mut spans: Vec<Span> = Vec::new();
        let mut item: usize = 0;
        while item < self.worth.len()
            invariant
                item <= self.worth@.len(),
                spans@ == worth_support(self.worth@, members, item as int),
            decreases self.worth@.len() - item,
        {
            if item < 64 && (members >> (item as u64)) & 1u64 == 1u64 {
                if let Some(claim) = &self.worth[item] {
                    spans.push(claim.0);
                }
            }
            item = item + 1;
        }
        let ghost worth_part = spans@;
        let mut k: usize = 0;
        while k < self.pairs.len()
            invariant
                k <= self.pairs@.len(),
                spans@ == worth_part + pair_support(self.pairs@, members, k as int),
            decreases self.pairs@.len() - k,
        {
            let pair = &self.pairs[k];
            if pair.0 < 64 && pair.1 < 64 && (members >> (pair.0 as u64)) & 1u64 == 1u64 && (members
                >> (pair.1 as u64)) & 1u64 == 1u64 {
                spans.push(pair.2);
            }
            k = k + 1;
        }
        let ghost pair_part = spans@;
        let mut k: usize = 0;
        while k < self.settled.len()
            invariant
                k <= self.settled@.len(),
                spans@ == pair_part + settled_support(self.settled@, members, self.forbidden, k as int),
            decreases self.settled@.len() - k,
        {
            let entry = self.settled[k];
            if entry.0 < 64 && ((members >> (entry.0 as u64)) & 1u64 == 1u64 || (self.forbidden >> (
            entry.0 as u64)) & 1u64 == 1u64) {
                spans.push(entry.1);
            }
            k = k + 1;
        }
        spans
    }

    /// The subsets one step of a beam grows `members` into, in item order.
    ///
    /// Each adds one item above every member that is not required, so no subset is reached twice
    /// while the required items, which every subset holds, leave no item below them unexplored. An
    /// item that is forbidden, already a member, or would take the subset past the ceiling is
    /// skipped.
    pub fn grow(&self, members: u64) -> (grown: Vec<u64>)
        ensures
            grown@ == beam_step(
                members,
                self.spec_required(),
                self.spec_forbidden(),
                self.spec_ceiling() as int,
                self.spec_pool() as int,
            ),
    {
        proof {
            use_type_invariant(self);
        }
        let chosen = members & !self.required;
        let first = (64 - chosen.leading_zeros()) as usize;
        let ghost from = 64 - vstd::std_specs::bits::u64_leading_zeros(chosen);
        proof {
            vstd::std_specs::bits::axiom_u64_leading_zeros(chosen);
        }
        let mut grown: Vec<u64> = Vec::new();
        let mut item: usize = first;
        if item > self.pool {
            item = self.pool;
            assert(offered(members, self.forbidden, self.ceiling as int, from, self.pool as int) =~= Seq::empty());
        }
        assert(grown@ =~= offered(members, self.forbidden, self.ceiling as int, from, item as int));
        while item < self.pool
            invariant
                item <= self.pool <= 64,
                item >= from || item == self.pool,
                grown@ == offered(members, self.forbidden, self.ceiling as int, from, item as int),
            decreases self.pool - item,
        {
            let bit = 1u64 << (item as u64);
            if self.forbidden & bit == 0 && members & bit == 0 {
                let candidate = members | bit;
                proof {
                    lemma_item_bit(self.forbidden, item as u64);
                    lemma_item_bit(members, item as u64);
                }
                if (count_ones(candidate) as usize) <= self.ceiling {
                    grown.push(candidate);
                }
            } else {
                proof {
                    lemma_item_bit(self.forbidden, item as u64);
                    lemma_item_bit(members, item as u64);
                }
            }
            item = item + 1;
        }
        grown
    }
}

proof fn lemma_worth_support_cites<W>(worth: Seq<Option<(Span, W)>>, members: u64, upto: int)
    requires
        0 <= upto <= worth.len(),
        forall|i: int| 0 <= i < worth.len() ==> (#[trigger] worth[i] matches Some(claim) ==> claim.0.start < claim.0.end),
    ensures
        forall|k: int| 0 <= k < worth_support(worth, members, upto).len() ==> #[trigger] worth_support(worth, members, upto)[k].start < worth_support(worth, members, upto)[k].end,
    decreases upto,
{
    if upto > 0 {
        lemma_worth_support_cites(worth, members, upto - 1);
        let before = worth_support(worth, members, upto - 1);
        let now = worth_support(worth, members, upto);
        let slot = worth[upto - 1];
        assert forall|k: int| 0 <= k < now.len() implies #[trigger] now[k].start < now[k].end by {
            if k < before.len() {
                assert(now[k] == before[k]);
            } else {
                assert(slot matches Some(claim) && now[k] == claim.0);
            }
        }
    }
}

proof fn lemma_pair_support_cites<W>(pairs: Seq<(usize, usize, Span, W)>, members: u64, upto: int)
    requires
        0 <= upto <= pairs.len(),
        forall|k: int| 0 <= k < pairs.len() ==> (#[trigger] pairs[k]).2.start < pairs[k].2.end,
    ensures
        forall|k: int| 0 <= k < pair_support(pairs, members, upto).len() ==> #[trigger] pair_support(pairs, members, upto)[k].start < pair_support(pairs, members, upto)[k].end,
    decreases upto,
{
    if upto > 0 {
        lemma_pair_support_cites(pairs, members, upto - 1);
        let before = pair_support(pairs, members, upto - 1);
        let now = pair_support(pairs, members, upto);
        let pair = pairs[upto - 1];
        assert forall|k: int| 0 <= k < now.len() implies #[trigger] now[k].start < now[k].end by {
            if k < before.len() {
                assert(now[k] == before[k]);
            } else {
                assert(now[k] == pair.2);
            }
        }
    }
}

proof fn lemma_settled_support_cites(settled: Seq<(usize, Span)>, members: u64, forbidden: u64, upto: int)
    requires
        0 <= upto <= settled.len(),
        forall|k: int| 0 <= k < settled.len() ==> (#[trigger] settled[k]).1.start < settled[k].1.end,
    ensures
        forall|k: int| 0 <= k < settled_support(settled, members, forbidden, upto).len() ==> #[trigger] settled_support(settled, members, forbidden, upto)[k].start < settled_support(settled, members, forbidden, upto)[k].end,
    decreases upto,
{
    if upto > 0 {
        lemma_settled_support_cites(settled, members, forbidden, upto - 1);
        let before = settled_support(settled, members, forbidden, upto - 1);
        let now = settled_support(settled, members, forbidden, upto);
        let entry = settled[upto - 1];
        assert forall|k: int| 0 <= k < now.len() implies #[trigger] now[k].start < now[k].end by {
            if k < before.len() {
                assert(now[k] == before[k]);
            } else {
                assert(now[k] == entry.1);
            }
        }
    }
}

proof fn lemma_support_cites<W>(terms: Terms<W>, members: u64)
    requires
        terms.wf(),
    ensures
        forall|k: int| 0 <= k < terms.spec_support(members).len() ==> #[trigger] terms.spec_support(members)[k].start < terms.spec_support(members)[k].end,
{
    let worth = terms.spec_worth();
    let pairs = terms.spec_pairs();
    let settled = terms.spec_settled();
    assert forall|k: int| 0 <= k < pairs.len() implies (#[trigger] pairs[k]).2.start < pairs[k].2.end by {
        let pair = pairs[k];
    }
    assert forall|k: int| 0 <= k < settled.len() implies (#[trigger] settled[k]).1.start < settled[k].1.end by {
        let entry = settled[k];
    }
    lemma_worth_support_cites(worth, members, worth.len() as int);
    lemma_pair_support_cites(pairs, members, pairs.len() as int);
    lemma_settled_support_cites(settled, members, terms.spec_forbidden(), settled.len() as int);
    let a = worth_support(worth, members, worth.len() as int);
    let b = pair_support(pairs, members, pairs.len() as int);
    let c = settled_support(settled, members, terms.spec_forbidden(), settled.len() as int);
    assert forall|k: int| 0 <= k < (a + b + c).len() implies #[trigger] (a + b + c)[k].start < (a + b + c)[k].end by {
        if k < a.len() {
            assert((a + b + c)[k] == a[k]);
        } else if k < a.len() + b.len() {
            assert((a + b + c)[k] == b[k - a.len()]);
        } else {
            assert((a + b + c)[k] == c[k - a.len() - b.len()]);
        }
    }
}

/// Each subset a beam grows into is the subset it grew from with one more item: an item from the
/// range searched, not forbidden, not already a member, and within the ceiling.
pub proof fn a_beam_step_adds_one_allowed_item(
    members: u64,
    forbidden: u64,
    ceiling: int,
    from: int,
    upto: int,
)
    requires
        0 <= from,
        upto <= 64,
    ensures
        forall|k: int| 0 <= k < offered(members, forbidden, ceiling, from, upto).len() ==> exists|item: int|
            from <= item < upto && !bit(forbidden, item) && !ones(members).contains(item) && ones(
                #[trigger] offered(members, forbidden, ceiling, from, upto)[k],
            ) == ones(members).insert(item) && ones(members).insert(item).len() <= ceiling,
    decreases upto - from,
{
    if upto > from {
        a_beam_step_adds_one_allowed_item(members, forbidden, ceiling, from, upto - 1);
        let before = offered(members, forbidden, ceiling, from, upto - 1);
        let now = offered(members, forbidden, ceiling, from, upto);
        let item = upto - 1;
        lemma_item_bit(members, item as u64);
        assert forall|k: int| 0 <= k < now.len() implies exists|found: int|
            from <= found < upto && !bit(forbidden, found) && !ones(members).contains(found) && ones(
                #[trigger] now[k],
            ) == ones(members).insert(found) && ones(members).insert(found).len() <= ceiling by {
            if k < before.len() {
                assert(now[k] == before[k]);
                let found = choose|found: int|
                    from <= found < upto - 1 && !bit(forbidden, found) && !ones(members).contains(found)
                        && ones(#[trigger] before[k]) == ones(members).insert(found) && ones(
                        members,
                    ).insert(found).len() <= ceiling;
                assert(from <= found < upto);
            } else {
                assert(now[k] == members | (1u64 << (item as u64)));
                assert(ones(now[k]) == ones(members).insert(item));
            }
        }
    }
}

/// No subset appears twice among those one beam step offers.
proof fn lemma_offered_distinct(members: u64, forbidden: u64, ceiling: int, from: int, upto: int)
    requires
        0 <= from,
        upto <= 64,
    ensures
        forall|j: int, k: int|
            0 <= j < k < offered(members, forbidden, ceiling, from, upto).len() ==> #[trigger] offered(
                members,
                forbidden,
                ceiling,
                from,
                upto,
            )[j] != #[trigger] offered(members, forbidden, ceiling, from, upto)[k],
    decreases upto - from,
{
    if upto > from {
        lemma_offered_distinct(members, forbidden, ceiling, from, upto - 1);
        a_beam_step_adds_one_allowed_item(members, forbidden, ceiling, from, upto - 1);
        let before = offered(members, forbidden, ceiling, from, upto - 1);
        let now = offered(members, forbidden, ceiling, from, upto);
        let item = upto - 1;
        lemma_item_bit(members, item as u64);
        assert forall|j: int, k: int| 0 <= j < k < now.len() implies #[trigger] now[j] != #[trigger] now[k] by {
            assert(now[j] == before[j]);
            if k < before.len() {
                assert(now[k] == before[k]);
            } else {
                let found = choose|found: int|
                    from <= found < upto - 1 && !bit(forbidden, found) && !ones(members).contains(found)
                        && ones(#[trigger] before[j]) == ones(members).insert(found) && ones(
                        members,
                    ).insert(found).len() <= ceiling;
                assert(ones(now[k]) == ones(members).insert(item));
                assert(ones(now[k]).contains(item));
                assert(!ones(before[j]).contains(item));
            }
        }
    }
}

/// An allowed item in the range searched is offered.
proof fn lemma_offered_contains(members: u64, forbidden: u64, ceiling: int, from: int, upto: int, item: int)
    requires
        from <= item < upto <= 64,
        0 <= from,
        !bit(forbidden, item),
        !bit(members, item),
        ones(members | (1u64 << (item as u64))).len() <= ceiling,
    ensures
        offered(members, forbidden, ceiling, from, upto).contains(members | (1u64 << (item as u64))),
    decreases upto - from,
{
    let grown = members | (1u64 << (item as u64));
    let now = offered(members, forbidden, ceiling, from, upto);
    if item == upto - 1 {
        assert(now[now.len() - 1] == grown);
    } else {
        lemma_offered_contains(members, forbidden, ceiling, from, upto - 1, item);
        let before = offered(members, forbidden, ceiling, from, upto - 1);
        let k = choose|k: int| 0 <= k < before.len() && before[k] == grown;
        assert(now[k] == grown);
    }
}

/// The set bits of `mask & !required` are the members of `mask` that are not required.
proof fn lemma_unrequired(mask: u64, required: u64)
    ensures
        forall|index: int| #[trigger] ones(mask & !required).contains(index) <==> (ones(mask).contains(
            index,
        ) && !ones(required).contains(index)),
{
    lemma_ones_and(mask, !required);
    lemma_ones_not(required);
    assert forall|index: int| #[trigger] ones(mask & !required).contains(index) <==> (ones(mask).contains(index) && !ones(required).contains(index)) by {
        assert(ones(mask & !required).contains(index) == ones(mask).intersect(ones(!required)).contains(index));
        if ones(mask).contains(index) {
            assert(0 <= index < 64);
        }
    }
}

/// A beam step never reaches one subset twice: where two subsets that take every required item
/// are grown, a subset offered by both was offered by the same one, at the same place.
pub proof fn a_beam_reaches_each_subset_once(
    first: u64,
    second: u64,
    required: u64,
    forbidden: u64,
    ceiling: int,
    pool: int,
    j: int,
    k: int,
)
    requires
        pool <= 64,
        ones(required).subset_of(ones(first)),
        ones(required).subset_of(ones(second)),
        0 <= j < beam_step(first, required, forbidden, ceiling, pool).len(),
        0 <= k < beam_step(second, required, forbidden, ceiling, pool).len(),
        beam_step(first, required, forbidden, ceiling, pool)[j] == beam_step(
            second,
            required,
            forbidden,
            ceiling,
            pool,
        )[k],
    ensures
        first == second,
        j == k,
{
    let from_a = 64 - vstd::std_specs::bits::u64_leading_zeros(first & !required);
    let from_b = 64 - vstd::std_specs::bits::u64_leading_zeros(second & !required);
    lemma_highest_one(first & !required);
    lemma_highest_one(second & !required);
    lemma_unrequired(first, required);
    lemma_unrequired(second, required);
    a_beam_step_adds_one_allowed_item(first, forbidden, ceiling, from_a, pool);
    a_beam_step_adds_one_allowed_item(second, forbidden, ceiling, from_b, pool);
    let steps_a = offered(first, forbidden, ceiling, from_a, pool);
    let steps_b = offered(second, forbidden, ceiling, from_b, pool);
    let grown = steps_a[j];
    assert(grown == steps_b[k]);
    let a = choose|item: int|
        from_a <= item < pool && !bit(forbidden, item) && !ones(first).contains(item) && ones(
            #[trigger] steps_a[j],
        ) == ones(first).insert(item) && ones(first).insert(item).len() <= ceiling;
    let b = choose|item: int|
        from_b <= item < pool && !bit(forbidden, item) && !ones(second).contains(item) && ones(
            #[trigger] steps_b[k],
        ) == ones(second).insert(item) && ones(second).insert(item).len() <= ceiling;
    // Each added item is the highest member of the result that is not required.
    assert(!ones(required).contains(a));
    assert(!ones(required).contains(b));
    if a < b {
        assert(ones(grown).contains(b));
        assert(ones(first).contains(b));
        assert(ones(first & !required).contains(b));
    } else if b < a {
        assert(ones(grown).contains(a));
        assert(ones(second).contains(a));
        assert(ones(second & !required).contains(a));
    }
    assert(a == b);
    assert(ones(first) =~= ones(grown).remove(a));
    assert(ones(second) =~= ones(grown).remove(b));
    lemma_ones_injective(first, second);
    lemma_offered_distinct(first, forbidden, ceiling, from_a, pool);
    if j < k {
        assert(steps_a[j] != steps_a[k]);
    } else if k < j {
        assert(steps_a[k] != steps_a[j]);
    }
}

/// Seeding a beam with the required items hides no subset below them: every subset that takes the
/// required items, no forbidden one, and no more than the ceiling, other than the seed itself, is
/// offered by one step from the same subset without its highest unrequired item, which still takes
/// every required item.
pub proof fn a_beam_reaches_every_subset_from_its_parent(
    grown: u64,
    required: u64,
    forbidden: u64,
    ceiling: int,
    pool: int,
)
    requires
        pool <= 64,
        forall|index: int| #[trigger] ones(grown).contains(index) ==> index < pool,
        ones(required).subset_of(ones(grown)),
        ones(grown).disjoint(ones(forbidden)),
        ones(grown).len() <= ceiling,
        grown & !required != 0,
    ensures
        ({
            let item = 63 - vstd::std_specs::bits::u64_leading_zeros(grown & !required);
            let parent = grown & !(1u64 << (item as u64));
            &&& 0 <= item < 64
            &&& ones(parent) == ones(grown).remove(item)
            &&& !ones(required).contains(item)
            &&& ones(required).subset_of(ones(parent))
            &&& beam_step(parent, required, forbidden, ceiling, pool).contains(grown)
        }),
{
    let item = 63 - vstd::std_specs::bits::u64_leading_zeros(grown & !required);
    lemma_highest_one(grown & !required);
    lemma_unrequired(grown, required);
    let bit_of = 1u64 << (item as u64);
    let parent = grown & !bit_of;
    lemma_ones_single(item as u64);
    lemma_ones_and(grown, !bit_of);
    lemma_ones_not(bit_of);
    assert(ones(parent) =~= ones(grown).remove(item)) by {
        assert forall|index: int| ones(parent).contains(index) <==> ones(grown).remove(item).contains(index) by {
            assert(ones(parent).contains(index) == ones(grown).intersect(ones(!bit_of)).contains(index));
            if ones(grown).contains(index) {
                assert(0 <= index < 64);
            }
        }
    }
    lemma_unrequired(parent, required);
    lemma_highest_one(parent & !required);
    let from = 64 - vstd::std_specs::bits::u64_leading_zeros(parent & !required);
    if parent & !required != 0 {
        let top = 63 - vstd::std_specs::bits::u64_leading_zeros(parent & !required);
        assert(ones(parent & !required).contains(top));
        assert(ones(grown & !required).contains(top));
        assert(top != item);
    }
    assert(from <= item);
    lemma_item_bit(parent, item as u64);
    assert(ones(parent | bit_of) =~= ones(grown));
    lemma_ones_injective(parent | bit_of, grown);
    assert(!bit(forbidden, item)) by {
        assert(ones(grown).contains(item));
    }
    lemma_offered_contains(parent, forbidden, ceiling, from, pool, item);
}

/// Whether `span` is the span of the weight of a member of `members`.
pub open spec fn weighs_a_member<W>(worth: Seq<Option<(Span, W)>>, members: u64, span: Span) -> bool {
    exists|i: int|
        0 <= i < worth.len() && bit(members, i) && (#[trigger] worth[i] matches Some(claim)
            && claim.0 == span)
}

/// Whether `span` is the span of a pair weight whose items are both members of `members`.
pub open spec fn weighs_a_pair_taken_whole<W>(pairs: Seq<(usize, usize, Span, W)>, members: u64, span: Span) -> bool {
    exists|k: int|
        0 <= k < pairs.len() && bit(members, (#[trigger] pairs[k]).0 as int) && bit(
            members,
            pairs[k].1 as int,
        ) && pairs[k].2 == span
}

/// Whether `span` is the span of a requirement of a member of `members`, or of an exclusion.
pub open spec fn settles_an_item_taken_or_excluded(
    settled: Seq<(usize, Span)>,
    members: u64,
    forbidden: u64,
    span: Span,
) -> bool {
    exists|k: int|
        0 <= k < settled.len() && (bit(members, (#[trigger] settled[k]).0 as int) || bit(
            forbidden,
            settled[k].0 as int,
        )) && settled[k].1 == span
}

/// Whether `span` argues for `members` under these declarations: it is the span of the weight of
/// a member, of a pair weight whose items are both members, or of a requirement or exclusion that
/// bears on the subset (a requirement of one of its members, or any exclusion).
pub open spec fn argues_for<W>(
    worth: Seq<Option<(Span, W)>>,
    pairs: Seq<(usize, usize, Span, W)>,
    settled: Seq<(usize, Span)>,
    forbidden: u64,
    members: u64,
    span: Span,
) -> bool {
    ||| weighs_a_member(worth, members, span)
    ||| weighs_a_pair_taken_whole(pairs, members, span)
    ||| settles_an_item_taken_or_excluded(settled, members, forbidden, span)
}

proof fn lemma_worth_support_exact<W>(worth: Seq<Option<(Span, W)>>, members: u64, upto: int)
    requires
        0 <= upto <= worth.len(),
    ensures
        forall|k: int|
            0 <= k < worth_support(worth, members, upto).len() ==> weighs_a_member(
                worth,
                members,
                #[trigger] worth_support(worth, members, upto)[k],
            ),
        forall|i: int|
            0 <= i < upto && bit(members, i) ==> (#[trigger] worth[i] matches Some(claim)
                ==> worth_support(worth, members, upto).contains(claim.0)),
    decreases upto,
{
    if upto > 0 {
        lemma_worth_support_exact(worth, members, upto - 1);
        let before = worth_support(worth, members, upto - 1);
        let now = worth_support(worth, members, upto);
        assert forall|k: int| 0 <= k < now.len() implies weighs_a_member(worth, members, #[trigger] now[k]) by {
            if k < before.len() {
                assert(now[k] == before[k]);
                assert(weighs_a_member(worth, members, before[k]));
            } else {
                assert(worth[upto - 1] matches Some(claim) && claim.0 == now[k]);
                assert(bit(members, upto - 1));
            }
        }
        assert forall|i: int|
            0 <= i < upto && bit(members, i) implies (#[trigger] worth[i] matches Some(claim)
                ==> now.contains(claim.0)) by {
            if let Some(claim) = worth[i] {
                if i < upto - 1 {
                    let k = choose|k: int| 0 <= k < before.len() && before[k] == claim.0;
                    assert(now[k] == before[k]);
                } else {
                    assert(now[now.len() - 1] == claim.0);
                }
            }
        }
    }
}

proof fn lemma_pair_support_exact<W>(pairs: Seq<(usize, usize, Span, W)>, members: u64, upto: int)
    requires
        0 <= upto <= pairs.len(),
    ensures
        forall|k: int|
            0 <= k < pair_support(pairs, members, upto).len() ==> weighs_a_pair_taken_whole(
                pairs,
                members,
                #[trigger] pair_support(pairs, members, upto)[k],
            ),
        forall|p: int|
            0 <= p < upto && bit(members, (#[trigger] pairs[p]).0 as int) && bit(
                members,
                pairs[p].1 as int,
            ) ==> pair_support(pairs, members, upto).contains(pairs[p].2),
    decreases upto,
{
    if upto > 0 {
        lemma_pair_support_exact(pairs, members, upto - 1);
        let before = pair_support(pairs, members, upto - 1);
        let now = pair_support(pairs, members, upto);
        assert forall|k: int| 0 <= k < now.len() implies weighs_a_pair_taken_whole(pairs, members, #[trigger] now[k]) by {
            if k < before.len() {
                assert(now[k] == before[k]);
                assert(weighs_a_pair_taken_whole(pairs, members, before[k]));
            } else {
                let last = pairs[upto - 1];
                assert(now[k] == last.2);
            }
        }
        assert forall|p: int|
            0 <= p < upto && bit(members, (#[trigger] pairs[p]).0 as int) && bit(
                members,
                pairs[p].1 as int,
            ) implies now.contains(pairs[p].2) by {
            if p < upto - 1 {
                let k = choose|k: int| 0 <= k < before.len() && before[k] == pairs[p].2;
                assert(now[k] == before[k]);
            } else {
                assert(now[now.len() - 1] == pairs[p].2);
            }
        }
    }
}

proof fn lemma_settled_support_exact(settled: Seq<(usize, Span)>, members: u64, forbidden: u64, upto: int)
    requires
        0 <= upto <= settled.len(),
    ensures
        forall|k: int|
            0 <= k < settled_support(settled, members, forbidden, upto).len()
                ==> settles_an_item_taken_or_excluded(
                settled,
                members,
                forbidden,
                #[trigger] settled_support(settled, members, forbidden, upto)[k],
            ),
        forall|e: int|
            0 <= e < upto && (bit(members, (#[trigger] settled[e]).0 as int) || bit(
                forbidden,
                settled[e].0 as int,
            )) ==> settled_support(settled, members, forbidden, upto).contains(settled[e].1),
    decreases upto,
{
    if upto > 0 {
        lemma_settled_support_exact(settled, members, forbidden, upto - 1);
        let before = settled_support(settled, members, forbidden, upto - 1);
        let now = settled_support(settled, members, forbidden, upto);
        assert forall|k: int| 0 <= k < now.len() implies settles_an_item_taken_or_excluded(
            settled,
            members,
            forbidden,
            #[trigger] now[k],
        ) by {
            if k < before.len() {
                assert(now[k] == before[k]);
                assert(settles_an_item_taken_or_excluded(settled, members, forbidden, before[k]));
            } else {
                let last = settled[upto - 1];
                assert(now[k] == last.1);
            }
        }
        assert forall|e: int|
            0 <= e < upto && (bit(members, (#[trigger] settled[e]).0 as int) || bit(
                forbidden,
                settled[e].0 as int,
            )) implies now.contains(settled[e].1) by {
            if e < upto - 1 {
                let k = choose|k: int| 0 <= k < before.len() && before[k] == settled[e].1;
                assert(now[k] == before[k]);
            } else {
                assert(now[now.len() - 1] == settled[e].1);
            }
        }
    }
}

/// Every span a subset's support names argues for that subset: the weight of one of its members,
/// a pair weight whose items it takes both, a requirement of one of its members, or an exclusion.
/// A pair's span is never cited for a subset that takes only one of its items.
pub proof fn every_span_in_a_support_argues_for_the_subset<W>(terms: Terms<W>, members: u64)
    ensures
        forall|k: int|
            0 <= k < terms.spec_support(members).len() ==> argues_for(
                terms.spec_worth(),
                terms.spec_pairs(),
                terms.spec_settled(),
                terms.spec_forbidden(),
                members,
                #[trigger] terms.spec_support(members)[k],
            ),
{
    let worth = terms.spec_worth();
    let pairs = terms.spec_pairs();
    let settled = terms.spec_settled();
    let forbidden = terms.spec_forbidden();
    lemma_worth_support_exact(worth, members, worth.len() as int);
    lemma_pair_support_exact(pairs, members, pairs.len() as int);
    lemma_settled_support_exact(settled, members, forbidden, settled.len() as int);
    let a = worth_support(worth, members, worth.len() as int);
    let b = pair_support(pairs, members, pairs.len() as int);
    let c = settled_support(settled, members, forbidden, settled.len() as int);
    assert forall|k: int| 0 <= k < (a + b + c).len() implies argues_for(
        worth,
        pairs,
        settled,
        forbidden,
        members,
        #[trigger] (a + b + c)[k],
    ) by {
        if k < a.len() {
            assert((a + b + c)[k] == a[k]);
        } else if k < a.len() + b.len() {
            assert((a + b + c)[k] == b[k - a.len()]);
        } else {
            assert((a + b + c)[k] == c[k - a.len() - b.len()]);
        }
    }
}

/// Nothing that argues for a subset goes uncited: the weight of every member, every pair weight
/// whose items it takes both, every requirement of one of its members and every exclusion each
/// have their span in the subset's support.
pub proof fn everything_that_argues_for_a_subset_is_cited<W>(terms: Terms<W>, members: u64)
    ensures
        forall|i: int|
            0 <= i < terms.spec_worth().len() && bit(members, i) ==> (
            #[trigger] terms.spec_worth()[i] matches Some(claim) ==> terms.spec_support(
                members,
            ).contains(claim.0)),
        forall|p: int|
            0 <= p < terms.spec_pairs().len() && bit(members, (#[trigger] terms.spec_pairs()[p]).0 as int)
                && bit(members, terms.spec_pairs()[p].1 as int) ==> terms.spec_support(
                members,
            ).contains(terms.spec_pairs()[p].2),
        forall|e: int|
            0 <= e < terms.spec_settled().len() && (bit(
                members,
                (#[trigger] terms.spec_settled()[e]).0 as int,
            ) || bit(terms.spec_forbidden(), terms.spec_settled()[e].0 as int))
                ==> terms.spec_support(members).contains(terms.spec_settled()[e].1),
{
    let worth = terms.spec_worth();
    let pairs = terms.spec_pairs();
    let settled = terms.spec_settled();
    let forbidden = terms.spec_forbidden();
    lemma_worth_support_exact(worth, members, worth.len() as int);
    lemma_pair_support_exact(pairs, members, pairs.len() as int);
    lemma_settled_support_exact(settled, members, forbidden, settled.len() as int);
    let a = worth_support(worth, members, worth.len() as int);
    let b = pair_support(pairs, members, pairs.len() as int);
    let c = settled_support(settled, members, forbidden, settled.len() as int);
    let all = terms.spec_support(members);
    assert(all == a + b + c);
    assert forall|i: int|
        0 <= i < worth.len() && bit(members, i) implies (#[trigger] worth[i] matches Some(claim)
            ==> all.contains(claim.0)) by {
        if let Some(claim) = worth[i] {
            let k = choose|k: int| 0 <= k < a.len() && a[k] == claim.0;
            assert(all[k] == a[k]);
        }
    }
    assert forall|p: int|
        0 <= p < pairs.len() && bit(members, (#[trigger] pairs[p]).0 as int) && bit(
            members,
            pairs[p].1 as int,
        ) implies all.contains(pairs[p].2) by {
        let k = choose|k: int| 0 <= k < b.len() && b[k] == pairs[p].2;
        assert(all[a.len() + k] == b[k]);
    }
    assert forall|e: int|
        0 <= e < settled.len() && (bit(members, (#[trigger] settled[e]).0 as int) || bit(
            forbidden,
            settled[e].0 as int,
        )) implies all.contains(settled[e].1) by {
        let k = choose|k: int| 0 <= k < c.len() && c[k] == settled[e].1;
        assert(all[a.len() + b.len() + k] == c[k]);
    }
}

/// A subset the terms allow takes every required item, takes no forbidden item, and has a count
/// between the floor and the ceiling; and every subset that does so is allowed.
pub proof fn an_allowed_subset_takes_every_required_item_and_no_forbidden_one<W>(
    terms: Terms<W>,
    members: u64,
)
    ensures
        terms.permits(members) ==> forall|i: int|
            #[trigger] bit(terms.spec_required(), i) ==> bit(members, i),
        terms.permits(members) ==> forall|i: int|
            #[trigger] bit(members, i) ==> !bit(terms.spec_forbidden(), i),
        terms.permits(members) ==> terms.spec_floor() <= ones(members).len()
            <= terms.spec_ceiling(),
        ((forall|i: int| #[trigger] bit(terms.spec_required(), i) ==> bit(members, i)) && (forall|
            i: int,
        | #[trigger] bit(members, i) ==> !bit(terms.spec_forbidden(), i)) && terms.spec_floor()
            <= ones(members).len() <= terms.spec_ceiling()) ==> terms.permits(members),
{
    let required = terms.spec_required();
    let forbidden = terms.spec_forbidden();
    if terms.permits(members) {
        assert forall|i: int| #[trigger] bit(required, i) implies bit(members, i) by {
            assert(ones(required).contains(i));
        }
        assert forall|i: int| #[trigger] bit(members, i) implies !bit(forbidden, i) by {
            assert(ones(members).contains(i));
        }
    }
    if (forall|i: int| #[trigger] bit(required, i) ==> bit(members, i)) && (forall|i: int|
        #[trigger] bit(members, i) ==> !bit(forbidden, i)) {
        assert forall|i: int| ones(required).contains(i) implies ones(members).contains(i) by {
            assert(bit(required, i));
        }
        assert forall|i: int| ones(members).contains(i) implies !ones(forbidden).contains(i) by {
            assert(bit(members, i));
        }
    }
}

proof fn lemma_worth_support_filters<W>(worth: Seq<Option<(Span, W)>>, members: u64, upto: int)
    requires
        0 <= upto <= worth.len(),
    ensures
        worth_support(worth, members, upto) == Seq::new(upto as nat, |i: int| i).filter(
            |i: int| bit(members, i) && worth[i] is Some,
        ).map_values(|i: int| worth[i]->Some_0.0),
    decreases upto,
{
    reveal(Seq::filter);
    let pred = |i: int| bit(members, i) && worth[i] is Some;
    let pick = |i: int| worth[i]->Some_0.0;
    let items = Seq::new(upto as nat, |i: int| i);
    if upto > 0 {
        lemma_worth_support_filters(worth, members, upto - 1);
        let shorter = Seq::new((upto - 1) as nat, |i: int| i);
        assert(items.drop_last() =~= shorter);
        assert(items.last() == upto - 1);
        let kept = shorter.filter(pred);
        if pred(upto - 1) {
            assert(items.filter(pred) == kept.push(upto - 1));
            assert(kept.push(upto - 1).map_values(pick) =~= kept.map_values(pick).push(pick(upto - 1)));
        } else {
            assert(items.filter(pred) == kept);
        }
    } else {
        assert(items.filter(pred) =~= Seq::<int>::empty());
        assert(items.filter(pred).map_values(pick) =~= Seq::<Span>::empty());
    }
}

proof fn lemma_pair_support_filters<W>(pairs: Seq<(usize, usize, Span, W)>, members: u64, upto: int)
    requires
        0 <= upto <= pairs.len(),
    ensures
        pair_support(pairs, members, upto) == pairs.subrange(0, upto).filter(
            |pair: (usize, usize, Span, W)| bit(members, pair.0 as int) && bit(members, pair.1 as int),
        ).map_values(|pair: (usize, usize, Span, W)| pair.2),
    decreases upto,
{
    reveal(Seq::filter);
    let pred = |pair: (usize, usize, Span, W)| bit(members, pair.0 as int) && bit(members, pair.1 as int);
    let pick = |pair: (usize, usize, Span, W)| pair.2;
    let taken = pairs.subrange(0, upto);
    if upto > 0 {
        lemma_pair_support_filters(pairs, members, upto - 1);
        assert(taken.drop_last() =~= pairs.subrange(0, upto - 1));
        assert(taken.last() == pairs[upto - 1]);
        let kept = pairs.subrange(0, upto - 1).filter(pred);
        if pred(pairs[upto - 1]) {
            assert(taken.filter(pred) == kept.push(pairs[upto - 1]));
            assert(kept.push(pairs[upto - 1]).map_values(pick) =~= kept.map_values(pick).push(
                pick(pairs[upto - 1]),
            ));
        } else {
            assert(taken.filter(pred) == kept);
        }
    } else {
        assert(taken.filter(pred) =~= Seq::<(usize, usize, Span, W)>::empty());
        assert(taken.filter(pred).map_values(pick) =~= Seq::<Span>::empty());
    }
}

proof fn lemma_settled_support_filters(settled: Seq<(usize, Span)>, members: u64, forbidden: u64, upto: int)
    requires
        0 <= upto <= settled.len(),
    ensures
        settled_support(settled, members, forbidden, upto) == settled.subrange(0, upto).filter(
            |entry: (usize, Span)| bit(members, entry.0 as int) || bit(forbidden, entry.0 as int),
        ).map_values(|entry: (usize, Span)| entry.1),
    decreases upto,
{
    reveal(Seq::filter);
    let pred = |entry: (usize, Span)| bit(members, entry.0 as int) || bit(forbidden, entry.0 as int);
    let pick = |entry: (usize, Span)| entry.1;
    let taken = settled.subrange(0, upto);
    if upto > 0 {
        lemma_settled_support_filters(settled, members, forbidden, upto - 1);
        assert(taken.drop_last() =~= settled.subrange(0, upto - 1));
        assert(taken.last() == settled[upto - 1]);
        let kept = settled.subrange(0, upto - 1).filter(pred);
        if pred(settled[upto - 1]) {
            assert(taken.filter(pred) == kept.push(settled[upto - 1]));
            assert(kept.push(settled[upto - 1]).map_values(pick) =~= kept.map_values(pick).push(
                pick(settled[upto - 1]),
            ));
        } else {
            assert(taken.filter(pred) == kept);
        }
    } else {
        assert(taken.filter(pred) =~= Seq::<(usize, Span)>::empty());
        assert(taken.filter(pred).map_values(pick) =~= Seq::<Span>::empty());
    }
}

/// A subset's support is, in declaration order and once each: the spans of the weights of its
/// members, then the spans of the pair weights whose items it takes both, then the spans of the
/// requirements of its members and of every exclusion. Each part is the declared list kept where
/// it bears on the subset.
pub proof fn a_support_is_what_bears_on_the_subset_in_declaration_order<W>(terms: Terms<W>, members: u64)
    ensures
        terms.spec_support(members) == Seq::new(terms.spec_worth().len(), |i: int| i).filter(
            |i: int| bit(members, i) && terms.spec_worth()[i] is Some,
        ).map_values(|i: int| terms.spec_worth()[i]->Some_0.0) + terms.spec_pairs().filter(
            |pair: (usize, usize, Span, W)| bit(members, pair.0 as int) && bit(members, pair.1 as int),
        ).map_values(|pair: (usize, usize, Span, W)| pair.2) + terms.spec_settled().filter(
            |entry: (usize, Span)| bit(members, entry.0 as int) || bit(
                terms.spec_forbidden(),
                entry.0 as int,
            ),
        ).map_values(|entry: (usize, Span)| entry.1),
{
    let worth = terms.spec_worth();
    let pairs = terms.spec_pairs();
    let settled = terms.spec_settled();
    lemma_worth_support_filters(worth, members, worth.len() as int);
    lemma_pair_support_filters(pairs, members, pairs.len() as int);
    lemma_settled_support_filters(settled, members, terms.spec_forbidden(), settled.len() as int);
    assert(pairs.subrange(0, pairs.len() as int) =~= pairs);
    assert(settled.subrange(0, settled.len() as int) =~= settled);
}

} // verus!
