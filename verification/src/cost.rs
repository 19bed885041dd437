use vstd::prelude::*;
use vstd::std_specs::ops::AddSpecImpl;

use crate::bits::{count_ones, lemma_ones_empty, lemma_ones_finite, lemma_ones_or, lemma_ones_single, ones};

verus! {

/// The most rules one step of a search can be charged with breaking.
pub const RULES: u32 = 64;

/// The rules one step of a search breaks.
///
/// A rule is named by a number under [`RULES`], so charging the same rule twice within one step is
/// the same as charging it once: whichever place fires, the step is charged once. Two steps that
/// break the same rule are still two faults, because each step is priced on its own.
///
/// This is the part of a step's cost that is a statement about rules. How far a step strays from
/// the plain reading is a magnitude kept beside it, never added into it.
#[derive(Clone, Copy, Debug, PartialEq, Eq, Structural, Hash, Default)]
pub struct Rules {
    broken: u64,
}

impl View for Rules {
    type V = Set<int>;

    /// The names of the rules broken.
    closed spec fn view(&self) -> Set<int> {
        ones(self.broken)
    }
}

impl Rules {
    /// The rules broken, as the mask that names them.
    pub closed spec fn mask(self) -> u64 {
        self.broken
    }

    /// Nothing broken.
    pub fn free() -> (rules: Self)
        ensures
            rules@ == Set::<int>::empty(),
            rules.mask() == 0,
    {
        proof {
            lemma_ones_empty(0);
        }
        Rules { broken: 0 }
    }

    /// Charge the step with breaking the rule named by `rule`.
    ///
    /// A rule that cannot be named under [`RULES`] cannot be counted once, so it is not accepted.
    pub fn breach(rule: u32) -> (rules: Self)
        requires
            rule < RULES,
        ensures
            rules@ == set![rule as int],
    {
        proof {
            lemma_ones_single(rule as u64);
        }
        Rules { broken: 1u64 << (rule as u64) }
    }

    /// How many rules this step breaks.
    pub fn breaches(self) -> (count: u32)
        ensures
            count == self@.len(),
            count <= RULES,
    {
        count_ones(self.broken)
    }

    /// Whether the rule named by `rule` is among them.
    pub fn breaks(self, rule: u32) -> (broken: bool)
        ensures
            broken == self@.contains(rule as int),
    {
        rule < RULES && (self.broken >> (rule as u64)) & 1u64 == 1u64
    }

    /// Whether any rule is broken here.
    pub fn is_clean(self) -> (clean: bool)
        ensures
            clean == self@.is_empty(),
    {
        proof {
            lemma_ones_empty(self.broken);
        }
        self.broken == 0
    }

    /// Both charges at once. Rules unite, so a rule charged twice in one step is paid for once.
    pub fn union(self, other: Self) -> (both: Self)
        ensures
            both@ == self@.union(other@),
            both.mask() == self.mask() | other.mask(),
    {
        proof {
            lemma_ones_or(self.broken, other.broken);
        }
        Rules { broken: self.broken | other.broken }
    }
}

impl core::ops::Add for Rules {
    type Output = Self;

    /// Rules unite, so a rule charged twice in one step is paid for once.
    fn add(self, other: Self) -> (both: Self) {
        self.union(other)
    }
}

impl AddSpecImpl for Rules {
    open spec fn obeys_add_spec() -> bool {
        true
    }

    open spec fn add_req(self, rhs: Self) -> bool {
        true
    }

    open spec fn add_spec(self, rhs: Self) -> Self {
        Rules::united(self, rhs)
    }
}

impl Rules {
    /// The charge that unites both.
    pub closed spec fn united(a: Self, b: Self) -> Self {
        Rules { broken: a.broken | b.broken }
    }

    /// Nothing broken.
    pub closed spec fn none() -> Self {
        Rules { broken: 0 }
    }
}

/// What the charges of a step name: the union of the rules of each.
pub proof fn united_names_both(a: Rules, b: Rules)
    ensures
        Rules::united(a, b)@ == a@.union(b@),
        Rules::none()@ == Set::<int>::empty(),
{
    lemma_ones_or(a.mask(), b.mask());
    lemma_ones_empty(0);
}

/// Two charges are the same charge exactly when they name the same rules.
pub proof fn a_charge_is_the_rules_it_names(a: Rules, b: Rules)
    ensures
        a@ == b@ <==> a == b,
{
    if a@ == b@ {
        crate::bits::lemma_ones_injective(a.mask(), b.mask());
    }
}

/// A rule charged in two places is paid for once: charging the same rules again changes nothing.
pub proof fn a_rule_charged_twice_is_paid_once(a: Rules)
    ensures
        Rules::united(a, a) == a,
{
    let x = a.mask();
    assert(x | x == x) by (bit_vector);
}

/// The order in which a step's charges are gathered does not change what it is charged with, and
/// charging nothing changes nothing.
pub proof fn charges_unite_in_any_order(a: Rules, b: Rules, c: Rules)
    ensures
        Rules::united(a, b) == Rules::united(b, a),
        Rules::united(Rules::united(a, b), c) == Rules::united(a, Rules::united(b, c)),
        Rules::united(Rules::none(), a) == a,
{
    let (x, y, z) = (a.mask(), b.mask(), c.mask());
    assert(x | y == y | x) by (bit_vector);
    assert((x | y) | z == x | (y | z)) by (bit_vector);
    assert(0u64 | x == x) by (bit_vector);
}

/// Two different rules are two faults, and a step is never charged with more faults than its
/// parts were charged with together.
pub proof fn breaches_count_each_rule_once(a: Rules, b: Rules)
    ensures
        Rules::united(a, b)@.len() <= a@.len() + b@.len(),
        a@.len() <= Rules::united(a, b)@.len(),
        a@.disjoint(b@) ==> Rules::united(a, b)@.len() == a@.len() + b@.len(),
{
    united_names_both(a, b);
    lemma_ones_finite(a.mask(), 0);
    lemma_ones_finite(b.mask(), 0);
    vstd::set_lib::lemma_len_union(a@, b@);
    vstd::set_lib::lemma_len_subset(a@, a@.union(b@));
    if a@.disjoint(b@) {
        vstd::set_lib::lemma_set_disjoint_lens(a@, b@);
    }
}

} // verus!
