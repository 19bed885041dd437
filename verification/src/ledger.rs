use vstd::prelude::*;

use crate::refusal::{Answer, Refusal};
use vstd::string::StringSliceAdditionalSpecFns;

verus! {

/// A published source.
#[derive(Clone, Copy, Debug, PartialEq, Eq, Hash)]
pub struct Citation {
    /// Stable key, such as `Bulone1997AgaroseWater`.
    pub key: &'static str,
    /// Full reference.
    pub source: &'static str,
}

/// A law that answers from cited measurement, never from a name.
///
/// Implementors state their domain of validity in [`Law::admits`] and their result in
/// `derive`. Both are reached only by way of [`ask`], which checks the domain first.
pub trait Law {
    /// The state being asked about.
    type Input;
    /// What the law returns.
    type Output;

    /// The source this law answers from.
    fn citation(&self) -> Citation;

    /// Whether the input falls inside what the source measured, or a refusal naming the condition
    /// that fell outside it.
    fn admits(&self, input: &Self::Input) -> Answer<()>;

    /// The result for an admitted input, or a refusal when a quantity the result depends on was
    /// never reported.
    fn derive(&self, input: &Self::Input) -> Answer<Self::Output>;
}

/// Ask a law, gating on [`Law::admits`] first.
///
/// The only supported entry point, so validity cannot be bypassed by calling `derive` directly.
pub fn ask<L: Law>(law: &L, input: &L::Input) -> (answer: Answer<L::Output>)
    ensures
        exists|admitted: Answer<()>|
            call_ensures(L::admits, (law, input), admitted) && (admitted matches Err(refusal)
                ==> answer == Err::<L::Output, Refusal>(refusal)) && (admitted is Ok
                ==> call_ensures(L::derive, (law, input), answer)),
{
    match law.admits(input) {
        Err(refusal) => Err(refusal),
        Ok(()) => law.derive(input),
    }
}

/// Whether `a` and `b` hold the same bytes.
fn same_bytes(a: &[u8], b: &[u8]) -> (same: bool)
    ensures
        same == (a@ == b@),
{
    if a.len() != b.len() {
        return false;
    }
    let mut k: usize = 0;
    while k < a.len()
        invariant
            a@.len() == b@.len(),
            k <= a@.len(),
            forall|i: int| 0 <= i < k ==> a@[i] == b@[i],
        decreases a@.len() - k,
    {
        if a[k] != b[k] {
            return false;
        }
        k = k + 1;
    }
    assert(a@ =~= b@);
    true
}

/// Whether `quantity` is among `names`, as text: a quantity a source did not report is written
/// down by name, so a later reader cannot mistake silence for a value.
pub fn lists(names: &[&str], quantity: &str) -> (listed: bool)
    ensures
        listed == exists|i: int| 0 <= i < names@.len() && (#[trigger] names@[i]).spec_bytes()
            == quantity.spec_bytes(),
{
    let mut k: usize = 0;
    while k < names.len()
        invariant
            k <= names@.len(),
            forall|i: int| 0 <= i < k ==> (#[trigger] names@[i]).spec_bytes() != quantity.spec_bytes(),
        decreases names@.len() - k,
    {
        if same_bytes(names[k].as_bytes(), quantity.as_bytes()) {
            return true;
        }
        k = k + 1;
    }
    false
}

} // verus!
