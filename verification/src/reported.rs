use vstd::prelude::*;
use vstd::std_specs::convert::FromSpecImpl;

use crate::refusal::{Answer, Refusal, RefusalKind};

verus! {

/// A quantity as a source gave it.
///
/// `Unreported` is not zero, not a default, and not a typical value. It is the absence of a
/// measurement, and it has no accessor that can substitute one.
#[derive(Clone, Copy, Debug, PartialEq, Eq, Hash)]
pub enum Reported<T> {
    /// The source gave a value.
    Known(T),
    /// The source was silent.
    Unreported,
}

impl<T> Reported<T> {
    /// Whether the source was silent.
    pub fn is_unreported(&self) -> (silent: bool)
        ensures
            silent == (*self is Unreported),
    {
        match self {
            Reported::Known(_) => false,
            Reported::Unreported => true,
        }
    }

    /// The value, or a refusal naming what was missing.
    ///
    /// The only way in. There is no `unwrap_or` by design.
    pub fn require(self, what: &'static str) -> (answer: Answer<T>)
        ensures
            match self {
                Reported::Known(value) => answer == Ok::<T, Refusal>(value),
                Reported::Unreported => answer matches Err(refusal)
                    && refusal.spec_kind() == RefusalKind::Unreported
                    && refusal.spec_reason() == what,
            },
    {
        match self {
            Reported::Known(value) => Ok(value),
            Reported::Unreported => Err(Refusal::unreported(what)),
        }
    }

    /// Apply a function to a known value.
    pub fn map<U, F: FnOnce(T) -> U>(self, f: F) -> (mapped: Reported<U>)
        requires
            self matches Reported::Known(value) ==> f.requires((value,)),
        ensures
            match self {
                Reported::Known(value) => mapped matches Reported::Known(image) && f.ensures(
                    (value,),
                    image,
                ),
                Reported::Unreported => mapped is Unreported,
            },
    {
        match self {
            Reported::Known(value) => Reported::Known(f(value)),
            Reported::Unreported => Reported::Unreported,
        }
    }
}

impl<T> From<Option<T>> for Reported<T> {
    fn from(value: Option<T>) -> (reported: Self) {
        match value {
            Some(known) => Reported::Known(known),
            None => Reported::Unreported,
        }
    }
}

impl<T> FromSpecImpl<Option<T>> for Reported<T> {
    open spec fn obeys_from_spec() -> bool {
        true
    }

    open spec fn from_spec(value: Option<T>) -> Self {
        match value {
            Some(known) => Reported::Known(known),
            None => Reported::Unreported,
        }
    }
}

} // verus!
