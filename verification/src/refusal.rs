use vstd::prelude::*;
use vstd::string::StringExecFns;

verus! {

/// The class of a refusal.
#[derive(Clone, Copy, Debug, PartialEq, Eq, Structural, Hash)]
pub enum RefusalKind {
    /// Outside the conditions the source measured.
    OutsideProvenance,
    /// A required quantity was never reported.
    Unreported,
    /// The input is not a coherent state.
    Incoherent,
    /// Evidence exists but carries no information.
    Uninformative,
}

/// Why a question could not be answered from the evidence available.
///
/// A refusal is a correct outcome. The alternative is a number derived from a typical value, a
/// category average, or the name of the thing being asked about.
#[derive(Clone, Copy, Debug, PartialEq, Eq, Hash)]
pub struct Refusal {
    reason: &'static str,
    kind: RefusalKind,
}

/// The result of asking a law or solver. Either the evidence reaches, or it refuses with a reason.
pub type Answer<T> = Result<T, Refusal>;

/// The words that open the description of a refusal of each class.
pub open spec fn kind_label(kind: RefusalKind) -> Seq<char> {
    match kind {
        RefusalKind::OutsideProvenance => "outside provenance"@,
        RefusalKind::Unreported => "unreported"@,
        RefusalKind::Incoherent => "incoherent input"@,
        RefusalKind::Uninformative => "uninformative evidence"@,
    }
}

impl Refusal {
    /// The reason, as text.
    pub closed spec fn spec_reason(self) -> &'static str {
        self.reason
    }

    /// The class.
    pub closed spec fn spec_kind(self) -> RefusalKind {
        self.kind
    }

    /// Outside the conditions the source measured.
    pub fn outside_provenance(reason: &'static str) -> (refusal: Self)
        ensures
            refusal.spec_kind() == RefusalKind::OutsideProvenance,
            refusal.spec_reason() == reason,
    {
        Refusal { reason, kind: RefusalKind::OutsideProvenance }
    }

    /// A required quantity was never reported.
    pub fn unreported(reason: &'static str) -> (refusal: Self)
        ensures
            refusal.spec_kind() == RefusalKind::Unreported,
            refusal.spec_reason() == reason,
    {
        Refusal { reason, kind: RefusalKind::Unreported }
    }

    /// The input is not a coherent state.
    pub fn incoherent(reason: &'static str) -> (refusal: Self)
        ensures
            refusal.spec_kind() == RefusalKind::Incoherent,
            refusal.spec_reason() == reason,
    {
        Refusal { reason, kind: RefusalKind::Incoherent }
    }

    /// Evidence carries no information.
    pub fn uninformative(reason: &'static str) -> (refusal: Self)
        ensures
            refusal.spec_kind() == RefusalKind::Uninformative,
            refusal.spec_reason() == reason,
    {
        Refusal { reason, kind: RefusalKind::Uninformative }
    }

    /// The reason.
    pub fn reason(self) -> (reason: &'static str)
        ensures
            reason == self.spec_reason(),
    {
        self.reason
    }

    /// The class.
    pub fn kind(self) -> (kind: RefusalKind)
        ensures
            kind == self.spec_kind(),
    {
        self.kind
    }

    /// The refusal as a reader sees it: its class, a colon, and its reason.
    pub fn describe(self) -> (text: String)
        ensures
            text@ == kind_label(self.spec_kind()) + ": "@ + self.spec_reason()@,
    {
        let label = match self.kind {
            RefusalKind::OutsideProvenance => "outside provenance",
            RefusalKind::Unreported => "unreported",
            RefusalKind::Incoherent => "incoherent input",
            RefusalKind::Uninformative => "uninformative evidence",
        };
        let mut text = String::from_str(label);
        text.append(": ");
        text.append(self.reason);
        text
    }
}

/// Two refusals are the same refusal exactly when they have the same class and the same reason.
pub proof fn a_refusal_is_its_class_and_reason(a: Refusal, b: Refusal)
    ensures
        a == b <==> (a.spec_kind() == b.spec_kind() && a.spec_reason() == b.spec_reason()),
{
}

} // verus!
