use vstd::prelude::*;

verus! {

/// A half-open region `[start, end)` of the problem.
///
/// Unitless. Frames, reaction stages, or one span covering everything.
#[derive(Clone, Copy, Debug, PartialEq, Eq, Structural, Hash, PartialOrd, Ord, Default)]
pub struct Span {
    /// First index, inclusive.
    pub start: usize,
    /// Last index, exclusive.
    pub end: usize,
}

impl Span {
    /// The indices covered, whatever order the fields were set in.
    pub open spec fn indices(self) -> Set<int> {
        Set::new(|p: int| self.start <= p < self.end)
    }

    /// The number of indices covered; zero for a span whose fields were set inverted.
    pub open spec fn spec_len(self) -> nat {
        if self.end >= self.start { (self.end - self.start) as nat } else { 0 }
    }

    /// Whether `position` falls inside.
    pub open spec fn holds(self, position: int) -> bool {
        self.start <= position < self.end
    }

    /// A span over `[start, end)`. An inverted range is empty.
    pub fn new(start: usize, end: usize) -> (span: Self)
        ensures
            span.start == start,
            span.end == if end >= start { end } else { start },
            span.spec_len() == if end >= start { end - start } else { 0 },
    {
        Span { start, end: if end >= start { end } else { start } }
    }

    /// A span over a whole problem of size `len`.
    pub fn whole(len: usize) -> (span: Self)
        ensures
            span.start == 0,
            span.end == len,
            forall|p: int| span.holds(p) <==> 0 <= p < len,
    {
        Self::new(0, len)
    }

    /// Indices covered. Zero if the fields were set inverted by hand.
    pub fn len(self) -> (n: usize)
        ensures
            n == self.spec_len(),
    {
        if self.end >= self.start { self.end - self.start } else { 0 }
    }

    /// Whether the span covers nothing.
    pub fn is_empty(self) -> (empty: bool)
        ensures
            empty == (self.end <= self.start),
            empty == (self.spec_len() == 0),
    {
        self.end <= self.start
    }

    /// Whether `position` falls inside.
    pub fn contains(self, position: usize) -> (inside: bool)
        ensures
            inside == self.holds(position as int),
    {
        position >= self.start && position < self.end
    }

    /// Whether two spans share an index.
    pub fn overlaps(self, other: Self) -> (shared: bool)
        ensures
            shared == (self.start < self.end && other.start < other.end && self.start < other.end
                && other.start < self.end),
            shared == exists|p: int| self.holds(p) && other.holds(p),
    {
        proof {
            overlap_is_a_shared_index(self, other);
        }
        self.start < self.end && other.start < other.end && self.start < other.end && other.start
            < self.end
    }
}

/// Two spans overlap exactly when some index lies inside both, and overlapping is symmetric.
pub proof fn overlap_is_a_shared_index(a: Span, b: Span)
    ensures
        (a.start < a.end && b.start < b.end && a.start < b.end && b.start < a.end) <==> exists|
            p: int,
        | a.holds(p) && b.holds(p),
        (a.start < a.end && b.start < b.end && a.start < b.end && b.start < a.end) <==> (b.start
            < b.end && a.start < a.end && b.start < a.end && a.start < b.end),
{
    if a.start < a.end && b.start < b.end && a.start < b.end && b.start < a.end {
        let p = if a.start >= b.start { a.start as int } else { b.start as int };
        assert(a.holds(p) && b.holds(p));
    }
}

/// A span is empty exactly when it covers no index, and its length counts the indices it covers.
pub proof fn length_counts_the_indices(span: Span)
    ensures
        span.indices().finite(),
        span.indices().len() == span.spec_len(),
        span.spec_len() == 0 <==> (forall|p: int| !span.holds(p)),
{
    let s = span.start as int;
    let e = if span.end >= span.start { span.end as int } else { s };
    assert(span.indices() =~= vstd::set_lib::set_int_range(s, e));
    vstd::set_lib::lemma_int_range(s, e);
    if span.spec_len() != 0 {
        assert(span.holds(s));
    }
}

/// Neighbouring spans, one ending where the next starts, share no index and do not overlap.
pub proof fn neighbours_do_not_overlap(a: Span, b: Span)
    requires
        a.end == b.start,
    ensures
        !(a.start < a.end && b.start < b.end && a.start < b.end && b.start < a.end),
        forall|p: int| !(a.holds(p) && b.holds(p)),
{
}

/// The index of the first span in `spans` that covers `position`, or `None` where none does.
pub fn first_covering(spans: &[Span], position: usize) -> (found: Option<usize>)
    ensures
        found is None <==> forall|i: int| 0 <= i < spans@.len() ==> !(#[trigger] spans@[i]).holds(
            position as int,
        ),
        found matches Some(at) ==> at < spans@.len() && spans@[at as int].holds(position as int)
            && forall|i: int| 0 <= i < at ==> !(#[trigger] spans@[i]).holds(position as int),
{
    let mut k: usize = 0;
    while k < spans.len()
        invariant
            k <= spans@.len(),
            forall|i: int| 0 <= i < k ==> !(#[trigger] spans@[i]).holds(position as int),
        decreases spans@.len() - k,
    {
        if spans[k].contains(position) {
            return Some(k);
        }
        k = k + 1;
    }
    None
}

} // verus!
