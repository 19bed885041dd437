use vstd::prelude::*;
use vstd::string::{StringExecFns, StringSliceAdditionalSpecFns};

verus! {

/// Whether `pattern` appears in `text` as a contiguous run.
pub open spec fn occurs(text: Seq<u8>, pattern: Seq<u8>) -> bool {
    exists|at: int| 0 <= at && at + pattern.len() <= text.len() && #[trigger] text.subrange(at, at + pattern.len()) == pattern
}

/// Whether `pattern` appears in `text` as a contiguous run of bytes.
pub fn contains_bytes(text: &[u8], pattern: &[u8]) -> (found: bool)
    ensures
        found == occurs(text@, pattern@),
{
    let n = text.len();
    let m = pattern.len();
    if m > n {
        return false;
    }
    let mut at: usize = 0;
    while at <= n - m
        invariant
            n == text@.len(),
            m == pattern@.len(),
            m <= n,
            at <= n - m + 1,
            forall|earlier: int| 0 <= earlier < at ==> #[trigger] text@.subrange(earlier, earlier + m) != pattern@,
        decreases n - m + 1 - at,
    {
        let mut k: usize = 0;
        let mut same = true;
        while k < m
            invariant
                n == text@.len(),
                m == pattern@.len(),
                at + m <= n,
                k <= m,
                same == forall|j: int| 0 <= j < k ==> text@[at + j] == pattern@[j],
            decreases m - k,
        {
            if text[at + k] != pattern[k] {
                same = false;
            }
            k = k + 1;
        }
        if same {
            assert(text@.subrange(at as int, at + m) =~= pattern@);
            return true;
        }
        proof {
            let j = choose|j: int| 0 <= j < m && text@[at + j] != pattern@[j];
            assert(text@.subrange(at as int, at + m)[j] != pattern@[j]);
        }
        at = at + 1;
    }
    proof {
        assert forall|place: int| 0 <= place && place + m <= n implies #[trigger] text@.subrange(place, place + m) != pattern@ by {
            assert(place < at);
        }
    }
    false
}

/// A run is found wherever it was placed, and never in a text shorter than itself.
pub proof fn a_text_holds_every_run_placed_in_it(before: Seq<u8>, pattern: Seq<u8>, after: Seq<u8>)
    ensures
        occurs(before + pattern + after, pattern),
        forall|text: Seq<u8>| text.len() < pattern.len() ==> !#[trigger] occurs(text, pattern),
{
    let text = before + pattern + after;
    let at = before.len() as int;
    assert(text.subrange(at, at + pattern.len()) =~= pattern);
}

/// Whether source `i` holds banned symbol `j`.
pub open spec fn reaches(sources: Seq<(&str, &str)>, banned: Seq<&str>, i: int, j: int) -> bool {
    occurs(sources[i].1.spec_bytes(), banned[j].spec_bytes())
}

/// What is reported when source `i` holds symbol `j`.
pub open spec fn reach_message(sources: Seq<(&str, &str)>, banned: Seq<&str>, i: int, j: int) -> Seq<char> {
    sources[i].0@ + " reaches "@ + banned[j]@ + ", so an answer can descend from it"@
}

/// Refuse if any banned symbol appears in any source text.
///
/// Pass files as `(path, text)` pairs. Use it to keep identity keyed lookups, such as a table from
/// a name to a number, out of the path that derives quantities. Reading the call graph once proves
/// nothing about tomorrow; this does.
///
/// The first source, in order, that holds a banned symbol is reported with the first such symbol
/// it holds, naming both.
pub fn forbid_symbols(sources: &[(&str, &str)], banned: &[&str]) -> (verdict: Result<(), String>)
    ensures
        verdict is Ok <==> forall|i: int, j: int|
            0 <= i < sources@.len() && 0 <= j < banned@.len() ==> !reaches(sources@, banned@, i, j),
        verdict matches Err(message) ==> exists|i: int, j: int|
            0 <= i < sources@.len() && 0 <= j < banned@.len() && reaches(sources@, banned@, i, j)
                && message@ == reach_message(sources@, banned@, i, j)
                && (forall|i2: int, j2: int|
                    0 <= i2 < sources@.len() && 0 <= j2 < banned@.len() && (i2 < i || (i2 == i
                        && j2 < j)) ==> !reaches(sources@, banned@, i2, j2)),
{
    let mut i: usize = 0;
    while i < sources.len()
        invariant
            i <= sources@.len(),
            forall|i2: int, j2: int|
                0 <= i2 < i && 0 <= j2 < banned@.len() ==> !reaches(sources@, banned@, i2, j2),
        decreases sources@.len() - i,
    {
        let (path, text) = sources[i];
        let mut j: usize = 0;
        while j < banned.len()
            invariant
                i < sources@.len(),
                (path, text) == sources@[i as int],
                j <= banned@.len(),
                forall|i2: int, j2: int|
                    0 <= i2 < i && 0 <= j2 < banned@.len() ==> !reaches(sources@, banned@, i2, j2),
                forall|j2: int| 0 <= j2 < j ==> !reaches(sources@, banned@, i as int, j2),
            decreases banned@.len() - j,
        {
            let symbol = banned[j];
            if contains_bytes(text.as_bytes(), symbol.as_bytes()) {
                let mut message = String::from_str(path);
                message.append(" reaches ");
                message.append(symbol);
                message.append(", so an answer can descend from it");
                proof {
                    assert(reaches(sources@, banned@, i as int, j as int));
                    assert(message@ == reach_message(sources@, banned@, i as int, j as int));
                    assert forall|i2: int, j2: int|
                        0 <= i2 < sources@.len() && 0 <= j2 < banned@.len() && (i2 < i || (i2 == i
                            && j2 < j)) implies !reaches(sources@, banned@, i2, j2) by {}
                }
                return Err(message);
            }
            j = j + 1;
        }
        i = i + 1;
    }
    Ok(())
}

} // verus!
