//! The integer structure of a feasibility problem: which rows a requirement may add, and where
//! each row's slack, surplus and artificial columns stand in a two-phase simplex tableau.
use vstd::prelude::*;

use crate::model::Sense;
use crate::refusal::{Answer, Refusal, RefusalKind};

verus! {

/// How many columns a row adds to the tableau: a slack for an upper bound, a surplus and an
/// artificial for a lower bound, an artificial for an equality.
pub open spec fn added(sense: Sense) -> nat {
    match sense {
        Sense::Ge => 2,
        _ => 1,
    }
}

/// The first column left free by the rows before `row`, after `vars` columns of variables.
pub open spec fn first_free(vars: nat, senses: Seq<Sense>, row: int) -> nat
    decreases row,
{
    if row <= 0 {
        vars
    } else {
        first_free(vars, senses, row - 1) + added(senses[row - 1])
    }
}

/// Each row adds one or two columns, so the columns after `row` rows lie between one and two per
/// row past the variables, and never shrink from one row to the next.
pub proof fn columns_grow_by_one_or_two_per_row(vars: nat, senses: Seq<Sense>, row: int, later: int)
    requires
        0 <= row <= later,
    ensures
        vars + row <= first_free(vars, senses, row) <= vars + 2 * row,
        first_free(vars, senses, row) <= first_free(vars, senses, later),
    decreases later,
{
    if later > row {
        columns_grow_by_one_or_two_per_row(vars, senses, row, later - 1);
    } else if row > 0 {
        columns_grow_by_one_or_two_per_row(vars, senses, row - 1, row - 1);
    }
}

/// Where the columns of a tableau stand.
#[derive(Clone, Debug, PartialEq, Eq)]
pub struct Layout {
    /// Every column: variables, then each row's slack, surplus or artificial.
    pub cols: usize,
    /// The first column each row adds: its slack, its surplus, or the artificial of an equality.
    pub first: Vec<usize>,
    /// The column each row starts with in the basis: its slack or its artificial.
    pub basis: Vec<usize>,
    /// Whether each column is an artificial, which phase one drives out.
    pub artificial: Vec<bool>,
}

/// Lay out the columns of a tableau over `vars` variables, with one row per entry of `senses`.
///
/// Rows take their columns in order after the variables. An upper bound adds a slack that starts
/// in the basis. A lower bound adds a surplus and then an artificial, which starts in the basis. An
/// equality adds an artificial, which starts in the basis.
pub fn lay_out(vars: usize, senses: &[Sense]) -> (layout: Layout)
    requires
        vars + 2 * senses@.len() <= usize::MAX,
    ensures
        layout.cols == first_free(vars as nat, senses@, senses@.len() as int),
        layout.first@.len() == senses@.len(),
        layout.basis@.len() == senses@.len(),
        layout.artificial@.len() == layout.cols,
        forall|i: int|
            0 <= i < senses@.len() ==> #[trigger] layout.first@[i] == first_free(
                vars as nat,
                senses@,
                i,
            ),
        forall|i: int|
            0 <= i < senses@.len() ==> #[trigger] layout.basis@[i] == first_free(
                vars as nat,
                senses@,
                i + 1,
            ) - 1,
        forall|c: int|
            0 <= c < layout.cols ==> #[trigger] layout.artificial@[c] == exists|i: int|
                0 <= i < senses@.len() && !(senses@[i] is Le) && layout.basis@[i] == c,
        senses@.len() == 0 ==> layout.cols == vars,
        senses@.len() > 0 ==> layout.first@[0] == vars && layout.cols == layout.basis@[senses@.len()
            - 1] + 1,
        forall|i: int|
            0 <= i < senses@.len() ==> #[trigger] layout.basis@[i] == layout.first@[i] + if senses@[i] is Ge {
                1int
            } else {
                0int
            },
        forall|i: int|
            0 <= i < senses@.len() - 1 ==> #[trigger] layout.first@[i + 1] == layout.basis@[i] + 1,
{
    let n = senses.len();
    let ghost total = first_free(vars as nat, senses@, n as int);
    proof {
        columns_grow_by_one_or_two_per_row(vars as nat, senses@, n as int, n as int);
    }
    let mut cols: usize = vars;
    let mut k: usize = 0;
    while k < n
        invariant
            n == senses@.len(),
            k <= n,
            vars + 2 * n <= usize::MAX,
            cols == first_free(vars as nat, senses@, k as int),
            cols <= vars + 2 * k,
        decreases n - k,
    {
        cols = match senses[k] {
            Sense::Ge => cols + 2,
            _ => cols + 1,
        };
        k = k + 1;
    }
    let mut artificial: Vec<bool> = Vec::new();
    let mut c: usize = 0;
    while c < cols
        invariant
            c <= cols,
            artificial@ == Seq::new(c as nat, |j: int| false),
        decreases cols - c,
    {
        artificial.push(false);
        c = c + 1;
        assert(artificial@ =~= Seq::new(c as nat, |j: int| false));
    }
    let mut first: Vec<usize> = Vec::new();
    let mut basis: Vec<usize> = Vec::new();
    let mut next: usize = vars;
    let mut k: usize = 0;
    while k < n
        invariant
            n == senses@.len(),
            k <= n,
            cols == total,
            total == first_free(vars as nat, senses@, n as int),
            next == first_free(vars as nat, senses@, k as int),
            artificial@.len() == cols,
            first@.len() == k,
            basis@.len() == k,
            forall|i: int|
                0 <= i < k ==> #[trigger] first@[i] == first_free(vars as nat, senses@, i),
            forall|i: int|
                0 <= i < k ==> #[trigger] basis@[i] == first_free(vars as nat, senses@, i + 1) - 1,
            forall|i: int| 0 <= i < k ==> #[trigger] basis@[i] < next,
            forall|j: int|
                0 <= j < cols ==> #[trigger] artificial@[j] == exists|i: int|
                    0 <= i < k && !(senses@[i] is Le) && basis@[i] == j,
        decreases n - k,
    {
        proof {
            columns_grow_by_one_or_two_per_row(vars as nat, senses@, k + 1, n as int);
        }
        let ghost before = artificial@;
        let ghost old_basis = basis@;
        first.push(next);
        let slot = match senses[k] {
            Sense::Le => next,
            Sense::Ge => next + 1,
            Sense::Eq => next,
        };
        if !matches!(senses[k], Sense::Le) {
            artificial.set(slot, true);
        }
        basis.push(slot);
        proof {
            assert forall|j: int| 0 <= j < cols implies #[trigger] artificial@[j] == exists|i: int|
                0 <= i < k + 1 && !(senses@[i] is Le) && basis@[i] == j by {
                if exists|i: int| 0 <= i < k + 1 && !(senses@[i] is Le) && basis@[i] == j {
                    let i = choose|i: int| 0 <= i < k + 1 && !(senses@[i] is Le) && basis@[i] == j;
                    if i < k {
                        assert(basis@[i] == old_basis[i]);
                        assert(old_basis[i] < next);
                        assert(before[j]);
                    }
                } else {
                    assert(!(0 <= k < k + 1 && !(senses@[k as int] is Le) && basis@[k as int] == j));
                    if j != slot {
                        if before[j] {
                            let i = choose|i: int| 0 <= i < k && !(senses@[i] is Le) && old_basis[i] == j;
                            assert(basis@[i] == old_basis[i]);
                        }
                    }
                }
            }
        }
        next = match senses[k] {
            Sense::Ge => next + 2,
            _ => next + 1,
        };
        k = k + 1;
    }
    let layout = Layout { cols, first, basis, artificial };
    proof {
        assert(k == n);
        assert forall|c: int| 0 <= c < layout.cols implies #[trigger] layout.artificial@[c] == exists|i: int|
            0 <= i < senses@.len() && !(senses@[i] is Le) && layout.basis@[i] == c by {
            assert(artificial@[c] == exists|i: int| 0 <= i < k && !(senses@[i] is Le) && basis@[i] == c);
            if layout.artificial@[c] {
                let i = choose|i: int| 0 <= i < k && !(senses@[i] is Le) && basis@[i] == c;
                assert(layout.basis@[i] == c);
            }
        }
        assert forall|i: int| 0 <= i < n - 1 implies #[trigger] layout.first@[i + 1] == layout.basis@[i] + 1 by {
            assert(first_free(vars as nat, senses@, i + 1) >= 1) by {
                columns_grow_by_one_or_two_per_row(vars as nat, senses@, i + 1, i + 1);
            }
        }
        if n > 0 {
            columns_grow_by_one_or_two_per_row(vars as nat, senses@, n as int, n as int);
        }
    }
    layout
}

/// What a requirement's rows amount to over `vars` variables, given the width of each: how many of
/// them, from the first, are taken, and whether the requirement is accepted.
///
/// Rows are taken in order until one of the wrong width, which is refused as incoherent, and the
/// rows before it stay taken. A requirement that states no row is refused as uninformative.
pub fn admit_widths(vars: usize, widths: &[usize]) -> (admitted: (usize, Answer<()>))
    ensures
        admitted.0 <= widths@.len(),
        forall|i: int| 0 <= i < admitted.0 ==> widths@[i] == vars,
        admitted.1 is Ok <==> (widths@.len() > 0 && admitted.0 == widths@.len()),
        widths@.len() == 0 ==> (admitted.1 matches Err(refusal) && refusal.spec_kind()
            == RefusalKind::Uninformative),
        admitted.0 < widths@.len() ==> widths@[admitted.0 as int] != vars && (admitted.1 matches Err(
            refusal,
        ) && refusal.spec_kind() == RefusalKind::Incoherent),
{
    if widths.len() == 0 {
        return (0, Err(Refusal::uninformative("a requirement stated nothing")));
    }
    let mut k: usize = 0;
    while k < widths.len()
        invariant
            k <= widths@.len(),
            forall|i: int| 0 <= i < k ==> widths@[i] == vars,
        decreases widths@.len() - k,
    {
        if widths[k] != vars {
            return (k, Err(Refusal::incoherent("a requirement stated a row of the wrong width")));
        }
        k = k + 1;
    }
    (k, Ok(()))
}

} // verus!
