use fitkit::{admit_widths, lay_out, RefusalKind, Sense};

#[test]
fn each_row_takes_its_columns_after_the_variables() {
    let layout = lay_out(3, &[Sense::Le, Sense::Ge, Sense::Eq, Sense::Le]);
    assert_eq!(layout.cols, 3 + 1 + 2 + 1 + 1);
    assert_eq!(layout.first, vec![3, 4, 6, 7]);
    assert_eq!(layout.basis, vec![3, 5, 6, 7]);
    assert_eq!(
        layout.artificial,
        vec![false, false, false, false, false, true, true, false],
        "the artificials are the lower bound's second column and the equality's only one"
    );
}

#[test]
fn a_tableau_of_upper_bounds_needs_no_artificial() {
    let layout = lay_out(2, &[Sense::Le, Sense::Le]);
    assert_eq!(layout.cols, 4);
    assert_eq!(layout.basis, vec![2, 3]);
    assert!(layout.artificial.iter().all(|&is_artificial| !is_artificial));
    let empty = lay_out(5, &[]);
    assert_eq!(empty.cols, 5);
    assert!(empty.basis.is_empty());
    assert_eq!(empty.artificial, vec![false; 5]);
}

#[test]
fn a_requirement_of_rows_that_fit_is_taken_whole() {
    let (kept, verdict) = admit_widths(3, &[3, 3]);
    assert_eq!(kept, 2);
    assert!(verdict.is_ok());
}

#[test]
fn a_requirement_that_states_nothing_is_uninformative() {
    let (kept, verdict) = admit_widths(3, &[]);
    assert_eq!(kept, 0);
    assert_eq!(verdict.err().unwrap().kind(), RefusalKind::Uninformative);
}

#[test]
fn rows_before_one_of_the_wrong_width_stay_taken() {
    let (kept, verdict) = admit_widths(3, &[3, 3, 2, 3]);
    assert_eq!(kept, 2);
    assert_eq!(verdict.err().unwrap().kind(), RefusalKind::Incoherent);
    let (kept, verdict) = admit_widths(2, &[4]);
    assert_eq!(kept, 0);
    assert_eq!(verdict.err().unwrap().reason(), "a requirement stated a row of the wrong width");
}
