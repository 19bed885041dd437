use fitkit::decode::came_from;
use fitkit::{admit_problem, backtrack, RefusalKind, Tally};

fn tally(priced: u64, affordable: u64) -> Tally {
    let mut tally = Tally::new();
    tally.decision(priced, affordable);
    tally
}

#[test]
fn one_candidate_offered_is_no_decision() {
    assert!(!tally(1, 1).decided());
    assert!(tally(2, 2).decided());
    let refused = tally(1, 1).witness().unwrap_err();
    assert_eq!(refused.kind(), RefusalKind::Uninformative);
    assert!(tally(3, 1).witness().is_ok());
}

#[test]
fn evidence_that_settles_a_choice_rejects_nothing() {
    let settled = tally(2, 1);
    assert!(settled.decided());
    assert_eq!(settled.rejected(), 0, "nothing affordable was turned down");
    assert_eq!(tally(3, 0).rejected(), 0, "nothing affordable at all");
}

#[test]
fn a_tally_adds_up_every_decision() {
    let mut counts = Tally::new();
    counts.decision(3, 3);
    counts.decision(1, 1);
    counts.decision(4, 2);
    assert_eq!(counts.considered(), 8);
    assert_eq!(counts.choices(), 2);
    assert_eq!(counts.rejected(), 3);
    assert!(counts.considered() >= counts.rejected());
}

#[test]
fn an_empty_or_unnameable_problem_is_refused() {
    for (steps, states) in [(0, 4), (4, 0), (0, 0)] {
        assert_eq!(admit_problem(steps, states).unwrap_err().kind(), RefusalKind::Unreported);
    }
    let wide = u32::MAX as usize + 1;
    assert_eq!(admit_problem(2, wide).unwrap_err().kind(), RefusalKind::Incoherent);
    assert!(admit_problem(2, u32::MAX as usize).is_ok());
    assert!(admit_problem(5, 3).is_ok());
}

#[test]
fn a_path_follows_its_backpointers_from_the_end() {
    // Three steps, two states. Step 1 reached state 0 from 1 and state 1 from 0; step 2 reached
    // state 0 from 0 and state 1 from 1.
    let back = [0, 0, 1, 0, 0, 1];
    assert_eq!(backtrack(&back, 3, 2, 1), vec![0, 1, 1]);
    assert_eq!(backtrack(&back, 3, 2, 0), vec![1, 0, 0]);
    assert_eq!(backtrack(&[0, 0, 0], 1, 3, 2), vec![2], "one step is only where it ended");
}

#[test]
fn a_trail_names_where_each_reached_state_came_from() {
    let trail = [(1, 4), (3, 0), (7, 2)];
    assert_eq!(came_from(&trail, 3), 0);
    assert_eq!(came_from(&trail, 1), 4);
    assert_eq!(came_from(&trail, 7), 2);
    assert_eq!(came_from(&trail, 5), 0, "a state the step never reached came from nowhere");
    assert_eq!(came_from(&[], 5), 0);
}

#[test]
fn a_model_offering_one_candidate_decided_nothing() {
    assert!(!tally(1, 1).decided());
    assert!(tally(2, 2).decided());
}

#[test]
fn evidence_that_settles_a_real_choice_still_counts_as_one() {
    // Two candidates were offered and only one could be paid for. The model did its part.
    let counts = tally(2, 1);
    assert!(counts.decided());
    assert_eq!(counts.rejected(), 0, "nothing affordable was turned down");
}

#[test]
fn a_problem_wider_than_a_backpointer_is_refused_as_incoherent() {
    let states = u32::MAX as usize + 1;
    let refused = admit_problem(2, states).expect_err("more states than a backpointer can name");
    assert_eq!(refused.kind(), RefusalKind::Incoherent);
}

#[test]
fn a_problem_with_no_steps_or_no_states_is_refused_as_unreported() {
    for (steps, states) in [(0, 4), (4, 0)] {
        let refused = admit_problem(steps, states).expect_err("nothing was there to decode");
        assert_eq!(refused.kind(), RefusalKind::Unreported);
    }
}

#[test]
fn rejections_count_up_to_the_last_value_a_u64_holds() {
    let mut counts = Tally::new();
    counts.decision(1, u64::MAX);
    assert_eq!(counts.rejected(), u64::MAX - 1);
    counts.decision(1, 2);
    assert_eq!(counts.rejected(), u64::MAX, "only the losers are counted, never the one kept");
    counts.decision(1, 1);
    counts.decision(1, 0);
    assert_eq!(counts.rejected(), u64::MAX);
    assert_eq!(counts.considered(), 4);
    assert!(!counts.decided(), "no step priced two candidates");
}
