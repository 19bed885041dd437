use fitkit::{Rules, RULES};

#[test]
fn a_rule_charged_in_two_places_is_counted_once() {
    let doubled_tense = 3;
    let by_the_state = Rules::breach(doubled_tense);
    let by_the_pair = Rules::breach(doubled_tense);
    assert_eq!(by_the_state + by_the_pair, Rules::breach(doubled_tense));
    assert_eq!((by_the_state + by_the_pair).breaches(), 1);
}

#[test]
fn different_rules_are_different_faults() {
    assert_eq!((Rules::breach(1) + Rules::breach(2)).breaches(), 2);
    assert_eq!((Rules::breach(0) + Rules::breach(RULES - 1)).breaches(), 2);
}

#[test]
fn a_step_names_exactly_the_rules_it_broke() {
    let broken = Rules::breach(3) + Rules::free();
    assert!(broken.breaks(3));
    assert!(!broken.breaks(4));
    assert!(!broken.breaks(RULES), "a rule that cannot be named is never broken");
    assert!(!broken.is_clean());
    assert!(Rules::free().is_clean());
    assert_eq!(Rules::free().breaches(), 0);
}

#[test]
fn charges_unite_in_any_order() {
    let (a, b, c) = (Rules::breach(5), Rules::breach(9), Rules::breach(5) + Rules::breach(40));
    assert_eq!(a + b, b + a);
    assert_eq!((a + b) + c, a + (b + c));
    assert_eq!(((a + b) + c).breaches(), 3);
    assert_eq!(a.union(b), a + b);
}

#[test]
fn every_rule_under_the_limit_can_be_charged_at_once() {
    let mut all = Rules::free();
    for rule in 0..RULES {
        all = all + Rules::breach(rule);
    }
    assert_eq!(all.breaches(), RULES);
    assert!((0..RULES).all(|rule| all.breaks(rule)));
}

#[test]
fn a_rule_charged_in_two_places_is_paid_for_once() {
    let twice = Rules::breach(7) + Rules::breach(7);
    assert_eq!(twice.breaches(), 1);
    assert_eq!(twice, Rules::breach(7));
}

#[test]
fn two_different_rules_are_two_faults() {
    assert_eq!((Rules::breach(1) + Rules::breach(2)).breaches(), 2);
}
