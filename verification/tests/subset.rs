use fitkit::{Answer, Refusal, RefusalKind, Selection, Solver, Span, Terms, MAX_POOL};

fn cited(item: usize) -> Span {
    Span::new(item, item + 1)
}

fn pool(size: usize) -> Terms<f64> {
    Terms::over(size).expect("a pool to choose from")
}

const FINE: Answer<()> = Ok(());

#[test]
fn an_empty_or_unmaskable_pool_is_refused() {
    assert_eq!(Terms::<f64>::over(0).err().unwrap().kind(), RefusalKind::Unreported);
    assert_eq!(Terms::<f64>::over(MAX_POOL + 1).err().unwrap().kind(), RefusalKind::Incoherent);
    assert_eq!(pool(MAX_POOL).pool(), 64);
    assert_eq!(MAX_POOL, u64::BITS as usize);
}

#[test]
fn contradictory_declarations_are_refused() {
    let both = pool(4).require(1, cited(0)).expect("a cited requirement").forbid(1, cited(0));
    assert_eq!(both.err().unwrap().kind(), RefusalKind::Incoherent);
    let reversed = pool(4).forbid(2, cited(0)).expect("a cited exclusion").require(2, cited(0));
    assert_eq!(reversed.err().unwrap().kind(), RefusalKind::Incoherent);
    let uncited = pool(4).require(1, Span::new(2, 2));
    assert_eq!(uncited.err().unwrap().kind(), RefusalKind::Unreported);
    let outside = pool(4).forbid(4, cited(4));
    assert_eq!(outside.err().unwrap().kind(), RefusalKind::Incoherent);
    let floor_over_ceiling = pool(2).at_least(1).expect("a floor").at_most(0);
    assert_eq!(floor_over_ceiling.err().unwrap().kind(), RefusalKind::Incoherent);
    let ceiling_under_floor = pool(2).at_most(1).expect("a ceiling").at_least(2);
    assert_eq!(ceiling_under_floor.err().unwrap().kind(), RefusalKind::Incoherent);
}

#[test]
fn a_requirement_holds_an_exclusion_holds_and_a_ceiling_binds() {
    let terms = pool(8)
        .require(7, cited(7))
        .expect("a cited requirement")
        .forbid(0, cited(0))
        .expect("a cited exclusion")
        .at_most(3)
        .expect("a budget")
        .at_least(2)
        .expect("a floor");
    assert_eq!(terms.required(), 1 << 7);
    assert_eq!(terms.forbidden(), 1);
    assert_eq!(terms.ceiling(), 3);
    assert!(terms.allows(0b1000_0010));
    assert!(terms.allows(0b1000_0110));
    assert!(!terms.allows(0b0000_0110), "the required item is missing");
    assert!(!terms.allows(0b1000_0001), "the forbidden item is taken");
    assert!(!terms.allows(0b1000_1110), "over the ceiling");
    assert!(!terms.allows(0b1000_0000), "under the floor");
    assert_eq!(pool(3).at_most(10).expect("a generous ceiling").ceiling(), 3);
}

#[test]
fn a_weight_is_refused_in_the_order_its_faults_are_checked() {
    let outside = pool(4).worth(4, cited(0), 1.0, FINE);
    assert_eq!(outside.err().unwrap().kind(), RefusalKind::Incoherent);
    let unmeasured = pool(4).worth(0, Span::new(3, 3), 9.0, Err(Refusal::incoherent("infinite")));
    assert_eq!(unmeasured.err().unwrap().reason(), "infinite", "the measurement is judged first");
    let nowhere = pool(4).worth(0, Span::new(3, 3), 9.0, FINE);
    assert_eq!(nowhere.err().unwrap().kind(), RefusalKind::Unreported);
    let itself = pool(4).together(2, 2, cited(2), 1.0, FINE);
    assert_eq!(itself.err().unwrap().kind(), RefusalKind::Incoherent);
    let beyond = pool(4).together(0, 9, cited(2), 1.0, FINE);
    assert_eq!(beyond.err().unwrap().kind(), RefusalKind::Incoherent);
}

#[test]
fn a_later_pair_weight_replaces_the_earlier_one() {
    let terms = pool(4)
        .together(0, 1, Span::new(0, 2), 1.0, FINE)
        .expect("a pair")
        .together(2, 3, Span::new(2, 4), 2.0, FINE)
        .expect("a pair")
        .together(1, 0, Span::new(5, 9), 3.0, FINE)
        .expect("the same pair again");
    let pairs: Vec<(usize, usize, Span, f64)> = terms.pair_claims().clone();
    assert_eq!(pairs, vec![(2, 3, Span::new(2, 4), 2.0), (0, 1, Span::new(5, 9), 3.0)]);
}

#[test]
fn a_subset_names_the_regions_that_argued_for_it() {
    let terms = pool(4)
        .worth(0, Span::new(0, 1), 5.0, FINE)
        .expect("a weight")
        .worth(2, Span::new(2, 3), 1.0, FINE)
        .expect("a weight")
        .together(0, 2, Span::new(0, 3), -1.0, FINE)
        .expect("a pair")
        .require(2, Span::new(10, 11))
        .expect("a requirement")
        .forbid(3, Span::new(20, 21))
        .expect("an exclusion");
    assert_eq!(
        terms.support(0b0101),
        vec![Span::new(0, 1), Span::new(2, 3), Span::new(0, 3), Span::new(10, 11), Span::new(20, 21)]
    );
    assert_eq!(terms.support(0b0001), vec![Span::new(0, 1), Span::new(20, 21)]);
    assert_eq!(terms.worth_claims()[0], Some((Span::new(0, 1), 5.0)));
    assert_eq!(terms.worth_claims()[1], None);
}

#[test]
fn a_beam_grows_a_subset_one_item_above_its_members() {
    let terms = pool(6).forbid(4, cited(4)).expect("an exclusion").at_most(3).expect("a budget");
    assert_eq!(terms.grow(0), vec![0b1, 0b10, 0b100, 0b1000, 0b10_0000]);
    assert_eq!(terms.grow(0b10), vec![0b110, 0b1010, 0b10_0010]);
    assert_eq!(terms.grow(0b1010), vec![0b10_1010]);
    assert_eq!(terms.grow(0b1011), Vec::<u64>::new(), "already at the ceiling");
    assert_eq!(terms.grow(0b10_0000), Vec::<u64>::new(), "nothing lies above the last item");
}

#[test]
fn a_beam_seeded_with_required_items_still_reaches_the_items_below_them() {
    let terms = pool(4).require(2, cited(2)).expect("a cited requirement");
    assert_eq!(terms.grow(0b100), vec![0b101, 0b110, 0b1100]);
    assert_eq!(terms.grow(0b110), vec![0b1110], "grows above the highest chosen item");
    assert_eq!(terms.grow(0b101), vec![0b111, 0b1101]);
    let both = pool(3)
        .require(1, cited(1))
        .expect("a cited requirement")
        .at_least(2)
        .expect("a floor");
    let offered = both.grow(0b10);
    assert!(offered.contains(&0b11), "the lower item is offered beside the required one");
    assert!(offered.iter().any(|&members| both.allows(members)));
}

#[test]
fn a_selection_lists_its_members_in_increasing_order() {
    let selection = Selection::new(0b1010_0101, Solver::Exact);
    assert_eq!(selection.indices(), vec![0, 2, 5, 7]);
    assert_eq!(selection.len(), 4);
    assert_eq!(selection.indices().len(), selection.len());
    for index in selection.indices() {
        assert!(selection.members() & (1 << index) != 0);
    }
    assert!(!selection.is_empty());
    assert!(Selection::new(0, Solver::Exact).is_empty());
    assert_eq!(Selection::new(u64::MAX, Solver::Exact).indices(), (0..64).collect::<Vec<usize>>());
}

#[test]
fn only_an_exact_selection_is_proven() {
    assert!(Selection::new(0b11, Solver::Exact).is_proven());
    let beamed = Selection::new(0b11, Solver::Beam { width: 8 });
    assert!(!beamed.is_proven());
    assert_eq!(beamed.solver(), Solver::Beam { width: 8 });
}

#[test]
fn an_empty_pool_is_refused_rather_than_scored() {
    let refused = Terms::<f64>::over(0).err().expect("there was nothing to choose");
    assert_eq!(refused.kind(), RefusalKind::Unreported);
}

#[test]
fn declarations_that_contradict_each_other_are_refused() {
    let both = pool(4)
        .require(1, Span::new(0, 1))
        .expect("a cited requirement")
        .forbid(1, Span::new(0, 1))
        .err()
        .expect("required and forbidden at once");
    assert_eq!(both.kind(), RefusalKind::Incoherent);

    let uncited = pool(4)
        .require(1, Span::new(2, 2))
        .err()
        .expect("a requirement citing nothing");
    assert_eq!(uncited.kind(), RefusalKind::Unreported);
}

#[test]
fn the_pool_ceiling_is_the_mask_width() {
    assert_eq!(MAX_POOL, u64::BITS as usize);
    assert!(Terms::<f64>::over(MAX_POOL + 1).is_err(), "wider than the mask that holds it");
}

#[test]
fn a_pool_that_supports_nothing_is_refused_rather_than_composed_into_silence() {
    let nothing = pool(2)
        .worth(0, Span::new(0, 1), -1.0, FINE)
        .expect("a measured weight")
        .at_least(1)
        .expect("something must be said")
        .at_most(0);
    assert!(nothing.is_err(), "a floor above a ceiling is a contradiction, not an empty answer");

    let impossible = pool(2)
        .require(0, Span::new(0, 1))
        .expect("a cited requirement")
        .forbid(0, Span::new(0, 1));
    assert!(impossible.is_err(), "and so is requiring and forbidding the same finding");
}

#[test]
fn every_region_a_subset_cites_is_real() {
    let terms = pool(5)
        .worth(1, Span::new(4, 9), 2.0, FINE)
        .expect("a weight")
        .together(1, 4, Span::new(0, 1), 1.0, FINE)
        .expect("a pair")
        .forbid(0, Span::new(3, 4))
        .expect("an exclusion");
    for members in 0..32_u64 {
        for span in terms.support(members) {
            assert!(!span.is_empty(), "every citation points at a real region");
        }
    }
}

#[test]
fn a_beam_never_grows_into_a_forbidden_or_oversized_subset() {
    let terms = pool(7).forbid(3, cited(3)).expect("an exclusion").at_most(4).expect("a budget");
    for members in [0_u64, 0b1, 0b101, 0b10_0001, 0b111] {
        for grown in terms.grow(members) {
            assert_eq!(grown & members, members, "nothing is dropped");
            assert_eq!((grown ^ members).count_ones(), 1, "one item is added");
            assert!((grown ^ members) > members, "above every member");
            assert_eq!(grown & (1 << 3), 0, "the forbidden item is never offered");
            assert!(grown.count_ones() <= 4);
        }
    }
}

#[test]
fn a_beam_step_reaches_each_subset_once_and_misses_none_the_terms_allow() {
    let terms = pool(5)
        .require(1, cited(1))
        .expect("a cited requirement")
        .forbid(3, cited(3))
        .expect("a cited exclusion")
        .at_most(3)
        .expect("a budget");
    let parents: Vec<u64> = (0..32_u64).filter(|members| members & 0b10 == 0b10).collect();
    let mut reached: Vec<u64> = Vec::new();
    for &members in &parents {
        reached.extend(terms.grow(members));
    }
    let mut unique = reached.clone();
    unique.sort_unstable();
    unique.dedup();
    assert_eq!(unique.len(), reached.len(), "no subset is reached twice");
    for grown in 0..32_u64 {
        let takes_required = grown & 0b10 == 0b10;
        let within = grown & 0b1000 == 0 && grown.count_ones() <= 3;
        if takes_required && within && grown != 0b10 {
            assert!(reached.contains(&grown), "{grown:#b} is reached from its parent");
        }
    }
}
