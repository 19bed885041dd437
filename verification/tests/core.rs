use fitkit::{first_covering, Refusal, RefusalKind, Reported, Span};

#[test]
fn an_inverted_span_is_empty() {
    assert!(Span::new(90, 10).is_empty());
    let by_hand = Span { start: 90, end: 10 };
    assert!(by_hand.is_empty());
    assert_eq!(by_hand.len(), 0, "the fields are public, so length cannot underflow");
}

#[test]
fn neighbouring_spans_do_not_overlap() {
    assert!(!Span::new(0, 10).overlaps(Span::new(10, 20)));
    assert!(Span::new(10, 20).contains(10));
}

#[test]
fn a_refusal_carries_its_class() {
    let refusal = Refusal::outside_provenance("373 K is above the measured range");
    assert_eq!(refusal.kind(), RefusalKind::OutsideProvenance);
}

#[test]
fn never_measured_is_distinct_from_measured_elsewhere() {
    assert_ne!(
        Refusal::unreported("pH").kind(),
        Refusal::outside_provenance("pH 9 is outside 3..7").kind()
    );
}

#[test]
fn an_unreported_value_refuses_rather_than_defaulting() {
    let ph: Reported<f64> = Reported::Unreported;
    assert_eq!(ph.require("solvent pH").unwrap_err().reason(), "solvent pH");
}

#[test]
fn map_invents_nothing() {
    let ph: Reported<f64> = Reported::Unreported;
    assert!(ph.map(|v| v * 2.0).is_unreported());
}

#[test]
fn a_measured_zero_is_not_unreported() {
    assert!(Reported::Known(0.0).require("cystine").is_ok());
}

#[test]
fn refusals_are_free_to_construct() {
    let _: Refusal = Refusal::unreported("pH");
}

#[test]
fn a_span_counts_what_it_covers() {
    let span = Span::new(3, 8);
    assert_eq!(span.len(), 5);
    assert!(!span.is_empty());
    assert!(span.contains(3));
    assert!(span.contains(7));
    assert!(!span.contains(8), "the end is exclusive");
    assert!(!span.contains(2));
    assert_eq!(Span::whole(4), Span { start: 0, end: 4 });
    assert_eq!(Span::new(90, 10), Span { start: 90, end: 90 });
}

#[test]
fn spans_that_share_an_index_overlap_either_way_round() {
    let (a, b) = (Span::new(0, 5), Span::new(4, 9));
    assert!(a.overlaps(b) && b.overlaps(a));
    assert!(!Span::new(0, 5).overlaps(Span::new(6, 9)));
}

#[test]
fn an_empty_span_overlaps_nothing() {
    // An empty span covers no index, so it shares none with any span, even one around it.
    assert!(!Span::new(5, 5).overlaps(Span::new(0, 10)));
    assert!(!Span::new(0, 10).overlaps(Span::new(5, 5)));
    assert!(!Span::new(3, 3).overlaps(Span::new(3, 3)));
    let inverted = Span { start: 8, end: 2 };
    assert!(!inverted.overlaps(Span::new(0, 10)));
    assert!(Span::new(5, 6).overlaps(Span::new(0, 10)));
}

#[test]
fn each_class_of_refusal_is_constructed_and_described() {
    let cases = [
        (Refusal::outside_provenance("above 373 K"), RefusalKind::OutsideProvenance, "outside provenance: above 373 K"),
        (Refusal::unreported("pH"), RefusalKind::Unreported, "unreported: pH"),
        (Refusal::incoherent("negative mass"), RefusalKind::Incoherent, "incoherent input: negative mass"),
        (Refusal::uninformative("no span"), RefusalKind::Uninformative, "uninformative evidence: no span"),
    ];
    for (refusal, kind, described) in cases {
        assert_eq!(refusal.kind(), kind);
        assert_eq!(refusal.describe(), described);
    }
    assert_eq!(Refusal::unreported("pH").reason(), "pH");
}

#[test]
fn a_known_value_is_required_and_mapped_as_given() {
    assert_eq!(Reported::Known(7).require("count"), Ok(7));
    assert_eq!(Reported::Known(7).map(|v| v * 3), Reported::Known(21));
    assert!(!Reported::Known(7).is_unreported());
    let silent: Reported<i32> = Reported::Unreported;
    let refused = silent.require("count").unwrap_err();
    assert_eq!(refused.kind(), RefusalKind::Unreported);
    assert_eq!(refused.reason(), "count");
}

#[test]
fn an_option_becomes_a_report_without_inventing_a_value() {
    assert_eq!(Reported::from(Some(2.5)), Reported::Known(2.5));
    assert_eq!(Reported::<f64>::from(None), Reported::Unreported);
}

#[test]
fn the_first_span_covering_a_position_governs_it() {
    let spans = [Span::new(0, 4), Span::new(4, 8), Span::new(6, 10)];
    assert_eq!(first_covering(&spans, 0), Some(0));
    assert_eq!(first_covering(&spans, 4), Some(1), "the end of a span is not inside it");
    assert_eq!(first_covering(&spans, 7), Some(1), "the earlier of two covering spans wins");
    assert_eq!(first_covering(&spans, 9), Some(2));
    assert_eq!(first_covering(&spans, 10), None);
    assert_eq!(first_covering(&[], 0), None);
}
