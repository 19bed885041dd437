use fitkit::{ask, lists, Answer, Citation, Law, Refusal, RefusalKind};

const SOURCE: Citation = Citation { key: "Example1970", source: "Example, J. Chem. 1970" };

/// The domain gate of the density law: finite, and inside the measured range.
fn measured_range(kelvin: f64) -> Answer<()> {
    if kelvin.is_finite() && (273.15..=373.15).contains(&kelvin) {
        Ok(())
    } else {
        Err(Refusal::outside_provenance("temperature outside the measured range"))
    }
}

struct Density;

impl Law for Density {
    type Input = f64;
    type Output = f64;

    fn citation(&self) -> Citation {
        SOURCE
    }

    fn admits(&self, kelvin: &f64) -> Answer<()> {
        measured_range(*kelvin)
    }

    fn derive(&self, kelvin: &f64) -> Answer<f64> {
        Ok(1000.0 - 0.2 * (kelvin - 273.15))
    }
}

#[test]
fn a_law_answers_inside_its_range() {
    assert!(ask(&Density, &298.15).unwrap() > 0.0);
}

#[test]
fn a_law_refuses_outside_its_range_rather_than_extrapolating() {
    let refusal = ask(&Density, &500.0).unwrap_err();
    assert_eq!(refusal.kind(), RefusalKind::OutsideProvenance);
}

#[test]
fn nan_is_outside_every_range() {
    assert!(ask(&Density, &f64::NAN).is_err());
}

/// A law whose derivation always refuses, to show which refusal a caller is given.
struct Unmeasured;

impl Law for Unmeasured {
    type Input = u32;
    type Output = u32;

    fn citation(&self) -> Citation {
        SOURCE
    }

    fn admits(&self, input: &u32) -> Answer<()> {
        if *input < 10 {
            Ok(())
        } else {
            Err(Refusal::outside_provenance("ten or more"))
        }
    }

    fn derive(&self, _input: &u32) -> Answer<u32> {
        Err(Refusal::unreported("the source never measured this"))
    }
}

#[test]
fn the_gate_refuses_before_the_derivation_is_reached() {
    let outside = ask(&Unmeasured, &12).unwrap_err();
    assert_eq!(outside.kind(), RefusalKind::OutsideProvenance);
    assert_eq!(outside.reason(), "ten or more");
    let inside = ask(&Unmeasured, &3).unwrap_err();
    assert_eq!(inside.kind(), RefusalKind::Unreported);
    assert_eq!(Unmeasured.citation(), SOURCE);
}

#[test]
fn a_refused_law_yields_no_number() {
    struct Kelvin;
    impl Law for Kelvin {
        type Input = f64;
        type Output = f64;

        fn citation(&self) -> Citation {
            Citation { key: "Kell1975", source: "Kell, J. Chem. Eng. Data 20, 97 (1975)" }
        }

        fn admits(&self, kelvin: &f64) -> Answer<()> {
            measured_range(*kelvin)
        }

        fn derive(&self, kelvin: &f64) -> Answer<f64> {
            Ok(1000.0 - 0.2 * (kelvin - 273.15))
        }
    }

    assert!(ask(&Kelvin, &298.15).is_ok());
    assert!(ask(&Kelvin, &450.0).is_err(), "extrapolation must refuse, not estimate");
}

#[test]
fn a_quantity_is_unknown_only_where_it_is_listed_by_its_exact_name() {
    let unknowns = ["pressure convention", "pH"];
    assert!(lists(&unknowns, "pH"));
    assert!(lists(&unknowns, "pressure convention"));
    assert!(!lists(&unknowns, "ph"), "names are compared exactly");
    assert!(!lists(&unknowns, "pressure"), "a prefix is not the name");
    assert!(!lists(&[], "pH"));
}
