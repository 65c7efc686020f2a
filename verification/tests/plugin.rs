use morpion_solitaire::search::plugin::Scope;

#[test]
fn scope_membership() {
    // NRPA-family options reach nrpa + perturbation; method-scoped ones only their
    // method.
    assert!(Scope::NrpaFamily.applies_to("nrpa"));
    assert!(Scope::NrpaFamily.applies_to("perturbation"));
    assert!(!Scope::NrpaFamily.applies_to("beam"));
    assert!(Scope::Methods(&["beam"]).applies_to("beam"));
    assert!(!Scope::Methods(&["beam"]).applies_to("nrpa"));
}

#[test]
fn scope_with_several_methods() {
    let s = Scope::Methods(&["beam", "systematic"]);
    assert!(s.applies_to("systematic"));
    assert!(!s.applies_to("system"));
    assert!(!Scope::Methods(&[]).applies_to("beam"));
}
