use rustlight::structure::Domain;

#[test]
fn domain_kinds() {
    assert!(Domain::SolidAngle.is_solid_angle());
    assert!(!Domain::Discrete.is_solid_angle());
    assert_ne!(Domain::SolidAngle, Domain::Discrete);
}
