use dao44_config::layout::dao44;

#[test]
fn settled_layer_invariants_are_encoded() {
    dao44().validate().unwrap();
}

#[test]
fn every_layer_has_the_real_dao44_key_count() {
    assert!(dao44().layers.iter().all(|layer| layer.keys.len() == 44));
}
