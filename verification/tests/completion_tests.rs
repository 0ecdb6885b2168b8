use progred::completion::combine;

#[test]
fn combined_providers_preserve_order_and_explicit_empty_vocabularies() {
    let first = 0xe1u128;
    let second = 0xe2u128;
    let offers = combine(vec![None, Some(vec![first]), Some(vec![]), Some(vec![second])]).unwrap();
    assert_eq!(offers, vec![first, second]);
    assert!(combine::<u128>(vec![]).is_none());
    assert!(combine::<u128>(vec![None]).is_none());
    assert!(combine::<u128>(vec![None, Some(vec![])]).unwrap().is_empty());
}

#[test]
fn every_answer_contributes_in_provider_order() {
    assert_eq!(
        combine(vec![Some(vec![3, 1]), None, Some(vec![2]), Some(vec![1])]),
        Some(vec![3, 1, 2, 1])
    );
}
