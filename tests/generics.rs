use wss_context::GenericContext;

fn s(x: &str) -> String {
    x.to_string()
}

fn record(params: &[&str]) -> GenericContext {
    GenericContext::new(params.iter().map(|p| p.to_string()).collect())
}

#[test]
fn suffix_concatenates_in_order() {
    assert_eq!(GenericContext::generic_variant_suffix_from_types(&vec![s("Int"), s("Str")]), "IntStr");
    assert_eq!(GenericContext::generic_variant_suffix_from_types(&vec![]), "");
}

#[test]
fn same_combination_in_any_order_is_stored_once() {
    let mut g = record(&["K", "V"]);
    g.add_generic_variant(vec![(s("K"), s("Int")), (s("V"), s("Str"))]);
    g.add_generic_variant(vec![(s("V"), s("Str")), (s("K"), s("Int"))]);
    assert_eq!(g.translation_variants.len(), 1);
    assert_eq!(g.translation_variants[0].0, "IntStr");
}

#[test]
fn variant_key_follows_declared_order() {
    let mut g = record(&["K", "V"]);
    g.add_generic_variant(vec![(s("V"), s("Str")), (s("K"), s("Int"))]);
    assert_eq!(g.translation_variants[0].0, "IntStr");
}

#[test]
fn missing_parameter_is_rejected() {
    let mut g = record(&["K", "V"]);
    g.add_generic_variant(vec![(s("K"), s("Int"))]);
    assert!(g.translation_variants.is_empty());
}

#[test]
fn extra_parameter_is_rejected() {
    let mut g = record(&["K"]);
    g.add_generic_variant(vec![(s("K"), s("Int")), (s("V"), s("Str"))]);
    assert!(g.translation_variants.is_empty());
}

#[test]
fn repeated_key_is_rejected() {
    let mut g = record(&["K"]);
    g.add_generic_variant(vec![(s("K"), s("Int")), (s("K"), s("Str"))]);
    assert!(g.translation_variants.is_empty());
}

#[test]
fn distinct_combinations_are_both_stored() {
    let mut g = record(&["T"]);
    g.add_generic_variant(vec![(s("T"), s("Int"))]);
    g.add_generic_variant(vec![(s("T"), s("Str"))]);
    assert_eq!(g.translation_variants.len(), 2);
}

#[test]
fn active_variant_resolves_its_parameters() {
    let mut g = record(&["T", "U"]);
    g.add_generic_variant(vec![(s("T"), s("Int")), (s("U"), s("Bool"))]);
    assert_eq!(g.transform_if_generic_type(&s("T")), None);
    g.set_active_variant(Some(s("IntBool")));
    assert_eq!(g.transform_if_generic_type(&s("T")), Some(s("Int")));
    assert_eq!(g.transform_if_generic_type(&s("U")), Some(s("Bool")));
    assert_eq!(g.transform_if_generic_type(&s("x")), None);
}

#[test]
fn unknown_active_variant_resolves_nothing() {
    let mut g = record(&["T"]);
    g.add_generic_variant(vec![(s("T"), s("Int"))]);
    g.set_active_variant(Some(s("Str")));
    assert_eq!(g.transform_if_generic_type(&s("T")), None);
}
