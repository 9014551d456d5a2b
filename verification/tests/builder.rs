use petals_client::Decimal;
use petals_client::GenerateParamsBuilder;
use petals_client::Model;

#[test]
fn build_without_length_bound_yields_nothing() {
    assert!(GenerateParamsBuilder::new().build().is_none());
    let b = GenerateParamsBuilder::new()
        .model(Model::Bloomz)
        .inputs("hi".to_string())
        .do_sample(true)
        .temperature(Decimal::from_parts(0, 900))
        .top_k(40)
        .top_p(Decimal::from_parts(0, 950))
        .stop_sequence("\n".to_string());
    assert!(b.build().is_none());
}

#[test]
fn build_with_max_length_only() {
    let p = GenerateParamsBuilder::new().max_length(128).build().unwrap();
    assert_eq!(p.max_length, Some(128));
    assert_eq!(p.max_new_tokens, None);
    assert_eq!(p.model, None);
    assert_eq!(p.inputs, None);
}

#[test]
fn build_with_max_new_tokens_only() {
    let p = GenerateParamsBuilder::new().max_new_tokens(20).build().unwrap();
    assert_eq!(p.max_new_tokens, Some(20));
    assert_eq!(p.max_length, None);
}

#[test]
fn build_preserves_every_set_field() {
    let p = GenerateParamsBuilder::new()
        .model(Model::StableBeluga2)
        .inputs("Once upon a time".to_string())
        .do_sample(true)
        .temperature(Decimal::from_parts(1, 500))
        .top_k(50)
        .top_p(Decimal::from_parts(0, 900))
        .max_length(256)
        .max_new_tokens(64)
        .stop_sequence("###".to_string())
        .build()
        .unwrap();
    assert_eq!(p.model, Some(Model::StableBeluga2));
    assert_eq!(p.inputs.as_deref(), Some("Once upon a time"));
    assert_eq!(p.do_sample, Some(true));
    assert_eq!(p.temperature, Some(Decimal::from_parts(1, 500)));
    assert_eq!(p.top_k, Some(50));
    assert_eq!(p.top_p, Some(Decimal::from_parts(0, 900)));
    assert_eq!(p.max_length, Some(256));
    assert_eq!(p.max_new_tokens, Some(64));
    assert_eq!(p.stop_sequence.as_deref(), Some("###"));
}

#[test]
fn last_write_per_field_wins() {
    let p = GenerateParamsBuilder::new()
        .top_k(10)
        .max_length(100)
        .top_k(99)
        .max_length(7)
        .build()
        .unwrap();
    assert_eq!(p.top_k, Some(99));
    assert_eq!(p.max_length, Some(7));
}

#[test]
fn setter_order_does_not_matter() {
    let a = GenerateParamsBuilder::new().top_k(3).max_length(9).build().unwrap();
    let b = GenerateParamsBuilder::new().max_length(9).top_k(3).build().unwrap();
    assert_eq!(a.top_k, b.top_k);
    assert_eq!(a.max_length, b.max_length);
    assert_eq!(a.model, b.model);
}

#[test]
fn decimal_from_parts_digits() {
    let d = Decimal::from_parts(2, 375);
    assert_eq!(d.whole, 2);
    assert_eq!(d.tenths, 3);
    assert_eq!(d.hundredths, 7);
    assert_eq!(d.thousandths, 5);
}
