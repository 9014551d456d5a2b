use petals_client::codec::decode_generate;
use petals_client::codec::encode_generate;
use petals_client::codec::encode_open_session;
use petals_client::codec::parse_response_frame;
use petals_client::Decimal;
use petals_client::GenerateParamsBuilder;
use petals_client::Model;

#[test]
fn open_frame_with_model() {
    let s = encode_open_session(100, &Some(Model::Llama2_70bChatHf));
    assert_eq!(
        s,
        "{\"type\":\"open_inference_session\",\"max_length\":100,\"model\":\"meta-llama/Llama-2-70b-chat-hf\"}"
    );
}

#[test]
fn open_frame_without_model_omits_the_key() {
    let s = encode_open_session(2048, &None);
    assert_eq!(s, "{\"type\":\"open_inference_session\",\"max_length\":2048}");
    assert!(!s.contains("model"));
    assert!(!s.contains("null"));
}

#[test]
fn generate_frame_minimal() {
    let p = GenerateParamsBuilder::new()
        .inputs("Hello".to_string())
        .max_new_tokens(20)
        .build()
        .unwrap();
    let s = encode_generate(&p);
    assert_eq!(s, "{\"type\":\"generate\",\"inputs\":\"Hello\",\"max_new_tokens\":20}");
}

#[test]
fn generate_frame_all_fields_in_fixed_order() {
    let p = GenerateParamsBuilder::new()
        .model(Model::Bloomz)
        .inputs("a".to_string())
        .do_sample(true)
        .temperature(Decimal::from_parts(0, 800))
        .top_k(40)
        .top_p(Decimal::from_parts(0, 950))
        .max_length(256)
        .max_new_tokens(64)
        .stop_sequence(".".to_string())
        .build()
        .unwrap();
    let s = encode_generate(&p);
    assert_eq!(
        s,
        "{\"type\":\"generate\",\"model\":\"bigscience/bloomz\",\"max_length\":256,\"inputs\":\"a\",\"stop_sequence\":\".\",\"do_sample\":true,\"temperature\":0.8,\"top_k\":40,\"top_p\":0.95,\"max_new_tokens\":64}"
    );
}

#[test]
fn absent_fields_are_omitted_not_null() {
    let p = GenerateParamsBuilder::new().max_length(10).build().unwrap();
    let s = encode_generate(&p);
    assert_eq!(s, "{\"type\":\"generate\",\"max_length\":10}");
    assert!(!s.contains("null"));
}

#[test]
fn decimal_texts() {
    let mk = |whole: u32, milli: u32| {
        let p = GenerateParamsBuilder::new()
            .temperature(Decimal::from_parts(whole, milli))
            .max_length(1)
            .build()
            .unwrap();
        encode_generate(&p)
    };
    assert_eq!(mk(0, 800), "{\"type\":\"generate\",\"max_length\":1,\"temperature\":0.8}");
    assert_eq!(mk(1, 500), "{\"type\":\"generate\",\"max_length\":1,\"temperature\":1.5}");
    assert_eq!(mk(1, 50), "{\"type\":\"generate\",\"max_length\":1,\"temperature\":1.05}");
    assert_eq!(mk(1, 5), "{\"type\":\"generate\",\"max_length\":1,\"temperature\":1.005}");
    assert_eq!(mk(2, 0), "{\"type\":\"generate\",\"max_length\":1,\"temperature\":2}");
}

#[test]
fn string_values_are_escaped() {
    let p = GenerateParamsBuilder::new()
        .inputs("say \"hi\\bye\"\nplease".to_string())
        .max_length(1)
        .build()
        .unwrap();
    let s = encode_generate(&p);
    assert_eq!(
        s,
        "{\"type\":\"generate\",\"max_length\":1,\"inputs\":\"say \\\"hi\\\\bye\\\"\\u000aplease\"}"
    );
}

#[test]
fn every_model_wire_name() {
    let cases = [
        (Model::Llama2_70bChatHf, "meta-llama/Llama-2-70b-chat-hf"),
        (Model::StableBeluga2, "stabilityai/StableBeluga2"),
        (Model::Guanaco65b, "timdettmers/guanaco-65b"),
        (Model::Llama65bHf, "enoch/llama-65b-hf"),
        (Model::Bloomz, "bigscience/bloomz"),
    ];
    for (m, w) in cases {
        assert_eq!(m.wire_name(), w);
        assert_eq!(petals_client::model::model_from_wire(w), Some(m));
    }
    assert_eq!(petals_client::model::model_from_wire("gpt2"), None);
}

#[test]
fn round_trip_full_parameter_set() {
    let p = GenerateParamsBuilder::new()
        .model(Model::Guanaco65b)
        .inputs("tell me a \"story\"\\\n".to_string())
        .do_sample(false)
        .temperature(Decimal::from_parts(0, 700))
        .top_k(1)
        .top_p(Decimal::from_parts(1, 0))
        .max_length(4096)
        .max_new_tokens(128)
        .stop_sequence("\r\n".to_string())
        .build()
        .unwrap();
    let s = encode_generate(&p);
    let q = decode_generate(&s).unwrap();
    assert_eq!(q.model, p.model);
    assert_eq!(q.max_length, p.max_length);
    assert_eq!(q.inputs, p.inputs);
    assert_eq!(q.stop_sequence, p.stop_sequence);
    assert_eq!(q.do_sample, p.do_sample);
    assert_eq!(q.temperature, p.temperature);
    assert_eq!(q.top_k, p.top_k);
    assert_eq!(q.top_p, p.top_p);
    assert_eq!(q.max_new_tokens, p.max_new_tokens);
}

#[test]
fn round_trip_keeps_absent_fields_absent() {
    let p = GenerateParamsBuilder::new().max_new_tokens(5).build().unwrap();
    let q = decode_generate(&encode_generate(&p)).unwrap();
    assert_eq!(q.model, None);
    assert_eq!(q.max_length, None);
    assert_eq!(q.inputs, None);
    assert_eq!(q.stop_sequence, None);
    assert_eq!(q.do_sample, None);
    assert_eq!(q.temperature, None);
    assert_eq!(q.top_k, None);
    assert_eq!(q.top_p, None);
    assert_eq!(q.max_new_tokens, Some(5));
}

#[test]
fn decode_rejects_other_text() {
    assert!(decode_generate("").is_none());
    assert!(decode_generate("{\"type\":\"open_inference_session\",\"max_length\":1}").is_none());
    assert!(decode_generate("{\"type\":\"generate\"").is_none());
    assert!(decode_generate("{\"type\":\"generate\",\"top_k\":true}").is_none());
}

#[test]
fn response_frame_parses_with_spacing() {
    let f = parse_response_frame("{\"ok\": true}").unwrap();
    assert!(f.ok);
    assert_eq!(f.outputs, None);
    assert_eq!(f.stop, None);
    assert_eq!(f.traceback, None);

    let f = parse_response_frame(" { \"ok\" : false , \"traceback\" : \"boom\" } ").unwrap();
    assert!(!f.ok);
    assert_eq!(f.traceback.as_deref(), Some("boom"));
}

#[test]
fn response_frame_rejects_malformed_text() {
    assert!(parse_response_frame("").is_none());
    assert!(parse_response_frame("not json").is_none());
    assert!(parse_response_frame("{\"ok\": maybe}").is_none());
    assert!(parse_response_frame("{\"ok\": true} trailing").is_none());
}
