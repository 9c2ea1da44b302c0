use openai_rust::api::{check_status, image_strings, request_path, Endpoint, ImageObject};
use openai_rust::chat::{ChatArguments, Message};
use openai_rust::stream::decode_chunk;

#[test]
fn not_found_carries_body() {
    match check_status(404, "not found".to_string()) {
        Err(e) => {
            assert!(e.message().contains("not found"));
            assert_eq!(e.status, 404);
        }
        Ok(_) => panic!("expected an error"),
    }
}

#[test]
fn success_body_round_trips() {
    let body = r#"{"choices":[{"delta":{"content":"known"}},{"delta":{"content":"fields"}}]}"#;
    let passed = check_status(200, body.to_string()).ok().unwrap();
    assert_eq!(passed, body);
    let c = decode_chunk(&passed.into_bytes()).unwrap();
    let got: Vec<Option<String>> = c.choices.iter().map(|x| x.content.clone()).collect();
    assert_eq!(got, vec![Some("known".to_string()), Some("fields".to_string())]);
}

#[test]
fn paths_default_or_override() {
    assert_eq!(request_path(Endpoint::Models, None), "/v1/models");
    assert_eq!(request_path(Endpoint::ChatCompletions, None), "/v1/chat/completions");
    assert_eq!(request_path(Endpoint::Completions, None), "/v1/completions");
    assert_eq!(request_path(Endpoint::Embeddings, None), "/v1/embeddings");
    assert_eq!(request_path(Endpoint::ImageGenerations, None), "/v1/images/generations");
    assert_eq!(request_path(Endpoint::Models, Some("/custom".to_string())), "/custom");
}

#[test]
fn image_results_in_order() {
    let out = image_strings(vec![
        ImageObject::Url("https://x/1.png".to_string()),
        ImageObject::Base64Json("aGk=".to_string()),
    ]);
    assert_eq!(out, vec!["https://x/1.png".to_string(), "aGk=".to_string()]);
    assert!(image_strings(vec![]).is_empty());
}

#[test]
fn streaming_flag_is_forced() {
    let args = ChatArguments::new(
        "gpt-3.5-turbo",
        vec![Message { role: "user".to_owned(), content: "Hello GPT!".to_owned() }],
    );
    assert_eq!(args.model, "gpt-3.5-turbo");
    assert!(args.stream.is_none());
    let mut off = args;
    off.stream = Some(false);
    let on = off.into_streaming();
    assert_eq!(on.stream, Some(true));
    assert_eq!(on.messages.len(), 1);
    assert_eq!(on.messages[0].content, "Hello GPT!");
}
