use openai_rust::chat::ChatCompletionChunk;
use openai_rust::stream::{decode_chunk, payload_of, ChunkDecoder, Phase, StreamEvent};

fn feed_all(chunks: &[&[u8]]) -> (Vec<Option<Vec<Option<String>>>>, Phase) {
    // One entry per element: Some(contents) for a chunk, None for an error.
    let mut d = ChunkDecoder::new();
    let mut out = Vec::new();
    for c in chunks {
        d.push(c);
        loop {
            match d.next_event() {
                StreamEvent::Chunk(ch) => out.push(Some(contents(&ch))),
                StreamEvent::Error(_) => out.push(None),
                StreamEvent::NeedMore | StreamEvent::End => break,
            }
        }
    }
    (out, d.phase())
}

fn contents(c: &ChatCompletionChunk) -> Vec<Option<String>> {
    c.choices.iter().map(|x| x.content.clone()).collect()
}

#[test]
fn two_chunks_empty_choices_then_done() {
    let mut d = ChunkDecoder::new();
    d.push(b"event: data\ndata: {\"choices\":[]}\n\n");
    match d.next_event() {
        StreamEvent::Chunk(c) => assert!(c.choices.is_empty()),
        _ => panic!("expected a chunk"),
    }
    assert!(matches!(d.next_event(), StreamEvent::NeedMore));
    d.push(b"event: data\ndata: [DONE]\n\n");
    assert!(matches!(d.next_event(), StreamEvent::End));
    assert!(matches!(d.next_event(), StreamEvent::End));
    assert!(d.phase() == Phase::Done);
}

const STREAM: &[u8] = b"data: {\"choices\":[{\"delta\":{\"role\":\"assistant\"}}]}\n\ndata: {\"choices\":[{\"delta\":{\"content\":\"Hel\"}}]}\n\ndata: {\"choices\":[{\"delta\":{\"content\":\"lo\"}}]}\n\ndata: [DONE]\n\n";

#[test]
fn every_chunking_gives_the_same_chunks() {
    let (whole, phase) = feed_all(&[STREAM]);
    assert_eq!(
        whole,
        vec![
            Some(vec![None]),
            Some(vec![Some("Hel".to_string())]),
            Some(vec![Some("lo".to_string())]),
        ]
    );
    assert!(phase == Phase::Done);
    for cut in 0..=STREAM.len() {
        let (a, b) = STREAM.split_at(cut);
        assert_eq!(feed_all(&[a, b]).0, whole);
    }
    let bytes: Vec<&[u8]> = STREAM.chunks(1).collect();
    assert_eq!(feed_all(&bytes).0, whole);
    let threes: Vec<&[u8]> = STREAM.chunks(3).collect();
    assert_eq!(feed_all(&threes).0, whole);
}

#[test]
fn marker_ends_stream_and_later_records_are_ignored() {
    let (out, phase) = feed_all(&[
        b"data: {\"choices\":[{\"delta\":{\"content\":\"a\"}}]}\n\ndata: [DONE]\n\ndata: {\"choices\":[]}\n\n",
        b"data: {\"choices\":[]}\n\n",
    ]);
    assert_eq!(out, vec![Some(vec![Some("a".to_string())])]);
    assert!(phase == Phase::Done);
}

#[test]
fn malformed_payload_ends_in_error_after_prior_chunks() {
    let (out, phase) = feed_all(&[
        b"data: {\"choices\":[{\"delta\":{\"content\":\"ok\"}}]}\n\ndata: {not json\n\ndata: {\"choices\":[]}\n\n",
    ]);
    assert_eq!(out, vec![Some(vec![Some("ok".to_string())]), None]);
    assert!(phase == Phase::Failed);
}

#[test]
fn error_then_end() {
    let mut d = ChunkDecoder::new();
    d.push(b"data: {\"choices\": 3}\n\n");
    assert!(matches!(d.next_event(), StreamEvent::Error(_)));
    assert!(matches!(d.next_event(), StreamEvent::End));
    d.push(b"data: {\"choices\":[]}\n\n");
    assert!(matches!(d.next_event(), StreamEvent::End));
}

#[test]
fn empty_chunk_is_a_no_op() {
    let mut d = ChunkDecoder::new();
    d.push(b"");
    assert!(matches!(d.next_event(), StreamEvent::NeedMore));
    d.push(b"data: {\"choices\":[]}\n");
    assert!(matches!(d.next_event(), StreamEvent::NeedMore));
    d.push(b"");
    assert!(matches!(d.next_event(), StreamEvent::NeedMore));
    d.push(b"\n");
    assert!(matches!(d.next_event(), StreamEvent::Chunk(_)));
}

#[test]
fn record_split_across_chunks_is_reassembled() {
    let (out, phase) = feed_all(&[
        b"event: data\ndata: {\"choi",
        b"ces\":[{\"delta\":{\"content\":\"x y\"}}]}\n",
        b"\n",
    ]);
    assert_eq!(out, vec![Some(vec![Some("x y".to_string())])]);
    assert!(phase == Phase::Open);
}

#[test]
fn record_without_payload_is_skipped() {
    let (out, _) = feed_all(&[b": keep-alive\n\nevent: ping\n\ndata: {\"choices\":[]}\n\n"]);
    assert_eq!(out, vec![Some(vec![])]);
}

#[test]
fn payload_is_first_data_line() {
    assert_eq!(payload_of(&b"event: data\ndata: abc\ndata: def".to_vec()), Some(b"abc".to_vec()));
    assert_eq!(payload_of(&b"data:abc".to_vec()), Some(b"abc".to_vec()));
    assert_eq!(payload_of(&b"data:  two".to_vec()), Some(b" two".to_vec()));
    assert_eq!(payload_of(&b"event: data".to_vec()), None);
    assert_eq!(payload_of(&b"".to_vec()), None);
}

#[test]
fn chunk_payload_decodes_contents() {
    let c = decode_chunk(&br#"{"id":"x","choices":[{"index":0,"delta":{"content":"Hi"},"finish_reason":null},{"delta":{}}]}"#.to_vec()).unwrap();
    assert_eq!(contents(&c), vec![Some("Hi".to_string()), None]);
    assert!(decode_chunk(&b"{\"choices\":[]} x".to_vec()).is_none());
    assert!(decode_chunk(&b"{\"id\":\"x\"}".to_vec()).is_none());
    assert!(decode_chunk(&b"[DONE]".to_vec()).is_none());
}
