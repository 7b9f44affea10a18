use bson::{Bson, Document};
use messageiro::codec::{
    decode_request, decode_response, encode_request, encode_response, process_request,
};
use messageiro::types::{Request, Response, Status, Type};

fn request(kind: Type, path: &str, body: Option<Vec<u8>>) -> Request {
    Request {
        kind,
        path: path.to_string(),
        headers: Vec::new(),
        body,
    }
}

#[test]
fn request_roundtrip_plain() {
    let req = request(Type::Generic, "/", Some(b"Hello, world!".to_vec()));
    let bytes = encode_request(&req).expect("encodes");
    let back = decode_request(&bytes).expect("decodes");
    assert_eq!(back.kind, Type::Generic);
    assert_eq!(back.path, "/".to_string());
    assert!(back.headers.is_empty());
    assert_eq!(back.body, Some(b"Hello, world!".to_vec()));
}

#[test]
fn request_roundtrip_headers_and_no_body() {
    let req = Request {
        kind: Type::Subscribe,
        path: "/topic".to_string(),
        headers: vec![
            ("host".to_string(), "local".to_string()),
            ("trace".to_string(), "".to_string()),
        ],
        body: None,
    };
    let bytes = encode_request(&req).expect("encodes");
    let back = decode_request(&bytes).expect("decodes");
    assert_eq!(back.kind, Type::Subscribe);
    assert_eq!(back.path, "/topic".to_string());
    assert_eq!(back.headers.len(), 2);
    assert_eq!(back.headers[0], ("host".to_string(), "local".to_string()));
    assert_eq!(back.headers[1], ("trace".to_string(), "".to_string()));
    assert!(back.body.is_none());
}

#[test]
fn response_roundtrip() {
    let resp = Response {
        kind: Type::Message,
        path: Some("/topic".to_string()),
        status: Status::Okay,
        headers: Vec::new(),
        body: Some(vec![0u8, 255u8, 128u8]),
    };
    let bytes = encode_response(&resp).expect("encodes");
    let back = decode_response(&bytes).expect("decodes");
    assert_eq!(back.kind, Type::Message);
    assert_eq!(back.path, Some("/topic".to_string()));
    assert_eq!(back.status, Status::Okay);
    assert_eq!(back.body, Some(vec![0u8, 255u8, 128u8]));
}

#[test]
fn response_roundtrip_null_path() {
    let resp = Response {
        kind: Type::Generic,
        path: None,
        status: Status::Unparseable,
        headers: Vec::new(),
        body: None,
    };
    let bytes = encode_response(&resp).expect("encodes");
    let back = decode_response(&bytes).expect("decodes");
    assert_eq!(back.kind, Type::Generic);
    assert_eq!(back.path, None);
    assert_eq!(back.status, Status::Unparseable);
    assert!(back.body.is_none());
}

#[test]
fn header_key_with_zero_byte_is_refused() {
    let req = Request {
        kind: Type::Generic,
        path: "/".to_string(),
        headers: vec![("bad\u{0}key".to_string(), "v".to_string())],
        body: None,
    };
    assert!(encode_request(&req).is_none());
}

#[test]
fn unparseable_payload_yields_unparseable_response() {
    let garbage = b"not a document at all".to_vec();
    match process_request(&garbage) {
        Ok(_) => panic!("garbage must not decode"),
        Err(resp) => {
            assert_eq!(resp.status, Status::Unparseable);
            assert_eq!(resp.path, None);
            assert_eq!(resp.kind, Type::Generic);
        }
    }
}

#[test]
fn truncated_document_yields_unparseable_response() {
    let req = request(Type::Generic, "/x", None);
    let mut bytes = encode_request(&req).expect("encodes");
    bytes.pop();
    match process_request(&bytes) {
        Ok(_) => panic!("truncated document must not decode"),
        Err(resp) => {
            assert_eq!(resp.status, Status::Unparseable);
            assert_eq!(resp.path, None);
        }
    }
}

#[test]
fn unknown_kind_spelling_yields_unparseable() {
    // A document whose `type` names no known kind does not decode at all.
    let mut doc = Document::new();
    doc.insert("type", "Gossip");
    doc.insert("path", "/");
    doc.insert("headers", Document::new());
    doc.insert("body", Bson::Null);
    let bytes = doc.to_vec().expect("document serializes");
    match process_request(&bytes) {
        Ok(_) => panic!("unknown kind must not decode"),
        Err(resp) => assert_eq!(resp.status, Status::Unparseable),
    }
}

#[test]
fn process_request_accepts_valid_document() {
    let req = request(Type::Publish, "/topic", Some(vec![1u8, 2u8]));
    let bytes = encode_request(&req).expect("encodes");
    let back = process_request(&bytes).expect("valid document decodes");
    assert_eq!(back.kind, Type::Publish);
    assert_eq!(back.path, "/topic".to_string());
    assert_eq!(back.body, Some(vec![1u8, 2u8]));
}

#[test]
fn encoding_matches_reference_document_bytes() {
    // The same record laid out with the bson crate's document model must
    // produce byte-for-byte the same wire form.
    let req = Request {
        kind: Type::Generic,
        path: "/".to_string(),
        headers: vec![("k".to_string(), "v".to_string())],
        body: Some(b"Hi".to_vec()),
    };
    let ours = encode_request(&req).expect("encodes");

    let mut headers = Document::new();
    headers.insert("k", "v");
    let body: Vec<Bson> = b"Hi".iter().map(|b| Bson::Int32(*b as i32)).collect();
    let mut doc = Document::new();
    doc.insert("type", "Generic");
    doc.insert("path", "/");
    doc.insert("headers", headers);
    doc.insert("body", Bson::Array(body));
    let reference = doc.to_vec().expect("document serializes");

    assert_eq!(ours, reference);
}

#[test]
fn reference_document_bytes_decode() {
    let mut doc = Document::new();
    doc.insert("type", "Subscribe");
    doc.insert("path", "/topic");
    doc.insert("headers", Document::new());
    doc.insert("body", Bson::Null);
    let bytes = doc.to_vec().expect("document serializes");

    let req = decode_request(&bytes).expect("decodes");
    assert_eq!(req.kind, Type::Subscribe);
    assert_eq!(req.path, "/topic".to_string());
    assert!(req.headers.is_empty());
    assert!(req.body.is_none());
}

#[test]
fn encoded_response_is_a_wellformed_reference_document() {
    let resp = Response {
        kind: Type::Publish,
        path: Some("/t".to_string()),
        status: Status::BadRequest,
        headers: Vec::new(),
        body: None,
    };
    let bytes = encode_response(&resp).expect("encodes");
    let doc = Document::from_reader(&bytes[..]).expect("reference parser accepts it");
    assert_eq!(doc.get_str("type").unwrap(), "Publish");
    assert_eq!(doc.get_str("path").unwrap(), "/t");
    assert_eq!(doc.get_str("status").unwrap(), "BadRequest");
}

#[test]
fn trailing_bytes_are_refused() {
    let req = request(Type::Generic, "/", None);
    let mut bytes = encode_request(&req).expect("encodes");
    bytes.push(0);
    assert!(decode_request(&bytes).is_none());
}
