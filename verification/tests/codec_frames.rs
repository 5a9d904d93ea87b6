use rskv::codec::{decode_cmd, encode_cmd, Cmd, DecodeResult};
use rskv::resp::{
    decode_reply, decode_req, encode_reply, encode_req, Reply, ReplyParse, ReqParse, Request,
};

fn chars(s: &str) -> Vec<char> {
    s.chars().collect()
}

fn string_of(v: &[char]) -> String {
    v.iter().collect()
}

#[test]
fn command_encoding_is_the_json_form() {
    let c = Cmd::set("a".to_owned(), "1".to_owned());
    assert_eq!(string_of(&encode_cmd(&c)), "{\"Set\":{\"key\":\"a\",\"value\":\"1\"}}");
    let r = Cmd::rm("a".to_owned());
    assert_eq!(string_of(&encode_cmd(&r)), "{\"Rm\":{\"key\":\"a\"}}");
}

#[test]
fn command_round_trip() {
    let cases = vec![
        Cmd::set("key".to_owned(), "value".to_owned()),
        Cmd::set("".to_owned(), "".to_owned()),
        Cmd::set("q\"uote".to_owned(), "back\\slash".to_owned()),
        Cmd::set("ctl\u{1f}".to_owned(), "nl\nnl".to_owned()),
        Cmd::rm("gone".to_owned()),
    ];
    for c in cases {
        let mut data = encode_cmd(&c);
        let extra = encode_cmd(&Cmd::rm("tail".to_owned()));
        let own_len = data.len();
        data.extend(extra);
        match decode_cmd(&data, 0) {
            DecodeResult::Found { cmd, end } => {
                assert_eq!(end, own_len);
                assert_eq!(string_of(&encode_cmd(&cmd)), string_of(&encode_cmd(&c)));
            }
            _ => panic!("expected a complete command"),
        }
    }
}

#[test]
fn command_decode_partial_and_corrupt() {
    let full = encode_cmd(&Cmd::set("abc".to_owned(), "def".to_owned()));
    for cut in 0..full.len() {
        let head: Vec<char> = full[..cut].to_vec();
        assert!(matches!(decode_cmd(&head, 0), DecodeResult::Partial));
    }
    assert!(matches!(decode_cmd(&chars("{\"Nope\":1}"), 0), DecodeResult::Corrupt));
    assert!(matches!(decode_cmd(&chars("xyz"), 0), DecodeResult::Corrupt));
    // a raw control character inside a string is not canonical
    let mut bad = chars("{\"Rm\":{\"key\":\"a");
    bad.push('\u{1}');
    assert!(matches!(decode_cmd(&bad, 0), DecodeResult::Corrupt));
}

#[test]
fn request_round_trip() {
    let cases = vec![
        Request::Get { key: "x".to_owned() },
        Request::Put { key: "x".to_owned(), value: "1".to_owned() },
        Request::Rm { key: "x\"odd".to_owned() },
    ];
    for q in cases {
        let data = encode_req(&q);
        match decode_req(&data, 0) {
            ReqParse::Found { req, end } => {
                assert_eq!(end, data.len());
                assert_eq!(string_of(&encode_req(&req)), string_of(&data));
            }
            _ => panic!("expected a complete request"),
        }
    }
}

#[test]
fn request_wire_forms() {
    let g = Request::Get { key: "x".to_owned() };
    assert_eq!(string_of(&encode_req(&g)), "{\"Get\":{\"key\":\"x\"}}");
    let s = Request::Put { key: "x".to_owned(), value: "1".to_owned() };
    assert_eq!(string_of(&encode_req(&s)), "{\"Set\":{\"key\":\"x\",\"value\":\"1\"}}");
    let r = Request::Rm { key: "x".to_owned() };
    assert_eq!(string_of(&encode_req(&r)), "{\"Rm\":{\"key\":\"x\"}}");
}

#[test]
fn reply_round_trip() {
    let cases = vec![
        Reply::Value { value: "1".to_owned() },
        Reply::Nothing,
        Reply::Failure { message: "Key not found".to_owned() },
    ];
    for p in cases {
        let data = encode_reply(&p);
        match decode_reply(&data, 0) {
            ReplyParse::Found { reply, end } => {
                assert_eq!(end, data.len());
                assert_eq!(string_of(&encode_reply(&reply)), string_of(&data));
            }
            _ => panic!("expected a complete reply"),
        }
    }
}

#[test]
fn reply_wire_forms() {
    assert_eq!(
        string_of(&encode_reply(&Reply::Value { value: "1".to_owned() })),
        "{\"Ok\":\"1\"}"
    );
    assert_eq!(string_of(&encode_reply(&Reply::Nothing)), "{\"Ok\":null}");
    assert_eq!(
        string_of(&encode_reply(&Reply::Failure { message: "e".to_owned() })),
        "{\"Err\":\"e\"}"
    );
}

#[test]
fn reply_decode_partial_and_corrupt() {
    let full = encode_reply(&Reply::Value { value: "abc".to_owned() });
    for cut in 0..full.len() {
        let head: Vec<char> = full[..cut].to_vec();
        assert!(matches!(decode_reply(&head, 0), ReplyParse::Partial));
    }
    assert!(matches!(decode_reply(&chars("{\"Okay\":1}"), 0), ReplyParse::Corrupt));
    let nul = encode_reply(&Reply::Nothing);
    for cut in 0..nul.len() {
        let head: Vec<char> = nul[..cut].to_vec();
        assert!(matches!(decode_reply(&head, 0), ReplyParse::Partial));
    }
}

#[test]
fn frames_concatenate_on_one_buffer() {
    let mut data = encode_req(&Request::Put { key: "a".to_owned(), value: "1".to_owned() });
    data.extend(encode_req(&Request::Get { key: "a".to_owned() }));
    data.extend(encode_req(&Request::Rm { key: "a".to_owned() }));
    let mut at = 0;
    let mut seen: Vec<String> = Vec::new();
    loop {
        match decode_req(&data, at) {
            ReqParse::Found { req, end } => {
                seen.push(string_of(&encode_req(&req)));
                at = end;
            }
            ReqParse::Partial => break,
            ReqParse::Corrupt => panic!("stream should stay decodable"),
        }
    }
    assert_eq!(at, data.len());
    assert_eq!(seen.len(), 3);
}
