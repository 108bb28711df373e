use greetd_session::child::Pid;
use greetd_session::error::{Error, ReplyKind, Step};
use greetd_session::message::{ParentToSessionChild, QuestionStyle, SessionChildToParent};
use greetd_session::session::Session;
use greetd_session::wire::{
    decode_reply, decode_request, encode_reply, encode_request, MAX_DATAGRAM,
};

fn text(s: &str) -> String {
    s.to_string()
}

fn not_a_message() -> Error {
    Error::Codec(text("datagram holds no valid message"))
}

fn too_large() -> Error {
    Error::Codec(text("message exceeds the size of a datagram"))
}

fn login() -> ParentToSessionChild {
    ParentToSessionChild::InitiateLogin {
        service: text("login"),
        class: text("x"),
        user: text("alice"),
        authenticate: true,
    }
}

fn all_requests() -> Vec<ParentToSessionChild> {
    vec![
        login(),
        ParentToSessionChild::InitiateLogin {
            service: text(""),
            class: text("greeter"),
            user: text("b\"ob\\"),
            authenticate: false,
        },
        ParentToSessionChild::PamResponse { resp: text("secret") },
        ParentToSessionChild::PamResponse { resp: text("") },
        ParentToSessionChild::Cancel,
        ParentToSessionChild::Args { cmd: vec![text("/bin/sh")], env: vec![], vt: 1 },
        ParentToSessionChild::Args {
            cmd: vec![text("sway"), text("--config"), text("/etc/sway/config")],
            env: vec![text("XDG_SESSION_TYPE=wayland"), text("A=\"b\",c")],
            vt: 12,
        },
        ParentToSessionChild::Args { cmd: vec![], env: vec![], vt: 0 },
        ParentToSessionChild::Start,
    ]
}

fn all_errors() -> Vec<Error> {
    vec![
        Error::Channel(text("could not create pipe")),
        Error::Descriptor(text("EBADF")),
        Error::Spawn(text("No such file or directory")),
        Error::Io(text("unable to send message")),
        Error::Codec(text("unable to deserialize message")),
        Error::Closed,
        Error::Protocol(text("authentication failure")),
        Error::ProtocolViolation { awaited: Step::Authentication, received: ReplyKind::FinalChildPid },
        Error::ProtocolViolation { awaited: Step::Arguments, received: ReplyKind::PamMessage },
        Error::ProtocolViolation { awaited: Step::Start, received: ReplyKind::Success },
        Error::ProtocolViolation { awaited: Step::Start, received: ReplyKind::Error },
    ]
}

fn all_replies() -> Vec<SessionChildToParent> {
    let mut replies = vec![
        SessionChildToParent::PamMessage { style: QuestionStyle::Prompt, text: text("Password:") },
        SessionChildToParent::PamMessage { style: QuestionStyle::Secret, text: text("PIN") },
        SessionChildToParent::PamMessage { style: QuestionStyle::Info, text: text("Welcome\n") },
        SessionChildToParent::PamMessage { style: QuestionStyle::Error, text: text("") },
        SessionChildToParent::Success,
        SessionChildToParent::FinalChildPid(4242),
        SessionChildToParent::FinalChildPid(0),
        SessionChildToParent::FinalChildPid(u64::MAX),
    ];
    for error in all_errors() {
        replies.push(SessionChildToParent::Error(error));
    }
    replies
}

#[test]
fn every_request_is_read_back_as_written() {
    for request in all_requests() {
        let bytes = encode_request(&request).unwrap();
        assert_eq!(decode_request(&bytes), Ok(request));
    }
}

#[test]
fn every_reply_is_read_back_as_written() {
    for reply in all_replies() {
        let bytes = encode_reply(&reply).unwrap();
        assert_eq!(decode_reply(&bytes), Ok(reply));
    }
}

#[test]
fn requests_are_written_as_tagged_variants() {
    assert_eq!(
        encode_request(&login()).unwrap(),
        br#"{"InitiateLogin":{"service":"login","class":"x","user":"alice","authenticate":true}}"#
            .to_vec()
    );
    assert_eq!(
        encode_request(&ParentToSessionChild::PamResponse { resp: text("secret") }).unwrap(),
        br#"{"PamResponse":{"resp":"secret"}}"#.to_vec()
    );
    assert_eq!(encode_request(&ParentToSessionChild::Cancel).unwrap(), br#""Cancel""#.to_vec());
    assert_eq!(
        encode_request(&ParentToSessionChild::Args {
            cmd: vec![text("/bin/sh")],
            env: vec![],
            vt: 1
        })
        .unwrap(),
        br#"{"Args":{"cmd":["/bin/sh"],"env":[],"vt":1}}"#.to_vec()
    );
    assert_eq!(
        encode_request(&ParentToSessionChild::Args {
            cmd: vec![text("a"), text("b")],
            env: vec![text("K=v"), text("L=w"), text("M=x")],
            vt: 10240
        })
        .unwrap(),
        br#"{"Args":{"cmd":["a","b"],"env":["K=v","L=w","M=x"],"vt":10240}}"#.to_vec()
    );
    assert_eq!(encode_request(&ParentToSessionChild::Start).unwrap(), br#""Start""#.to_vec());
}

#[test]
fn replies_are_written_as_tagged_variants() {
    assert_eq!(
        encode_reply(&SessionChildToParent::PamMessage {
            style: QuestionStyle::Prompt,
            text: text("Password:")
        })
        .unwrap(),
        br#"{"PamMessage":{"style":"Prompt","text":"Password:"}}"#.to_vec()
    );
    assert_eq!(encode_reply(&SessionChildToParent::Success).unwrap(), br#""Success""#.to_vec());
    assert_eq!(
        encode_reply(&SessionChildToParent::Error(Error::Protocol(text(
            "authentication failure"
        ))))
        .unwrap(),
        br#"{"Error":{"Protocol":"authentication failure"}}"#.to_vec()
    );
    assert_eq!(
        encode_reply(&SessionChildToParent::Error(Error::Closed)).unwrap(),
        br#"{"Error":"Closed"}"#.to_vec()
    );
    assert_eq!(
        encode_reply(&SessionChildToParent::Error(Error::ProtocolViolation {
            awaited: Step::Start,
            received: ReplyKind::Success
        }))
        .unwrap(),
        br#"{"Error":{"ProtocolViolation":{"awaited":"Start","received":"Success"}}}"#.to_vec()
    );
    assert_eq!(
        encode_reply(&SessionChildToParent::FinalChildPid(4242)).unwrap(),
        br#"{"FinalChildPid":4242}"#.to_vec()
    );
    assert_eq!(
        encode_reply(&SessionChildToParent::FinalChildPid(u64::MAX)).unwrap(),
        br#"{"FinalChildPid":18446744073709551615}"#.to_vec()
    );
}

#[test]
fn texts_are_escaped_byte_by_byte() {
    let resp = "q\"b\\s/\u{8}\u{c}\n\r\t\u{0}\u{1f}\u{7f}é\u{1F600}";
    let bytes = encode_request(&ParentToSessionChild::PamResponse { resp: text(resp) }).unwrap();
    let mut expected = br#"{"PamResponse":{"resp":"q\"b\\s/\b\f\n\r\t\u0000\u001f"#.to_vec();
    expected.push(0x7f);
    expected.extend_from_slice("é\u{1F600}".as_bytes());
    expected.extend_from_slice(br#""}}"#);
    assert_eq!(bytes, expected);
    assert_eq!(
        decode_request(&bytes),
        Ok(ParentToSessionChild::PamResponse { resp: text(resp) })
    );
}

#[test]
fn every_control_byte_is_read_back() {
    for byte in 0u8..0x20 {
        let resp = String::from_utf8(vec![b'a', byte, b'z']).unwrap();
        let request = ParentToSessionChild::PamResponse { resp };
        let bytes = encode_request(&request).unwrap();
        assert!(bytes.iter().all(|b| *b >= 0x20));
        assert_eq!(decode_request(&bytes), Ok(request));
    }
}

#[test]
fn escapes_by_number_are_read_where_there_is_no_other_spelling() {
    assert_eq!(
        decode_request(br#"{"PamResponse":{"resp":"\u0001\u001b\u000b"}}"#),
        Ok(ParentToSessionChild::PamResponse { resp: text("\u{1}\u{1b}\u{b}") })
    );
    let refused: Vec<&[u8]> = vec![
        br#"{"PamResponse":{"resp":"\u0041"}}"#,
        br#"{"PamResponse":{"resp":"\u0020"}}"#,
        br#"{"PamResponse":{"resp":"\u001F"}}"#,
        br#"{"PamResponse":{"resp":"\u0008"}}"#,
        br#"{"PamResponse":{"resp":"\u0009"}}"#,
        br#"{"PamResponse":{"resp":"\u000a"}}"#,
        br#"{"PamResponse":{"resp":"\u000c"}}"#,
        br#"{"PamResponse":{"resp":"\u000d"}}"#,
        br#"{"PamResponse":{"resp":"\u0022"}}"#,
        br#"{"PamResponse":{"resp":"\/"}}"#,
        br#"{"PamResponse":{"resp":"\"#,
    ];
    for datagram in refused {
        assert_eq!(decode_request(datagram), Err(not_a_message()));
    }
}

#[test]
fn what_is_read_is_written_the_same() {
    let datagrams: Vec<&[u8]> = vec![
        br#""Cancel""#,
        br#""Start""#,
        br#"{"PamResponse":{"resp":"\u0000\n\"\\/~"}}"#,
        br#"{"Args":{"cmd":["a","b"],"env":[],"vt":0}}"#,
        br#"{"InitiateLogin":{"service":"","class":"","user":"","authenticate":false}}"#,
    ];
    for datagram in datagrams {
        let request = decode_request(datagram).unwrap();
        assert_eq!(encode_request(&request).unwrap(), datagram.to_vec());
    }
    let datagrams: Vec<&[u8]> = vec![
        br#""Success""#,
        br#"{"FinalChildPid":10}"#,
        br#"{"PamMessage":{"style":"Info","text":"\t"}}"#,
        br#"{"Error":"Closed"}"#,
        br#"{"Error":{"Io":"x"}}"#,
        br#"{"Error":{"ProtocolViolation":{"awaited":"Authentication","received":"Error"}}}"#,
    ];
    for datagram in datagrams {
        let reply = decode_reply(datagram).unwrap();
        assert_eq!(encode_reply(&reply).unwrap(), datagram.to_vec());
    }
}

#[test]
fn a_text_that_is_not_utf8_is_no_message() {
    let mut bytes = br#"{"PamResponse":{"resp":""#.to_vec();
    bytes.push(0xff);
    bytes.extend_from_slice(br#""}}"#);
    assert_eq!(decode_request(&bytes), Err(not_a_message()));

    let mut bytes = br#"{"PamResponse":{"resp":""#.to_vec();
    bytes.extend_from_slice(&[0xc3, 0xa9]);
    bytes.extend_from_slice(br#""}}"#);
    assert_eq!(
        decode_request(&bytes),
        Ok(ParentToSessionChild::PamResponse { resp: text("é") })
    );
}

#[test]
fn a_raw_control_byte_in_a_text_is_no_message() {
    assert_eq!(decode_request(b"{\"PamResponse\":{\"resp\":\"a\nb\"}}"), Err(not_a_message()));
}

#[test]
fn what_is_no_message_is_refused() {
    let cases: Vec<&[u8]> = vec![
        b"",
        b"\"",
        b"{",
        b"Cancel",
        b"\"Cancel",
        b"\"Cancel\" ",
        b" \"Cancel\"",
        b"\"Cancel\"\"Cancel\"",
        b"\"cancel\"",
        b"\"Success\"",
        b"{\"Cancel\":null}",
        b"{\"Start\":{}}",
        b"\"PamResponse\"",
        b"{\"PamResponse\":{\"resp\":\"a\"}",
        b"{\"PamResponse\":{\"resp\":\"a\"}}}",
        b"{\"PamResponse\":{\"resp\":\"a}}",
        b"{\"PamResponse\":{\"resp\":1}}",
        b"{\"PamResponse\": {\"resp\":\"a\"}}",
        b"{\"PamResponse\":{\"answer\":\"a\"}}",
        b"{\"Unknown\":{\"resp\":\"a\"}}",
        b"{\"Args\":{\"cmd\":[\"a\",],\"env\":[],\"vt\":1}}",
        b"{\"Args\":{\"cmd\":[\"a\" \"b\"],\"env\":[],\"vt\":1}}",
        b"{\"Args\":{\"cmd\":[,\"a\"],\"env\":[],\"vt\":1}}",
        b"{\"Args\":{\"cmd\":[\"a\"],\"env\":[],\"vt\":}}",
        b"{\"Args\":{\"cmd\":[\"a\"],\"env\":[],\"vt\":01}}",
        b"{\"Args\":{\"cmd\":[\"a\"],\"env\":[],\"vt\":-1}}",
        b"{\"Args\":{\"cmd\":[\"a\"],\"env\":[],\"vt\":1.0}}",
        b"{\"Args\":{\"cmd\":[\"a\"],\"env\":[],\"vt\":18446744073709551616}}",
        b"{\"Args\":{\"env\":[],\"cmd\":[\"a\"],\"vt\":1}}",
        b"{\"InitiateLogin\":{\"service\":\"s\",\"class\":\"c\",\"user\":\"u\",\"authenticate\":yes}}",
        b"{\"InitiateLogin\":{\"service\":\"s\",\"class\":\"c\",\"user\":\"u\",\"authenticate\":True}}",
        b"{\"InitiateLogin\":{\"service\":\"s\",\"class\":\"c\",\"user\":\"u\"}}",
    ];
    for case in cases {
        assert_eq!(decode_request(case), Err(not_a_message()));
    }
    let cases: Vec<&[u8]> = vec![
        b"",
        b"\"Cancel\"",
        b"\"Start\"",
        b"\"Error\"",
        b"{\"Success\":null}",
        b"{\"FinalChildPid\":\"4242\"}",
        b"{\"FinalChildPid\":18446744073709551616}",
        b"{\"FinalChildPid\":00}",
        b"{\"FinalChildPid\":4242}x",
        b"{\"PamMessage\":{\"style\":\"Visible\",\"text\":\"a\"}}",
        b"{\"PamMessage\":{\"style\":{\"Prompt\":1},\"text\":\"a\"}}",
        b"{\"PamMessage\":{\"text\":\"a\",\"style\":\"Prompt\"}}",
        b"{\"Error\":\"Protocol\"}",
        b"{\"Error\":{\"Closed\":\"x\"}}",
        b"{\"Error\":{\"Other\":\"x\"}}",
        b"{\"Error\":{\"Protocol\":\"x\"}",
        b"{\"Error\":{\"ProtocolViolation\":{\"awaited\":\"Start\",\"received\":\"Start\"}}}",
        b"{\"Error\":{\"ProtocolViolation\":{\"awaited\":\"Success\",\"received\":\"Success\"}}}",
    ];
    for case in cases {
        assert_eq!(decode_reply(case), Err(not_a_message()));
    }
}

#[test]
fn numbers_are_read_up_to_the_last_that_fits() {
    assert_eq!(
        decode_reply(b"{\"FinalChildPid\":18446744073709551615}"),
        Ok(SessionChildToParent::FinalChildPid(u64::MAX))
    );
    assert_eq!(
        decode_reply(b"{\"FinalChildPid\":0}"),
        Ok(SessionChildToParent::FinalChildPid(0))
    );
    assert_eq!(
        decode_reply(b"{\"FinalChildPid\":18446744073709551620}"),
        Err(not_a_message())
    );
    assert_eq!(
        decode_reply(b"{\"FinalChildPid\":99999999999999999999999999}"),
        Err(not_a_message())
    );
}

fn response_of_size(datagram: usize) -> ParentToSessionChild {
    let frame = br#"{"PamResponse":{"resp":""}}"#.len();
    ParentToSessionChild::PamResponse { resp: "a".repeat(datagram - frame) }
}

#[test]
fn a_message_fills_a_datagram_and_no_more() {
    assert_eq!(MAX_DATAGRAM, 10240);
    let fits = response_of_size(MAX_DATAGRAM);
    let bytes = encode_request(&fits).unwrap();
    assert_eq!(bytes.len(), 10240);
    assert_eq!(decode_request(&bytes), Ok(fits));

    assert_eq!(encode_request(&response_of_size(MAX_DATAGRAM + 1)), Err(too_large()));

    let text_of = |len: usize| SessionChildToParent::Error(Error::Protocol("e".repeat(len)));
    let frame = br#"{"Error":{"Protocol":""}}"#.len();
    assert_eq!(encode_reply(&text_of(10240 - frame)).unwrap().len(), 10240);
    assert_eq!(encode_reply(&text_of(10241 - frame)), Err(too_large()));
}

#[test]
fn a_datagram_longer_than_any_sent_is_refused() {
    let mut bytes = br#"{"PamResponse":{"resp":""#.to_vec();
    bytes.resize(10239, b'a');
    bytes.extend_from_slice(br#""}}"#);
    assert_eq!(bytes.len(), 10242);
    assert_eq!(decode_request(&bytes), Err(not_a_message()));
    let mut bytes = br#"{"Error":{"Protocol":""#.to_vec();
    bytes.resize(10238, b'a');
    bytes.extend_from_slice(br#""}}"#);
    assert_eq!(bytes.len(), 10241);
    assert_eq!(decode_reply(&bytes), Err(not_a_message()));
}

#[test]
fn no_answer_and_cancel_are_the_same_bytes() {
    let mut one = Session::new_external(Pid::from_raw(1));
    let mut other = Session::new_external(Pid::from_raw(1));
    let cancelled = encode_request(&one.cancel().unwrap()).unwrap();
    let unanswered = encode_request(&other.post_answer(None).unwrap()).unwrap();
    assert_eq!(cancelled, unanswered);
    assert_eq!(cancelled, b"\"Cancel\"".to_vec());
}

fn object(members: Vec<(&str, serde_json::Value)>) -> serde_json::Value {
    let mut map = serde_json::Map::new();
    for (name, value) in members {
        map.insert(name.to_string(), value);
    }
    serde_json::Value::Object(map)
}

fn texts(items: &[&str]) -> serde_json::Value {
    serde_json::Value::Array(items.iter().map(|s| serde_json::Value::from(*s)).collect())
}

#[test]
fn the_bytes_are_the_json_of_the_same_values() {
    let nasty = "q\"b\\s/\u{8}\u{c}\n\r\t\u{0}\u{1}\u{1f}\u{7f}\u{80}é\u{2028}\u{1F600}";

    let expected = object(vec![("PamResponse", object(vec![("resp", nasty.into())]))]);
    let written = encode_request(&ParentToSessionChild::PamResponse { resp: text(nasty) }).unwrap();
    assert_eq!(written, serde_json::to_vec(&expected).unwrap());

    let expected = object(vec![(
        "Args",
        object(vec![
            ("cmd", texts(&["/bin/sh", "-c", nasty])),
            ("env", texts(&[])),
            ("vt", serde_json::Value::from(7u64)),
        ]),
    )]);
    let written = encode_request(&ParentToSessionChild::Args {
        cmd: vec![text("/bin/sh"), text("-c"), text(nasty)],
        env: vec![],
        vt: 7,
    })
    .unwrap();
    assert_eq!(written, serde_json::to_vec(&expected).unwrap());

    let expected = object(vec![(
        "InitiateLogin",
        object(vec![
            ("service", "login".into()),
            ("class", "x".into()),
            ("user", nasty.into()),
            ("authenticate", true.into()),
        ]),
    )]);
    let written = encode_request(&ParentToSessionChild::InitiateLogin {
        service: text("login"),
        class: text("x"),
        user: text(nasty),
        authenticate: true,
    })
    .unwrap();
    assert_eq!(serde_json::from_slice::<serde_json::Value>(&written).unwrap(), expected);

    assert_eq!(
        encode_request(&ParentToSessionChild::Cancel).unwrap(),
        serde_json::to_vec(&serde_json::Value::from("Cancel")).unwrap()
    );

    let expected = object(vec![(
        "PamMessage",
        object(vec![("style", "Secret".into()), ("text", nasty.into())]),
    )]);
    let reply = SessionChildToParent::PamMessage { style: QuestionStyle::Secret, text: text(nasty) };
    let bytes = serde_json::to_vec(&expected).unwrap();
    assert_eq!(encode_reply(&reply).unwrap(), bytes);
    assert_eq!(decode_reply(&bytes), Ok(reply));

    let expected = object(vec![("FinalChildPid", serde_json::Value::from(u64::MAX))]);
    let bytes = serde_json::to_vec(&expected).unwrap();
    assert_eq!(encode_reply(&SessionChildToParent::FinalChildPid(u64::MAX)).unwrap(), bytes);
    assert_eq!(decode_reply(&bytes), Ok(SessionChildToParent::FinalChildPid(u64::MAX)));

    let expected = object(vec![(
        "Error",
        object(vec![(
            "ProtocolViolation",
            object(vec![("awaited", "Arguments".into()), ("received", "FinalChildPid".into())]),
        )]),
    )]);
    let reply = SessionChildToParent::Error(Error::ProtocolViolation {
        awaited: Step::Arguments,
        received: ReplyKind::FinalChildPid,
    });
    let bytes = serde_json::to_vec(&expected).unwrap();
    assert_eq!(encode_reply(&reply).unwrap(), bytes);
    assert_eq!(decode_reply(&bytes), Ok(reply));
}

#[test]
fn every_written_message_is_json() {
    for request in all_requests() {
        let bytes = encode_request(&request).unwrap();
        assert!(serde_json::from_slice::<serde_json::Value>(&bytes).is_ok());
    }
    for reply in all_replies() {
        let bytes = encode_reply(&reply).unwrap();
        assert!(serde_json::from_slice::<serde_json::Value>(&bytes).is_ok());
    }
}
