use rad::frame::{encode_lsp_message, read_frame, read_lsp_message, Frame, Read, ReadError};
use rad::json::{assemble, decode_message, decode_request, encode_message, normalize, Parts};
use rad::message::{
    exits, get_id, shuts_down, Message, Notification, Request, RequestId, Response,
    ResponseError,
};

fn hover() -> Message {
    Message::Request(Request {
        id: RequestId::Number(7),
        method: "textDocument/hover".to_string(),
        params: "{\"line\":3}".to_string(),
    })
}

fn frame(text: &str) -> Vec<u8> {
    format!("Content-Length: {}\r\n\r\n{}", text.len(), text).into_bytes()
}

#[test]
fn encoded_request_has_a_header_and_a_version() {
    let bytes = encode_lsp_message(hover());
    let text = "{\"jsonrpc\":\"2.0\",\"id\":7,\"method\":\"textDocument/hover\",\"params\":{\"line\":3}}";
    assert_eq!(bytes, frame(text));
}

#[test]
fn encoded_message_is_read_back() {
    let mut bytes = encode_lsp_message(hover());
    let size = bytes.len();
    bytes.extend_from_slice(b"Content-Len");
    assert_eq!(read_lsp_message(&bytes, false), Ok(Read::Message(hover(), size)));
}

#[test]
fn encoded_response_is_read_back() {
    let response = || {
        Message::Response(Response {
            id: RequestId::Text("a".to_string()),
            result: None,
            error: Some(ResponseError {
                code: -32601,
                message: "no".to_string(),
                data: Some("[1.5,null]".to_string()),
            }),
        })
    };
    let bytes = encode_lsp_message(response());
    let text = "{\"jsonrpc\":\"2.0\",\"id\":\"a\",\"error\":{\"code\":-32601,\"message\":\"no\",\"data\":[1.5,null]}}";
    assert_eq!(bytes, frame(text));
    assert_eq!(read_lsp_message(&bytes, true), Ok(Read::Message(response(), bytes.len())));
}

#[test]
fn every_part_of_a_frame_is_incomplete() {
    let bytes = encode_lsp_message(hover());
    for n in 0..bytes.len() {
        assert_eq!(read_lsp_message(&bytes[..n], false), Ok(Read::Incomplete));
        assert_eq!(read_frame(&bytes[..n], false), Ok(Frame::Incomplete));
    }
}

#[test]
fn text_of_a_frame_is_found() {
    assert_eq!(read_frame(b"Content-Length: 2\r\n\r\n{}rest", false), Ok(Frame::Text(21, 23)));
    assert_eq!(read_frame(b"content-LENGTH: +2\r\nX: y\r\n\r\n{}", true), Ok(Frame::Text(28, 30)));
}

#[test]
fn last_announcement_counts() {
    let bytes = b"Content-Length: 9\r\nContent-Length: 2\r\n\r\n{}";
    assert_eq!(read_frame(bytes, true), Ok(Frame::Text(40, 42)));
}

#[test]
fn stream_that_has_ended_between_messages() {
    assert_eq!(read_lsp_message(b"", true), Ok(Read::End));
    assert_eq!(read_lsp_message(b"Content-Length: 2\r\n", true), Ok(Read::End));
    assert_eq!(read_lsp_message(b"", false), Ok(Read::Incomplete));
}

#[test]
fn header_without_carriage_return() {
    assert_eq!(read_lsp_message(b"Content-Length: 2\n\n{}", false), Err(ReadError::MalformedHeader));
    assert_eq!(read_lsp_message(b"\n", false), Err(ReadError::MalformedHeader));
}

#[test]
fn header_without_separator() {
    assert_eq!(read_lsp_message(b"Content-Length:2\r\n\r\n{}", false), Err(ReadError::MalformedHeader));
}

#[test]
fn header_that_the_end_cuts_off() {
    assert_eq!(read_lsp_message(b"Content-Len", true), Err(ReadError::MalformedHeader));
}

#[test]
fn header_that_is_not_text() {
    assert_eq!(read_lsp_message(b"X: \xff\r\n\r\n", false), Err(ReadError::HeaderNotUtf8));
    assert_eq!(read_lsp_message(b"X: \xff", true), Err(ReadError::HeaderNotUtf8));
}

#[test]
fn length_that_is_no_number() {
    for value in ["", "x", "-1", "1 ", "++1", "99999999999999999999999"] {
        let bytes = format!("Content-Length: {}\r\n\r\n", value).into_bytes();
        assert_eq!(read_lsp_message(&bytes, false), Err(ReadError::InvalidContentLength));
    }
}

#[test]
fn header_without_length() {
    assert_eq!(read_lsp_message(b"\r\n", false), Err(ReadError::NoContentLength));
    assert_eq!(read_lsp_message(b"X: y\r\n\r\n{}", false), Err(ReadError::NoContentLength));
}

#[test]
fn text_that_the_end_cuts_off() {
    assert_eq!(read_lsp_message(b"Content-Length: 3\r\n\r\n{}", true), Err(ReadError::UnexpectedEnd));
}

#[test]
fn text_that_is_not_utf8() {
    assert_eq!(read_lsp_message(b"Content-Length: 1\r\n\r\n\xff", false), Err(ReadError::BodyNotUtf8));
}

#[test]
fn text_that_is_no_message() {
    assert_eq!(read_lsp_message(b"Content-Length: 2\r\n\r\n{}", false), Err(ReadError::InvalidMessage));
}

#[test]
fn json_text_of_a_message() {
    let bytes = encode_message(hover());
    let text = "{\"id\":7,\"method\":\"textDocument/hover\",\"params\":{\"line\":3}}";
    assert_eq!(bytes, text.as_bytes().to_vec());
    assert_eq!(decode_message(&bytes), Some(hover()));
}

#[test]
fn absent_parameters_are_null() {
    let exit = Message::Notification(Notification {
        method: "exit".to_string(),
        params: "null".to_string(),
    });
    assert_eq!(decode_message(b"{\"method\":\"exit\"}"), Some(exit));
}

#[test]
fn values_are_kept_as_they_are_read() {
    let text = "{\"jsonrpc\":\"2.0\",\"method\":\"m\",\"params\":[0.1,1e2,-0.0,\"\\u00e9\"]}";
    let Some(Message::Notification(n)) = decode_message(text.as_bytes()) else {
        panic!("no notification");
    };
    assert_eq!(n.params, "[0.1,100.0,-0.0,\"\u{e9}\"]");
}

#[test]
fn no_message_is_decoded_from_other_json() {
    assert_eq!(decode_message(b"[]"), None);
    assert_eq!(decode_message(b"{\"id\":null}"), None);
    assert_eq!(decode_message(b"not json"), None);
}

#[test]
fn only_a_request_is_decoded_as_one() {
    let bytes = encode_message(hover());
    let Message::Request(request) = hover() else {
        unreachable!();
    };
    assert_eq!(decode_request(&bytes), Some(request));
    assert_eq!(decode_request(b"{\"method\":\"exit\"}"), None);
    assert_eq!(decode_request(b"{"), None);
}

#[test]
fn id_of_a_message() {
    assert_eq!(get_id(&hover()), Some(&RequestId::Number(7)));
    let answer = Message::Response(Response {
        id: RequestId::Text("x".to_string()),
        result: Some("1".to_string()),
        error: None,
    });
    assert_eq!(get_id(&answer), Some(&RequestId::Text("x".to_string())));
    let exit = Message::Notification(Notification {
        method: "exit".to_string(),
        params: "null".to_string(),
    });
    assert_eq!(get_id(&exit), None);
    assert!(exits(&exit));
    assert!(!exits(&hover()));
    assert!(!shuts_down(&exit));
    let shutdown = Message::Request(Request {
        id: RequestId::Number(1),
        method: "shutdown".to_string(),
        params: "null".to_string(),
    });
    assert!(shuts_down(&shutdown));
}

fn parts() -> Parts {
    Parts {
        number: None,
        name: None,
        method: None,
        params: None,
        result: None,
        code: None,
        reason: None,
        data: None,
    }
}

#[test]
fn messages_are_told_apart_by_their_parts() {
    assert_eq!(assemble(parts()), None);
    let request = Parts { number: Some(7), method: Some("m".to_string()), ..parts() };
    let expected = Request {
        id: RequestId::Number(7),
        method: "m".to_string(),
        params: "null".to_string(),
    };
    assert_eq!(assemble(request), Some(Message::Request(expected)));
    let notification = Parts {
        method: Some("m".to_string()),
        params: Some("[1]".to_string()),
        ..parts()
    };
    let expected = Notification { method: "m".to_string(), params: "[1]".to_string() };
    assert_eq!(assemble(notification), Some(Message::Notification(expected)));
    let response = Parts {
        name: Some("x".to_string()),
        result: Some("1".to_string()),
        code: Some(-1),
        reason: Some("why".to_string()),
        ..parts()
    };
    let expected = Response {
        id: RequestId::Text("x".to_string()),
        result: Some("1".to_string()),
        error: Some(ResponseError { code: -1, message: "why".to_string(), data: None }),
    };
    assert_eq!(assemble(response), Some(Message::Response(expected)));
    let huge = Parts { number: Some(1 << 40), method: Some("m".to_string()), ..parts() };
    let expected = Notification { method: "m".to_string(), params: "null".to_string() };
    assert_eq!(assemble(huge), Some(Message::Notification(expected)));
}

#[test]
fn null_result_is_written() {
    let response = Message::Response(Response {
        id: RequestId::Number(1),
        result: Some("null".to_string()),
        error: None,
    });
    assert_eq!(encode_message(response), b"{\"id\":1,\"result\":null}".to_vec());
}

/// The messages at the front of a stream that has ended, one after the other, and what comes then.
fn read_all(mut bytes: &[u8]) -> (Vec<Message>, Result<Read, ReadError>) {
    let mut messages = Vec::new();
    loop {
        match read_lsp_message(bytes, true) {
            Ok(Read::Message(message, size)) => {
                messages.push(message);
                bytes = &bytes[size..];
            }
            other => return (messages, other),
        }
    }
}

#[test]
fn encoded_messages_are_read_in_turn() {
    let exit = || {
        Message::Notification(Notification {
            method: "$/exit".to_string(),
            params: "null".to_string(),
        })
    };
    let mut bytes = encode_lsp_message(hover());
    bytes.extend(encode_lsp_message(exit()));
    bytes.extend(encode_lsp_message(hover()));
    assert_eq!(read_all(&bytes), (vec![hover(), exit(), hover()], Ok(Read::End)));
}

#[test]
fn encoded_values_are_read_back_in_their_normal_form() {
    let notification = |params: &str| {
        Message::Notification(Notification {
            method: "m".to_string(),
            params: params.to_string(),
        })
    };
    let loose = "{ \"b\" : 1e2, \"a\" : [ true , null ], \"b\" : 2 }";
    let mut bytes = encode_lsp_message(notification(loose));
    bytes.extend(encode_lsp_message(notification("no json")));
    let read = vec![notification(&normalize(loose)), notification("null")];
    assert_eq!(read_all(&bytes), (read, Ok(Read::End)));
}

#[test]
fn null_result_is_read_back_as_none() {
    let response = |result: Option<&str>| {
        Message::Response(Response {
            id: RequestId::Number(1),
            result: result.map(String::from),
            error: Some(ResponseError {
                code: 1,
                message: "m".to_string(),
                data: result.map(String::from),
            }),
        })
    };
    let mut bytes = encode_lsp_message(response(Some("null")));
    bytes.extend(encode_lsp_message(response(Some("no json"))));
    let read = vec![response(None), response(None)];
    assert_eq!(read_all(&bytes), (read, Ok(Read::End)));
}

#[test]
fn deepest_portable_value_is_read_back() {
    let deep = format!("{}{}", "[".repeat(100), "]".repeat(100));
    let message = || {
        Message::Response(Response {
            id: RequestId::Number(1),
            result: Some(deep.clone()),
            error: None,
        })
    };
    let bytes = encode_lsp_message(message());
    assert_eq!(read_all(&bytes), (vec![message()], Ok(Read::End)));
}

#[test]
fn normal_form_of_a_value() {
    assert_eq!(normalize("null"), "null");
    assert_eq!(normalize(" null "), "null");
    assert_eq!(normalize("no json"), "null");
    assert_eq!(normalize("[1e2, \"\\u0041\"]"), "[100.0,\"A\"]");
    assert_eq!(normalize("{\"b\":1,\"a\":2,\"b\":3}"), "{\"a\":2,\"b\":3}");
    assert_eq!(normalize("18446744073709551616"), "1.8446744073709552e+19");
    assert_eq!(normalize("1.8446744073709552e+19"), "1.8446744073709552e+19");
    assert_eq!(normalize("-0"), "-0.0");
    assert_eq!(normalize("1e400"), "null");
}
