use my_http_server::dispatch::{dispatch, Step};
use my_http_server::request::{ParseError, Request};
use my_http_server::resolve::{dir_navigation_page, resource_response, DirEntry, FsNode};
use my_http_server::response::{encode_response, EncodeError};
use my_http_server::{Config, Server};

fn decode_ok(buf: &[u8]) -> Request {
    Request::parse_request(buf).expect("buffer should decode")
}

/// Splits a response at the blank line that ends the head.
fn split_head(b: &[u8]) -> (&[u8], &[u8]) {
    let i = b.windows(2).position(|w| w == b"\n\n").expect("head end");
    (&b[..i + 2], &b[i + 2..])
}

/// Reads a chunked body back; `None` when the framing is malformed.
fn dechunk_bytes(mut b: &[u8]) -> Option<Vec<u8>> {
    let mut out = Vec::new();
    loop {
        let e = b
            .iter()
            .position(|&x| !(x.is_ascii_digit() || (0x61..=0x66).contains(&x)))?;
        if e == 0 || b.len() < e + 2 || b[e] != 13 || b[e + 1] != 10 {
            return None;
        }
        let k = usize::from_str_radix(std::str::from_utf8(&b[..e]).ok()?, 16).ok()?;
        if k == 0 {
            if b.len() == e + 4 && b[e + 2] == 13 && b[e + 3] == 10 {
                return Some(out);
            }
            return None;
        }
        if b.len() < e + 2 + k + 2 || b[e + 2 + k] != 13 || b[e + 2 + k + 1] != 10 {
            return None;
        }
        out.extend_from_slice(&b[e + 2..e + 2 + k]);
        b = &b[e + 2 + k + 2..];
    }
}

#[test]
fn config_new_rejects_missing_args() {
    let r = Config::new(&[String::from("prog")]);
    assert_eq!(r.err(), Some(String::from("not enough arguments")));
    let r = Config::new(&[String::from("prog"), String::from("127.0.0.1:80")]);
    assert_eq!(r.err(), Some(String::from("not enough arguments")));
}

#[test]
fn config_new_takes_host_and_root() {
    let args = vec![
        String::from("prog"),
        String::from("127.0.0.1:8080"),
        String::from("/srv/www"),
    ];
    let c = Config::new(&args).expect("enough arguments");
    assert_eq!(c.host, "127.0.0.1:8080");
    assert_eq!(c.root, "/srv/www");
}

#[test]
fn server_new_keeps_config() {
    let c = Config {
        host: String::from("h"),
        root: String::from("r"),
    };
    let s = Server::new(c);
    assert_eq!(s.config.host, "h");
    assert_eq!(s.config.root, "r");
}

#[test]
fn decode_takes_method_and_path_from_request_line() {
    let req = decode_ok(b"GET /a.txt HTTP/1.1\r\nHost: example\r\n\r\n");
    assert_eq!(req.method, "GET");
    assert_eq!(req.path, "/a.txt");
    assert_eq!(
        req.headers,
        vec![(String::from("Host"), String::from("example"))]
    );
    assert_eq!(req.response_code, 0);
}

#[test]
fn decode_malformed_request_line_gives_sentinel() {
    for buf in [
        b"GETPATH\r\n\r\n".as_slice(),
        b"GET /x\r\n".as_slice(),
        b"GET /x HTTP/1.1 extra\r\n\r\n".as_slice(),
    ] {
        let decoded = Request::parse_request(buf);
        let req = decoded.as_ref().expect("malformed line still decodes");
        assert_eq!(req.method, "");
        assert_eq!(req.path, "");
        assert!(matches!(dispatch(&decoded), Step::Close));
    }
}

#[test]
fn decode_rejects_invalid_utf8_and_dispatcher_replies_400() {
    let decoded = Request::parse_request(&[0xff, 0xfe, 0x47]);
    assert_eq!(decoded.as_ref().err(), Some(&ParseError::InvalidUtf8));
    match dispatch(&decoded) {
        Step::Reply { code, body } => {
            assert_eq!(code, 400);
            assert!(body.is_empty());
        }
        _ => panic!("a decode failure must be answered, not closed"),
    }
}

#[test]
fn dispatcher_replies_501_to_non_get() {
    let decoded = Request::parse_request(b"POST / HTTP/1.1\r\n\r\n");
    match dispatch(&decoded) {
        Step::Reply { code, body } => {
            assert_eq!(code, 501);
            assert_eq!(body, b"Not Implemented".to_vec());
        }
        _ => panic!("a non-GET method must get a 501 reply"),
    }
}

#[test]
fn file_body_is_kept_verbatim() {
    let content = b"on-disk bytes \x00\x01\x02".to_vec();
    let (code, body) = resource_response(&String::from("/f"), FsNode::File(content.clone()));
    assert_eq!(code, 200);
    assert_eq!(body, content);
}

#[test]
fn response_is_valid_chunked_encoding() {
    let bytes = encode_response(200, b"hi").expect("valid code");
    assert_eq!(
        bytes,
        b"HTTP/1.1 200 OK\nConnection: keep-alive\nTransfer-Encoding: chunked\n\n2\r\nhi\r\n0\r\n\r\n"
            .to_vec()
    );
    let (_, body) = split_head(&bytes);
    assert_eq!(dechunk_bytes(body), Some(b"hi".to_vec()));
}

#[test]
fn chunking_splits_at_500_bytes() {
    // A payload of exactly one chunk size.
    let data = vec![b'x'; 500];
    let bytes = encode_response(200, &data).expect("valid code");
    let (_, body) = split_head(&bytes);
    let mut expected = b"1f4\r\n".to_vec();
    expected.extend_from_slice(&data);
    expected.extend_from_slice(b"\r\n0\r\n\r\n");
    assert_eq!(body, expected.as_slice());
    assert_eq!(dechunk_bytes(body), Some(data));

    // One byte more starts a second chunk.
    let data = vec![b'y'; 501];
    let bytes = encode_response(200, &data).expect("valid code");
    let (_, body) = split_head(&bytes);
    let mut expected = b"1f4\r\n".to_vec();
    expected.extend_from_slice(&data[..500]);
    expected.extend_from_slice(b"\r\n1\r\ny\r\n0\r\n\r\n");
    assert_eq!(body, expected.as_slice());
    assert_eq!(dechunk_bytes(body), Some(data));
}

#[test]
fn empty_body_sends_only_terminal_chunk() {
    let bytes = encode_response(400, &[]).expect("valid code");
    assert_eq!(
        bytes,
        b"HTTP/1.1 400 Bad Request\nConnection: keep-alive\nTransfer-Encoding: chunked\n\n0\r\n\r\n"
            .to_vec()
    );
}

#[test]
fn directory_listing_links_every_entry() {
    let entries = vec![
        DirEntry {
            path: String::from("/d/a.txt"),
            name: String::from("a.txt"),
        },
        DirEntry {
            path: String::from("/d/sub"),
            name: String::from("sub"),
        },
    ];
    let page = dir_navigation_page(&String::from("/d"), &entries);
    assert_eq!(
        page,
        b"<html><body><h1>/d</h1><br><a href=\"/d/a.txt\">a.txt</a><br><a href=\"/d/sub\">sub</a><br></body></html>"
            .to_vec()
    );
    let (code, body) = resource_response(&String::from("/d"), FsNode::Directory(entries));
    assert_eq!(code, 200);
    assert_eq!(body, page);
}

#[test]
fn empty_directory_lists_no_links() {
    let page = dir_navigation_page(&String::from("/empty"), &Vec::new());
    assert_eq!(
        page,
        b"<html><body><h1>/empty</h1><br></body></html>".to_vec()
    );
}

#[test]
fn missing_path_gets_404_not_found() {
    let (code, body) = resource_response(&String::from("/gone"), FsNode::Missing);
    assert_eq!(code, 404);
    assert_eq!(body, b"Not Found".to_vec());
}

#[test]
fn decoding_twice_gives_identical_requests() {
    let buf = b"GET /a b\r\nK: v\r\nK: w\r\n\r\n";
    let r1 = decode_ok(buf);
    let r2 = decode_ok(buf);
    assert_eq!(r1.method, r2.method);
    assert_eq!(r1.path, r2.path);
    assert_eq!(r1.headers, r2.headers);
    assert_eq!(r1.response_code, r2.response_code);
}

#[test]
fn end_to_end_get_existing_file() {
    let decoded = Request::parse_request(b"GET /a.txt HTTP/1.1\r\n\r\n");
    assert!(matches!(dispatch(&decoded), Step::Fetch));
    let mut req = decoded.expect("well-formed request");
    assert_eq!(req.path, "/a.txt");
    // The filesystem root holds a.txt with content "hi".
    let (code, body) = resource_response(&req.path, FsNode::File(b"hi".to_vec()));
    assert_eq!(code, 200);
    let bytes = req.response(code, &body).expect("valid code");
    let (head, chunked) = split_head(&bytes);
    assert!(head.starts_with(b"HTTP/1.1 200 OK\n"));
    assert_eq!(dechunk_bytes(chunked), Some(b"hi".to_vec()));
    assert_eq!(req.response_code, 200);
}

#[test]
fn end_to_end_get_missing_path() {
    let decoded = Request::parse_request(b"GET /missing HTTP/1.1\r\n\r\n");
    assert!(matches!(dispatch(&decoded), Step::Fetch));
    let mut req = decoded.expect("well-formed request");
    let (code, body) = resource_response(&req.path, FsNode::Missing);
    assert_eq!(code, 404);
    assert_eq!(body, b"Not Found".to_vec());
    let bytes = req.response(code, &body).expect("valid code");
    let (head, chunked) = split_head(&bytes);
    assert!(head.starts_with(b"HTTP/1.1 404 Not Found\n"));
    assert_eq!(dechunk_bytes(chunked), Some(b"Not Found".to_vec()));
    assert_eq!(req.response_code, 404);
}

#[test]
fn end_to_end_delete_is_not_implemented() {
    let decoded = Request::parse_request(b"DELETE /a.txt HTTP/1.1\r\n\r\n");
    let (code, body) = match dispatch(&decoded) {
        Step::Reply { code, body } => (code, body),
        _ => panic!("DELETE must get a reply"),
    };
    assert_eq!(code, 501);
    let mut req = decoded.expect("well-formed request");
    let bytes = req.response(code, &body).expect("valid code");
    let (head, chunked) = split_head(&bytes);
    assert!(head.starts_with(b"HTTP/1.1 501 Not Implemented\n"));
    assert_eq!(dechunk_bytes(chunked), Some(b"Not Implemented".to_vec()));
}

#[test]
fn later_duplicate_header_overwrites_earlier() {
    let req = decode_ok(b"GET / HTTP/1.1\r\nA: 1\r\nA: 2\r\n\r\n");
    assert_eq!(req.headers, vec![(String::from("A"), String::from("2"))]);
}

#[test]
fn differently_cased_header_names_stay_distinct() {
    let req = decode_ok(b"GET / HTTP/1.1\r\nHost: a\r\nhost: b\r\n\r\n");
    assert_eq!(
        req.headers,
        vec![
            (String::from("Host"), String::from("a")),
            (String::from("host"), String::from("b")),
        ]
    );
}

#[test]
fn header_values_are_trimmed_and_keep_later_colons() {
    let req = decode_ok(b"GET / HTTP/1.1\r\nK:   a:b  \r\nplain line\r\n\r\n");
    assert_eq!(req.headers, vec![(String::from("K"), String::from("a:b"))]);
}

#[test]
fn empty_and_padded_buffers_give_the_sentinel() {
    let req = decode_ok(b"");
    assert_eq!(req.method, "");
    let req = decode_ok(&[0u8; 1024]);
    assert_eq!(req.method, "");
    assert!(req.headers.is_empty());
}

#[test]
fn non_ascii_path_is_decoded_from_utf8() {
    let req = decode_ok("GET /caf\u{e9} HTTP/1.1\r\n\r\n".as_bytes());
    assert_eq!(req.method, "GET");
    assert_eq!(req.path, "/caf\u{e9}");
}

#[test]
fn status_codes_outside_100_to_999_are_rejected() {
    assert_eq!(
        encode_response(99, b"").err(),
        Some(EncodeError::InvalidStatusCode)
    );
    assert_eq!(
        encode_response(1000, b"").err(),
        Some(EncodeError::InvalidStatusCode)
    );
    assert!(encode_response(100, b"").is_ok());
    assert!(encode_response(999, b"").is_ok());
}

#[test]
fn invalid_code_leaves_request_unchanged() {
    let mut req = decode_ok(b"GET / HTTP/1.1\r\n\r\n");
    let r = req.response(1000, b"");
    assert_eq!(r.err(), Some(EncodeError::InvalidStatusCode));
    assert_eq!(req.response_code, 0);
}
