use msgnats_server::errors::ERROR_PARSE;
use msgnats_server::parser::{ParseIter, ParseResult, Parser, PubArg, SubArg};

#[derive(Debug, PartialEq, Clone)]
enum Owned {
    Sub(Vec<u8>, Option<Vec<u8>>, Vec<u8>),
    Pub(Vec<u8>, Vec<u8>, usize, Vec<u8>),
}

fn owned(r: &ParseResult) -> Option<Owned> {
    match r {
        ParseResult::NoMsg => None,
        ParseResult::SubArg(s) => Some(Owned::Sub(
            s.subject.to_vec(),
            s.queue.map(|q| q.to_vec()),
            s.sid.to_vec(),
        )),
        ParseResult::PubArg(p) => Some(Owned::Pub(
            p.subject.to_vec(),
            p.size_buf.to_vec(),
            p.size,
            p.msg.to_vec(),
        )),
    }
}

/// Feeds every chunk, calling `parse` until each is used up.
fn feed_all(chunks: &[&[u8]]) -> Result<Vec<Owned>, i32> {
    let mut p = Parser::new();
    let mut out = Vec::new();
    for chunk in chunks {
        let mut rest: &[u8] = chunk;
        loop {
            match p.parse(rest) {
                Err(e) => return Err(e.err_code),
                Ok((r, n)) => {
                    if let Some(f) = owned(&r) {
                        out.push(f);
                    }
                    rest = &rest[n..];
                }
            }
            if rest.is_empty() {
                break;
            }
        }
    }
    Ok(out)
}

#[test]
fn pub_round_trip() {
    let input = b"PUB foo 5\r\nhello\r\n";
    let mut p = Parser::new();
    let (r, n) = p.parse(input).unwrap();
    assert_eq!(
        r,
        ParseResult::PubArg(PubArg { subject: b"foo", size_buf: b"5", size: 5, msg: b"hello" })
    );
    assert_eq!(n, input.len());
}

#[test]
fn sub_without_queue() {
    let mut p = Parser::new();
    let (r, n) = p.parse(b"SUB a.b 7\r\n").unwrap();
    assert_eq!(r, ParseResult::SubArg(SubArg { subject: b"a.b", sid: b"7", queue: None }));
    assert_eq!(n, 11);
}

#[test]
fn sub_with_queue() {
    let mut p = Parser::new();
    let (r, _) = p.parse(b"SUB a.b grp 7\r\n").unwrap();
    assert_eq!(r, ParseResult::SubArg(SubArg { subject: b"a.b", sid: b"7", queue: Some(b"grp") }));
}

#[test]
fn sub_with_too_many_tokens() {
    let mut p = Parser::new();
    let e = p.parse(b"SUB a.b x y z\r\n").unwrap_err();
    assert_eq!(e.err_code, ERROR_PARSE);
}

#[test]
fn sub_with_one_token() {
    let mut p = Parser::new();
    assert!(p.parse(b"SUB a.b\r\n").is_err());
}

#[test]
fn sub_extra_spaces_and_tabs() {
    let mut p = Parser::new();
    let (r, _) = p.parse(b"SUB \t  a.b   q  9\r\n").unwrap();
    assert_eq!(r, ParseResult::SubArg(SubArg { subject: b"a.b", sid: b"9", queue: Some(b"q") }));
}

#[test]
fn unknown_command_fails() {
    let mut p = Parser::new();
    assert!(p.parse(b"MSG x 1\r\n").is_err());
    let mut p = Parser::new();
    assert!(p.parse(b"sub x 1\r\n").is_err());
    let mut p = Parser::new();
    assert!(p.parse(b"SUBx 1\r\n").is_err());
}

#[test]
fn partial_input_gives_no_msg() {
    let mut p = Parser::new();
    let (r, n) = p.parse(b"SUB top").unwrap();
    assert_eq!(r, ParseResult::NoMsg);
    assert_eq!(n, 7);
    let (r, n) = p.parse(b".x 3\r\n").unwrap();
    assert_eq!(r, ParseResult::SubArg(SubArg { subject: b"top.x", sid: b"3", queue: None }));
    assert_eq!(n, 6);
}

#[test]
fn empty_input_gives_no_msg() {
    let mut p = Parser::new();
    let (r, n) = p.parse(b"").unwrap();
    assert_eq!(r, ParseResult::NoMsg);
    assert_eq!(n, 0);
}

#[test]
fn one_command_per_call() {
    let input = b"SUB a 1\r\nPUB a 2\r\nhi\r\n";
    let mut p = Parser::new();
    let (r, n) = p.parse(input).unwrap();
    assert_eq!(r, ParseResult::SubArg(SubArg { subject: b"a", sid: b"1", queue: None }));
    assert_eq!(n, 9);
    let (r, n2) = p.parse(&input[n..]).unwrap();
    assert_eq!(
        r,
        ParseResult::PubArg(PubArg { subject: b"a", size_buf: b"2", size: 2, msg: b"hi" })
    );
    assert_eq!(n + n2, input.len());
}

#[test]
fn payload_is_length_driven() {
    let mut p = Parser::new();
    let (r, _) = p.parse(b"PUB s 4\r\n\r\n\r\n\r\n").unwrap();
    assert_eq!(
        r,
        ParseResult::PubArg(PubArg { subject: b"s", size_buf: b"4", size: 4, msg: b"\r\n\r\n" })
    );
}

#[test]
fn empty_payload() {
    let mut p = Parser::new();
    let (r, _) = p.parse(b"PUB s 0\r\n\r\n").unwrap();
    assert_eq!(r, ParseResult::PubArg(PubArg { subject: b"s", size_buf: b"0", size: 0, msg: b"" }));
}

#[test]
fn missing_trailer_fails() {
    let mut p = Parser::new();
    assert!(p.parse(b"PUB s 2\r\nabX\n").is_err());
    let mut p = Parser::new();
    assert!(p.parse(b"PUB s 2\r\nab\rX").is_err());
}

#[test]
fn bad_sizes_fail() {
    for input in [
        &b"PUB s x\r\n"[..],
        b"PUB s -1\r\n",
        b"PUB s +1\r\n",
        b"PUB s 99999999999999999999999\r\n",
        b"PUB s\r\n",
        b"PUB s 1 2\r\n",
    ] {
        let mut p = Parser::new();
        assert!(p.parse(input).is_err(), "{:?}", input);
    }
}

#[test]
fn pub_size_with_tab() {
    let mut p = Parser::new();
    let (r, _) = p.parse(b"PUB s\t3\r\nabc\r\n").unwrap();
    assert_eq!(r, ParseResult::PubArg(PubArg { subject: b"s", size_buf: b"3", size: 3, msg: b"abc" }));
}

#[test]
fn long_argument_spills() {
    let subject = vec![b'a'; 700];
    let mut input = b"SUB ".to_vec();
    input.extend_from_slice(&subject);
    input.extend_from_slice(b" 1\r\n");
    let mut p = Parser::new();
    let (r, n) = p.parse(&input).unwrap();
    assert_eq!(r, ParseResult::SubArg(SubArg { subject: &subject, sid: b"1", queue: None }));
    assert_eq!(n, input.len());
}

#[test]
fn long_payload_spills() {
    let payload: Vec<u8> = (0..2000u32).map(|i| (i % 251) as u8).collect();
    let mut input = b"PUB big 2000\r\n".to_vec();
    input.extend_from_slice(&payload);
    input.extend_from_slice(b"\r\n");
    let mut p = Parser::new();
    let (r, n) = p.parse(&input).unwrap();
    assert_eq!(
        r,
        ParseResult::PubArg(PubArg { subject: b"big", size_buf: b"2000", size: 2000, msg: &payload })
    );
    assert_eq!(n, input.len());
    // the parser is reusable after a spilled command
    let (r, _) = p.parse(b"SUB x 1\r\n").unwrap();
    assert_eq!(r, ParseResult::SubArg(SubArg { subject: b"x", sid: b"1", queue: None }));
}

#[test]
fn split_at_every_byte_gives_same_frames() {
    let input: &[u8] = b"SUB a.b 7\r\nSUB a.b grp 8\r\nPUB a.b 5\r\nhe\r\no\r\nPUB c 0\r\n\r\n";
    let whole = feed_all(&[input]).unwrap();
    assert_eq!(whole.len(), 4);
    for cut in 0..=input.len() {
        let parts = feed_all(&[&input[..cut], &input[cut..]]).unwrap();
        assert_eq!(parts, whole, "cut at {}", cut);
    }
    let one_by_one: Vec<&[u8]> = input.chunks(1).collect();
    assert_eq!(feed_all(&one_by_one).unwrap(), whole);
}

#[test]
fn views_match_input_bytes() {
    let input: &[u8] = b"PUB sub.ject 3\r\nxyz\r\n";
    let mut p = Parser::new();
    let (r, _) = p.parse(input).unwrap();
    match r {
        ParseResult::PubArg(a) => {
            assert_eq!(a.subject, &input[4..12]);
            assert_eq!(a.size_buf, &input[13..14]);
            assert_eq!(a.msg, &input[16..19]);
        }
        other => panic!("unexpected {:?}", other),
    }
}

#[test]
fn parse_iter_walks_a_chunk() {
    let input: &[u8] = b"SUB a 1\r\nPUB a 3\r\nxyz\r\nSUB b";
    let mut p = Parser::new();
    let mut it = ParseIter::new(input);
    let mut got = Vec::new();
    while let Some(r) = it.next(&mut p) {
        let r = r.unwrap();
        got.push(owned(&r));
    }
    assert_eq!(
        got,
        vec![
            Some(Owned::Sub(b"a".to_vec(), None, b"1".to_vec())),
            Some(Owned::Pub(b"a".to_vec(), b"3".to_vec(), 3, b"xyz".to_vec())),
            None,
        ]
    );
    let mut it = ParseIter::new(b" 2\r\n");
    let r = it.next(&mut p).unwrap().unwrap();
    assert_eq!(owned(&r), Some(Owned::Sub(b"b".to_vec(), None, b"2".to_vec())));
    assert!(it.next(&mut p).is_none());
}

#[test]
fn parse_iter_reports_errors() {
    let mut p = Parser::new();
    let mut it = ParseIter::new(b"XUB a 1\r\n");
    let r = it.next(&mut p).unwrap();
    assert_eq!(r.unwrap_err().err_code, ERROR_PARSE);
}
