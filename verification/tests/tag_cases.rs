use parcom::bytes::{tag, Tag};
use parcom::custom::ErrorStr;
use parcom::error::{ErrMode, Error, ErrorKind, Needed};
use parcom::input::Input;
use parcom::parser::{from_fn, Parser};
use parcom::{IResult, Streaming};

fn doubled(input: &[u8]) -> IResult<&[u8], &[u8], Error<&[u8]>> {
    match tag("ab").parse_next(input) {
        Ok((rest, _)) => tag("ab").parse_next(rest),
        Err(e) => Err(e),
    }
}

#[test]
fn tag_matches_at_the_front() {
    let r: IResult<&[u8], &[u8]> = tag("abcd").parse_next(&b"abcdef"[..]);
    assert_eq!(r, Ok((&b"ef"[..], &b"abcd"[..])));
    let r: IResult<&[u8], &[u8]> = tag("abcd").parse_next(&b"abcd"[..]);
    assert_eq!(r, Ok((&b""[..], &b"abcd"[..])));
    let r: IResult<Streaming<&[u8]>, &[u8]> = tag("abcd").parse_next(Streaming(&b"abcdef"[..]));
    assert_eq!(r, Ok((Streaming(&b"ef"[..]), &b"abcd"[..])));
}

#[test]
fn tag_mismatch_is_recoverable() {
    let input = &b"abxd"[..];
    let r: IResult<&[u8], &[u8]> = tag("abcd").parse_next(input);
    assert_eq!(
        r,
        Err(ErrMode::Backtrack(Error {
            input,
            kind: ErrorKind::Tag
        }))
    );
    let r: IResult<Streaming<&[u8]>, &[u8]> = tag("abcd").parse_next(Streaming(input));
    assert_eq!(
        r,
        Err(ErrMode::Backtrack(Error {
            input: Streaming(input),
            kind: ErrorKind::Tag
        }))
    );
    let r: IResult<Streaming<&[u8]>, &[u8]> = tag("abcd").parse_next(Streaming(&b"x"[..]));
    assert_eq!(
        r,
        Err(ErrMode::Backtrack(Error {
            input: Streaming(&b"x"[..]),
            kind: ErrorKind::Tag
        }))
    );
}

#[test]
fn tag_short_input_by_mode() {
    let input = &b"ab"[..];
    let r: IResult<&[u8], &[u8]> = tag("abcd").parse_next(input);
    assert_eq!(
        r,
        Err(ErrMode::Backtrack(Error {
            input,
            kind: ErrorKind::Tag
        }))
    );
    let r: IResult<Streaming<&[u8]>, &[u8]> = tag("abcd").parse_next(Streaming(input));
    assert_eq!(r, Err(ErrMode::Incomplete(Needed::Size(2))));
    let r: IResult<Streaming<&[u8]>, &[u8]> = tag("abcd").parse_next(Streaming(&b""[..]));
    assert_eq!(r, Err(ErrMode::Incomplete(Needed::Size(4))));
}

#[test]
fn tag_empty_literal_matches_anything() {
    let r: IResult<&[u8], &[u8]> = tag("").parse_next(&b"xy"[..]);
    assert_eq!(r, Ok((&b"xy"[..], &b""[..])));
    let r: IResult<Streaming<&[u8]>, &[u8]> = tag("").parse_next(Streaming(&b""[..]));
    assert_eq!(r, Ok((Streaming(&b""[..]), &b""[..])));
}

#[test]
fn tag_of_bytes_and_of_text_agree() {
    let by_bytes = Tag {
        literal: &[0xc3, 0xa9],
    };
    let by_text = tag("\u{e9}");
    assert_eq!(by_text.literal, by_bytes.literal);
    let input = &[0xc3u8, 0xa9, 0x21][..];
    let r: IResult<&[u8], &[u8]> = by_text.parse_next(input);
    assert_eq!(r, Ok((&b"!"[..], &[0xc3u8, 0xa9][..])));
}

#[test]
fn tag_error_text() {
    let r: IResult<&[u8], &[u8], ErrorStr> = tag("a").parse_next(&b"b"[..]);
    assert_eq!(
        r,
        Err(ErrMode::Backtrack(ErrorStr(
            "custom error message: ([98], Tag)".to_string()
        )))
    );
    let r: IResult<Streaming<&[u8]>, &[u8], ErrorStr> = tag("a").parse_next(Streaming(&b"b"[..]));
    assert_eq!(
        r,
        Err(ErrMode::Backtrack(ErrorStr(
            "custom error message: (Streaming([98]), Tag)".to_string()
        )))
    );
}

#[test]
fn input_modes_and_splitting() {
    let bytes = &b"hello"[..];
    assert!(!bytes.is_partial());
    assert!(Streaming(bytes).is_partial());
    assert_eq!(bytes.as_bytes(), bytes);
    assert_eq!(Streaming(bytes).as_bytes(), bytes);
    assert_eq!(bytes.take_split(2), (&b"llo"[..], &b"he"[..]));
    assert_eq!(bytes.take_split(0), (bytes, &b""[..]));
    assert_eq!(bytes.take_split(5), (&b""[..], bytes));
    assert_eq!(
        Streaming(bytes).take_split(2),
        (Streaming(&b"llo"[..]), &b"he"[..])
    );
}

#[test]
fn function_as_parser() {
    let twice = from_fn(doubled as for<'a> fn(&'a [u8]) -> IResult<&'a [u8], &'a [u8], Error<&'a [u8]>>);
    assert_eq!(twice.parse_next(&b"ababc"[..]), Ok((&b"c"[..], &b"ab"[..])));
    assert_eq!(
        twice.parse_next(&b"abc"[..]),
        Err(ErrMode::Backtrack(Error {
            input: &b"c"[..],
            kind: ErrorKind::Tag
        }))
    );
    assert_eq!(twice.parse_next(&b"ababc"[..]), twice.parse_next(&b"ababc"[..]));
}
