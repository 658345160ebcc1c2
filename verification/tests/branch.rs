use parcom::branch::{alt, permutation};
use parcom::bytes::tag;
use parcom::custom::ErrorStr;
use parcom::error::{ErrMode, Error, ErrorKind, Needed, ParseError};
use parcom::parser::from_fn;
use parcom::IResult;
use parcom::Parser;
use parcom::Streaming;

type Branch = for<'a> fn(&'a [u8]) -> IResult<&'a [u8], &'a [u8], ErrorStr>;

fn work(input: &[u8]) -> IResult<&[u8], &[u8], ErrorStr> {
    Ok((&b""[..], input))
}

#[allow(unused_variables)]
fn dont_work(input: &[u8]) -> IResult<&[u8], &[u8], ErrorStr> {
    Err(ErrMode::Backtrack(ErrorStr("abcd".to_string())))
}

fn work2(input: &[u8]) -> IResult<&[u8], &[u8], ErrorStr> {
    Ok((input, &b""[..]))
}

fn alt1(i: &[u8]) -> IResult<&[u8], &[u8], ErrorStr> {
    alt(vec![from_fn(dont_work as Branch), from_fn(dont_work as Branch)]).parse_next(i)
}

fn alt2(i: &[u8]) -> IResult<&[u8], &[u8], ErrorStr> {
    alt(vec![from_fn(dont_work as Branch), from_fn(work as Branch)]).parse_next(i)
}

fn alt3(i: &[u8]) -> IResult<&[u8], &[u8], ErrorStr> {
    alt(vec![
        from_fn(dont_work as Branch),
        from_fn(dont_work as Branch),
        from_fn(work2 as Branch),
        from_fn(dont_work as Branch),
    ])
    .parse_next(i)
}

fn alt4(i: &[u8]) -> IResult<&[u8], &[u8]> {
    alt(vec![tag("abcd"), tag("efgh")]).parse_next(i)
}

#[test]
fn alt_test() {
    let a = &b"abcd"[..];
    assert_eq!(
        alt1(a),
        Err(ErrMode::Backtrack(
            ErrorStr("abcd".to_string()).append(a, ErrorKind::Alt)
        ))
    );
    assert_eq!(alt2(a), Ok((&b""[..], a)));
    assert_eq!(alt3(a), Ok((a, &b""[..])));

    let b = &b"efgh"[..];
    assert_eq!(alt4(a), Ok((&b""[..], a)));
    assert_eq!(alt4(b), Ok((&b""[..], b)));
}

fn alt_streaming(i: Streaming<&[u8]>) -> IResult<Streaming<&[u8]>, &[u8]> {
    alt(vec![tag("a"), tag("bc"), tag("def")]).parse_next(i)
}

#[test]
fn alt_incomplete() {
    let a = &b""[..];
    assert_eq!(
        alt_streaming(Streaming(a)),
        Err(ErrMode::Incomplete(Needed::new(1)))
    );
    let a = &b"b"[..];
    assert_eq!(
        alt_streaming(Streaming(a)),
        Err(ErrMode::Incomplete(Needed::new(1)))
    );
    let a = &b"bcd"[..];
    assert_eq!(
        alt_streaming(Streaming(a)),
        Ok((Streaming(&b"d"[..]), &b"bc"[..]))
    );
    let a = &b"cde"[..];
    assert_eq!(
        alt_streaming(Streaming(a)),
        Err(ErrMode::Backtrack(Error::from_error_kind(
            Streaming(a),
            ErrorKind::Tag
        )))
    );
    let a = &b"de"[..];
    assert_eq!(
        alt_streaming(Streaming(a)),
        Err(ErrMode::Incomplete(Needed::new(1)))
    );
    let a = &b"defg"[..];
    assert_eq!(
        alt_streaming(Streaming(a)),
        Ok((Streaming(&b"g"[..]), &b"def"[..]))
    );
}

fn perm(i: Streaming<&[u8]>) -> IResult<Streaming<&[u8]>, Vec<&[u8]>> {
    permutation(vec![tag("abcd"), tag("efg"), tag("hi")]).parse_next(i)
}

#[test]
fn permutation_test() {
    let expected = vec![&b"abcd"[..], &b"efg"[..], &b"hi"[..]];

    let a = &b"abcdefghijk"[..];
    assert_eq!(
        perm(Streaming(a)),
        Ok((Streaming(&b"jk"[..]), expected.clone()))
    );
    let b = &b"efgabcdhijk"[..];
    assert_eq!(
        perm(Streaming(b)),
        Ok((Streaming(&b"jk"[..]), expected.clone()))
    );
    let c = &b"hiefgabcdjk"[..];
    assert_eq!(
        perm(Streaming(c)),
        Ok((Streaming(&b"jk"[..]), expected.clone()))
    );

    let d = &b"efgxyzabcdefghi"[..];
    assert_eq!(
        perm(Streaming(d)),
        Err(ErrMode::Backtrack(
            Error::from_error_kind(Streaming(&b"xyzabcdefghi"[..]), ErrorKind::Tag)
                .append(Streaming(&b"efgxyzabcdefghi"[..]), ErrorKind::Permutation)
        ))
    );

    let e = &b"efgabc"[..];
    assert_eq!(
        perm(Streaming(e)),
        Err(ErrMode::Incomplete(Needed::new(1)))
    );
}
