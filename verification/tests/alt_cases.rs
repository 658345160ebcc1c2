use parcom::branch::alt;
use parcom::bytes::tag;
use parcom::custom::ErrorStr;
use parcom::error::{ErrMode, Error, ErrorKind, Needed, ParseError};
use parcom::parser::{from_fn, Parser};
use parcom::{IResult, Streaming};

type Plain = for<'a> fn(&'a [u8]) -> IResult<&'a [u8], &'a [u8], Error<&'a [u8]>>;
type Texted = for<'a> fn(&'a [u8]) -> IResult<&'a [u8], &'a [u8], ErrorStr>;
type Partial =
    for<'a> fn(Streaming<&'a [u8]>) -> IResult<Streaming<&'a [u8]>, &'a [u8], Error<Streaming<&'a [u8]>>>;

fn tag_a(input: &[u8]) -> IResult<&[u8], &[u8], Error<&[u8]>> {
    tag("A").parse_next(input)
}

fn tag_b(input: &[u8]) -> IResult<&[u8], &[u8], Error<&[u8]>> {
    tag("B").parse_next(input)
}

fn never(_input: &[u8]) -> IResult<&[u8], &[u8], Error<&[u8]>> {
    panic!("a branch behind the deciding one was run")
}

fn never_partial(_input: Streaming<&[u8]>) -> IResult<Streaming<&[u8]>, &[u8], Error<Streaming<&[u8]>>> {
    panic!("a branch behind the deciding one was run")
}

fn committed(input: &[u8]) -> IResult<&[u8], &[u8], Error<&[u8]>> {
    Err(ErrMode::Cut(Error {
        input,
        kind: ErrorKind::Tag,
    }))
}

fn tag_ab_partial(input: Streaming<&[u8]>) -> IResult<Streaming<&[u8]>, &[u8], Error<Streaming<&[u8]>>> {
    tag("ab").parse_next(input)
}

fn tag_x_partial(input: Streaming<&[u8]>) -> IResult<Streaming<&[u8]>, &[u8], Error<Streaming<&[u8]>>> {
    tag("x").parse_next(input)
}

fn fail_one(_input: &[u8]) -> IResult<&[u8], &[u8], ErrorStr> {
    Err(ErrMode::Backtrack(ErrorStr("one".to_string())))
}

fn fail_two(_input: &[u8]) -> IResult<&[u8], &[u8], ErrorStr> {
    Err(ErrMode::Backtrack(ErrorStr("two".to_string())))
}

fn fail_three(_input: &[u8]) -> IResult<&[u8], &[u8], ErrorStr> {
    Err(ErrMode::Backtrack(ErrorStr("three".to_string())))
}

fn eat_one_then_fail(input: &[u8]) -> IResult<&[u8], &[u8], ErrorStr> {
    let consumed = &input[1..];
    Err(ErrMode::Backtrack(ErrorStr::from_error_kind(
        consumed,
        ErrorKind::Tag,
    )))
}

fn whole(input: &[u8]) -> IResult<&[u8], &[u8], ErrorStr> {
    Ok((&input[input.len()..], input))
}

#[test]
fn alt_first_match_wins_and_later_branch_is_not_run() {
    let branches = alt(vec![from_fn(tag_a as Plain), from_fn(never as Plain)]);
    assert_eq!(
        branches.parse_next(&b"A-suffix"[..]),
        Ok((&b"-suffix"[..], &b"A"[..]))
    );
}

#[test]
fn alt_two_tags_first_matches() {
    let branches = alt(vec![tag("A"), tag("B")]);
    let r: IResult<&[u8], &[u8]> = branches.parse_next(&b"A-suffix"[..]);
    assert_eq!(r, Ok((&b"-suffix"[..], &b"A"[..])));
}

#[test]
fn alt_second_branch_after_backtrack() {
    let branches = alt(vec![
        from_fn(tag_a as Plain),
        from_fn(tag_b as Plain),
        from_fn(never as Plain),
    ]);
    assert_eq!(
        branches.parse_next(&b"B!"[..]),
        Ok((&b"!"[..], &b"B"[..]))
    );
}

#[test]
fn alt_is_not_longest_match() {
    let branches = alt(vec![tag("ab"), tag("abcd")]);
    let r: IResult<&[u8], &[u8]> = branches.parse_next(&b"abcdef"[..]);
    assert_eq!(r, Ok((&b"cdef"[..], &b"ab"[..])));
}

#[test]
fn alt_cut_is_returned_at_once() {
    let branches = alt(vec![
        from_fn(tag_a as Plain),
        from_fn(committed as Plain),
        from_fn(never as Plain),
    ]);
    let input = &b"zz"[..];
    assert_eq!(
        branches.parse_next(input),
        Err(ErrMode::Cut(Error {
            input,
            kind: ErrorKind::Tag
        }))
    );
}

#[test]
fn alt_incomplete_is_returned_at_once() {
    let branches = alt(vec![
        from_fn(tag_x_partial as Partial),
        from_fn(tag_ab_partial as Partial),
        from_fn(never_partial as Partial),
    ]);
    assert_eq!(
        branches.parse_next(Streaming(&b"a"[..])),
        Err(ErrMode::Incomplete(Needed::Size(1)))
    );
}

#[test]
fn alt_incomplete_hides_a_later_success() {
    let branches = alt(vec![tag("ab"), tag("a")]);
    let r: IResult<Streaming<&[u8]>, &[u8]> = branches.parse_next(Streaming(&b"a"[..]));
    assert_eq!(r, Err(ErrMode::Incomplete(Needed::Size(1))));
}

#[test]
fn alt_complete_input_never_suspends() {
    let branches = alt(vec![tag("ab"), tag("a")]);
    let r: IResult<&[u8], &[u8]> = branches.parse_next(&b"a"[..]);
    assert_eq!(r, Ok((&b""[..], &b"a"[..])));
}

#[test]
fn alt_all_backtrack_is_tagged_alt() {
    let input = &b"xyz"[..];
    let branches = alt(vec![
        from_fn(fail_one as Texted),
        from_fn(fail_two as Texted),
        from_fn(fail_three as Texted),
    ]);
    let merged = <ErrorStr as ParseError<&[u8]>>::or(
        <ErrorStr as ParseError<&[u8]>>::or(
            ErrorStr("one".to_string()),
            ErrorStr("two".to_string()),
        ),
        ErrorStr("three".to_string()),
    );
    assert_eq!(
        branches.parse_next(input),
        Err(ErrMode::Backtrack(merged.append(input, ErrorKind::Alt)))
    );
    assert_eq!(
        branches.parse_next(input),
        Err(ErrMode::Backtrack(ErrorStr(
            "custom error message: ([120, 121, 122], Alt) - ErrorStr(\"three\")".to_string()
        )))
    );
    let single = from_fn(fail_three as Texted);
    assert_ne!(branches.parse_next(input), single.parse_next(input));
}

#[test]
fn alt_single_branch_is_that_branch() {
    let input = &b"xyz"[..];
    let branches = alt(vec![from_fn(fail_two as Texted)]);
    assert_eq!(
        branches.parse_next(input),
        Err(ErrMode::Backtrack(ErrorStr("two".to_string())))
    );
    let branches = alt(vec![from_fn(whole as Texted)]);
    assert_eq!(branches.parse_next(input), Ok((&b""[..], input)));
}

#[test]
fn alt_without_branches_fails_with_alt() {
    let input = &b"xyz"[..];
    let none: Vec<parcom::bytes::Tag> = Vec::new();
    let r: IResult<&[u8], &[u8], ErrorStr> = alt(none).parse_next(input);
    assert_eq!(
        r,
        Err(ErrMode::Backtrack(ErrorStr(
            "custom error message: ([120, 121, 122], Alt)".to_string()
        )))
    );
    let none: Vec<parcom::bytes::Tag> = Vec::new();
    let r: IResult<&[u8], &[u8]> = alt(none).parse_next(input);
    assert_eq!(
        r,
        Err(ErrMode::Backtrack(Error {
            input,
            kind: ErrorKind::Alt
        }))
    );
}

#[test]
fn alt_every_branch_sees_the_whole_input() {
    let input = &b"xyz"[..];
    let branches = alt(vec![
        from_fn(eat_one_then_fail as Texted),
        from_fn(whole as Texted),
    ]);
    assert_eq!(branches.parse_next(input), Ok((&b""[..], input)));
    let branches = alt(vec![
        from_fn(eat_one_then_fail as Texted),
        from_fn(eat_one_then_fail as Texted),
    ]);
    assert_eq!(
        branches.parse_next(input),
        Err(ErrMode::Backtrack(ErrorStr(
            "custom error message: ([120, 121, 122], Alt) - ErrorStr(\"custom error message: ([121, 122], Tag)\")"
                .to_string()
        )))
    );
}

#[test]
fn alt_plain_error_keeps_the_last_failure() {
    let input = &b"cde"[..];
    let branches = alt(vec![tag("a"), tag("bc"), tag("def")]);
    let r: IResult<&[u8], &[u8]> = branches.parse_next(input);
    assert_eq!(
        r,
        Err(ErrMode::Backtrack(Error {
            input,
            kind: ErrorKind::Tag
        }))
    );
}

#[test]
fn alt_nests() {
    let inner_one = alt(vec![tag("a"), tag("b")]);
    let inner_two = alt(vec![tag("c"), tag("d")]);
    let outer = alt(vec![inner_one, inner_two]);
    let r: IResult<&[u8], &[u8]> = outer.parse_next(&b"dz"[..]);
    assert_eq!(r, Ok((&b"z"[..], &b"d"[..])));
}
