//! Outcomes of a parse and the contract that error payloads obey.

use vstd::prelude::*;

verus! {

/// How much more input a suspended parser asks for.
#[derive(Debug, Clone, Copy, PartialEq, Eq)]
pub enum Needed {
    /// More input is needed, but the amount is not known.
    Unknown,
    /// This many further units are needed; the count is never zero.
    Size(usize),
}

impl Needed {
    /// Whether the request is well formed: an exact count is not zero.
    pub open spec fn wf(self) -> bool {
        self != Needed::Size(0)
    }

    /// The request for `n` further units; a request for zero units carries
    /// no information and is `Unknown`.
    pub open spec fn spec_new(n: usize) -> Needed {
        if n == 0 {
            Needed::Unknown
        } else {
            Needed::Size(n)
        }
    }

    /// Builds the request for `n` further units.
    #[verifier::when_used_as_spec(spec_new)]
    pub fn new(n: usize) -> (needed: Needed)
        ensures
            needed == Needed::spec_new(n),
            needed.wf(),
    {
        if n == 0 {
            Needed::Unknown
        } else {
            Needed::Size(n)
        }
    }
}

/// Which parser or combinator produced a failure.
#[derive(Debug, Clone, Copy, PartialEq, Eq)]
pub enum ErrorKind {
    /// A literal did not match.
    Tag,
    /// Every branch of an alternation failed.
    Alt,
    /// No parser left in the pool of an unordered sequence matched.
    Permutation,
}

impl ErrorKind {
    /// The name of the kind, as text.
    pub open spec fn spec_name(self) -> Seq<char> {
        match self {
            ErrorKind::Tag => "Tag"@,
            ErrorKind::Alt => "Alt"@,
            ErrorKind::Permutation => "Permutation"@,
        }
    }

    /// The name of the kind.
    pub fn name(&self) -> (text: &'static str)
        ensures
            text@ == self.spec_name(),
    {
        match self {
            ErrorKind::Tag => "Tag",
            ErrorKind::Alt => "Alt",
            ErrorKind::Permutation => "Permutation",
        }
    }
}

/// The three ways in which a parse does not succeed.
#[derive(Debug, Clone, PartialEq, Eq)]
pub enum ErrMode<E> {
    /// Not a failure: the input ended before the parser could decide.
    Incomplete(Needed),
    /// A recoverable failure: the caller may try something else.
    Backtrack(E),
    /// A committed failure: no alternative may be tried.
    Cut(E),
}

/// The plain error: where the failure was, and what kind it was of.
#[derive(Debug, Clone, PartialEq, Eq)]
pub struct Error<I> {
    /// The input at the point of failure.
    pub input: I,
    /// The kind of the parser that failed.
    pub kind: ErrorKind,
}

impl<I: View> View for Error<I> {
    type V = Error<I::V>;

    open spec fn view(&self) -> Error<I::V> {
        Error { input: self.input@, kind: self.kind }
    }
}

/// What a parser returns: the remaining input with the value produced, or
/// the reason why there is none.
pub type IResult<I, O, E = Error<I>> = Result<(I, O), ErrMode<E>>;

/// The mathematical value of an outcome: every part replaced by its model.
pub open spec fn outcome<I: View, O: DeepView, E: View>(r: IResult<I, O, E>) -> IResult<
    I::V,
    O::V,
    E::V,
> {
    match r {
        Ok((rest, out)) => Ok((rest@, out.deep_view())),
        Err(ErrMode::Incomplete(needed)) => Err(ErrMode::Incomplete(needed)),
        Err(ErrMode::Backtrack(e)) => Err(ErrMode::Backtrack(e@)),
        Err(ErrMode::Cut(e)) => Err(ErrMode::Cut(e@)),
    }
}

/// The capability an error payload must have: it can be built from the place
/// and kind of a failure, it can take on further context as it passes
/// through a combinator, and two of them can be merged into one.
pub trait ParseError<I: View>: Sized + View {
    /// The model of the error built from a place and a kind.
    spec fn spec_from_error_kind(input: I::V, kind: ErrorKind) -> Self::V;

    /// The model of `prior` with the context `(input, kind)` added.
    spec fn spec_append(prior: Self::V, input: I::V, kind: ErrorKind) -> Self::V;

    /// The model of the merge of two errors of sibling branches, `first`
    /// having been met before `second`.
    spec fn spec_or(first: Self::V, second: Self::V) -> Self::V;

    /// Builds an error from the place and kind of a failure.
    fn from_error_kind(input: I, kind: ErrorKind) -> (e: Self)
        ensures
            e@ == Self::spec_from_error_kind(input@, kind),
    ;

    /// Adds the context `(input, kind)` to an error.
    fn append(self, input: I, kind: ErrorKind) -> (e: Self)
        ensures
            e@ == Self::spec_append(self@, input@, kind),
    ;

    /// Merges the errors of two sibling branches.
    fn or(self, other: Self) -> (e: Self)
        ensures
            e@ == Self::spec_or(self@, other@),
    ;
}

/// The plain error keeps one failure and no history: context added to it
/// is dropped, and of two sibling errors the later one stays.
impl<I: View> ParseError<I> for Error<I> {
    open spec fn spec_from_error_kind(input: I::V, kind: ErrorKind) -> Error<I::V> {
        Error { input, kind }
    }

    open spec fn spec_append(prior: Error<I::V>, input: I::V, kind: ErrorKind) -> Error<I::V> {
        prior
    }

    open spec fn spec_or(first: Error<I::V>, second: Error<I::V>) -> Error<I::V> {
        second
    }

    fn from_error_kind(input: I, kind: ErrorKind) -> (e: Self) {
        Error { input, kind }
    }

    fn append(self, input: I, kind: ErrorKind) -> (e: Self) {
        self
    }

    fn or(self, other: Self) -> (e: Self) {
        other
    }
}

} // verus!
