//! The contract every parser obeys, and the adapter that lets a plain
//! function stand where a parser is asked for.

use crate::error::{outcome, IResult};
use core::marker::PhantomData;
use vstd::prelude::*;

verus! {

/// A parser: a pure function from an input to an outcome. It keeps no state
/// between two runs, so running it again on the same input gives the same
/// outcome, and a combinator may retry it freely.
///
/// Contracts speak of models: of an input and an error its view, of an
/// output its deep view, so that a list of outputs is modelled by the list
/// of their models.
pub trait Parser<I: View, O: DeepView, E: View> {
    /// What the parser returns on an input, as a mathematical function.
    spec fn spec_parse(&self, input: I::V) -> IResult<I::V, O::V, E::V>;

    /// Runs the parser.
    fn parse_next(&self, input: I) -> (r: IResult<I, O, E>)
        ensures
            outcome(r) == self.spec_parse(input@),
    ;
}

/// Whether `f` can serve as a parser: it accepts every input, and what it
/// returns is decided by what its input holds.
pub open spec fn is_pure<I: View, O: DeepView, E: View, F: Fn(I) -> IResult<I, O, E>>(
    f: F,
) -> bool {
    &&& forall|i: I| call_requires(f, (i,))
    &&& forall|i1: I, i2: I, r1: IResult<I, O, E>, r2: IResult<I, O, E>|
        i1@ == i2@ && #[trigger] call_ensures(f, (i1,), r1) && #[trigger] call_ensures(
            f,
            (i2,),
            r2,
        ) ==> outcome(r1) == outcome(r2)
}

/// A function or closure in the role of a parser.
#[verifier::reject_recursive_types(I)]
#[verifier::reject_recursive_types(O)]
#[verifier::reject_recursive_types(E)]
#[verifier::reject_recursive_types(F)]
pub struct FnParser<I: View, O: DeepView, E: View, F: Fn(I) -> IResult<I, O, E>> {
    f: F,
    shape: PhantomData<(I, O, E)>,
}

impl<I: View, O: DeepView, E: View, F: Fn(I) -> IResult<I, O, E>> FnParser<I, O, E, F> {
    #[verifier::type_invariant]
    spec fn pure(self) -> bool {
        is_pure::<I, O, E, F>(self.f)
    }

    /// The function inside.
    pub closed spec fn func(self) -> F {
        self.f
    }
}

/// Wraps a pure function as a parser.
pub fn from_fn<I: View, O: DeepView, E: View, F: Fn(I) -> IResult<I, O, E>>(f: F) -> (p: FnParser<
    I,
    O,
    E,
    F,
>)
    requires
        is_pure::<I, O, E, F>(f),
    ensures
        p.func() == f,
{
    FnParser { f, shape: PhantomData }
}

impl<I: View, O: DeepView, E: View, F: Fn(I) -> IResult<I, O, E>> Parser<I, O, E> for FnParser<
    I,
    O,
    E,
    F,
> {
    /// The one outcome that the function can return on an input that holds
    /// `input`.
    open spec fn spec_parse(&self, input: I::V) -> IResult<I::V, O::V, E::V> {
        let (i, r) = choose|i: I, r: IResult<I, O, E>|
            i@ == input && #[trigger] call_ensures(self.func(), (i,), r);
        outcome(r)
    }

    fn parse_next(&self, input: I) -> (r: IResult<I, O, E>)
        ensures
            call_ensures(self.func(), (input,), r),
    {
        proof {
            use_type_invariant(self);
        }
        let r = (self.f)(input);
        r
    }
}

/// Whatever a pure function can return on an input is what the parser made
/// of it returns on every input that holds the same.
pub proof fn lemma_fn_parser_returns<I: View, O: DeepView, E: View, F: Fn(I) -> IResult<I, O, E>>(
    p: FnParser<I, O, E, F>,
    input: I,
    r: IResult<I, O, E>,
)
    requires
        is_pure::<I, O, E, F>(p.func()),
        call_ensures(p.func(), (input,), r),
    ensures
        p.spec_parse(input@) == outcome(r),
{
}

} // verus!
