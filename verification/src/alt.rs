//! Ordered alternation: the branches are tried in turn on the same input,
//! and the first one that does not fail recoverably decides.

use crate::error::{ErrMode, ErrorKind, IResult, ParseError};
use crate::parser::Parser;
use vstd::prelude::*;

verus! {

/// The running error of an alternation after one more branch has failed
/// with `e`: the merge of what was there with `e`.
pub open spec fn merged<I: View, E: ParseError<I>>(acc: Option<E::V>, e: E::V) -> E::V {
    match acc {
        Some(a) => E::spec_or(a, e),
        None => e,
    }
}

/// The merge of the errors of all branches, in the order of the branches.
pub open spec fn merged_all<I: View, E: ParseError<I>>(errs: Seq<E::V>) -> E::V
    decreases errs.len(),
{
    if errs.len() <= 1 {
        errs[0]
    } else {
        E::spec_or(merged_all::<I, E>(errs.drop_last()), errs.last())
    }
}

/// Whether an outcome is a recoverable failure.
pub open spec fn is_backtrack<I, O, E>(r: IResult<I, O, E>) -> bool {
    r is Err && r->Err_0 is Backtrack
}

/// The outcome of trying the branches from the `k`-th on, `acc` being the
/// merged error of the branches before it, which have all failed
/// recoverably.
pub open spec fn alt_from<I, O, E, P>(
    branches: Seq<P>,
    input: I::V,
    k: int,
    acc: Option<E::V>,
) -> IResult<I::V, O::V, E::V> where I: View, O: DeepView, E: ParseError<I>, P: Parser<I, O, E>
    decreases branches.len() - k,
{
    if k < 0 || k >= branches.len() {
        match acc {
            Some(e) => Err(ErrMode::Backtrack(E::spec_append(e, input, ErrorKind::Alt))),
            None => Err(ErrMode::Backtrack(E::spec_from_error_kind(input, ErrorKind::Alt))),
        }
    } else {
        match branches[k].spec_parse(input) {
            Err(ErrMode::Backtrack(e)) => alt_from::<I, O, E, P>(
                branches,
                input,
                k + 1,
                Some(merged::<I, E>(acc, e)),
            ),
            decided => decided,
        }
    }
}

/// The outcome of an alternation. A single branch stands for itself; any
/// other number of branches is tried in order, and when all have failed
/// recoverably the failure is one of kind `Alt` around their merged errors.
pub open spec fn spec_alt<I, O, E, P>(branches: Seq<P>, input: I::V) -> IResult<
    I::V,
    O::V,
    E::V,
> where I: View, O: DeepView, E: ParseError<I>, P: Parser<I, O, E> {
    if branches.len() == 1 {
        branches[0].spec_parse(input)
    } else {
        alt_from::<I, O, E, P>(branches, input, 0, None)
    }
}

/// An alternation over a list of branches.
pub struct Alt<P> {
    /// The branches, in the order in which they are tried.
    pub branches: Vec<P>,
}

/// The parser that tries `branches` in order, each on the input that the
/// alternation itself was given.
pub fn alt<P>(branches: Vec<P>) -> (a: Alt<P>)
    ensures
        a.branches == branches,
{
    Alt { branches }
}

impl<I, O, E, P> Parser<I, O, E> for Alt<P> where
    I: View + Copy,
    O: DeepView,
    E: ParseError<I>,
    P: Parser<I, O, E>,
 {
    open spec fn spec_parse(&self, input: I::V) -> IResult<I::V, O::V, E::V> {
        spec_alt::<I, O, E, P>(self.branches@, input)
    }

    fn parse_next(&self, input: I) -> (r: IResult<I, O, E>) {
        let count = self.branches.len();
        if count == 1 {
            return self.branches[0].parse_next(input);
        }
        let mut acc: Option<E> = None;
        let mut k: usize = 0;
        while k < count
            invariant
                count == self.branches@.len(),
                k <= count,
                alt_from::<I, O, E, P>(
                    self.branches@,
                    input@,
                    k as int,
                    match acc {
                        Some(e) => Some(e@),
                        None => None,
                    },
                ) == alt_from::<I, O, E, P>(self.branches@, input@, 0, None),
            decreases count - k,
        {
            match self.branches[k].parse_next(input) {
                Err(ErrMode::Backtrack(e)) => {
                    acc = Some(
                        match acc {
                            Some(a) => a.or(e),
                            None => e,
                        },
                    );
                },
                decided => {
                    return decided;
                },
            }
            k += 1;
        }
        match acc {
            Some(e) => Err(ErrMode::Backtrack(e.append(input, ErrorKind::Alt))),
            None => Err(ErrMode::Backtrack(E::from_error_kind(input, ErrorKind::Alt))),
        }
    }
}

/// Branches that fail recoverably are passed over: when those from the
/// `j`-th up to the `k`-th do, and the `k`-th does not, the `k`-th decides,
/// whatever was merged before.
proof fn lemma_alt_from_decided<I, O, E, P>(
    branches: Seq<P>,
    input: I::V,
    j: int,
    k: int,
    acc: Option<E::V>,
) where I: View, O: DeepView, E: ParseError<I>, P: Parser<I, O, E>
    requires
        0 <= j <= k < branches.len(),
        forall|i: int| j <= i < k ==> is_backtrack(#[trigger] branches[i].spec_parse(input)),
        !is_backtrack(branches[k].spec_parse(input)),
    ensures
        alt_from::<I, O, E, P>(branches, input, j, acc) == branches[k].spec_parse(input),
    decreases k - j,
{
    if j < k {
        let e = branches[j].spec_parse(input)->Err_0->Backtrack_0;
        lemma_alt_from_decided::<I, O, E, P>(
            branches,
            input,
            j + 1,
            k,
            Some(merged::<I, E>(acc, e)),
        );
    }
}

/// When every branch fails recoverably, the errors are merged in order.
proof fn lemma_alt_from_exhausted<I, O, E, P>(
    branches: Seq<P>,
    input: I::V,
    errs: Seq<E::V>,
    j: int,
    acc: Option<E::V>,
) where I: View, O: DeepView, E: ParseError<I>, P: Parser<I, O, E>
    requires
        0 <= j <= branches.len(),
        branches.len() >= 1,
        errs.len() == branches.len(),
        forall|i: int|
            0 <= i < branches.len() ==> #[trigger] branches[i].spec_parse(input) == Err::<
                (I::V, O::V),
                ErrMode<E::V>,
            >(ErrMode::Backtrack(errs[i])),
        j == 0 ==> acc is None,
        j > 0 ==> acc == Some(merged_all::<I, E>(errs.take(j))),
    ensures
        alt_from::<I, O, E, P>(branches, input, j, acc) == Err::<(I::V, O::V), ErrMode<E::V>>(
            ErrMode::Backtrack(E::spec_append(merged_all::<I, E>(errs), input, ErrorKind::Alt)),
        ),
    decreases branches.len() - j,
{
    if j < branches.len() {
        assert(errs.take(j + 1).drop_last() =~= errs.take(j));
        lemma_alt_from_exhausted::<I, O, E, P>(
            branches,
            input,
            errs,
            j + 1,
            Some(merged::<I, E>(acc, errs[j])),
        );
    } else {
        assert(errs.take(j) =~= errs);
    }
}

/// The first branch that does not fail recoverably decides the
/// alternation: its outcome, be it a success, a suspension or a committed
/// failure, is the outcome of the whole, and the branches listed after it
/// have no say.
pub proof fn lemma_alt_first_decisive<I, O, E, P>(branches: Seq<P>, input: I::V, k: int) where
    I: View,
    O: DeepView,
    E: ParseError<I>,
    P: Parser<I, O, E>,

    requires
        0 <= k < branches.len(),
        forall|i: int| 0 <= i < k ==> is_backtrack(#[trigger] branches[i].spec_parse(input)),
        !is_backtrack(branches[k].spec_parse(input)),
    ensures
        spec_alt::<I, O, E, P>(branches, input) == branches[k].spec_parse(input),
        spec_alt::<I, O, E, P>(branches.take(k + 1), input) == branches[k].spec_parse(input),
{
    lemma_alt_from_decided::<I, O, E, P>(branches, input, 0, k, None);
    let front = branches.take(k + 1);
    lemma_alt_from_decided::<I, O, E, P>(front, input, 0, k, None);
}

/// The branches from the `j`-th on either all fail recoverably, or one of
/// them is the first that does not; the lemma returns its place, or the
/// number of branches when there is none.
proof fn lemma_first_decisive_from<I, O, E, P>(branches: Seq<P>, input: I::V, j: int) -> (k:
    int) where I: View, O: DeepView, E: ParseError<I>, P: Parser<I, O, E>
    requires
        0 <= j <= branches.len(),
    ensures
        j <= k <= branches.len(),
        forall|i: int| j <= i < k ==> is_backtrack(#[trigger] branches[i].spec_parse(input)),
        k < branches.len() ==> !is_backtrack(branches[k].spec_parse(input)),
    decreases branches.len() - j,
{
    if j == branches.len() || !is_backtrack(branches[j].spec_parse(input)) {
        j
    } else {
        lemma_first_decisive_from::<I, O, E, P>(branches, input, j + 1)
    }
}

/// An alternation makes up no outcome of its own but the failure of all
/// branches: whatever else it returns, a success, a suspension or a
/// committed failure, is what one of its branches returns on the same
/// input, every branch listed before that one having failed recoverably.
/// The lemma returns the place of that branch, or the number of branches
/// when all of them fail recoverably.
pub proof fn lemma_alt_cases<I, O, E, P>(branches: Seq<P>, input: I::V) -> (k: int) where
    I: View,
    O: DeepView,
    E: ParseError<I>,
    P: Parser<I, O, E>,

    ensures
        0 <= k <= branches.len(),
        forall|i: int| 0 <= i < k ==> is_backtrack(#[trigger] branches[i].spec_parse(input)),
        k < branches.len() ==> !is_backtrack(branches[k].spec_parse(input)) && spec_alt::<
            I,
            O,
            E,
            P,
        >(branches, input) == branches[k].spec_parse(input),
        k == branches.len() ==> is_backtrack(spec_alt::<I, O, E, P>(branches, input)),
{
    let k = lemma_first_decisive_from::<I, O, E, P>(branches, input, 0);
    if k < branches.len() {
        lemma_alt_first_decisive::<I, O, E, P>(branches, input, k);
    } else {
        let errs = Seq::new(
            branches.len(),
            |i: int| branches[i].spec_parse(input)->Err_0->Backtrack_0,
        );
        lemma_alt_all_backtrack::<I, O, E, P>(branches, input, errs);
    }
    k
}

/// First match wins: when a branch succeeds and every branch listed before
/// it has failed recoverably, the alternation returns that success, and
/// nothing listed after the branch can change it.
pub proof fn lemma_alt_first_success<I, O, E, P>(branches: Seq<P>, input: I::V, k: int) where
    I: View,
    O: DeepView,
    E: ParseError<I>,
    P: Parser<I, O, E>,

    requires
        0 <= k < branches.len(),
        forall|i: int| 0 <= i < k ==> is_backtrack(#[trigger] branches[i].spec_parse(input)),
        branches[k].spec_parse(input) is Ok,
    ensures
        spec_alt::<I, O, E, P>(branches, input) == branches[k].spec_parse(input),
        spec_alt::<I, O, E, P>(branches.take(k + 1), input) == spec_alt::<I, O, E, P>(
            branches,
            input,
        ),
{
    lemma_alt_first_decisive::<I, O, E, P>(branches, input, k);
}

/// A suspension is never skipped: when a branch asks for more input and
/// every branch listed before it has failed recoverably, the alternation
/// returns that request, and nothing listed after the branch can change it.
pub proof fn lemma_alt_incomplete<I, O, E, P>(branches: Seq<P>, input: I::V, k: int) where
    I: View,
    O: DeepView,
    E: ParseError<I>,
    P: Parser<I, O, E>,

    requires
        0 <= k < branches.len(),
        forall|i: int| 0 <= i < k ==> is_backtrack(#[trigger] branches[i].spec_parse(input)),
        branches[k].spec_parse(input) is Err,
        branches[k].spec_parse(input)->Err_0 is Incomplete,
    ensures
        spec_alt::<I, O, E, P>(branches, input) == Err::<(I::V, O::V), ErrMode<E::V>>(
            ErrMode::Incomplete(branches[k].spec_parse(input)->Err_0->Incomplete_0),
        ),
        spec_alt::<I, O, E, P>(branches.take(k + 1), input) == spec_alt::<I, O, E, P>(
            branches,
            input,
        ),
{
    lemma_alt_first_decisive::<I, O, E, P>(branches, input, k);
}

/// When every branch fails recoverably, so does the alternation. Over two
/// or more branches its error is the merge of the errors of all branches,
/// in their order, with the context of kind `Alt` at the input added. A
/// single branch stands for itself, so its error comes back as it is; with
/// no branch at all the error is a fresh one of kind `Alt`.
pub proof fn lemma_alt_all_backtrack<I, O, E, P>(
    branches: Seq<P>,
    input: I::V,
    errs: Seq<E::V>,
) where I: View, O: DeepView, E: ParseError<I>, P: Parser<I, O, E>
    requires
        errs.len() == branches.len(),
        forall|i: int|
            0 <= i < branches.len() ==> #[trigger] branches[i].spec_parse(input) == Err::<
                (I::V, O::V),
                ErrMode<E::V>,
            >(ErrMode::Backtrack(errs[i])),
    ensures
        branches.len() >= 2 ==> spec_alt::<I, O, E, P>(branches, input) == Err::<
            (I::V, O::V),
            ErrMode<E::V>,
        >(ErrMode::Backtrack(E::spec_append(merged_all::<I, E>(errs), input, ErrorKind::Alt))),
        branches.len() == 1 ==> spec_alt::<I, O, E, P>(branches, input) == Err::<
            (I::V, O::V),
            ErrMode<E::V>,
        >(ErrMode::Backtrack(errs[0])),
        branches.len() == 0 ==> spec_alt::<I, O, E, P>(branches, input) == Err::<
            (I::V, O::V),
            ErrMode<E::V>,
        >(ErrMode::Backtrack(E::spec_from_error_kind(input, ErrorKind::Alt))),
{
    if branches.len() >= 2 {
        lemma_alt_from_exhausted::<I, O, E, P>(branches, input, errs, 0, None);
    }
}

} // verus!
