//! The literal parser: the one leaf that the branching combinators are
//! exercised with.

use crate::error::{ErrMode, ErrorKind, IResult, Needed, ParseError};
use crate::input::Input;
use crate::parser::Parser;
use crate::alt::is_backtrack;
use crate::permutation::{
    discovered, fixed_width, lemma_permutation_any_order, matched_before, spec_permutation,
};
use vstd::prelude::*;

verus! {

/// The outcome of matching `literal` at the front of `input`.
///
/// The literal at the front is consumed and returned. An input that ends
/// inside the literal, having agreed with it so far, suspends in streaming
/// mode (`partial`), asking for the bytes that the literal still has; in
/// complete mode it fails like any other mismatch: recoverably, with an
/// error of kind `Tag` at the input.
pub open spec fn spec_tag<I: View<V = Seq<u8>>, E: ParseError<I>>(
    literal: Seq<u8>,
    input: Seq<u8>,
    partial: bool,
) -> IResult<Seq<u8>, Seq<u8>, E::V> {
    if literal.is_prefix_of(input) {
        Ok((input.skip(literal.len() as int), literal))
    } else if partial && input.is_prefix_of(literal) {
        Err(ErrMode::Incomplete(Needed::Size((literal.len() - input.len()) as usize)))
    } else {
        Err(ErrMode::Backtrack(E::spec_from_error_kind(input, ErrorKind::Tag)))
    }
}

/// The parser that matches one literal.
#[derive(Debug, Clone, Copy)]
pub struct Tag<'t> {
    /// The bytes to match.
    pub literal: &'t [u8],
}

/// The parser that matches the bytes of `literal`.
pub fn tag<'t>(literal: &'t str) -> (t: Tag<'t>)
    ensures
        t.literal@ == vstd::utf8::encode_utf8(literal@),
{
    Tag { literal: literal.as_bytes() }
}

impl<'a, 't, I: Input<'a>, E: ParseError<I>> Parser<I, &'a [u8], E> for Tag<'t> {
    open spec fn spec_parse(&self, input: Seq<u8>) -> IResult<Seq<u8>, Seq<u8>, E::V> {
        spec_tag::<I, E>(self.literal@, input, I::partial())
    }

    fn parse_next(&self, input: I) -> (r: IResult<I, &'a [u8], E>) {
        let bytes = input.as_bytes();
        let wanted = self.literal.len();
        let common = if bytes.len() < wanted {
            bytes.len()
        } else {
            wanted
        };
        let mut i: usize = 0;
        while i < common
            invariant
                i <= common,
                bytes@ == input@,
                common <= bytes@.len(),
                common <= self.literal@.len(),
                forall|k: int| 0 <= k < i ==> bytes@[k] == self.literal@[k],
            decreases common - i,
        {
            if bytes[i] != self.literal[i] {
                proof {
                    if self.literal@.is_prefix_of(bytes@) {
                        assert(bytes@.subrange(0, self.literal@.len() as int)[i as int]
                            == bytes@[i as int]);
                    }
                    if bytes@.is_prefix_of(self.literal@) {
                        assert(self.literal@.subrange(0, bytes@.len() as int)[i as int]
                            == self.literal@[i as int]);
                    }
                }
                return Err(ErrMode::Backtrack(E::from_error_kind(input, ErrorKind::Tag)));
            }
            i += 1;
        }
        if bytes.len() >= wanted {
            let (rest, taken) = input.take_split(wanted);
            proof {
                assert(taken.deep_view() =~= self.literal@);
            }
            Ok((rest, taken))
        } else if input.is_partial() {
            Err(ErrMode::Incomplete(Needed::new(wanted - bytes.len())))
        } else {
            Err(ErrMode::Backtrack(E::from_error_kind(input, ErrorKind::Tag)))
        }
    }
}

/// A literal suspends in streaming mode only, and then it asks for a
/// number of bytes that is not zero: those that its literal still has.
pub proof fn lemma_tag_suspends<I: View<V = Seq<u8>>, E: ParseError<I>>(
    literal: Seq<u8>,
    input: Seq<u8>,
    partial: bool,
)
    requires
        literal.len() <= usize::MAX,
        spec_tag::<I, E>(literal, input, partial) is Err,
        spec_tag::<I, E>(literal, input, partial)->Err_0 is Incomplete,
    ensures
        partial,
        input.len() < literal.len(),
        spec_tag::<I, E>(literal, input, partial)->Err_0->Incomplete_0 == Needed::Size(
            (literal.len() - input.len()) as usize,
        ),
        spec_tag::<I, E>(literal, input, partial)->Err_0->Incomplete_0.wf(),
{
}

/// A literal parser has the width of its literal.
pub proof fn lemma_tag_fixed_width<'a, 't, I: Input<'a>, E: ParseError<I>>(t: Tag<'t>)
    ensures
        fixed_width::<u8, I, &'a [u8], E, Tag<'t>>(t, t.literal@.len()),
{
}

/// Whether two literals differ at a place that both have.
pub open spec fn clash(a: Seq<u8>, b: Seq<u8>) -> bool {
    exists|i: int| 0 <= i < a.len() && i < b.len() && a[i] != #[trigger] b[i]
}

/// The literals of the tags at `order[s]`, `order[s + 1]` and so on to the
/// end of `order`, one after the other.
pub open spec fn pieces_from<'t>(tags: Seq<Tag<'t>>, order: Seq<int>, s: int) -> Seq<u8>
    decreases order.len() - s,
{
    if s < 0 || s >= order.len() {
        Seq::empty()
    } else {
        tags[order[s]].literal@ + pieces_from(tags, order, s + 1)
    }
}

/// The literals of `tags`, in declared order.
pub open spec fn literals<'t>(tags: Seq<Tag<'t>>) -> Seq<Seq<u8>> {
    Seq::new(tags.len(), |k: int| tags[k].literal@)
}

/// A literal fails recoverably, in either mode, on a text that begins with
/// a literal it clashes with.
pub proof fn lemma_tag_backtracks_on_clash<'a, 't, I: Input<'a>, E: ParseError<I>>(
    t: Tag<'t>,
    other: Seq<u8>,
    rest: Seq<u8>,
)
    requires
        clash(t.literal@, other),
    ensures
        is_backtrack(<Tag<'t> as Parser<I, &'a [u8], E>>::spec_parse(&t, other + rest)),
{
    let text = other + rest;
    let i = choose|i: int|
        0 <= i < t.literal@.len() && i < other.len() && t.literal@[i] != #[trigger] other[i];
    assert(text[i] == other[i]);
}

/// Any order of the pieces will do: on the literals of all tags, one after
/// the other in the order `order` and followed by `extra`, the unordered
/// completion of the tags succeeds, provided that at each piece every tag
/// that is declared before the one whose piece it is, and is still waiting,
/// fails recoverably. It returns the literals in declared order and leaves
/// `extra`.
pub proof fn lemma_tags_any_order<'a, 't, I: Input<'a>, E: ParseError<I>>(
    tags: Seq<Tag<'t>>,
    order: Seq<int>,
    extra: Seq<u8>,
)
    requires
        order.len() == tags.len(),
        forall|s: int| 0 <= s < order.len() ==> 0 <= #[trigger] order[s] < tags.len(),
        forall|s: int, t: int| 0 <= s < t < order.len() ==> order[s] != order[t],
        forall|s: int, k: int|
            0 <= s < order.len() && 0 <= k < order[s] && !matched_before(order, s, k)
                ==> is_backtrack(
                #[trigger] <Tag<'t> as Parser<I, &'a [u8], E>>::spec_parse(
                    &tags[k],
                    pieces_from(tags, order, s) + extra,
                ),
            ),
    ensures
        spec_permutation::<I, &'a [u8], E, Tag<'t>>(tags, pieces_from(tags, order, 0) + extra)
            == Ok::<(Seq<u8>, Seq<Seq<u8>>), ErrMode<E::V>>((extra, literals(tags))),
{
    let count = tags.len() as int;
    let at = Seq::new((count + 1) as nat, |s: int| pieces_from(tags, order, s) + extra);
    let vals = literals(tags);
    assert forall|s: int| 0 <= s < count implies #[trigger] <Tag<'t> as Parser<
        I,
        &'a [u8],
        E,
    >>::spec_parse(&tags[order[s]], at[s]) == Ok::<(Seq<u8>, Seq<u8>), ErrMode<E::V>>(
        (at[s + 1], vals[order[s]]),
    ) by {
        let piece = tags[order[s]].literal@;
        assert(at[s].skip(piece.len() as int) =~= at[s + 1]);
    }
    lemma_permutation_any_order::<I, &'a [u8], E, Tag<'t>>(tags, order, at, vals);
}

} // verus!
