//! Unordered completion: every parser of a list has to match once, in
//! whatever order the input presents what they match.

use crate::alt::is_backtrack;
use crate::error::{ErrMode, ErrorKind, IResult, ParseError};
use crate::parser::Parser;
use vstd::prelude::*;

verus! {

/// The pool at the start: every slot, in declared order.
pub open spec fn full_pool(count: nat) -> Seq<int> {
    Seq::new(count, |k: int| k)
}

/// The record of results at the start: nothing found yet.
pub open spec fn nothing_found<V>(count: nat) -> Seq<Option<V>> {
    Seq::new(count, |k: int| None)
}

/// The values of a complete record, in declared order.
pub open spec fn collected<V>(found: Seq<Option<V>>) -> Seq<V> {
    Seq::new(found.len(), |k: int| found[k]->Some_0)
}

/// The outcome of the search from a given state on.
///
/// `pool` lists the slots not yet matched, in declared order, and `found`
/// holds the value of every slot that has been. `at` is the working input.
/// The present pass over the pool has come to its `j`-th member, those
/// before it having failed recoverably at `at`, the last of them with
/// `last`. `start` is the input that the whole search began on.
///
/// An empty pool is success. A pool member that matches leaves the pool,
/// the working input moves behind what it matched, and a new pass begins at
/// the front of the pool. One that fails recoverably is passed over. One
/// that suspends or fails for good ends the search with that outcome. A
/// pass that reaches the end of the pool fails with the last error seen,
/// under the kind `Permutation` at `start`.
pub open spec fn permute_from<I, O, E, P>(
    parsers: Seq<P>,
    start: I::V,
    pool: Seq<int>,
    found: Seq<Option<O::V>>,
    at: I::V,
    j: int,
    last: Option<E::V>,
) -> IResult<I::V, Seq<O::V>, E::V> where
    I: View,
    O: DeepView,
    E: ParseError<I>,
    P: Parser<I, O, E>,

    decreases pool.len(), pool.len() - j,
{
    if pool.len() == 0 {
        Ok((at, collected(found)))
    } else if j < 0 || j >= pool.len() {
        match last {
            Some(e) => Err(ErrMode::Backtrack(E::spec_append(e, start, ErrorKind::Permutation))),
            None => Err(
                ErrMode::Backtrack(E::spec_from_error_kind(start, ErrorKind::Permutation)),
            ),
        }
    } else {
        match parsers[pool[j]].spec_parse(at) {
            Ok((rest, out)) => permute_from::<I, O, E, P>(
                parsers,
                start,
                pool.remove(j),
                found.update(pool[j], Some(out)),
                rest,
                0,
                None,
            ),
            Err(ErrMode::Backtrack(e)) => permute_from::<I, O, E, P>(
                parsers,
                start,
                pool,
                found,
                at,
                j + 1,
                Some(e),
            ),
            Err(ErrMode::Incomplete(needed)) => Err(ErrMode::Incomplete(needed)),
            Err(ErrMode::Cut(e)) => Err(ErrMode::Cut(e)),
        }
    }
}

/// The outcome of an unordered completion of `parsers` on `input`.
pub open spec fn spec_permutation<I, O, E, P>(parsers: Seq<P>, input: I::V) -> IResult<
    I::V,
    Seq<O::V>,
    E::V,
> where I: View, O: DeepView, E: ParseError<I>, P: Parser<I, O, E> {
    permute_from::<I, O, E, P>(
        parsers,
        input,
        full_pool(parsers.len()),
        nothing_found(parsers.len()),
        input,
        0,
        None,
    )
}

/// An unordered completion of a list of parsers.
pub struct Permutation<P> {
    /// The parsers, in declared order.
    pub parsers: Vec<P>,
}

/// The parser that matches each of `parsers` once, in any order, and
/// returns their values in declared order.
pub fn permutation<P>(parsers: Vec<P>) -> (p: Permutation<P>)
    ensures
        p.parsers == parsers,
{
    Permutation { parsers }
}

/// Takes the values out of a complete record.
fn unwrap_all<O: DeepView>(found: Vec<Option<O>>) -> (outs: Vec<O>)
    requires
        forall|k: int| 0 <= k < found@.len() ==> found@[k] is Some,
    ensures
        outs.deep_view() == collected(found.deep_view()),
{
    let ghost whole = found@;
    let mut found = found;
    let mut back: Vec<O> = Vec::new();
    while found.len() > 0
        invariant
            found@.len() + back@.len() == whole.len(),
            found@ == whole.take(found@.len() as int),
            forall|k: int| 0 <= k < whole.len() ==> whole[k] is Some,
            forall|i: int|
                0 <= i < back@.len() ==> whole[whole.len() - 1 - i] == Some(#[trigger] back@[i]),
        decreases found.len(),
    {
        let top = found.pop();
        match top {
            Some(Some(out)) => {
                back.push(out);
            },
            _ => {},
        }
    }
    let mut outs: Vec<O> = Vec::new();
    while back.len() > 0
        invariant
            back@.len() + outs@.len() == whole.len(),
            forall|i: int|
                0 <= i < back@.len() ==> whole[whole.len() - 1 - i] == Some(#[trigger] back@[i]),
            forall|k: int| 0 <= k < outs@.len() ==> whole[k] == Some(#[trigger] outs@[k]),
        decreases back.len(),
    {
        let top = back.pop();
        match top {
            Some(out) => {
                outs.push(out);
            },
            None => {},
        }
    }
    outs
}

impl<I, O, E, P> Parser<I, Vec<O>, E> for Permutation<P> where
    I: View + Copy,
    O: DeepView,
    E: ParseError<I>,
    P: Parser<I, O, E>,
 {
    open spec fn spec_parse(&self, input: I::V) -> IResult<I::V, Seq<O::V>, E::V> {
        spec_permutation::<I, O, E, P>(self.parsers@, input)
    }

    fn parse_next(&self, input: I) -> (r: IResult<I, Vec<O>, E>) {
        let count = self.parsers.len();
        let mut pool: Vec<usize> = Vec::new();
        let mut found: Vec<Option<O>> = Vec::new();
        let mut k: usize = 0;
        while k < count
            invariant
                k <= count,
                pool@.len() == k,
                found@.len() == k,
                forall|i: int| 0 <= i < k ==> pool@[i] == i,
                forall|i: int| 0 <= i < k ==> found@[i] is None,
            decreases count - k,
        {
            pool.push(k);
            found.push(None);
            k += 1;
        }
        let ghost goal = spec_permutation::<I, O, E, P>(self.parsers@, input@);
        let ghost mut slots: Seq<int> = full_pool(count as nat);
        proof {
            assert(found.deep_view() =~= nothing_found::<O::V>(count as nat));
            assert forall|k: int| 0 <= k < count implies slots.contains(k) by {
                assert(slots[k] == k);
            }
        }
        let mut at = input;
        let mut j: usize = 0;
        let mut last: Option<E> = None;
        loop
            invariant
                count == self.parsers@.len(),
                found@.len() == count,
                slots.len() == pool@.len(),
                forall|i: int| 0 <= i < pool@.len() ==> slots[i] == #[trigger] pool@[i],
                forall|i: int| 0 <= i < pool@.len() ==> 0 <= #[trigger] slots[i] < count,
                forall|k: int| 0 <= k < count && found@[k] is None ==> slots.contains(k),
                j <= pool@.len(),
                permute_from::<I, O, E, P>(
                    self.parsers@,
                    input@,
                    slots,
                    found.deep_view(),
                    at@,
                    j as int,
                    match last {
                        Some(e) => Some(e@),
                        None => None,
                    },
                ) == goal,
                goal == spec_permutation::<I, O, E, P>(self.parsers@, input@),
            decreases pool@.len(), pool@.len() - j,
        {
            if pool.len() == 0 {
                proof {
                    assert forall|k: int| 0 <= k < found@.len() implies found@[k] is Some by {
                        if found@[k] is None {
                            assert(slots.contains(k));
                        }
                    }
                }
                return Ok((at, unwrap_all(found)));
            }
            if j >= pool.len() {
                return Err(
                    ErrMode::Backtrack(
                        match last {
                            Some(e) => e.append(input, ErrorKind::Permutation),
                            None => E::from_error_kind(input, ErrorKind::Permutation),
                        },
                    ),
                );
            }
            let slot = pool[j];
            match self.parsers[slot].parse_next(at) {
                Ok((rest, out)) => {
                    let ghost model_before = found.deep_view();
                    let ghost pool_before = slots;
                    found.set(slot, Some(out));
                    pool.remove(j);
                    proof {
                        slots = slots.remove(j as int);
                        assert(found.deep_view() =~= model_before.update(
                            slot as int,
                            Some(out.deep_view()),
                        ));
                        assert forall|k: int|
                            0 <= k < count && found@[k] is None implies slots.contains(k) by {
                            assert(pool_before.contains(k));
                            let i = choose|i: int|
                                0 <= i < pool_before.len() && pool_before[i] == k;
                            if i < j {
                                assert(slots[i] == k);
                            } else {
                                assert(slots[i - 1] == k);
                            }
                        }
                    }
                    at = rest;
                    j = 0;
                    last = None;
                },
                Err(ErrMode::Backtrack(e)) => {
                    last = Some(e);
                    j += 1;
                },
                Err(ErrMode::Incomplete(needed)) => {
                    return Err(ErrMode::Incomplete(needed));
                },
                Err(ErrMode::Cut(e)) => {
                    return Err(ErrMode::Cut(e));
                },
            }
        }
    }
}

/// Whether `k` is among the first `s` entries of `order`.
pub open spec fn matched_before(order: Seq<int>, s: int, k: int) -> bool {
    exists|t: int| 0 <= t < s && t < order.len() && #[trigger] order[t] == k
}

/// Whether a search on `at[0]` makes its first `steps` matches as told:
/// at step `s` the working input is `at[s]`, the parser that matches is the
/// one declared at `order[s]`, with the value `vals[order[s]]` and the rest
/// `at[s + 1]`, and every parser that is declared before it and has not
/// matched yet fails recoverably there.
pub open spec fn discovered<I, O, E, P>(
    parsers: Seq<P>,
    order: Seq<int>,
    at: Seq<I::V>,
    vals: Seq<O::V>,
    steps: int,
) -> bool where I: View, O: DeepView, E: ParseError<I>, P: Parser<I, O, E> {
    &&& 0 <= steps <= order.len()
    &&& steps < at.len()
    &&& vals.len() == parsers.len()
    &&& forall|s: int| 0 <= s < steps ==> 0 <= #[trigger] order[s] < parsers.len()
    &&& forall|s: int, t: int| 0 <= s < t < steps ==> order[s] != order[t]
    &&& forall|s: int|
        0 <= s < steps ==> #[trigger] parsers[order[s]].spec_parse(at[s]) == Ok::<
            (I::V, O::V),
            ErrMode<E::V>,
        >((at[s + 1], vals[order[s]]))
    &&& forall|s: int, k: int|
        0 <= s < steps && 0 <= k < order[s] && !matched_before(order, s, k) ==> is_backtrack(
            #[trigger] parsers[k].spec_parse(at[s]),
        )
}

/// Whether `pool` and `found` are the state of a search after the first `s`
/// matches of `order`.
spec fn state_after<V>(
    count: int,
    order: Seq<int>,
    vals: Seq<V>,
    s: int,
    pool: Seq<int>,
    found: Seq<Option<V>>,
) -> bool {
    &&& pool.len() == count - s
    &&& forall|i: int| 0 <= i < pool.len() ==> 0 <= #[trigger] pool[i] < count
    &&& forall|i: int, j: int| 0 <= i < j < pool.len() ==> pool[i] < pool[j]
    &&& forall|k: int| 0 <= k < count ==> (pool.contains(k) <==> !matched_before(order, s, k))
    &&& found.len() == count
    &&& forall|k: int| 0 <= k < count && !pool.contains(k) ==> found[k] == Some(vals[k])
}

/// What is left of an increasing pool when one member leaves it.
proof fn lemma_pool_remove(pool: Seq<int>, pos: int)
    requires
        0 <= pos < pool.len(),
        forall|i: int, j: int| 0 <= i < j < pool.len() ==> pool[i] < pool[j],
    ensures
        pool.remove(pos).len() == pool.len() - 1,
        forall|i: int, j: int|
            0 <= i < j < pool.len() - 1 ==> pool.remove(pos)[i] < pool.remove(pos)[j],
        forall|k: int| pool.remove(pos).contains(k) <==> pool.contains(k) && k != pool[pos],
{
    let rest = pool.remove(pos);
    assert forall|k: int| pool.contains(k) && k != pool[pos] implies rest.contains(k) by {
        let i = choose|i: int| 0 <= i < pool.len() && pool[i] == k;
        if i < pos {
            assert(rest[i] == k);
        } else {
            assert(rest[i - 1] == k);
        }
    }
}

/// A pass gets to the first pool member that does not fail recoverably.
proof fn lemma_scan_reaches<I, O, E, P>(
    parsers: Seq<P>,
    start: I::V,
    pool: Seq<int>,
    found: Seq<Option<O::V>>,
    at: I::V,
    j: int,
    pos: int,
    last: Option<E::V>,
) where I: View, O: DeepView, E: ParseError<I>, P: Parser<I, O, E>
    requires
        0 <= j <= pos < pool.len(),
        forall|i: int|
            j <= i < pos ==> is_backtrack(#[trigger] parsers[pool[i]].spec_parse(at)),
        !is_backtrack(parsers[pool[pos]].spec_parse(at)),
    ensures
        permute_from::<I, O, E, P>(parsers, start, pool, found, at, j, last) == permute_from::<
            I,
            O,
            E,
            P,
        >(parsers, start, pool, found, at, pos, None),
    decreases pos - j,
{
    if j < pos {
        let e = parsers[pool[j]].spec_parse(at)->Err_0->Backtrack_0;
        lemma_scan_reaches::<I, O, E, P>(parsers, start, pool, found, at, j + 1, pos, Some(e));
    }
}

/// A search that makes the matches of `order` comes, after `steps` of them,
/// to the state that the lemma returns.
proof fn lemma_search_follows<I, O, E, P>(
    parsers: Seq<P>,
    order: Seq<int>,
    at: Seq<I::V>,
    vals: Seq<O::V>,
    steps: int,
    s: int,
    pool: Seq<int>,
    found: Seq<Option<O::V>>,
) -> (end: (Seq<int>, Seq<Option<O::V>>)) where
    I: View,
    O: DeepView,
    E: ParseError<I>,
    P: Parser<I, O, E>,

    requires
        discovered::<I, O, E, P>(parsers, order, at, vals, steps),
        0 <= s <= steps,
        state_after(parsers.len() as int, order, vals, s, pool, found),
    ensures
        state_after(parsers.len() as int, order, vals, steps, end.0, end.1),
        permute_from::<I, O, E, P>(parsers, at[0], pool, found, at[s], 0, None) == permute_from::<
            I,
            O,
            E,
            P,
        >(parsers, at[0], end.0, end.1, at[steps], 0, None),
    decreases steps - s,
{
    if s == steps {
        (pool, found)
    } else {
        let count = parsers.len() as int;
        let m = order[s];
        assert(pool.contains(m));
        let pos = choose|i: int| 0 <= i < pool.len() && pool[i] == m;
        assert forall|i: int| 0 <= i < pos implies is_backtrack(
            #[trigger] parsers[pool[i]].spec_parse(at[s]),
        ) by {
            assert(pool.contains(pool[i]));
        }
        lemma_scan_reaches::<I, O, E, P>(parsers, at[0], pool, found, at[s], 0, pos, None);
        let pool_next = pool.remove(pos);
        let found_next = found.update(m, Some(vals[m]));
        lemma_pool_remove(pool, pos);
        assert forall|k: int| 0 <= k < count implies (pool_next.contains(k) <==> !matched_before(
            order,
            s + 1,
            k,
        )) by {
            assert(pool_next.contains(k) <==> pool.contains(k) && k != m);
        }
        assert forall|k: int| 0 <= k < count && !pool_next.contains(k) implies found_next[k]
            == Some(vals[k]) by {
            if k != m {
                assert(!pool.contains(k));
            }
        }
        lemma_search_follows::<I, O, E, P>(
            parsers,
            order,
            at,
            vals,
            steps,
            s + 1,
            pool_next,
            found_next,
        )
    }
}

/// The state at the start is the state after no match.
proof fn lemma_search_begins<V>(count: nat, order: Seq<int>, vals: Seq<V>)
    ensures
        state_after(count as int, order, vals, 0, full_pool(count), nothing_found::<V>(count)),
{
    let pool = full_pool(count);
    assert forall|k: int| 0 <= k < count implies pool.contains(k) by {
        assert(pool[k] == k);
    }
}

/// Any order will do: when the input presents what the parsers match in
/// some order, each piece being matched by its parser and by none that is
/// declared before it and still waiting, the search succeeds. It returns
/// the values in declared order, whatever the order of discovery, and the
/// input behind the last piece.
pub proof fn lemma_permutation_any_order<I, O, E, P>(
    parsers: Seq<P>,
    order: Seq<int>,
    at: Seq<I::V>,
    vals: Seq<O::V>,
) where I: View, O: DeepView, E: ParseError<I>, P: Parser<I, O, E>
    requires
        order.len() == parsers.len(),
        discovered::<I, O, E, P>(parsers, order, at, vals, parsers.len() as int),
    ensures
        spec_permutation::<I, O, E, P>(parsers, at[0]) == Ok::<
            (I::V, Seq<O::V>),
            ErrMode<E::V>,
        >((at[parsers.len() as int], vals)),
{
    let count = parsers.len();
    lemma_search_begins(count, order, vals);
    let end = lemma_search_follows::<I, O, E, P>(
        parsers,
        order,
        at,
        vals,
        count as int,
        0,
        full_pool(count),
        nothing_found::<O::V>(count),
    );
    assert forall|k: int| 0 <= k < count implies end.1[k] == Some(vals[k]) by {
        assert(!end.0.contains(k));
    }
    assert(collected(end.1) =~= vals);
}

/// What ends a search early: after some matches, the first parser in
/// declared order that is still waiting and does not fail recoverably
/// suspends or fails for good, and that is the outcome of the search.
proof fn lemma_search_stops<I, O, E, P>(
    parsers: Seq<P>,
    order: Seq<int>,
    at: Seq<I::V>,
    vals: Seq<O::V>,
    steps: int,
    m: int,
) where I: View, O: DeepView, E: ParseError<I>, P: Parser<I, O, E>
    requires
        discovered::<I, O, E, P>(parsers, order, at, vals, steps),
        0 <= m < parsers.len(),
        !matched_before(order, steps, m),
        forall|k: int|
            0 <= k < m && !matched_before(order, steps, k) ==> is_backtrack(
                #[trigger] parsers[k].spec_parse(at[steps]),
            ),
        parsers[m].spec_parse(at[steps]) is Err,
        !is_backtrack(parsers[m].spec_parse(at[steps])),
    ensures
        spec_permutation::<I, O, E, P>(parsers, at[0]) == Err::<
            (I::V, Seq<O::V>),
            ErrMode<E::V>,
        >(parsers[m].spec_parse(at[steps])->Err_0),
{
    let count = parsers.len();
    lemma_search_begins(count, order, vals);
    let end = lemma_search_follows::<I, O, E, P>(
        parsers,
        order,
        at,
        vals,
        steps,
        0,
        full_pool(count),
        nothing_found::<O::V>(count),
    );
    let pool = end.0;
    assert(pool.contains(m));
    let pos = choose|i: int| 0 <= i < pool.len() && pool[i] == m;
    assert forall|i: int| 0 <= i < pos implies is_backtrack(
        #[trigger] parsers[pool[i]].spec_parse(at[steps]),
    ) by {
        assert(pool.contains(pool[i]));
    }
    lemma_scan_reaches::<I, O, E, P>(parsers, at[0], pool, end.1, at[steps], 0, pos, None);
}

/// A suspension is never turned into a failure: when, after some matches,
/// the first parser in declared order that is still waiting and does not
/// fail recoverably asks for more input, the search returns that request,
/// although parsers after it might have failed or matched.
pub proof fn lemma_permutation_incomplete<I, O, E, P>(
    parsers: Seq<P>,
    order: Seq<int>,
    at: Seq<I::V>,
    vals: Seq<O::V>,
    steps: int,
    m: int,
) where I: View, O: DeepView, E: ParseError<I>, P: Parser<I, O, E>
    requires
        discovered::<I, O, E, P>(parsers, order, at, vals, steps),
        0 <= m < parsers.len(),
        !matched_before(order, steps, m),
        forall|k: int|
            0 <= k < m && !matched_before(order, steps, k) ==> is_backtrack(
                #[trigger] parsers[k].spec_parse(at[steps]),
            ),
        parsers[m].spec_parse(at[steps]) is Err,
        parsers[m].spec_parse(at[steps])->Err_0 is Incomplete,
    ensures
        spec_permutation::<I, O, E, P>(parsers, at[0]) == Err::<
            (I::V, Seq<O::V>),
            ErrMode<E::V>,
        >(ErrMode::Incomplete(parsers[m].spec_parse(at[steps])->Err_0->Incomplete_0)),
{
    lemma_search_stops::<I, O, E, P>(parsers, order, at, vals, steps, m);
}

/// A committed failure is never retried: when, after some matches, the
/// first parser in declared order that is still waiting and does not fail
/// recoverably fails for good, the search fails with that error.
pub proof fn lemma_permutation_cut<I, O, E, P>(
    parsers: Seq<P>,
    order: Seq<int>,
    at: Seq<I::V>,
    vals: Seq<O::V>,
    steps: int,
    m: int,
) where I: View, O: DeepView, E: ParseError<I>, P: Parser<I, O, E>
    requires
        discovered::<I, O, E, P>(parsers, order, at, vals, steps),
        0 <= m < parsers.len(),
        !matched_before(order, steps, m),
        forall|k: int|
            0 <= k < m && !matched_before(order, steps, k) ==> is_backtrack(
                #[trigger] parsers[k].spec_parse(at[steps]),
            ),
        parsers[m].spec_parse(at[steps]) is Err,
        parsers[m].spec_parse(at[steps])->Err_0 is Cut,
    ensures
        spec_permutation::<I, O, E, P>(parsers, at[0]) == Err::<
            (I::V, Seq<O::V>),
            ErrMode<E::V>,
        >(ErrMode::Cut(parsers[m].spec_parse(at[steps])->Err_0->Cut_0)),
{
    lemma_search_stops::<I, O, E, P>(parsers, order, at, vals, steps, m);
}

/// Whether `order` and `at` tell how a search went on from a state with
/// the pool `pool` and the record `found`, at the working input `cur`, to
/// its success with `rest` and `vals`.
spec fn traced<I, O, E, P>(
    parsers: Seq<P>,
    pool: Seq<int>,
    found: Seq<Option<O::V>>,
    cur: I::V,
    rest: I::V,
    vals: Seq<O::V>,
    order: Seq<int>,
    at: Seq<I::V>,
) -> bool where I: View, O: DeepView, E: ParseError<I>, P: Parser<I, O, E> {
    &&& order.len() == pool.len()
    &&& at.len() == pool.len() + 1
    &&& at[0] == cur
    &&& at[pool.len() as int] == rest
    &&& vals.len() == parsers.len()
    &&& forall|s: int| 0 <= s < order.len() ==> pool.contains(#[trigger] order[s])
    &&& forall|s: int, t: int| 0 <= s < t < order.len() ==> order[s] != order[t]
    &&& forall|s: int|
        0 <= s < order.len() ==> #[trigger] parsers[order[s]].spec_parse(at[s]) == Ok::<
            (I::V, O::V),
            ErrMode<E::V>,
        >((at[s + 1], vals[order[s]]))
    &&& forall|s: int, k: int|
        0 <= s < order.len() && pool.contains(k) && k < order[s] && !matched_before(order, s, k)
            ==> is_backtrack(#[trigger] parsers[k].spec_parse(at[s]))
    &&& forall|k: int|
        0 <= k < parsers.len() && !pool.contains(k) ==> vals[k] == #[trigger] found[k]->Some_0
}

/// A search that succeeds has matched the members of its pool one after the
/// other; the lemma returns the order in which it did and the working
/// inputs it passed through.
proof fn lemma_search_trace<I, O, E, P>(
    parsers: Seq<P>,
    start: I::V,
    pool: Seq<int>,
    found: Seq<Option<O::V>>,
    cur: I::V,
    j: int,
    last: Option<E::V>,
) -> (trace: (Seq<int>, Seq<I::V>)) where
    I: View,
    O: DeepView,
    E: ParseError<I>,
    P: Parser<I, O, E>,

    requires
        permute_from::<I, O, E, P>(parsers, start, pool, found, cur, j, last) is Ok,
        found.len() == parsers.len(),
        forall|i: int| 0 <= i < pool.len() ==> 0 <= #[trigger] pool[i] < parsers.len(),
        forall|i: int, i2: int| 0 <= i < i2 < pool.len() ==> pool[i] < pool[i2],
        0 <= j,
        forall|i: int|
            0 <= i < j && i < pool.len() ==> is_backtrack(
                #[trigger] parsers[pool[i]].spec_parse(cur),
            ),
    ensures
        traced::<I, O, E, P>(
            parsers,
            pool,
            found,
            cur,
            permute_from::<I, O, E, P>(parsers, start, pool, found, cur, j, last)->Ok_0.0,
            permute_from::<I, O, E, P>(parsers, start, pool, found, cur, j, last)->Ok_0.1,
            trace.0,
            trace.1,
        ),
    decreases pool.len(), pool.len() - j,
{
    let vals = permute_from::<I, O, E, P>(parsers, start, pool, found, cur, j, last)->Ok_0.1;
    if pool.len() == 0 {
        (Seq::empty(), seq![cur])
    } else if j >= pool.len() {
        (Seq::empty(), seq![cur])
    } else {
        let m = pool[j];
        match parsers[m].spec_parse(cur) {
            Ok((rest1, out)) => {
                let pool1 = pool.remove(j);
                let found1 = found.update(m, Some(out));
                lemma_pool_remove(pool, j);
                let inner = lemma_search_trace::<I, O, E, P>(
                    parsers,
                    start,
                    pool1,
                    found1,
                    rest1,
                    0,
                    None,
                );
                let order1 = inner.0;
                let at1 = inner.1;
                let order = seq![m] + order1;
                let at = seq![cur] + at1;
                assert(pool.contains(m));
                assert forall|s: int| 0 <= s < order.len() implies #[trigger] parsers[order[s]].spec_parse(
                    at[s],
                ) == Ok::<(I::V, O::V), ErrMode<E::V>>((at[s + 1], vals[order[s]])) by {
                    if s > 0 {
                        assert(parsers[order1[s - 1]].spec_parse(at1[s - 1]) == Ok::<
                            (I::V, O::V),
                            ErrMode<E::V>,
                        >((at1[s - 1 + 1], vals[order1[s - 1]])));
                    }
                }
                assert forall|s: int, k: int|
                    0 <= s < order.len() && pool.contains(k) && k < order[s] && !matched_before(
                        order,
                        s,
                        k,
                    ) implies is_backtrack(#[trigger] parsers[k].spec_parse(at[s])) by {
                    if s > 0 {
                        if k == m {
                            assert(order[0] == k);
                        }
                        if matched_before(order1, s - 1, k) {
                            let t = choose|t: int|
                                0 <= t < s - 1 && t < order1.len() && #[trigger] order1[t] == k;
                            assert(order[t + 1] == k);
                        }
                    }
                }
                (order, at)
            },
            Err(ErrMode::Backtrack(e)) => {
                lemma_search_trace::<I, O, E, P>(parsers, start, pool, found, cur, j + 1, Some(e))
            },
            _ => (Seq::empty(), seq![cur]),
        }
    }
}

/// Success is never made up: a search that succeeds has matched every
/// parser once, each where the one before it had stopped, with no gap
/// between the matches and nothing matched twice. The lemma returns the
/// order in which the parsers matched and the working inputs between the
/// matches, from the input of the search to the input that it leaves.
pub proof fn lemma_permutation_success<I, O, E, P>(parsers: Seq<P>, input: I::V) -> (trace: (
    Seq<int>,
    Seq<I::V>,
)) where I: View, O: DeepView, E: ParseError<I>, P: Parser<I, O, E>
    requires
        spec_permutation::<I, O, E, P>(parsers, input) is Ok,
    ensures
        trace.0.len() == parsers.len(),
        trace.1.len() == parsers.len() + 1,
        trace.1[0] == input,
        trace.1[parsers.len() as int] == spec_permutation::<I, O, E, P>(parsers, input)->Ok_0.0,
        discovered::<I, O, E, P>(
            parsers,
            trace.0,
            trace.1,
            spec_permutation::<I, O, E, P>(parsers, input)->Ok_0.1,
            parsers.len() as int,
        ),
{
    let count = parsers.len();
    let pool = full_pool(count);
    let trace = lemma_search_trace::<I, O, E, P>(
        parsers,
        input,
        pool,
        nothing_found::<O::V>(count),
        input,
        0,
        None,
    );
    let order = trace.0;
    assert forall|k: int| 0 <= k < count implies pool.contains(k) by {
        assert(pool[k] == k);
    }
    trace
}

/// A pass in which every pool member from the `j`-th on fails recoverably
/// ends the search with the error of the last member.
proof fn lemma_scan_exhausts<I, O, E, P>(
    parsers: Seq<P>,
    start: I::V,
    pool: Seq<int>,
    found: Seq<Option<O::V>>,
    at: I::V,
    j: int,
    last: Option<E::V>,
) where I: View, O: DeepView, E: ParseError<I>, P: Parser<I, O, E>
    requires
        0 <= j < pool.len(),
        forall|i: int|
            j <= i < pool.len() ==> is_backtrack(#[trigger] parsers[pool[i]].spec_parse(at)),
    ensures
        permute_from::<I, O, E, P>(parsers, start, pool, found, at, j, last) == Err::<
            (I::V, Seq<O::V>),
            ErrMode<E::V>,
        >(
            ErrMode::Backtrack(
                E::spec_append(
                    parsers[pool.last()].spec_parse(at)->Err_0->Backtrack_0,
                    start,
                    ErrorKind::Permutation,
                ),
            ),
        ),
    decreases pool.len() - j,
{
    let e = parsers[pool[j]].spec_parse(at)->Err_0->Backtrack_0;
    if j + 1 < pool.len() {
        lemma_scan_exhausts::<I, O, E, P>(parsers, start, pool, found, at, j + 1, Some(e));
    } else {
        reveal_with_fuel(permute_from, 2);
    }
}

/// No match, no progress: when, after some matches, every parser that is
/// still waiting fails recoverably, the search fails recoverably. Its
/// error is the one of the last waiting parser in declared order, with the
/// context of kind `Permutation` added at the input that the search began
/// on, not at the one it had come to.
pub proof fn lemma_permutation_exhausted<I, O, E, P>(
    parsers: Seq<P>,
    order: Seq<int>,
    at: Seq<I::V>,
    vals: Seq<O::V>,
    steps: int,
    m: int,
) where I: View, O: DeepView, E: ParseError<I>, P: Parser<I, O, E>
    requires
        discovered::<I, O, E, P>(parsers, order, at, vals, steps),
        0 <= m < parsers.len(),
        !matched_before(order, steps, m),
        forall|k: int| m < k < parsers.len() ==> matched_before(order, steps, k),
        forall|k: int|
            0 <= k <= m && !matched_before(order, steps, k) ==> is_backtrack(
                #[trigger] parsers[k].spec_parse(at[steps]),
            ),
    ensures
        spec_permutation::<I, O, E, P>(parsers, at[0]) == Err::<
            (I::V, Seq<O::V>),
            ErrMode<E::V>,
        >(
            ErrMode::Backtrack(
                E::spec_append(
                    parsers[m].spec_parse(at[steps])->Err_0->Backtrack_0,
                    at[0],
                    ErrorKind::Permutation,
                ),
            ),
        ),
{
    let count = parsers.len();
    lemma_search_begins(count, order, vals);
    let end = lemma_search_follows::<I, O, E, P>(
        parsers,
        order,
        at,
        vals,
        steps,
        0,
        full_pool(count),
        nothing_found::<O::V>(count),
    );
    let pool = end.0;
    assert(pool.contains(m));
    let pos = choose|i: int| 0 <= i < pool.len() && pool[i] == m;
    assert(pool.last() == m) by {
        if pos < pool.len() - 1 {
            assert(pool.contains(pool.last()));
        }
    }
    assert forall|i: int| 0 <= i < pool.len() implies is_backtrack(
        #[trigger] parsers[pool[i]].spec_parse(at[steps]),
    ) by {
        assert(pool.contains(pool[i]));
    }
    lemma_scan_exhausts::<I, O, E, P>(parsers, at[0], pool, end.1, at[steps], 0, None);
}

/// Whether `p`, whenever it matches, consumes the first `width` units of
/// its input and nothing else.
pub open spec fn fixed_width<T, I, O, E, P>(p: P, width: nat) -> bool where
    I: View<V = Seq<T>>,
    O: DeepView,
    E: ParseError<I>,
    P: Parser<I, O, E>,
 {
    forall|input: Seq<T>|
        (#[trigger] p.spec_parse(input)) is Ok ==> width <= input.len() && p.spec_parse(
            input,
        )->Ok_0.0 == input.skip(width as int)
}

/// The sum of `widths`.
pub open spec fn total_width(widths: Seq<nat>) -> nat
    decreases widths.len(),
{
    if widths.len() == 0 {
        0
    } else {
        total_width(widths.drop_last()) + widths.last()
    }
}

/// The sum of the widths of the slots in `pool`.
spec fn pool_width(widths: Seq<nat>, pool: Seq<int>) -> nat
    decreases pool.len(),
{
    if pool.len() == 0 {
        0
    } else {
        pool_width(widths, pool.drop_last()) + widths[pool.last()]
    }
}

/// A member that leaves the pool takes its width with it.
proof fn lemma_pool_width_remove(widths: Seq<nat>, pool: Seq<int>, j: int)
    requires
        0 <= j < pool.len(),
    ensures
        pool_width(widths, pool) == pool_width(widths, pool.remove(j)) + widths[pool[j]],
    decreases pool.len(),
{
    if j == pool.len() - 1 {
    } else {
        lemma_pool_width_remove(widths, pool.drop_last(), j);
        assert(pool.remove(j).drop_last() =~= pool.drop_last().remove(j));
    }
}

/// The full pool has the width of all slots together.
proof fn lemma_pool_width_full(widths: Seq<nat>, count: nat)
    requires
        count <= widths.len(),
    ensures
        pool_width(widths, full_pool(count)) == total_width(widths.take(count as int)),
    decreases count,
{
    if count > 0 {
        let below = (count - 1) as nat;
        lemma_pool_width_full(widths, below);
        assert(full_pool(count).drop_last() =~= full_pool(below));
        assert(widths.take(count as int).drop_last() =~= widths.take(below as int));
    }
}

/// From any state on, a search that succeeds has moved the working input
/// forward by the width of its pool.
proof fn lemma_search_consumes<T, I, O, E, P>(
    parsers: Seq<P>,
    widths: Seq<nat>,
    input: Seq<T>,
    start: Seq<T>,
    pool: Seq<int>,
    found: Seq<Option<O::V>>,
    consumed: nat,
    j: int,
    last: Option<E::V>,
) where I: View<V = Seq<T>>, O: DeepView, E: ParseError<I>, P: Parser<I, O, E>
    requires
        widths.len() == parsers.len(),
        forall|k: int|
            0 <= k < parsers.len() ==> fixed_width::<T, I, O, E, P>(
                #[trigger] parsers[k],
                widths[k],
            ),
        forall|i: int| 0 <= i < pool.len() ==> 0 <= #[trigger] pool[i] < parsers.len(),
        consumed <= input.len(),
        0 <= j,
    ensures
        permute_from::<I, O, E, P>(
            parsers,
            start,
            pool,
            found,
            input.skip(consumed as int),
            j,
            last,
        ) is Ok ==> {
            &&& consumed + pool_width(widths, pool) <= input.len()
            &&& permute_from::<I, O, E, P>(
                parsers,
                start,
                pool,
                found,
                input.skip(consumed as int),
                j,
                last,
            )->Ok_0.0 == input.skip((consumed + pool_width(widths, pool)) as int)
        },
    decreases pool.len(), pool.len() - j,
{
    let at = input.skip(consumed as int);
    if pool.len() == 0 {
    } else if j >= pool.len() {
    } else {
        let slot = pool[j];
        match parsers[slot].spec_parse(at) {
            Ok((rest, out)) => {
                let width = widths[slot];
                assert(at.skip(width as int) =~= input.skip((consumed + width) as int));
                let pool_next = pool.remove(j);
                lemma_pool_width_remove(widths, pool, j);
                lemma_search_consumes::<T, I, O, E, P>(
                    parsers,
                    widths,
                    input,
                    start,
                    pool_next,
                    found.update(slot, Some(out)),
                    consumed + width,
                    0,
                    None,
                );
            },
            Err(ErrMode::Backtrack(e)) => {
                lemma_search_consumes::<T, I, O, E, P>(
                    parsers,
                    widths,
                    input,
                    start,
                    pool,
                    found,
                    consumed,
                    j + 1,
                    Some(e),
                );
            },
            _ => {},
        }
    }
}

/// Nothing is left over and nothing is taken twice: over parsers of fixed
/// widths that add up to a total, a search that succeeds has consumed just
/// the first `total` units of its input. On exactly that many units it
/// leaves none; when more follow, it leaves exactly those.
pub proof fn lemma_permutation_consumes<T, I, O, E, P>(
    parsers: Seq<P>,
    widths: Seq<nat>,
    input: Seq<T>,
) where I: View<V = Seq<T>>, O: DeepView, E: ParseError<I>, P: Parser<I, O, E>
    requires
        widths.len() == parsers.len(),
        forall|k: int|
            0 <= k < parsers.len() ==> fixed_width::<T, I, O, E, P>(
                #[trigger] parsers[k],
                widths[k],
            ),
        spec_permutation::<I, O, E, P>(parsers, input) is Ok,
    ensures
        total_width(widths) <= input.len(),
        spec_permutation::<I, O, E, P>(parsers, input)->Ok_0.0 == input.skip(
            total_width(widths) as int,
        ),
        input.len() == total_width(widths) ==> spec_permutation::<I, O, E, P>(
            parsers,
            input,
        )->Ok_0.0 == Seq::<T>::empty(),
        forall|text: Seq<T>, extra: Seq<T>|
            text.len() == total_width(widths) && input == #[trigger] (text + extra)
                ==> spec_permutation::<I, O, E, P>(parsers, input)->Ok_0.0 == extra,
{
    let count = parsers.len();
    lemma_pool_width_full(widths, count);
    assert(widths.take(count as int) =~= widths);
    assert(input.skip(0) =~= input);
    lemma_search_consumes::<T, I, O, E, P>(
        parsers,
        widths,
        input,
        input,
        full_pool(count),
        nothing_found::<O::V>(count),
        0,
        0,
        None,
    );
    let total = total_width(widths);
}

} // verus!
