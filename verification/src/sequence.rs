//! Mapping a sequence through a step that may fail.

use vstd::prelude::*;
use crate::error::Error;

verus! {

/// Applies `f` to each item of `items` in order. The result holds what `f` gave for each
/// item; where `f` fails for an item, the result is the failure of the first such item.
pub open spec fn try_map<A, B>(items: Seq<A>, f: spec_fn(A) -> Result<B, Error>) -> Result<
    Seq<B>,
    Error,
>
    decreases items.len(),
{
    if items.len() == 0 {
        Ok(Seq::empty())
    } else {
        match try_map(items.drop_last(), f) {
            Err(e) => Err(e),
            Ok(done) => match f(items.last()) {
                Err(e) => Err(e),
                Ok(b) => Ok(done.push(b)),
            },
        }
    }
}

/// A failure among the first `k` items is the failure of the whole.
pub proof fn lemma_try_map_failed<A, B>(
    items: Seq<A>,
    f: spec_fn(A) -> Result<B, Error>,
    k: int,
)
    requires
        0 <= k <= items.len(),
        try_map(items.take(k), f) is Err,
    ensures
        try_map(items, f) == try_map(items.take(k), f),
    decreases items.len(),
{
    if k < items.len() {
        assert(items.drop_last().take(k) =~= items.take(k));
        lemma_try_map_failed(items.drop_last(), f, k);
    } else {
        assert(items.take(k) =~= items);
    }
}

/// The first `k + 1` items give what the first `k` gave and what `f` makes of item `k`.
pub proof fn lemma_try_map_next<A, B>(items: Seq<A>, f: spec_fn(A) -> Result<B, Error>, k: int)
    requires
        0 <= k < items.len(),
    ensures
        try_map(items.take(k + 1), f) == match try_map(items.take(k), f) {
            Err(e) => Err(e),
            Ok(done) => match f(items[k]) {
                Err(e) => Err(e),
                Ok(b) => Ok(done.push(b)),
            },
        },
{
    assert(items.take(k + 1).drop_last() =~= items.take(k));
}

/// Where every item succeeds, the result has one entry for each item.
pub proof fn lemma_try_map_ok<A, B>(items: Seq<A>, f: spec_fn(A) -> Result<B, Error>)
    requires
        try_map(items, f) is Ok,
    ensures
        try_map(items, f)->Ok_0.len() == items.len(),
        forall|k: int|
            0 <= k < items.len() ==> f(#[trigger] items[k]) == Ok::<B, Error>(
                try_map(items, f)->Ok_0[k],
            ),
    decreases items.len(),
{
    if items.len() > 0 {
        lemma_try_map_ok(items.drop_last(), f);
        assert forall|k: int| 0 <= k < items.len() implies f(#[trigger] items[k]) == Ok::<
            B,
            Error,
        >(try_map(items, f)->Ok_0[k]) by {
            if k < items.len() - 1 {
                assert(items[k] == items.drop_last()[k]);
            }
        }
    }
}

} // verus!
