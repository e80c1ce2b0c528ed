//! What refills of buffers from one source give, read after read and buffer after buffer.

use crate::buffer::{progress, refilled, BufferView, ReadOutcome, Refill};
use vstd::prelude::*;

verus! {

/// The bytes of `pieces`, one after the other.
pub open spec fn drawn(pieces: Seq<Vec<u8>>) -> Seq<u8>
    decreases pieces.len(),
{
    if pieces.len() == 0 {
        Seq::empty()
    } else {
        drawn(pieces.drop_last()) + pieces.last()@
    }
}

/// The buffer `b` after reads that gave `pieces`.
pub open spec fn poured<E>(b: BufferView, pieces: Seq<Vec<u8>>) -> BufferView
    decreases pieces.len(),
{
    if pieces.len() == 0 {
        b
    } else {
        refilled(poured::<E>(b, pieces.drop_last()), ReadOutcome::<E>::Data(pieces.last()))
    }
}

/// Whether reads that gave `pieces` make up one refill of the empty buffer `b`: each gives no more
/// than the room that is left, and the refill goes on until one of them ends it.
pub open spec fn fills<E>(b: BufferView, pieces: Seq<Vec<u8>>) -> bool {
    &&& b.wf()
    &&& b.end == 0
    &&& pieces.len() > 0
    &&& forall|k: int|
        0 <= k < pieces.len() ==> {
            let before = poured::<E>(b, #[trigger] pieces.take(k));
            &&& pieces[k]@.len() <= before.capacity() - before.end
            &&& k == pieces.len() - 1 <==> progress(before, ReadOutcome::<E>::Data(pieces[k]))
                is Done
        }
}

/// Whether a source with the contents `data` that stands at `at` gives `pieces`, read after read:
/// each is a part of what follows, and empty only at the end.
pub open spec fn gives(data: Seq<u8>, at: int, pieces: Seq<Vec<u8>>) -> bool {
    forall|k: int|
        0 <= k < pieces.len() ==> {
            let from = at + drawn(#[trigger] pieces.take(k)).len();
            if pieces[k]@.len() == 0 {
                from >= data.len()
            } else {
                &&& from + pieces[k]@.len() <= data.len()
                &&& pieces[k]@ == data.subrange(from, from + pieces[k]@.len())
            }
        }
}

/// What reads that gave `pieces` leave in the buffer, and what they took from the source.
proof fn lemma_poured<E>(
    b: BufferView,
    pieces: Seq<Vec<u8>>,
    data: Seq<u8>,
    at: int,
    k: int,
)
    requires
        fills::<E>(b, pieces),
        gives(data, at, pieces),
        0 <= at,
        0 <= k <= pieces.len(),
    ensures
        ({
            let after = poured::<E>(b, pieces.take(k));
            let taken = drawn(pieces.take(k));
            &&& after.capacity() == b.capacity()
            &&& after.end == taken.len()
            &&& after.end <= after.capacity()
            &&& after.bytes() == taken
            &&& taken.len() > 0 ==> at + taken.len() <= data.len() && taken == data.subrange(
                at,
                at + taken.len(),
            )
        }),
    decreases k,
{
    let after = poured::<E>(b, pieces.take(k));
    let taken = drawn(pieces.take(k));
    if k == 0 {
        assert(after.bytes() =~= taken);
    } else {
        lemma_poured::<E>(b, pieces, data, at, k - 1);
        assert(pieces.take(k).drop_last() =~= pieces.take(k - 1));
        let before = poured::<E>(b, pieces.take(k - 1));
        let piece = pieces[k - 1];
        assert(pieces.take(k).last() == piece);
        assert(after == refilled(before, ReadOutcome::<E>::Data(piece)));
        assert(after.bytes() =~= before.bytes() + piece@);
        assert(taken == drawn(pieces.take(k - 1)) + piece@);
        if taken.len() > 0 {
            assert(taken =~= data.subrange(at, at + taken.len()));
        }
    }
}

/// One refill from a source without errors takes from it exactly the bytes that the buffer then
/// holds: as many as there is room for, or all that are left.
pub proof fn refill_takes_what_it_holds<E>(
    b: BufferView,
    pieces: Seq<Vec<u8>>,
    data: Seq<u8>,
    at: int,
)
    requires
        fills::<E>(b, pieces),
        gives(data, at, pieces),
        0 <= at,
    ensures
        ({
            let after = poured::<E>(b, pieces);
            &&& after.bytes() == drawn(pieces)
            &&& after.end == drawn(pieces).len()
            &&& after.end == (if at + b.capacity() <= data.len() {
                b.capacity()
            } else if at <= data.len() {
                data.len() - at
            } else {
                0
            })
            &&& after.end > 0 ==> after.bytes() == data.subrange(at, at + after.end)
        }),
{
    let n = pieces.len() as int;
    lemma_poured::<E>(b, pieces, data, at, n - 1);
    lemma_poured::<E>(b, pieces, data, at, n);
    assert(pieces.take(n) =~= pieces);
    assert(pieces.drop_last() =~= pieces.take(n - 1));
}

/// While a refill goes on, each read is asked for as many bytes as there is room for behind those
/// that have come, and none is asked for once the buffer is full.
pub proof fn refill_asks_for_the_room_left<E>(
    b: BufferView,
    pieces: Seq<Vec<u8>>,
    data: Seq<u8>,
    at: int,
    k: int,
)
    requires
        fills::<E>(b, pieces),
        gives(data, at, pieces),
        0 <= at,
        0 < k < pieces.len(),
    ensures
        ({
            let before = poured::<E>(b, pieces.take(k - 1));
            let after = poured::<E>(b, pieces.take(k));
            &&& after.end < after.capacity()
            &&& progress(before, ReadOutcome::<E>::Data(pieces[k - 1])) == Refill::<E>::Wants(
                (b.capacity() - drawn(pieces.take(k)).len()) as usize,
            )
        }),
{
    lemma_poured::<E>(b, pieces, data, at, k - 1);
    lemma_poured::<E>(b, pieces, data, at, k);
    assert(pieces.take(k).drop_last() =~= pieces.take(k - 1));
    assert(pieces.take(k).last() == pieces[k - 1]);
    let before = poured::<E>(b, pieces.take(k - 1));
    assert(!(progress(before, ReadOutcome::<E>::Data(pieces[k - 1])) is Done));
}

/// One refill: the empty buffer, and what the reads gave.
pub struct Filling {
    pub b: BufferView,
    pub pieces: Seq<Vec<u8>>,
}

/// What refills leave in their buffers, one after the other.
pub open spec fn gathered<E>(refills: Seq<Filling>) -> Seq<u8>
    decreases refills.len(),
{
    if refills.len() == 0 {
        Seq::empty()
    } else {
        gathered::<E>(refills.drop_last()) + poured::<E>(
            refills.last().b,
            refills.last().pieces,
        ).bytes()
    }
}

/// Whether `refills` are made one after the other from a source with the contents `data` that
/// stands at `at`.
pub open spec fn refills_in_turn<E>(data: Seq<u8>, at: int, refills: Seq<Filling>) -> bool
    decreases refills.len(),
{
    refills.len() == 0 || {
        let last = refills.last();
        &&& refills_in_turn::<E>(data, at, refills.drop_last())
        &&& fills::<E>(last.b, last.pieces)
        &&& gives(data, at + gathered::<E>(refills.drop_last()).len(), last.pieces)
    }
}

/// Any number of refills, of buffers of any sizes, give the bytes of a source without errors in
/// order.
pub proof fn refills_follow_on<E>(data: Seq<u8>, at: int, refills: Seq<Filling>)
    requires
        0 <= at <= data.len(),
        refills_in_turn::<E>(data, at, refills),
    ensures
        at + gathered::<E>(refills).len() <= data.len(),
        gathered::<E>(refills) == data.subrange(at, at + gathered::<E>(refills).len()),
    decreases refills.len(),
{
    let all = gathered::<E>(refills);
    if refills.len() > 0 {
        let rest = refills.drop_last();
        let last = refills.last();
        let before = gathered::<E>(rest);
        refills_follow_on::<E>(data, at, rest);
        refill_takes_what_it_holds::<E>(last.b, last.pieces, data, at + before.len());
        let after = poured::<E>(last.b, last.pieces);
        assert(all == before + after.bytes());
        assert(after.bytes().len() == after.end);
    }
    assert(all =~= data.subrange(at, at + all.len()));
}

/// Refills until one gives nothing give all that follows in a source without errors.
pub proof fn refills_until_nothing_give_it_all<E>(data: Seq<u8>, at: int, refills: Seq<Filling>)
    requires
        0 <= at <= data.len(),
        refills_in_turn::<E>(data, at, refills),
        refills.len() > 0,
        poured::<E>(refills.last().b, refills.last().pieces).end == 0,
    ensures
        gathered::<E>(refills) == data.skip(at),
{
    let rest = refills.drop_last();
    let last = refills.last();
    let before = gathered::<E>(rest);
    refills_follow_on::<E>(data, at, rest);
    refills_follow_on::<E>(data, at, refills);
    refill_takes_what_it_holds::<E>(last.b, last.pieces, data, at + before.len());
    assert(gathered::<E>(refills) =~= data.skip(at));
}

} // verus!
