//! The lock-free rings that carry requests to the audio thread.
//!
//! Everything here is a thin layer over `rtrb`. A ring has two ends that live
//! in different threads, so neither end knows what the other has done by now.
//! What both ends do know is the ring's *log*: the sequence of all requests
//! that are ever accepted into it, in order, up to the end of the run. The
//! producer has written a first part of the log and the consumer has read a
//! first part of it; how far each has come is a number of its own. That a
//! request read is the log's next one, and not merely some request, is what
//! "first in, first out" means here.
//!
//! Each end also keeps the other end's position from when it last looked at it.
//! What it then saw, and how often it looked, are numbers too: an end that finds
//! the ring full, or empty, has looked. Where both ends are in one place nothing
//! moves meanwhile, and what one of them sees is how things are.
use crate::fof::{FofKillRequest, FofParams};
use vstd::prelude::*;

verus! {

#[verifier::external_type_specification]
#[verifier::external_body]
#[verifier::reject_recursive_types(T)]
pub struct ExProducer<T>(rtrb::Producer<T>);

#[verifier::external_type_specification]
#[verifier::external_body]
#[verifier::reject_recursive_types(T)]
pub struct ExConsumer<T>(rtrb::Consumer<T>);

// ---------------------------------------------------------------------------
// New grains
// ---------------------------------------------------------------------------

/// All grains that are ever accepted into the producer's ring.
pub uninterp spec fn fof_tx_log(tx: rtrb::Producer<FofParams>) -> Seq<FofParams>;

/// How many grains the producer's ring has accepted so far.
pub uninterp spec fn fof_tx_sent(tx: rtrb::Producer<FofParams>) -> nat;

/// How many grains the ring was made to hold.
pub uninterp spec fn fof_tx_capacity(tx: rtrb::Producer<FofParams>) -> nat;

/// How many grains the producer has seen taken, as of its last push: it keeps
/// the consumer's position from when it last looked, and a push looks again
/// only if the ring would be full by it.
pub uninterp spec fn fof_tx_freed(tx: rtrb::Producer<FofParams>) -> nat;

/// How often a push has looked at the consumer's position.
pub uninterp spec fn fof_tx_looks(tx: rtrb::Producer<FofParams>) -> nat;

/// All grains that are ever accepted into the consumer's ring.
pub uninterp spec fn fof_rx_log(rx: rtrb::Consumer<FofParams>) -> Seq<FofParams>;

/// How many grains the consumer has taken out so far.
pub uninterp spec fn fof_rx_taken(rx: rtrb::Consumer<FofParams>) -> nat;

/// How many grains the consumer has seen written so far, taken or not: it keeps
/// the producer's position from when it last looked.
pub uninterp spec fn fof_rx_seen(rx: rtrb::Consumer<FofParams>) -> nat;

/// How often the consumer has looked at the producer's position.
pub uninterp spec fn fof_rx_looks(rx: rtrb::Consumer<FofParams>) -> nat;

/// The two are the ends of one ring: their `buffer()` is the same.
pub uninterp spec fn fof_one_ring(
    tx: rtrb::Producer<FofParams>,
    rx: rtrb::Consumer<FofParams>,
) -> bool;

/// `rtrb::RingBuffer::new`: both ends of one ring, with nothing written,
/// nothing read, and neither end's position looked at yet. The buffer is
/// allocated here, so a capacity whose bytes (64 for each grain) exceed what an
/// allocation may hold is left out: it panics.
#[verifier::external_body]
pub(crate) fn fof_ring(capacity: usize) -> (r: (
    rtrb::Producer<FofParams>,
    rtrb::Consumer<FofParams>,
))
    requires
        capacity * 64 <= isize::MAX,
    ensures
        fof_tx_log(r.0) == fof_rx_log(r.1),
        fof_tx_sent(r.0) == 0,
        fof_tx_capacity(r.0) == capacity,
        fof_tx_freed(r.0) == 0,
        fof_tx_looks(r.0) == 0,
        fof_rx_taken(r.1) == 0,
        fof_rx_seen(r.1) == 0,
        fof_rx_looks(r.1) == 0,
        fof_one_ring(r.0, r.1),
{
    rtrb::RingBuffer::new(capacity)
}

/// `rtrb::Producer::push`: a grain that is accepted is the next one in the
/// log; one that is not comes back, and nothing is sent. A ring that is not full
/// as far as the producer has seen accepts. Otherwise the producer looks, and it
/// refuses only if it then sees as many grains not yet taken as the ring holds.
/// How many it sees taken rests with the consumer's thread. A ring without room
/// always refuses.
#[verifier::external_body]
pub(crate) fn fof_push(tx: &mut rtrb::Producer<FofParams>, params: FofParams) -> (r: Result<
    (),
    FofParams,
>)
    ensures
        fof_tx_log(*final(tx)) == fof_tx_log(*old(tx)),
        fof_tx_capacity(*final(tx)) == fof_tx_capacity(*old(tx)),
        r is Ok ==> fof_tx_sent(*old(tx)) < fof_tx_log(*old(tx)).len() && fof_tx_log(
            *old(tx),
        )[fof_tx_sent(*old(tx)) as int] == params && fof_tx_sent(*final(tx)) == fof_tx_sent(
            *old(tx),
        ) + 1,
        r matches Err(back) ==> back == params && fof_tx_sent(*final(tx)) == fof_tx_sent(*old(tx)),
        fof_tx_sent(*old(tx)) - fof_tx_freed(*old(tx)) < fof_tx_capacity(*old(tx)) ==> r is Ok,
        r is Err ==> fof_tx_looks(*final(tx)) > fof_tx_looks(*old(tx)) && fof_tx_sent(*old(tx))
            - fof_tx_freed(*final(tx)) == fof_tx_capacity(*old(tx)),
        fof_tx_looks(*final(tx)) >= fof_tx_looks(*old(tx)),
        fof_tx_freed(*old(tx)) <= fof_tx_freed(*final(tx)) <= fof_tx_sent(*old(tx)),
        forall|rx: rtrb::Consumer<FofParams>|
            #![trigger fof_one_ring(*final(tx), rx)]
            fof_one_ring(*final(tx), rx) == fof_one_ring(*old(tx), rx),
        r is Ok ==> fof_tx_capacity(*old(tx)) > 0,
{
    tx.push(params).map_err(|rtrb::PushError::Full(back)| back)
}

/// `rtrb::Producer::slots`: the free places, never more than the ring holds
/// and never fewer than with what the producer has seen taken. How many more
/// there are rests with the consumer's thread.
#[verifier::external_body]
pub(crate) fn fof_slots(tx: &rtrb::Producer<FofParams>) -> (n: usize)
    ensures
        n <= fof_tx_capacity(*tx),
        n + fof_tx_sent(*tx) >= fof_tx_capacity(*tx) + fof_tx_freed(*tx),
{
    tx.slots()
}

/// `rtrb::Producer::slots`, with the consumer at hand: while both ends are here
/// nothing is taken, so the free places are what the grains that were sent and
/// not taken leave.
#[verifier::external_body]
pub(crate) fn fof_slots_here(
    tx: &rtrb::Producer<FofParams>,
    _rx: &rtrb::Consumer<FofParams>,
) -> (n: usize)
    requires
        fof_one_ring(*tx, *_rx),
    ensures
        n + fof_tx_sent(*tx) == fof_tx_capacity(*tx) + fof_rx_taken(*_rx),
{
    tx.slots()
}

/// `rtrb::Producer::push`, with the consumer at hand: while both ends are here
/// nothing is taken, so the ring refuses exactly if as many grains are not taken
/// as it holds.
#[verifier::external_body]
pub(crate) fn fof_push_here(
    tx: &mut rtrb::Producer<FofParams>,
    params: FofParams,
    _rx: &rtrb::Consumer<FofParams>,
) -> (r: Result<(), FofParams>)
    requires
        fof_one_ring(*old(tx), *_rx),
    ensures
        fof_tx_log(*final(tx)) == fof_tx_log(*old(tx)),
        fof_tx_capacity(*final(tx)) == fof_tx_capacity(*old(tx)),
        r is Ok ==> fof_tx_sent(*old(tx)) < fof_tx_log(*old(tx)).len() && fof_tx_log(
            *old(tx),
        )[fof_tx_sent(*old(tx)) as int] == params && fof_tx_sent(*final(tx)) == fof_tx_sent(
            *old(tx),
        ) + 1,
        r matches Err(back) ==> back == params && fof_tx_sent(*final(tx)) == fof_tx_sent(*old(tx)),
        r is Ok <==> fof_tx_sent(*old(tx)) - fof_rx_taken(*_rx) < fof_tx_capacity(*old(tx)),
        r is Ok ==> fof_rx_taken(*_rx) < fof_tx_sent(*final(tx)),
        r is Err ==> fof_rx_taken(*_rx) <= fof_tx_sent(*final(tx)),
        fof_tx_looks(*final(tx)) >= fof_tx_looks(*old(tx)),
        fof_tx_freed(*old(tx)) <= fof_tx_freed(*final(tx)) <= fof_tx_sent(*old(tx)),
        forall|other: rtrb::Consumer<FofParams>|
            #![trigger fof_one_ring(*final(tx), other)]
            fof_one_ring(*final(tx), other) == fof_one_ring(*old(tx), other),
{
    tx.push(params).map_err(|rtrb::PushError::Full(back)| back)
}

/// `rtrb::Consumer::peek`: the next grain of the log, if it has been written
/// already. One that the consumer has seen written is there, and then it does
/// not look again. Where it has taken all that it has seen, it looks, and
/// whether there is more rests with the producer's thread. `peek` keeps what it
/// saw, which is why the consumer is taken mutably here.
#[verifier::external_body]
pub(crate) fn fof_peek(rx: &mut rtrb::Consumer<FofParams>) -> (r: Option<FofParams>)
    ensures
        fof_rx_log(*final(rx)) == fof_rx_log(*old(rx)),
        fof_rx_taken(*final(rx)) == fof_rx_taken(*old(rx)),
        r matches Some(params) ==> fof_rx_taken(*final(rx)) < fof_rx_seen(*final(rx))
            && fof_rx_log(*final(rx))[fof_rx_taken(*final(rx)) as int] == params,
        fof_rx_taken(*old(rx)) < fof_rx_seen(*old(rx)) ==> r is Some && fof_rx_seen(*final(rx))
            == fof_rx_seen(*old(rx)),
        r is None ==> fof_rx_seen(*final(rx)) == fof_rx_taken(*final(rx)) && fof_rx_looks(
            *final(rx),
        ) > fof_rx_looks(*old(rx)),
        fof_rx_seen(*final(rx)) >= fof_rx_seen(*old(rx)),
        fof_rx_looks(*final(rx)) >= fof_rx_looks(*old(rx)),
        fof_rx_taken(*final(rx)) <= fof_rx_seen(*final(rx)) <= fof_rx_log(*final(rx)).len(),
        forall|tx: rtrb::Producer<FofParams>|
            #![trigger fof_one_ring(tx, *final(rx))]
            fof_one_ring(tx, *final(rx)) == fof_one_ring(tx, *old(rx)),
{
    rx.peek().ok().copied()
}

/// `rtrb::Consumer::pop`: takes out the next grain of the log, if it has been
/// written already; otherwise nothing is taken. It looks as `peek` does.
#[verifier::external_body]
pub(crate) fn fof_pop(rx: &mut rtrb::Consumer<FofParams>) -> (r: Option<FofParams>)
    ensures
        fof_rx_log(*final(rx)) == fof_rx_log(*old(rx)),
        r matches Some(params) ==> fof_rx_taken(*old(rx)) < fof_rx_log(*old(rx)).len()
            && fof_rx_log(*old(rx))[fof_rx_taken(*old(rx)) as int] == params && fof_rx_taken(
            *final(rx),
        ) == fof_rx_taken(*old(rx)) + 1,
        r is None ==> fof_rx_taken(*final(rx)) == fof_rx_taken(*old(rx)),
        fof_rx_taken(*old(rx)) < fof_rx_seen(*old(rx)) ==> r is Some && fof_rx_seen(*final(rx))
            == fof_rx_seen(*old(rx)),
        r is None ==> fof_rx_seen(*final(rx)) == fof_rx_taken(*final(rx)) && fof_rx_looks(
            *final(rx),
        ) > fof_rx_looks(*old(rx)),
        fof_rx_seen(*final(rx)) >= fof_rx_seen(*old(rx)),
        fof_rx_looks(*final(rx)) >= fof_rx_looks(*old(rx)),
        fof_rx_taken(*final(rx)) <= fof_rx_seen(*final(rx)) <= fof_rx_log(*final(rx)).len(),
        forall|tx: rtrb::Producer<FofParams>|
            #![trigger fof_one_ring(tx, *final(rx))]
            fof_one_ring(tx, *final(rx)) == fof_one_ring(tx, *old(rx)),
{
    rx.pop().ok()
}

/// `rtrb::Consumer::slots`, with the producer at hand: the consumer looks, and
/// while both ends are here nothing is written, so it sees all that was sent.
#[verifier::external_body]
pub(crate) fn fof_see_sent(tx: &rtrb::Producer<FofParams>, rx: &mut rtrb::Consumer<FofParams>) -> (n:
    usize)
    requires
        fof_one_ring(*tx, *old(rx)),
    ensures
        fof_rx_log(*final(rx)) == fof_rx_log(*old(rx)),
        fof_rx_taken(*final(rx)) == fof_rx_taken(*old(rx)),
        fof_rx_seen(*final(rx)) == fof_tx_sent(*tx),
        fof_rx_seen(*final(rx)) >= fof_rx_seen(*old(rx)),
        fof_rx_looks(*final(rx)) > fof_rx_looks(*old(rx)),
        fof_rx_taken(*final(rx)) <= fof_rx_seen(*final(rx)) <= fof_rx_log(*final(rx)).len(),
        forall|other: rtrb::Producer<FofParams>|
            #![trigger fof_one_ring(other, *final(rx))]
            fof_one_ring(other, *final(rx)) == fof_one_ring(other, *old(rx)),
        n + fof_rx_taken(*old(rx)) == fof_tx_sent(*tx),
{
    rx.slots()
}

// ---------------------------------------------------------------------------
// Kill requests
// ---------------------------------------------------------------------------

/// All kill requests that are ever accepted into the producer's ring.
pub uninterp spec fn kill_tx_log(tx: rtrb::Producer<FofKillRequest>) -> Seq<FofKillRequest>;

/// How many kill requests the producer's ring has accepted so far.
pub uninterp spec fn kill_tx_sent(tx: rtrb::Producer<FofKillRequest>) -> nat;

/// How many kill requests the ring was made to hold.
pub uninterp spec fn kill_tx_capacity(tx: rtrb::Producer<FofKillRequest>) -> nat;

/// How many kill requests the producer has seen taken, as of its last push: it
/// keeps the consumer's position from when it last looked, and a push looks
/// again only if the ring would be full by it.
pub uninterp spec fn kill_tx_freed(tx: rtrb::Producer<FofKillRequest>) -> nat;

/// How often a push has looked at the consumer's position.
pub uninterp spec fn kill_tx_looks(tx: rtrb::Producer<FofKillRequest>) -> nat;

/// All kill requests that are ever accepted into the consumer's ring.
pub uninterp spec fn kill_rx_log(rx: rtrb::Consumer<FofKillRequest>) -> Seq<FofKillRequest>;

/// How many kill requests the consumer has taken out so far.
pub uninterp spec fn kill_rx_taken(rx: rtrb::Consumer<FofKillRequest>) -> nat;

/// How many kill requests the consumer has seen written so far, taken or not:
/// it keeps the producer's position from when it last looked.
pub uninterp spec fn kill_rx_seen(rx: rtrb::Consumer<FofKillRequest>) -> nat;

/// How often the consumer has looked at the producer's position.
pub uninterp spec fn kill_rx_looks(rx: rtrb::Consumer<FofKillRequest>) -> nat;

/// The two are the ends of one ring: their `buffer()` is the same.
pub uninterp spec fn kill_one_ring(
    tx: rtrb::Producer<FofKillRequest>,
    rx: rtrb::Consumer<FofKillRequest>,
) -> bool;

/// `rtrb::RingBuffer::new`, as for grains; a kill request takes 16 bytes. The
/// consumer has seen nothing yet.
#[verifier::external_body]
pub(crate) fn kill_ring(capacity: usize) -> (r: (
    rtrb::Producer<FofKillRequest>,
    rtrb::Consumer<FofKillRequest>,
))
    requires
        capacity * 16 <= isize::MAX,
    ensures
        kill_tx_log(r.0) == kill_rx_log(r.1),
        kill_tx_sent(r.0) == 0,
        kill_tx_capacity(r.0) == capacity,
        kill_tx_freed(r.0) == 0,
        kill_tx_looks(r.0) == 0,
        kill_rx_taken(r.1) == 0,
        kill_rx_seen(r.1) == 0,
        kill_rx_looks(r.1) == 0,
        kill_one_ring(r.0, r.1),
{
    rtrb::RingBuffer::new(capacity)
}

/// `rtrb::Producer::push`, as for grains.
#[verifier::external_body]
pub(crate) fn kill_push(tx: &mut rtrb::Producer<FofKillRequest>, req: FofKillRequest) -> (r: Result<
    (),
    FofKillRequest,
>)
    ensures
        kill_tx_log(*final(tx)) == kill_tx_log(*old(tx)),
        kill_tx_capacity(*final(tx)) == kill_tx_capacity(*old(tx)),
        r is Ok ==> kill_tx_sent(*old(tx)) < kill_tx_log(*old(tx)).len() && kill_tx_log(
            *old(tx),
        )[kill_tx_sent(*old(tx)) as int] == req && kill_tx_sent(*final(tx)) == kill_tx_sent(
            *old(tx),
        ) + 1,
        r matches Err(back) ==> back == req && kill_tx_sent(*final(tx)) == kill_tx_sent(*old(tx)),
        kill_tx_sent(*old(tx)) - kill_tx_freed(*old(tx)) < kill_tx_capacity(*old(tx)) ==> r is Ok,
        r is Err ==> kill_tx_looks(*final(tx)) > kill_tx_looks(*old(tx)) && kill_tx_sent(*old(tx))
            - kill_tx_freed(*final(tx)) == kill_tx_capacity(*old(tx)),
        kill_tx_looks(*final(tx)) >= kill_tx_looks(*old(tx)),
        kill_tx_freed(*old(tx)) <= kill_tx_freed(*final(tx)) <= kill_tx_sent(*old(tx)),
        forall|rx: rtrb::Consumer<FofKillRequest>|
            #![trigger kill_one_ring(*final(tx), rx)]
            kill_one_ring(*final(tx), rx) == kill_one_ring(*old(tx), rx),
        r is Ok ==> kill_tx_capacity(*old(tx)) > 0,
{
    tx.push(req).map_err(|rtrb::PushError::Full(back)| back)
}

/// `rtrb::Producer::push`, with the consumer at hand, as for grains.
#[verifier::external_body]
pub(crate) fn kill_push_here(
    tx: &mut rtrb::Producer<FofKillRequest>,
    req: FofKillRequest,
    _rx: &rtrb::Consumer<FofKillRequest>,
) -> (r: Result<(), FofKillRequest>)
    requires
        kill_one_ring(*old(tx), *_rx),
    ensures
        kill_tx_log(*final(tx)) == kill_tx_log(*old(tx)),
        kill_tx_capacity(*final(tx)) == kill_tx_capacity(*old(tx)),
        r is Ok ==> kill_tx_sent(*old(tx)) < kill_tx_log(*old(tx)).len() && kill_tx_log(
            *old(tx),
        )[kill_tx_sent(*old(tx)) as int] == req && kill_tx_sent(*final(tx)) == kill_tx_sent(
            *old(tx),
        ) + 1,
        r matches Err(back) ==> back == req && kill_tx_sent(*final(tx)) == kill_tx_sent(*old(tx)),
        r is Ok <==> kill_tx_sent(*old(tx)) - kill_rx_taken(*_rx) < kill_tx_capacity(*old(tx)),
        r is Ok ==> kill_rx_taken(*_rx) < kill_tx_sent(*final(tx)),
        r is Err ==> kill_rx_taken(*_rx) <= kill_tx_sent(*final(tx)),
        kill_tx_looks(*final(tx)) >= kill_tx_looks(*old(tx)),
        kill_tx_freed(*old(tx)) <= kill_tx_freed(*final(tx)) <= kill_tx_sent(*old(tx)),
        forall|other: rtrb::Consumer<FofKillRequest>|
            #![trigger kill_one_ring(*final(tx), other)]
            kill_one_ring(*final(tx), other) == kill_one_ring(*old(tx), other),
{
    tx.push(req).map_err(|rtrb::PushError::Full(back)| back)
}

/// `rtrb::Consumer::pop`: takes out the next kill request of the log, if it has
/// been written already; otherwise nothing is taken. One that the consumer has
/// seen written is there to be taken, and then it does not look again. Where it
/// has taken all that it has seen, it looks, and whether there is more rests
/// with the producer's thread: if so it has seen more, if not it has taken all
/// that it has seen.
#[verifier::external_body]
pub(crate) fn kill_pop(rx: &mut rtrb::Consumer<FofKillRequest>) -> (r: Option<FofKillRequest>)
    ensures
        kill_rx_log(*final(rx)) == kill_rx_log(*old(rx)),
        r matches Some(req) ==> kill_rx_taken(*old(rx)) < kill_rx_log(*old(rx)).len()
            && kill_rx_log(*old(rx))[kill_rx_taken(*old(rx)) as int] == req && kill_rx_taken(
            *final(rx),
        ) == kill_rx_taken(*old(rx)) + 1,
        r is None ==> kill_rx_taken(*final(rx)) == kill_rx_taken(*old(rx)),
        kill_rx_taken(*old(rx)) < kill_rx_seen(*old(rx)) ==> r is Some && kill_rx_seen(*final(rx))
            == kill_rx_seen(*old(rx)),
        r is None ==> kill_rx_seen(*final(rx)) == kill_rx_taken(*final(rx)) && kill_rx_looks(
            *final(rx),
        ) > kill_rx_looks(*old(rx)),
        kill_rx_looks(*final(rx)) >= kill_rx_looks(*old(rx)),
        kill_rx_seen(*final(rx)) >= kill_rx_seen(*old(rx)),
        kill_rx_taken(*final(rx)) <= kill_rx_seen(*final(rx)) <= kill_rx_log(*final(rx)).len(),
        forall|tx: rtrb::Producer<FofKillRequest>|
            #![trigger kill_one_ring(tx, *final(rx))]
            kill_one_ring(tx, *final(rx)) == kill_one_ring(tx, *old(rx)),
{
    rx.pop().ok()
}

/// `rtrb::Consumer::slots`, with the producer at hand, as for grains: the
/// consumer sees all that was sent. Gives how many of those are not taken.
#[verifier::external_body]
pub(crate) fn kill_see_sent(
    tx: &rtrb::Producer<FofKillRequest>,
    rx: &mut rtrb::Consumer<FofKillRequest>,
) -> (n: usize)
    requires
        kill_one_ring(*tx, *old(rx)),
    ensures
        kill_rx_log(*final(rx)) == kill_rx_log(*old(rx)),
        kill_rx_taken(*final(rx)) == kill_rx_taken(*old(rx)),
        kill_rx_seen(*final(rx)) == kill_tx_sent(*tx),
        kill_rx_seen(*final(rx)) >= kill_rx_seen(*old(rx)),
        kill_rx_looks(*final(rx)) > kill_rx_looks(*old(rx)),
        kill_rx_taken(*final(rx)) <= kill_rx_seen(*final(rx)) <= kill_rx_log(*final(rx)).len(),
        forall|other: rtrb::Producer<FofKillRequest>|
            #![trigger kill_one_ring(other, *final(rx))]
            kill_one_ring(other, *final(rx)) == kill_one_ring(other, *old(rx)),
        n + kill_rx_taken(*old(rx)) == kill_tx_sent(*tx),
{
    rx.slots()
}

} // verus!
