//! Many connections at once. A driver serves them in whatever order their
//! I/O completes; each report is for one connection. No connection's state
//! or output depends on what is reported to another.

use vstd::prelude::*;
use crate::connection::{ConnectionState, Event, Outcome, Phase};
use crate::framing::{encode_body, response_header_block};
use crate::trace::{
    ceil_div, data_chunks, issued, lemma_chunk_count, lemma_completed_stream, run, wire_of,
};

verus! {

/// One report of the driver: the connection it is for, by its index, and
/// how that connection's pending operation went.
pub struct Delivery {
    pub connection: nat,
    pub event: Event,
}

/// The connections after one report: the one addressed takes the event, the
/// others stay as they are. A report for a connection that does not exist
/// changes nothing.
pub open spec fn deliver(connections: Seq<ConnectionState>, delivery: Delivery) -> Seq<
    ConnectionState,
> {
    if delivery.connection < connections.len() {
        connections.update(
            delivery.connection as int,
            connections[delivery.connection as int].next(delivery.event),
        )
    } else {
        connections
    }
}

/// The connections after `deliveries`, in order.
pub open spec fn run_all(connections: Seq<ConnectionState>, deliveries: Seq<Delivery>) -> Seq<
    ConnectionState,
>
    decreases deliveries.len(),
{
    if deliveries.len() == 0 {
        connections
    } else {
        deliver(run_all(connections, deliveries.drop_last()), deliveries.last())
    }
}

/// The events among `deliveries` that are for `connection`, in order.
pub open spec fn events_of(deliveries: Seq<Delivery>, connection: nat) -> Seq<Event>
    decreases deliveries.len(),
{
    if deliveries.len() == 0 {
        Seq::empty()
    } else {
        let earlier = events_of(deliveries.drop_last(), connection);
        if deliveries.last().connection == connection {
            earlier.push(deliveries.last().event)
        } else {
            earlier
        }
    }
}

/// Isolation. However the reports for several connections are interleaved,
/// each connection ends up where it would have been had it been served
/// alone with its own events.
pub proof fn lemma_connections_are_isolated(
    connections: Seq<ConnectionState>,
    deliveries: Seq<Delivery>,
    connection: nat,
)
    requires
        connection < connections.len(),
    ensures
        run_all(connections, deliveries).len() == connections.len(),
        run_all(connections, deliveries)[connection as int] == run(
            connections[connection as int],
            events_of(deliveries, connection),
        ),
    decreases deliveries.len(),
{
    if deliveries.len() > 0 {
        let earlier = deliveries.drop_last();
        let last = deliveries.last();
        lemma_connections_are_isolated(connections, earlier, connection);
        if last.connection == connection {
            let own = events_of(earlier, connection);
            assert(own.push(last.event).drop_last() =~= own);
        }
    }
}

/// Every stream is full. Of any number of fresh connections with the same
/// budget and chunk size, served in any interleaving, each one that
/// completes has written its own whole stream, the same as if it had been
/// alone: the header block and all data chunks, with a final count of at
/// least the budget and less than the budget plus one chunk.
pub proof fn lemma_each_stream_is_full(
    budget: nat,
    chunk_size: nat,
    count: nat,
    deliveries: Seq<Delivery>,
    connection: nat,
)
    requires
        chunk_size > 0,
        connection < count,
        run_all(
            Seq::new(count, |i: int| ConnectionState::initial(budget, chunk_size)),
            deliveries,
        )[connection as int].phase == Phase::Terminated(Outcome::Completed),
    ensures
        ({
            let start = ConnectionState::initial(budget, chunk_size);
            let end = run_all(Seq::new(count, |i: int| start), deliveries)[connection as int];
            let own = events_of(deliveries, connection);
            &&& end == run(start, own)
            &&& budget <= end.sent < budget + chunk_size
            &&& wire_of(issued(start, own), chunk_size) == response_header_block() + encode_body(
                data_chunks(ceil_div(budget, chunk_size), chunk_size),
            )
        }),
{
    let start = ConnectionState::initial(budget, chunk_size);
    let all = Seq::new(count, |i: int| start);
    let own = events_of(deliveries, connection);
    lemma_connections_are_isolated(all, deliveries, connection);
    lemma_chunk_count(budget, chunk_size, own);
    lemma_completed_stream(budget, chunk_size, own);
}

} // verus!
