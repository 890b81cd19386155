//! Whole runs of a connection: what holds of the actions it issues and of
//! the bytes it writes, whatever the driver reports.

use vstd::prelude::*;
use crate::connection::{
    lemma_next_preserves_wf, wire, Action, ConnectionState, Event, Outcome, Phase,
};
use crate::framing::{
    chunk_frame, crlf, decode_body, encode_body, frames, lemma_decode_body, lemma_frames_push,
    response_header_block, size_line, terminal_marker, zero_payload,
};

verus! {

/// The state that `events`, reported in order, lead to from `state`.
pub open spec fn run(state: ConnectionState, events: Seq<Event>) -> ConnectionState
    decreases events.len(),
{
    if events.len() == 0 {
        state
    } else {
        run(state, events.drop_last()).next(events.last())
    }
}

/// The actions that a connection issues while `events` are reported to it:
/// the one pending at the start, then the answer to each event.
pub open spec fn issued(state: ConnectionState, events: Seq<Event>) -> Seq<Action> {
    Seq::new(events.len() + 1, |i: int| run(state, events.take(i)).phase.action())
}

/// How often `action` occurs in `actions`.
pub open spec fn occurrences(actions: Seq<Action>, action: Action) -> nat
    decreases actions.len(),
{
    if actions.len() == 0 {
        0
    } else {
        let here: nat = if actions.last() == action {
            1
        } else {
            0
        };
        occurrences(actions.drop_last(), action) + here
    }
}

/// The bytes of the writes among `actions`, in order.
pub open spec fn wire_of(actions: Seq<Action>, chunk_size: nat) -> Seq<u8>
    decreases actions.len(),
{
    if actions.len() == 0 {
        Seq::empty()
    } else {
        wire_of(actions.drop_last(), chunk_size) + wire(actions.last(), chunk_size)
    }
}

/// `count` data chunks, each a payload of `chunk_size` zero bytes.
pub open spec fn data_chunks(count: nat, chunk_size: nat) -> Seq<Seq<u8>> {
    Seq::new(count, |i: int| zero_payload(chunk_size))
}

/// The quotient of `total` by `unit`, rounded up.
pub open spec fn ceil_div(total: nat, unit: nat) -> nat
    recommends
        unit > 0,
{
    if total % unit == 0 {
        total / unit
    } else {
        total / unit + 1
    }
}

/// The rounded-up quotient is the one multiple count that reaches `total`
/// without passing it by a whole `unit`.
pub proof fn lemma_ceil_div_unique(total: nat, unit: nat, count: nat)
    requires
        unit > 0,
        total <= count * unit < total + unit,
    ensures
        count == ceil_div(total, unit),
{
    let q = total / unit;
    let r = total % unit;
    assert(total == q * unit + r && 0 <= r < unit) by (nonlinear_arith)
        requires
            unit > 0,
            q == total / unit,
            r == total % unit,
    ;
    if r == 0 {
        assert(count == q) by (nonlinear_arith)
            requires
                unit > 0,
                q * unit <= count * unit < q * unit + unit,
        ;
    } else {
        assert(count == q + 1) by (nonlinear_arith)
            requires
                unit > 0,
                0 < r < unit,
                q * unit + r <= count * unit < q * unit + r + unit,
        ;
    }
}

/// Reporting `first` and then `second` is reporting the two in one run.
pub proof fn lemma_run_concat(state: ConnectionState, first: Seq<Event>, second: Seq<Event>)
    ensures
        run(state, first + second) == run(run(state, first), second),
    decreases second.len(),
{
    let all = first + second;
    if second.len() == 0 {
        assert(all =~= first);
    } else {
        lemma_run_concat(state, first, second.drop_last());
        assert(all.drop_last() =~= first + second.drop_last());
        assert(all.last() == second.last());
    }
}

/// Every run from a well-formed state ends in one, with the budget and the
/// chunk size it began with.
pub proof fn lemma_run_preserves_wf(state: ConnectionState, events: Seq<Event>)
    requires
        state.wf(),
    ensures
        run(state, events).wf(),
        run(state, events).budget == state.budget,
        run(state, events).chunk_size == state.chunk_size,
        state.sent <= run(state, events).sent,
    decreases events.len(),
{
    if events.len() > 0 {
        lemma_run_preserves_wf(state, events.drop_last());
        lemma_next_preserves_wf(run(state, events.drop_last()), events.last());
    }
}

/// A connection that has ended stays as it is.
pub proof fn lemma_terminated_is_final(state: ConnectionState, events: Seq<Event>)
    requires
        state.phase is Terminated,
    ensures
        run(state, events) == state,
    decreases events.len(),
{
    if events.len() > 0 {
        lemma_terminated_is_final(state, events.drop_last());
    }
}

/// The actions of a run are those of the run without its last event, and
/// then the answer to that event.
pub proof fn lemma_issued_push(state: ConnectionState, events: Seq<Event>)
    requires
        events.len() > 0,
    ensures
        issued(state, events) == issued(state, events.drop_last()).push(
            run(state, events).phase.action(),
        ),
{
    let shorter = events.drop_last();
    let left = issued(state, events);
    let right = issued(state, shorter).push(run(state, events).phase.action());
    assert(left.len() == right.len());
    assert forall|i: int| 0 <= i < left.len() implies left[i] == right[i] by {
        if i < events.len() {
            assert(events.take(i) =~= shorter.take(i));
        } else {
            assert(events.take(i) =~= events);
        }
    }
    assert(left =~= right);
}

proof fn lemma_occurrences_push(actions: Seq<Action>, last: Action, action: Action)
    ensures
        occurrences(actions.push(last), action) == occurrences(actions, action) + if last
            == action {
            1nat
        } else {
            0nat
        },
{
    assert(actions.push(last).drop_last() =~= actions);
}

proof fn lemma_wire_of_push(actions: Seq<Action>, last: Action, chunk_size: nat)
    ensures
        wire_of(actions.push(last), chunk_size) == wire_of(actions, chunk_size) + wire(
            last,
            chunk_size,
        ),
{
    assert(actions.push(last).drop_last() =~= actions);
}

/// What the actions issued so far have to do with the state reached: how
/// many payloads and terminal chunks were begun, and which bytes the writes
/// add up to.
spec fn accounted(state: ConnectionState, actions: Seq<Action>) -> bool {
    let unit = state.chunk_size;
    let headers = occurrences(actions, Action::WriteHeaders);
    let payloads = occurrences(actions, Action::WritePayload);
    let terminals = occurrences(actions, Action::WriteTerminal);
    let bytes = wire_of(actions, unit);
    let head = response_header_block();
    match state.phase {
        Phase::ReadingRequest | Phase::Terminated(Outcome::NoRequest) => {
            &&& headers == 0
            &&& payloads == 0
            &&& terminals == 0
            &&& bytes == Seq::<u8>::empty()
        },
        Phase::SendingHeaders | Phase::Terminated(Outcome::HeaderFailed) => {
            &&& headers == 1
            &&& payloads == 0
            &&& terminals == 0
            &&& bytes == head
        },
        Phase::SendingSizeLine => {
            &&& headers == 1
            &&& payloads * unit == state.sent
            &&& terminals == 0
            &&& bytes == head + frames(data_chunks(payloads, unit)) + size_line(unit)
        },
        Phase::SendingPayload => {
            &&& headers == 1
            &&& payloads >= 1
            &&& (payloads - 1) * unit == state.sent
            &&& terminals == 0
            &&& bytes == head + frames(data_chunks((payloads - 1) as nat, unit)) + size_line(unit)
                + zero_payload(unit)
        },
        Phase::SendingChunkEnd => {
            &&& headers == 1
            &&& payloads * unit == state.sent
            &&& terminals == 0
            &&& bytes == head + frames(data_chunks(payloads, unit))
        },
        Phase::SendingTerminal | Phase::Terminated(Outcome::Completed) => {
            &&& headers == 1
            &&& payloads * unit == state.sent
            &&& terminals == 1
            &&& bytes == head + encode_body(data_chunks(payloads, unit))
        },
        Phase::Closing | Phase::Terminated(Outcome::Disconnected) => {
            &&& headers <= 1
            &&& payloads * unit == state.sent || (payloads >= 1 && (payloads - 1) * unit
                == state.sent && state.sent < state.budget)
            &&& terminals <= 1
        },
    }
}

proof fn lemma_data_chunks_push(count: nat, chunk_size: nat)
    ensures
        frames(data_chunks(count + 1, chunk_size)) == frames(data_chunks(count, chunk_size))
            + chunk_frame(zero_payload(chunk_size)),
{
    assert(data_chunks(count + 1, chunk_size) =~= data_chunks(count, chunk_size).push(
        zero_payload(chunk_size),
    ));
    lemma_frames_push(data_chunks(count, chunk_size), zero_payload(chunk_size));
}

proof fn lemma_accounted_step(state: ConnectionState, actions: Seq<Action>, event: Event)
    requires
        state.wf(),
        accounted(state, actions),
    ensures
        accounted(state.next(event), actions.push(state.next(event).phase.action())),
{
    let after = state.next(event);
    let answer = after.phase.action();
    let unit = state.chunk_size;
    lemma_occurrences_push(actions, answer, Action::WriteHeaders);
    lemma_occurrences_push(actions, answer, Action::WritePayload);
    lemma_occurrences_push(actions, answer, Action::WriteTerminal);
    lemma_wire_of_push(actions, answer, unit);
    let payloads = occurrences(actions, Action::WritePayload);
    let head = response_header_block();
    let bytes = wire_of(actions, unit);
    match state.phase {
        Phase::ReadingRequest => {
            assert(bytes + head =~= head);
            assert(bytes + Seq::<u8>::empty() =~= bytes);
        },
        Phase::SendingHeaders => {
            if event is WriteDone {
                assert(payloads * unit == 0) by (nonlinear_arith)
                    requires
                        payloads == 0,
                ;
                assert(data_chunks(0, unit) =~= Seq::<Seq<u8>>::empty());
                assert(frames(data_chunks(0, unit)) =~= Seq::<u8>::empty());
                assert(head + frames(data_chunks(0, unit)) =~= head);
                assert(head + encode_body(data_chunks(0, unit)) =~= head + terminal_marker());
            } else {
                assert(bytes + Seq::<u8>::empty() =~= bytes);
            }
        },
        Phase::SendingSizeLine => {
            if event is WriteDone {
                assert((payloads + 1 - 1) * unit == state.sent);
            }
        },
        Phase::SendingPayload => {
            if event is WriteDone {
                let before = (payloads - 1) as nat;
                assert(payloads * unit == state.sent + unit) by (nonlinear_arith)
                    requires
                        payloads >= 1,
                        (payloads - 1) * unit == state.sent,
                ;
                lemma_data_chunks_push(before, unit);
                assert(before + 1 == payloads);
                assert(wire(answer, unit) == crlf());
                assert(head + frames(data_chunks(before, unit)) + size_line(unit) + zero_payload(
                    unit,
                ) + crlf() =~= head + (frames(data_chunks(before, unit)) + chunk_frame(
                    zero_payload(unit),
                )));
                assert(head + (frames(data_chunks(before, unit)) + chunk_frame(zero_payload(unit)))
                    == head + frames(data_chunks(payloads, unit)));
            }
        },
        Phase::SendingChunkEnd => {
            if event is WriteDone {
                assert(head + frames(data_chunks(payloads, unit)) + terminal_marker() =~= head
                    + encode_body(data_chunks(payloads, unit)));
            }
        },
        Phase::SendingTerminal => {
            assert(bytes + Seq::<u8>::empty() =~= bytes);
        },
        Phase::Closing => {},
        Phase::Terminated(_) => {
            assert(bytes + Seq::<u8>::empty() =~= bytes);
        },
    }
}

proof fn lemma_accounted(budget: nat, chunk_size: nat, events: Seq<Event>)
    requires
        chunk_size > 0,
    ensures
        accounted(
            run(ConnectionState::initial(budget, chunk_size), events),
            issued(ConnectionState::initial(budget, chunk_size), events),
        ),
    decreases events.len(),
{
    let start = ConnectionState::initial(budget, chunk_size);
    if events.len() == 0 {
        let actions = issued(start, events);
        assert(events.take(0) =~= events);
        assert(actions =~= seq![Action::ReadRequest]);
        assert(actions.drop_last() =~= Seq::<Action>::empty());
        assert(occurrences(actions.drop_last(), Action::WriteHeaders) == 0);
        assert(occurrences(actions.drop_last(), Action::WritePayload) == 0);
        assert(occurrences(actions.drop_last(), Action::WriteTerminal) == 0);
        assert(wire_of(actions.drop_last(), chunk_size) =~= Seq::<u8>::empty());
        assert(wire_of(actions, chunk_size) =~= Seq::<u8>::empty());
    } else {
        let shorter = events.drop_last();
        lemma_accounted(budget, chunk_size, shorter);
        lemma_run_preserves_wf(start, shorter);
        lemma_accounted_step(run(start, shorter), issued(start, shorter), events.last());
        lemma_issued_push(start, events);
    }
}

/// The rounded-up quotient reaches `total` and does not pass it by a whole
/// `unit`.
pub proof fn lemma_ceil_div_bounds(total: nat, unit: nat)
    requires
        unit > 0,
    ensures
        total <= ceil_div(total, unit) * unit < total + unit,
{
    let q = total / unit;
    let r = total % unit;
    assert(total == q * unit + r && 0 <= r < unit) by (nonlinear_arith)
        requires
            unit > 0,
            q == total / unit,
            r == total % unit,
    ;
    assert((q + 1) * unit == q * unit + unit) by (nonlinear_arith);
}

proof fn lemma_ends_after_last_write(state: ConnectionState, events: Seq<Event>)
    requires
        state.phase is SendingTerminal || state.phase is Closing || state.phase is Terminated,
    ensures
        events.len() >= 1 ==> run(state, events).phase is Terminated,
        !run(state, events).phase.action().is_write() || (events.len() == 0
            && state.phase is SendingTerminal),
        run(state, events).sent == state.sent,
    decreases events.len(),
{
    if events.len() > 0 {
        lemma_ends_after_last_write(state, events.drop_last());
    }
}

/// Chunk count. A connection that completes has issued exactly as many
/// payload writes as the budget divided by the chunk size, rounded up, and
/// its final count of payload bytes is that many chunks: at least the
/// budget, and less than the budget plus one chunk. No run, completed or
/// not, issues more payload writes than that.
pub proof fn lemma_chunk_count(budget: nat, chunk_size: nat, events: Seq<Event>)
    requires
        chunk_size > 0,
    ensures
        ({
            let start = ConnectionState::initial(budget, chunk_size);
            let end = run(start, events);
            let payloads = occurrences(issued(start, events), Action::WritePayload);
            &&& payloads <= ceil_div(budget, chunk_size)
            &&& end.sent < budget + chunk_size
            &&& end.phase == Phase::Terminated(Outcome::Completed) ==> {
                &&& payloads == ceil_div(budget, chunk_size)
                &&& end.sent == payloads * chunk_size
                &&& budget <= end.sent < budget + chunk_size
            }
        }),
{
    let start = ConnectionState::initial(budget, chunk_size);
    let end = run(start, events);
    let payloads = occurrences(issued(start, events), Action::WritePayload);
    let most = ceil_div(budget, chunk_size);
    lemma_accounted(budget, chunk_size, events);
    lemma_run_preserves_wf(start, events);
    lemma_ceil_div_bounds(budget, chunk_size);
    if end.phase == Phase::Terminated(Outcome::Completed) {
        lemma_ceil_div_unique(budget, chunk_size, payloads);
    }
    if payloads * chunk_size == end.sent {
        assert(payloads <= most) by (nonlinear_arith)
            requires
                chunk_size > 0,
                payloads * chunk_size < budget + chunk_size,
                budget <= most * chunk_size,
        ;
    } else {
        assert(payloads <= most) by (nonlinear_arith)
            requires
                chunk_size > 0,
                payloads >= 1,
                (payloads - 1) * chunk_size < budget,
                budget <= most * chunk_size,
        ;
    }
}

/// Terminal chunk. No run issues the write of the terminal chunk more than
/// once, and a completed run issues it exactly once. When it is issued,
/// streaming has ended: the header block and every data chunk of the stream
/// were written before it. After it, the connection issues nothing but the
/// order to stop.
pub proof fn lemma_terminal_once(budget: nat, chunk_size: nat, events: Seq<Event>)
    requires
        chunk_size > 0,
    ensures
        ({
            let start = ConnectionState::initial(budget, chunk_size);
            let actions = issued(start, events);
            &&& occurrences(actions, Action::WriteTerminal) <= 1
            &&& run(start, events).phase == Phase::Terminated(Outcome::Completed)
                ==> occurrences(actions, Action::WriteTerminal) == 1
            &&& forall|i: int|
                0 <= i <= events.len() && #[trigger] actions[i] == Action::WriteTerminal ==> {
                    let before = issued(start, events.take(i));
                    &&& occurrences(before, Action::WriteHeaders) == 1
                    &&& occurrences(before, Action::WritePayload) == ceil_div(budget, chunk_size)
                    &&& run(start, events.take(i)).sent >= budget
                }
            &&& forall|i: int, j: int|
                0 <= i < j <= events.len() && #[trigger] actions[i] == Action::WriteTerminal
                    ==> #[trigger] actions[j] is Stop
        }),
{
    let start = ConnectionState::initial(budget, chunk_size);
    let actions = issued(start, events);
    lemma_accounted(budget, chunk_size, events);
    assert forall|i: int|
        0 <= i <= events.len() && #[trigger] actions[i] == Action::WriteTerminal implies ({
        let before = issued(start, events.take(i));
        &&& occurrences(before, Action::WriteHeaders) == 1
        &&& occurrences(before, Action::WritePayload) == ceil_div(budget, chunk_size)
        &&& run(start, events.take(i)).sent >= budget
    }) by {
        let prefix = events.take(i);
        lemma_accounted(budget, chunk_size, prefix);
        lemma_run_preserves_wf(start, prefix);
        lemma_ceil_div_unique(
            budget,
            chunk_size,
            occurrences(issued(start, prefix), Action::WritePayload),
        );
    }
    assert forall|i: int, j: int|
        0 <= i < j <= events.len() && #[trigger] actions[i]
            == Action::WriteTerminal implies #[trigger] actions[j] is Stop by {
        let prefix = events.take(i);
        let between = events.subrange(i, j);
        assert(events.take(j) =~= prefix + between);
        lemma_run_concat(start, prefix, between);
        lemma_ends_after_last_write(run(start, prefix), between);
    }
}

/// No request. If the first read finds that the peer has closed without
/// sending a byte, the connection ends at once and no write is ever issued:
/// neither the header block nor any chunk.
pub proof fn lemma_no_request_writes_nothing(budget: nat, chunk_size: nat, events: Seq<Event>)
    requires
        events.len() > 0,
        events[0] == Event::ReadDone(0),
    ensures
        ({
            let start = ConnectionState::initial(budget, chunk_size);
            let actions = issued(start, events);
            &&& run(start, events).phase == Phase::Terminated(Outcome::NoRequest)
            &&& actions[0] == Action::ReadRequest
            &&& forall|i: int|
                1 <= i <= events.len() ==> #[trigger] actions[i] == Action::Stop(Outcome::NoRequest)
            &&& forall|i: int| 0 <= i <= events.len() ==> !(#[trigger] actions[i]).is_write()
        }),
{
    let start = ConnectionState::initial(budget, chunk_size);
    let actions = issued(start, events);
    let first = events.take(1);
    assert(first.drop_last() =~= Seq::<Event>::empty());
    assert(run(start, first.drop_last()) == start);
    assert(run(start, first) == start.at(Phase::Terminated(Outcome::NoRequest)));
    assert(events.take(0) =~= Seq::<Event>::empty());
    assert forall|i: int| 1 <= i <= events.len() implies #[trigger] actions[i] == Action::Stop(
        Outcome::NoRequest,
    ) by {
        let rest = events.subrange(1, i);
        assert(events.take(i) =~= first + rest);
        lemma_run_concat(start, first, rest);
        lemma_terminated_is_final(run(start, first), rest);
    }
    assert(events.take(events.len() as int) =~= events);
    assert(actions[events.len() as int] == Action::Stop(Outcome::NoRequest));
}

/// Failed write. When a write is pending and anything but its success is
/// reported, the connection issues no write again, whatever is reported
/// later: it answers with the order to close or to stop, has ended after at
/// most one more report, and its count of payload bytes stays where it was.
pub proof fn lemma_failed_write_ends_stream(
    state: ConnectionState,
    event: Event,
    later: Seq<Event>,
)
    requires
        state.phase.action().is_write(),
        !(event is WriteDone),
    ensures
        state.next(event).phase.action() == Action::Close || state.next(event).phase.action()
            is Stop,
        !run(state.next(event), later).phase.action().is_write(),
        later.len() >= 1 ==> run(state.next(event), later).phase is Terminated,
        run(state.next(event), later).sent == state.sent,
{
    lemma_ends_after_last_write(state.next(event), later);
}

/// Round trip of a completed stream. The writes of a completed run add up
/// to the header block followed by a chunked body that a decoder reads back
/// as the data chunks of the stream: as many as the budget divided by the
/// chunk size, rounded up, and each of exactly the chunk size.
pub proof fn lemma_completed_stream(budget: nat, chunk_size: nat, events: Seq<Event>)
    requires
        chunk_size > 0,
        run(ConnectionState::initial(budget, chunk_size), events).phase == Phase::Terminated(
            Outcome::Completed,
        ),
    ensures
        ({
            let start = ConnectionState::initial(budget, chunk_size);
            let chunks = data_chunks(ceil_div(budget, chunk_size), chunk_size);
            &&& wire_of(issued(start, events), chunk_size) == response_header_block()
                + encode_body(chunks)
            &&& decode_body(encode_body(chunks)) == Some(chunks)
            &&& chunks.len() == ceil_div(budget, chunk_size)
            &&& forall|i: int| 0 <= i < chunks.len() ==> (#[trigger] chunks[i]).len() == chunk_size
        }),
{
    let start = ConnectionState::initial(budget, chunk_size);
    let chunks = data_chunks(ceil_div(budget, chunk_size), chunk_size);
    lemma_accounted(budget, chunk_size, events);
    lemma_chunk_count(budget, chunk_size, events);
    lemma_run_preserves_wf(start, events);
    lemma_decode_body(chunks);
}

/// The reports of a peer that sends a request of `request` bytes and then
/// takes everything: the read, and `writes` writes that all succeed.
pub open spec fn all_succeed(request: usize, writes: nat) -> Seq<Event> {
    seq![Event::ReadDone(request)] + Seq::new(writes, |i: int| Event::WriteDone)
}

proof fn lemma_one_more_write(state: ConnectionState, request: usize, writes: nat)
    ensures
        run(state, all_succeed(request, writes + 1)) == run(
            state,
            all_succeed(request, writes),
        ).next(Event::WriteDone),
{
    let longer = all_succeed(request, writes + 1);
    assert(longer.drop_last() =~= all_succeed(request, writes));
    assert(longer.last() == Event::WriteDone);
}

proof fn lemma_after_chunks(budget: nat, chunk_size: nat, request: usize, chunks: nat)
    requires
        chunk_size > 0,
        request > 0,
        chunks <= ceil_div(budget, chunk_size),
    ensures
        run(
            ConnectionState::initial(budget, chunk_size),
            all_succeed(request, 1 + 3 * chunks),
        ) == (ConnectionState {
            budget,
            chunk_size,
            sent: chunks * chunk_size,
            phase: if chunks < ceil_div(budget, chunk_size) {
                Phase::SendingSizeLine
            } else {
                Phase::SendingTerminal
            },
        }),
    decreases chunks,
{
    let start = ConnectionState::initial(budget, chunk_size);
    let most = ceil_div(budget, chunk_size);
    lemma_ceil_div_bounds(budget, chunk_size);
    assert(chunks < most ==> chunks * chunk_size < budget) by (nonlinear_arith)
        requires
            chunk_size > 0,
            most * chunk_size < budget + chunk_size,
    ;
    assert(chunks == most ==> chunks * chunk_size >= budget);
    if chunks == 0 {
        let read = all_succeed(request, 0);
        assert(read.drop_last() =~= Seq::<Event>::empty());
        assert(run(start, read.drop_last()) == start);
        assert(run(start, read) == start.at(Phase::SendingHeaders));
        lemma_one_more_write(start, request, 0);
        assert(0 * chunk_size == 0) by (nonlinear_arith);
    } else {
        let before = (chunks - 1) as nat;
        lemma_after_chunks(budget, chunk_size, request, before);
        lemma_one_more_write(start, request, 1 + 3 * before);
        lemma_one_more_write(start, request, 2 + 3 * before);
        lemma_one_more_write(start, request, 3 + 3 * before);
        assert(before * chunk_size + chunk_size == chunks * chunk_size) by (nonlinear_arith)
            requires
                before + 1 == chunks,
        ;
    }
}

/// Completion. With a peer that sends a request and takes everything, a
/// connection completes, whatever its budget and chunk size: after the read,
/// the header block, three writes for each data chunk and the terminal
/// chunk, it has ended with the whole stream sent.
pub proof fn lemma_success_completes(budget: nat, chunk_size: nat, request: usize)
    requires
        chunk_size > 0,
        request > 0,
    ensures
        ({
            let chunks = ceil_div(budget, chunk_size);
            let end = run(
                ConnectionState::initial(budget, chunk_size),
                all_succeed(request, 3 * chunks + 2),
            );
            &&& end.phase == Phase::Terminated(Outcome::Completed)
            &&& end.sent == chunks * chunk_size
        }),
{
    let chunks = ceil_div(budget, chunk_size);
    lemma_after_chunks(budget, chunk_size, request, chunks);
    lemma_one_more_write(ConnectionState::initial(budget, chunk_size), request, 1 + 3 * chunks);
}

} // verus!
