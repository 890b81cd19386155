use fast_server::connection::{Action, Connection, Event, Outcome, Phase, REQUEST_BUFFER_SIZE};
use fast_server::framing::response_headers;

/// How a simulated peer behaves.
struct Peer {
    /// How many bytes the initial read delivers.
    request: usize,
    /// The write, counted from zero, that fails; no write fails if `None`.
    failing_write: Option<usize>,
}

struct Run {
    actions: Vec<Action>,
    wire: Vec<u8>,
    writes: usize,
    connection: Connection,
}

fn is_write(action: Action) -> bool {
    matches!(
        action,
        Action::WriteHeaders
            | Action::WriteSizeLine
            | Action::WritePayload
            | Action::WriteChunkEnd
            | Action::WriteTerminal
    )
}

fn drive(budget: u64, chunk_size: usize, peer: &Peer) -> Run {
    let mut connection: Connection = Connection::new(budget, chunk_size).unwrap();
    let mut actions: Vec<Action> = Vec::new();
    let mut wire: Vec<u8> = Vec::new();
    let mut writes: usize = 0;
    let mut action: Action = connection.pending();
    loop {
        actions.push(action);
        let event: Event = match action {
            Action::ReadRequest => Event::ReadDone(peer.request),
            Action::Close => Event::CloseDone,
            Action::Stop(_) => break,
            _ => {
                let index: usize = writes;
                writes += 1;
                if peer.failing_write == Some(index) {
                    Event::Failed
                } else {
                    wire.extend(connection.wire_bytes(action));
                    Event::WriteDone
                }
            }
        };
        action = connection.step(event);
        assert!(actions.len() < 100000);
    }
    Run { actions, wire, writes, connection }
}

fn good_peer() -> Peer {
    Peer { request: 18, failing_write: None }
}

fn count(actions: &[Action], wanted: Action) -> usize {
    actions.iter().filter(|a| **a == wanted).count()
}

/// A chunked decoder: the payloads of the data chunks of `body`, which must
/// end with the terminal chunk and nothing after it.
fn decode(body: &[u8]) -> Vec<Vec<u8>> {
    let mut chunks: Vec<Vec<u8>> = Vec::new();
    let mut at: usize = 0;
    loop {
        let mut end: usize = at;
        while body[end] != b'\r' {
            end += 1;
        }
        assert!(end > at);
        assert_eq!(body[end + 1], b'\n');
        let text: &str = std::str::from_utf8(&body[at..end]).unwrap();
        let size: usize = usize::from_str_radix(text, 16).unwrap();
        let start: usize = end + 2;
        let payload: &[u8] = &body[start..start + size];
        assert_eq!(&body[start + size..start + size + 2], b"\r\n");
        at = start + size + 2;
        if size == 0 {
            assert_eq!(at, body.len());
            return chunks;
        }
        chunks.push(payload.to_vec());
    }
}

fn ceil_div(total: u64, unit: u64) -> u64 {
    total / unit + if total % unit == 0 { 0 } else { 1 }
}

#[test]
fn two_mebibytes_in_chunks_of_one() {
    let mib: usize = 1024 * 1024;
    let run: Run = drive(2 * 1024 * 1024, mib, &good_peer());
    assert_eq!(run.connection.outcome(), Some(Outcome::Completed));
    assert_eq!(count(&run.actions, Action::WritePayload), 2);
    assert_eq!(count(&run.actions, Action::WriteTerminal), 1);
    assert_eq!(run.connection.bytes_sent(), 2097152);
    let headers: Vec<u8> = response_headers();
    assert!(run.wire.starts_with(&headers));
    let body: &[u8] = &run.wire[headers.len()..];
    assert!(body.starts_with(b"100000\r\n"));
    assert!(body.ends_with(b"\r\n0\r\n\r\n"));
    let chunks: Vec<Vec<u8>> = decode(body);
    assert_eq!(chunks.len(), 2);
    assert_eq!(chunks[0].len(), 1048576);
    assert_eq!(chunks[1].len(), 1048576);
    let total: usize = chunks.iter().map(|c| c.len()).sum();
    assert_eq!(total, 2097152);
    assert_eq!(body.len(), 2 * (8 + mib + 2) + 5);
}

#[test]
fn two_mebibytes_action_by_action() {
    let run: Run = drive(2 * 1024 * 1024, 1024 * 1024, &good_peer());
    assert_eq!(
        run.actions,
        vec![
            Action::ReadRequest,
            Action::WriteHeaders,
            Action::WriteSizeLine,
            Action::WritePayload,
            Action::WriteChunkEnd,
            Action::WriteSizeLine,
            Action::WritePayload,
            Action::WriteChunkEnd,
            Action::WriteTerminal,
            Action::Stop(Outcome::Completed),
        ]
    );
}

#[test]
fn budget_of_zero_sends_only_the_terminal_chunk() {
    let run: Run = drive(0, 1024 * 1024, &good_peer());
    assert_eq!(
        run.actions,
        vec![
            Action::ReadRequest,
            Action::WriteHeaders,
            Action::WriteTerminal,
            Action::Stop(Outcome::Completed),
        ]
    );
    let mut expected: Vec<u8> = response_headers();
    expected.extend_from_slice(b"0\r\n\r\n");
    assert_eq!(run.wire, expected);
    assert_eq!(run.connection.bytes_sent(), 0);
    assert_eq!(count(&run.actions, Action::WritePayload), 0);
}

#[test]
fn chunk_count_is_the_budget_over_the_chunk_size_rounded_up() {
    let budgets: Vec<u64> = vec![0, 1, 2, 3, 4, 5, 6, 7, 8, 9, 10, 99, 100, 101, 1000];
    let sizes: Vec<usize> = vec![1, 2, 3, 4, 5, 7, 10, 64, 100, 999, 1000, 1001];
    for budget in &budgets {
        for size in &sizes {
            let run: Run = drive(*budget, *size, &good_peer());
            let chunks: u64 = count(&run.actions, Action::WritePayload) as u64;
            assert_eq!(chunks, ceil_div(*budget, *size as u64));
            let sent: u128 = run.connection.bytes_sent();
            assert_eq!(sent, chunks as u128 * *size as u128);
            assert!(sent >= *budget as u128);
            assert!(sent < *budget as u128 + *size as u128);
            assert_eq!(run.connection.outcome(), Some(Outcome::Completed));
        }
    }
}

#[test]
fn budget_that_is_no_multiple_overshoots_by_less_than_a_chunk() {
    let run: Run = drive(10, 4, &good_peer());
    assert_eq!(count(&run.actions, Action::WritePayload), 3);
    assert_eq!(run.connection.bytes_sent(), 12);
}

#[test]
fn budget_that_is_a_multiple_is_met_exactly() {
    let run: Run = drive(12, 4, &good_peer());
    assert_eq!(count(&run.actions, Action::WritePayload), 3);
    assert_eq!(run.connection.bytes_sent(), 12);
}

#[test]
fn terminal_chunk_comes_once_and_last() {
    let budgets: Vec<u64> = vec![0, 1, 5, 64, 65];
    for budget in budgets {
        let run: Run = drive(budget, 16, &good_peer());
        assert_eq!(count(&run.actions, Action::WriteTerminal), 1);
        let at: usize = run.actions.iter().position(|a| *a == Action::WriteTerminal).unwrap();
        assert_eq!(at, run.actions.len() - 2);
        assert_eq!(run.actions[at + 1], Action::Stop(Outcome::Completed));
        assert!(run.actions[..at].iter().any(|a| *a == Action::WriteHeaders));
        assert!(run.wire.ends_with(b"0\r\n\r\n"));
    }
}

#[test]
fn no_terminal_chunk_before_the_budget_is_reached() {
    let mut connection: Connection = Connection::new(100, 10).unwrap();
    let mut action: Action = connection.step(Event::ReadDone(1));
    let mut guard: usize = 0;
    while action != Action::WriteTerminal {
        assert!(connection.bytes_sent() < 100 || action == Action::WriteChunkEnd);
        action = connection.step(Event::WriteDone);
        guard += 1;
        assert!(guard < 1000);
    }
    assert_eq!(connection.bytes_sent(), 100);
    assert_eq!(connection.phase(), Phase::SendingTerminal);
}

#[test]
fn peer_that_sends_nothing_gets_nothing() {
    let peer: Peer = Peer { request: 0, failing_write: None };
    let run: Run = drive(1000, 10, &peer);
    assert_eq!(run.actions, vec![Action::ReadRequest, Action::Stop(Outcome::NoRequest)]);
    assert!(run.wire.is_empty());
    assert_eq!(run.writes, 0);
    assert_eq!(run.connection.outcome(), Some(Outcome::NoRequest));
    assert!(!run.actions.iter().any(|a| is_write(*a)));
}

#[test]
fn peer_that_sends_nothing_stays_ended() {
    let mut connection: Connection = Connection::new(1000, 10).unwrap();
    assert_eq!(connection.step(Event::ReadDone(0)), Action::Stop(Outcome::NoRequest));
    assert_eq!(connection.step(Event::WriteDone), Action::Stop(Outcome::NoRequest));
    assert_eq!(connection.step(Event::ReadDone(5)), Action::Stop(Outcome::NoRequest));
    assert_eq!(connection.step(Event::CloseDone), Action::Stop(Outcome::NoRequest));
    assert_eq!(connection.step(Event::Failed), Action::Stop(Outcome::NoRequest));
    assert_eq!(connection.bytes_sent(), 0);
}

#[test]
fn failed_read_ends_the_connection_quietly() {
    let mut connection: Connection = Connection::new(1000, 10).unwrap();
    assert_eq!(connection.step(Event::Failed), Action::Stop(Outcome::Disconnected));
    assert_eq!(connection.outcome(), Some(Outcome::Disconnected));
    assert!(!Outcome::Disconnected.is_error());
}

#[test]
fn failed_header_write_is_an_error() {
    let peer: Peer = Peer { request: 1, failing_write: Some(0) };
    let run: Run = drive(1000, 10, &peer);
    assert_eq!(
        run.actions,
        vec![Action::ReadRequest, Action::WriteHeaders, Action::Stop(Outcome::HeaderFailed)]
    );
    assert!(run.wire.is_empty());
    assert!(run.connection.outcome().unwrap().is_error());
}

#[test]
fn only_a_failed_header_write_is_an_error() {
    assert!(Outcome::HeaderFailed.is_error());
    assert!(!Outcome::Completed.is_error());
    assert!(!Outcome::NoRequest.is_error());
    assert!(!Outcome::Disconnected.is_error());
}

#[test]
fn failed_size_line_closes_and_stops() {
    let peer: Peer = Peer { request: 1, failing_write: Some(1) };
    let run: Run = drive(1000, 10, &peer);
    assert_eq!(
        run.actions,
        vec![
            Action::ReadRequest,
            Action::WriteHeaders,
            Action::WriteSizeLine,
            Action::Close,
            Action::Stop(Outcome::Disconnected),
        ]
    );
    assert_eq!(run.connection.bytes_sent(), 0);
}

#[test]
fn failed_payload_closes_and_stops() {
    let peer: Peer = Peer { request: 1, failing_write: Some(2) };
    let run: Run = drive(1000, 10, &peer);
    assert_eq!(
        run.actions,
        vec![
            Action::ReadRequest,
            Action::WriteHeaders,
            Action::WriteSizeLine,
            Action::WritePayload,
            Action::Close,
            Action::Stop(Outcome::Disconnected),
        ]
    );
    assert_eq!(run.connection.bytes_sent(), 0);
}

#[test]
fn failed_chunk_end_closes_and_stops() {
    let peer: Peer = Peer { request: 1, failing_write: Some(3) };
    let run: Run = drive(1000, 10, &peer);
    assert_eq!(
        run.actions,
        vec![
            Action::ReadRequest,
            Action::WriteHeaders,
            Action::WriteSizeLine,
            Action::WritePayload,
            Action::WriteChunkEnd,
            Action::Close,
            Action::Stop(Outcome::Disconnected),
        ]
    );
    assert_eq!(run.connection.bytes_sent(), 10);
}

#[test]
fn failed_terminal_chunk_stops_without_an_error() {
    let peer: Peer = Peer { request: 1, failing_write: Some(1) };
    let run: Run = drive(0, 10, &peer);
    assert_eq!(
        run.actions,
        vec![
            Action::ReadRequest,
            Action::WriteHeaders,
            Action::WriteTerminal,
            Action::Stop(Outcome::Disconnected),
        ]
    );
    assert!(!run.connection.outcome().unwrap().is_error());
}

#[test]
fn failure_in_mid_stream_is_the_last_write() {
    let mut failing: usize = 1;
    while failing < 3 * 7 + 1 {
        let peer: Peer = Peer { request: 1, failing_write: Some(failing) };
        let run: Run = drive(70, 10, &peer);
        assert_eq!(run.writes, failing + 1);
        let last_write: usize = run.actions.iter().rposition(|a| is_write(*a)).unwrap();
        assert_eq!(&run.actions[last_write + 1..], &[Action::Close, Action::Stop(Outcome::Disconnected)]);
        assert_eq!(count(&run.actions, Action::WriteTerminal), 0);
        assert_eq!(run.connection.outcome(), Some(Outcome::Disconnected));
        failing += 1;
    }
}

#[test]
fn after_a_failed_write_nothing_is_written_again() {
    let mut connection: Connection = Connection::new(1000, 10).unwrap();
    connection.step(Event::ReadDone(1));
    connection.step(Event::WriteDone);
    connection.step(Event::WriteDone);
    assert_eq!(connection.pending(), Action::WritePayload);
    assert_eq!(connection.step(Event::Failed), Action::Close);
    assert_eq!(connection.step(Event::WriteDone), Action::Stop(Outcome::Disconnected));
    assert_eq!(connection.step(Event::WriteDone), Action::Stop(Outcome::Disconnected));
    assert_eq!(connection.step(Event::ReadDone(9)), Action::Stop(Outcome::Disconnected));
}

#[test]
fn close_result_does_not_matter() {
    let events: Vec<Event> = vec![Event::CloseDone, Event::Failed, Event::WriteDone, Event::ReadDone(3)];
    for event in events {
        let mut connection: Connection = Connection::new(1000, 10).unwrap();
        connection.step(Event::ReadDone(1));
        connection.step(Event::WriteDone);
        assert_eq!(connection.step(Event::Failed), Action::Close);
        assert_eq!(connection.phase(), Phase::Closing);
        assert_eq!(connection.step(event), Action::Stop(Outcome::Disconnected));
    }
}

#[test]
fn event_that_does_not_fit_counts_as_a_failure() {
    let mut connection: Connection = Connection::new(1000, 10).unwrap();
    assert_eq!(connection.step(Event::WriteDone), Action::Stop(Outcome::Disconnected));
    let mut connection: Connection = Connection::new(1000, 10).unwrap();
    connection.step(Event::ReadDone(1));
    assert_eq!(connection.step(Event::ReadDone(1)), Action::Stop(Outcome::HeaderFailed));
    let mut connection: Connection = Connection::new(1000, 10).unwrap();
    connection.step(Event::ReadDone(1));
    connection.step(Event::WriteDone);
    assert_eq!(connection.step(Event::CloseDone), Action::Close);
}

#[test]
fn every_request_gets_the_same_headers() {
    let sizes: Vec<usize> = vec![1, 2, 100, REQUEST_BUFFER_SIZE, REQUEST_BUFFER_SIZE + 1, usize::MAX];
    for size in sizes {
        let mut connection: Connection = Connection::new(5, 10).unwrap();
        assert_eq!(connection.step(Event::ReadDone(size)), Action::WriteHeaders);
        assert_eq!(connection.wire_bytes(Action::WriteHeaders), response_headers());
    }
}

#[test]
fn fresh_connection_waits_for_the_request() {
    let connection: Connection = Connection::new(77, 5).unwrap();
    assert_eq!(connection.pending(), Action::ReadRequest);
    assert_eq!(connection.phase(), Phase::ReadingRequest);
    assert_eq!(connection.outcome(), None);
    assert_eq!(connection.bytes_sent(), 0);
    assert_eq!(connection.budget(), 77);
    assert_eq!(connection.chunk_size(), 5);
}

#[test]
fn chunk_size_of_zero_is_refused() {
    assert!(Connection::new(0, 0).is_none());
    assert!(Connection::new(1000, 0).is_none());
    assert!(Connection::new(u64::MAX, 0).is_none());
    assert!(Connection::new(1000, 1).is_some());
}

#[test]
fn request_buffer_holds_four_kibibytes() {
    assert_eq!(REQUEST_BUFFER_SIZE, 4096);
}

#[test]
fn pending_is_the_answer_to_the_last_event() {
    let mut connection: Connection = Connection::new(25, 10).unwrap();
    let mut guard: usize = 0;
    loop {
        let action: Action = connection.pending();
        let event: Event = match action {
            Action::ReadRequest => Event::ReadDone(4),
            Action::Stop(_) => break,
            _ => Event::WriteDone,
        };
        let answer: Action = connection.step(event);
        assert_eq!(answer, connection.pending());
        guard += 1;
        assert!(guard < 100);
    }
    assert_eq!(connection.bytes_sent(), 30);
}

#[test]
fn budget_and_chunk_size_never_change() {
    let mut connection: Connection = Connection::new(25, 10).unwrap();
    let events: Vec<Event> = vec![
        Event::ReadDone(4),
        Event::WriteDone,
        Event::WriteDone,
        Event::WriteDone,
        Event::WriteDone,
        Event::Failed,
        Event::CloseDone,
        Event::WriteDone,
    ];
    for event in events {
        connection.step(event);
        assert_eq!(connection.budget(), 25);
        assert_eq!(connection.chunk_size(), 10);
    }
}

#[test]
fn count_advances_when_the_payload_is_written() {
    let mut connection: Connection = Connection::new(25, 10).unwrap();
    connection.step(Event::ReadDone(4));
    connection.step(Event::WriteDone);
    assert_eq!(connection.pending(), Action::WriteSizeLine);
    connection.step(Event::WriteDone);
    assert_eq!(connection.bytes_sent(), 0);
    assert_eq!(connection.pending(), Action::WritePayload);
    connection.step(Event::WriteDone);
    assert_eq!(connection.bytes_sent(), 10);
    assert_eq!(connection.pending(), Action::WriteChunkEnd);
    connection.step(Event::WriteDone);
    assert_eq!(connection.bytes_sent(), 10);
}

#[test]
fn count_may_pass_the_largest_budget() {
    let half: usize = 1usize << (usize::BITS - 1);
    let mut connection: Connection = Connection::new(u64::MAX, half).unwrap();
    let mut action: Action = connection.step(Event::ReadDone(1));
    let mut payloads: u32 = 0;
    let mut guard: usize = 0;
    while !matches!(action, Action::Stop(_)) {
        if action == Action::WritePayload {
            payloads += 1;
        }
        action = connection.step(Event::WriteDone);
        guard += 1;
        assert!(guard < 100000);
    }
    assert_eq!(action, Action::Stop(Outcome::Completed));
    let sent: u128 = connection.bytes_sent();
    assert_eq!(sent, payloads as u128 * half as u128);
    assert!(sent >= u64::MAX as u128);
    assert!(sent < u64::MAX as u128 + half as u128);
}

#[test]
fn wire_bytes_of_each_action() {
    let connection: Connection = Connection::new(100, 26).unwrap();
    assert_eq!(connection.wire_bytes(Action::WriteHeaders), response_headers());
    assert_eq!(connection.wire_bytes(Action::WriteSizeLine), b"1a\r\n".to_vec());
    assert_eq!(connection.wire_bytes(Action::WritePayload), vec![0u8; 26]);
    assert_eq!(connection.wire_bytes(Action::WriteChunkEnd), b"\r\n".to_vec());
    assert_eq!(connection.wire_bytes(Action::WriteTerminal), b"0\r\n\r\n".to_vec());
    assert!(connection.wire_bytes(Action::ReadRequest).is_empty());
    assert!(connection.wire_bytes(Action::Close).is_empty());
    assert!(connection.wire_bytes(Action::Stop(Outcome::Completed)).is_empty());
}

#[test]
fn decoder_recovers_every_chunk_at_its_full_size() {
    let cases: Vec<(u64, usize)> = vec![(0, 1), (1, 1), (5, 1), (10, 3), (100, 16), (1000, 255), (4096, 4096), (70000, 65536)];
    for (budget, size) in cases {
        let run: Run = drive(budget, size, &good_peer());
        let headers: Vec<u8> = response_headers();
        assert!(run.wire.starts_with(&headers));
        let chunks: Vec<Vec<u8>> = decode(&run.wire[headers.len()..]);
        assert_eq!(chunks.len() as u64, ceil_div(budget, size as u64));
        for chunk in &chunks {
            assert_eq!(chunk.len(), size);
            assert!(chunk.iter().all(|b| *b == 0));
        }
    }
}

#[test]
fn small_stream_byte_for_byte() {
    let run: Run = drive(3, 2, &good_peer());
    let mut expected: Vec<u8> = response_headers();
    expected.extend_from_slice(b"2\r\n\0\0\r\n2\r\n\0\0\r\n0\r\n\r\n");
    assert_eq!(run.wire, expected);
}

#[test]
fn willing_peer_sees_three_writes_per_chunk_and_two_more() {
    let cases: Vec<(u64, usize)> = vec![(0, 4), (1, 4), (4, 4), (10, 4), (12, 4), (13, 4), (1000, 7)];
    for (budget, size) in cases {
        let run: Run = drive(budget, size, &good_peer());
        let chunks: usize = ceil_div(budget, size as u64) as usize;
        assert_eq!(run.writes, 3 * chunks + 2);
        assert_eq!(run.actions.len(), 1 + run.writes + 1);
        assert_eq!(run.connection.outcome(), Some(Outcome::Completed));
    }
    let run: Run = drive(10, 4, &good_peer());
    assert_eq!(run.writes, 11);
}
