//! One connection, from the first read to the end of the stream.
//!
//! A [`Connection`] performs no I/O. It tells its driver what to do next (an
//! [`Action`]) and is told how that went (an [`Event`]). Each action is one
//! read, one write or one close on the socket, so the driver suspends exactly
//! where the connection waits. The bytes of each write are those of
//! [`wire`]; the payload of a data chunk is a run of zero bytes of the
//! connection's chunk size.

use vstd::prelude::*;
use crate::framing::{
    chunk_end, chunk_size_line, crlf, payload, response_header_block, response_headers,
    size_line, terminal_chunk, terminal_marker, zero_payload,
};

verus! {

/// How a connection ended.
#[derive(Clone, Copy, Debug, PartialEq, Eq, Structural)]
pub enum Outcome {
    /// The whole stream was sent, terminal chunk included.
    Completed,
    /// The peer closed before it sent a single byte; nothing was written.
    NoRequest,
    /// The header block could not be written. The only outcome that a
    /// driver reports as an error.
    HeaderFailed,
    /// A read or a write failed after the connection was established. The
    /// peer is taken to have gone away; this is an ordinary end.
    Disconnected,
}

/// Where a connection stands: the operation whose result it waits for.
#[derive(Clone, Copy, Debug, PartialEq, Eq, Structural)]
pub enum Phase {
    /// Waiting for the initial read.
    ReadingRequest,
    /// Waiting for the write of the header block.
    SendingHeaders,
    /// Streaming: waiting for the write of a chunk's size line.
    SendingSizeLine,
    /// Streaming: waiting for the write of a chunk's payload.
    SendingPayload,
    /// Streaming: waiting for the write of the terminator after a payload.
    SendingChunkEnd,
    /// Waiting for the write of the terminal chunk.
    SendingTerminal,
    /// Waiting for the socket to be closed after a failed write.
    Closing,
    /// Done; no operation is pending.
    Terminated(Outcome),
}

/// What the driver reports back: how the pending operation went.
#[derive(Clone, Copy, Debug, PartialEq, Eq, Structural)]
pub enum Event {
    /// The read returned this many bytes; zero means the peer has closed.
    ReadDone(usize),
    /// The write handed every byte to the socket.
    WriteDone,
    /// The attempt to close the socket has returned, whatever its result.
    CloseDone,
    /// The pending read or write failed.
    Failed,
}

/// What the driver is to do next.
#[derive(Clone, Copy, Debug, PartialEq, Eq, Structural)]
pub enum Action {
    /// Read once from the socket, into a buffer of [`REQUEST_BUFFER_SIZE`]
    /// bytes; the content is discarded.
    ReadRequest,
    /// Write the header block.
    WriteHeaders,
    /// Write the size line of a data chunk.
    WriteSizeLine,
    /// Write the payload of a data chunk.
    WritePayload,
    /// Write the terminator that follows a payload.
    WriteChunkEnd,
    /// Write the terminal chunk.
    WriteTerminal,
    /// Try to close the socket.
    Close,
    /// End the task with this outcome.
    Stop(Outcome),
}

/// The capacity of the buffer for the initial read.
pub const REQUEST_BUFFER_SIZE: usize = 4096;

impl Outcome {
    /// Whether a driver reports this outcome as an error to whoever started
    /// the task. Every other outcome is a clean end.
    pub fn is_error(&self) -> (r: bool)
        ensures
            r == (*self == Outcome::HeaderFailed),
    {
        match self {
            Outcome::HeaderFailed => true,
            _ => false,
        }
    }
}

impl Phase {
    /// The operation that a connection in this phase waits for.
    pub open spec fn action(self) -> Action {
        match self {
            Phase::ReadingRequest => Action::ReadRequest,
            Phase::SendingHeaders => Action::WriteHeaders,
            Phase::SendingSizeLine => Action::WriteSizeLine,
            Phase::SendingPayload => Action::WritePayload,
            Phase::SendingChunkEnd => Action::WriteChunkEnd,
            Phase::SendingTerminal => Action::WriteTerminal,
            Phase::Closing => Action::Close,
            Phase::Terminated(outcome) => Action::Stop(outcome),
        }
    }
}

impl Action {
    /// Whether this action writes to the socket.
    pub open spec fn is_write(self) -> bool {
        match self {
            Action::WriteHeaders
            | Action::WriteSizeLine
            | Action::WritePayload
            | Action::WriteChunkEnd
            | Action::WriteTerminal => true,
            _ => false,
        }
    }
}

/// The bytes that `action` puts on the wire for a connection with chunks of
/// `chunk_size` bytes; empty for an action that writes nothing.
pub open spec fn wire(action: Action, chunk_size: nat) -> Seq<u8> {
    match action {
        Action::WriteHeaders => response_header_block(),
        Action::WriteSizeLine => size_line(chunk_size),
        Action::WritePayload => zero_payload(chunk_size),
        Action::WriteChunkEnd => crlf(),
        Action::WriteTerminal => terminal_marker(),
        _ => Seq::empty(),
    }
}

/// The mathematical state of a connection.
pub struct ConnectionState {
    /// The byte budget: streaming goes on while fewer bytes have been sent.
    pub budget: nat,
    /// The payload size of every data chunk.
    pub chunk_size: nat,
    /// The running count of payload bytes written so far.
    pub sent: nat,
    /// The operation that the connection waits for.
    pub phase: Phase,
}

impl ConnectionState {
    /// A fresh connection, about to read the request.
    pub open spec fn initial(budget: nat, chunk_size: nat) -> ConnectionState {
        ConnectionState { budget, chunk_size, sent: 0, phase: Phase::ReadingRequest }
    }

    /// The same connection in another phase.
    pub open spec fn at(self, phase: Phase) -> ConnectionState {
        ConnectionState { phase, ..self }
    }

    /// The test at the head of the streaming loop: another chunk while the
    /// count is under the budget, the terminal chunk once it is not.
    pub open spec fn resume(self) -> ConnectionState {
        if self.sent < self.budget {
            self.at(Phase::SendingSizeLine)
        } else {
            self.at(Phase::SendingTerminal)
        }
    }

    /// The state after `event`. In every phase, an event other than the
    /// success of the pending operation counts as its failure.
    pub open spec fn next(self, event: Event) -> ConnectionState {
        match self.phase {
            Phase::ReadingRequest => match event {
                Event::ReadDone(n) => if n > 0 {
                    self.at(Phase::SendingHeaders)
                } else {
                    self.at(Phase::Terminated(Outcome::NoRequest))
                },
                _ => self.at(Phase::Terminated(Outcome::Disconnected)),
            },
            Phase::SendingHeaders => if event is WriteDone {
                self.resume()
            } else {
                self.at(Phase::Terminated(Outcome::HeaderFailed))
            },
            Phase::SendingSizeLine => if event is WriteDone {
                self.at(Phase::SendingPayload)
            } else {
                self.at(Phase::Closing)
            },
            Phase::SendingPayload => if event is WriteDone {
                ConnectionState {
                    sent: self.sent + self.chunk_size,
                    phase: Phase::SendingChunkEnd,
                    ..self
                }
            } else {
                self.at(Phase::Closing)
            },
            Phase::SendingChunkEnd => if event is WriteDone {
                self.resume()
            } else {
                self.at(Phase::Closing)
            },
            Phase::SendingTerminal => if event is WriteDone {
                self.at(Phase::Terminated(Outcome::Completed))
            } else {
                self.at(Phase::Terminated(Outcome::Disconnected))
            },
            Phase::Closing => self.at(Phase::Terminated(Outcome::Disconnected)),
            Phase::Terminated(_) => self,
        }
    }

    /// What holds of every state that a connection can be in: the chunk size
    /// is positive, and the count stands where the phase says it does. In
    /// particular the count never reaches the budget plus one chunk.
    pub open spec fn wf(self) -> bool {
        &&& self.chunk_size > 0
        &&& match self.phase {
            Phase::ReadingRequest | Phase::SendingHeaders => self.sent == 0,
            Phase::SendingSizeLine | Phase::SendingPayload => self.sent < self.budget,
            Phase::SendingChunkEnd => self.chunk_size <= self.sent < self.budget
                + self.chunk_size,
            Phase::SendingTerminal => self.budget <= self.sent < self.budget + self.chunk_size,
            Phase::Closing => self.sent < self.budget + self.chunk_size,
            Phase::Terminated(outcome) => match outcome {
                Outcome::Completed => self.budget <= self.sent < self.budget + self.chunk_size,
                Outcome::NoRequest | Outcome::HeaderFailed => self.sent == 0,
                Outcome::Disconnected => self.sent < self.budget + self.chunk_size,
            },
        }
    }
}

/// No event leads a well-formed connection to a state that is not. Budget
/// and chunk size never change, and the count never falls.
pub proof fn lemma_next_preserves_wf(state: ConnectionState, event: Event)
    requires
        state.wf(),
    ensures
        state.next(event).wf(),
        state.next(event).budget == state.budget,
        state.next(event).chunk_size == state.chunk_size,
        state.sent <= state.next(event).sent,
{
}

/// One connection: its budget, its chunk size, the running count of payload
/// bytes, and the phase it is in.
pub struct Connection {
    budget: u64,
    chunk_size: usize,
    sent: u128,
    phase: Phase,
}

impl View for Connection {
    type V = ConnectionState;

    closed spec fn view(&self) -> ConnectionState {
        ConnectionState {
            budget: self.budget as nat,
            chunk_size: self.chunk_size as nat,
            sent: self.sent as nat,
            phase: self.phase,
        }
    }
}

impl Connection {
    #[verifier::type_invariant]
    spec fn well_formed(self) -> bool {
        self@.wf()
    }

    /// A connection that will stream at least `budget` payload bytes in
    /// chunks of `chunk_size` bytes. There is none for a chunk size of zero:
    /// a chunk of size zero is the terminal chunk.
    pub fn new(budget: u64, chunk_size: usize) -> (made: Option<Connection>)
        ensures
            made is None <==> chunk_size == 0,
            made matches Some(c) ==> c@ == ConnectionState::initial(
                budget as nat,
                chunk_size as nat,
            ),
    {
        if chunk_size == 0 {
            None
        } else {
            Some(Connection::with_chunks(budget, chunk_size))
        }
    }

    pub(crate) fn with_chunks(budget: u64, chunk_size: usize) -> (made: Connection)
        requires
            chunk_size > 0,
        ensures
            made@ == ConnectionState::initial(budget as nat, chunk_size as nat),
    {
        Connection { budget, chunk_size, sent: 0, phase: Phase::ReadingRequest }
    }

    /// The byte budget.
    pub fn budget(&self) -> (r: u64)
        ensures
            r == self@.budget,
    {
        self.budget
    }

    /// The payload size of every data chunk; never zero.
    pub fn chunk_size(&self) -> (r: usize)
        ensures
            r == self@.chunk_size,
            r > 0,
    {
        proof {
            use_type_invariant(self);
        }
        self.chunk_size
    }

    /// The running count of payload bytes written so far. It is under the
    /// budget plus one chunk, whatever the two are.
    pub fn bytes_sent(&self) -> (r: u128)
        ensures
            r == self@.sent,
            r < self@.budget + self@.chunk_size,
    {
        proof {
            use_type_invariant(self);
        }
        self.sent
    }

    /// The phase the connection is in. Whatever it is, the connection is in
    /// a well-formed state.
    pub fn phase(&self) -> (r: Phase)
        ensures
            r == self@.phase,
            self@.wf(),
    {
        proof {
            use_type_invariant(self);
        }
        self.phase
    }

    /// How the connection ended, once it has.
    pub fn outcome(&self) -> (r: Option<Outcome>)
        ensures
            r == match self@.phase {
                Phase::Terminated(outcome) => Some(outcome),
                _ => None,
            },
    {
        match self.phase {
            Phase::Terminated(outcome) => Some(outcome),
            _ => None,
        }
    }

    /// The operation that the connection waits for. For a fresh connection
    /// this is the initial read.
    pub fn pending(&self) -> (action: Action)
        ensures
            action == self@.phase.action(),
    {
        match self.phase {
            Phase::ReadingRequest => Action::ReadRequest,
            Phase::SendingHeaders => Action::WriteHeaders,
            Phase::SendingSizeLine => Action::WriteSizeLine,
            Phase::SendingPayload => Action::WritePayload,
            Phase::SendingChunkEnd => Action::WriteChunkEnd,
            Phase::SendingTerminal => Action::WriteTerminal,
            Phase::Closing => Action::Close,
            Phase::Terminated(outcome) => Action::Stop(outcome),
        }
    }

    /// Takes the result of the pending operation and answers with the next
    /// one.
    pub fn step(&mut self, event: Event) -> (action: Action)
        ensures
            final(self)@ == old(self)@.next(event),
            action == final(self)@.phase.action(),
            final(self)@.wf(),
    {
        proof {
            use_type_invariant(&*self);
            lemma_next_preserves_wf(self@, event);
        }
        let done: bool = match event {
            Event::WriteDone => true,
            _ => false,
        };
        let mut sent: u128 = self.sent;
        let phase: Phase = match self.phase {
            Phase::ReadingRequest => match event {
                Event::ReadDone(n) => if n > 0 {
                    Phase::SendingHeaders
                } else {
                    Phase::Terminated(Outcome::NoRequest)
                },
                _ => Phase::Terminated(Outcome::Disconnected),
            },
            Phase::SendingHeaders => if done {
                self.loop_head()
            } else {
                Phase::Terminated(Outcome::HeaderFailed)
            },
            Phase::SendingSizeLine => if done {
                Phase::SendingPayload
            } else {
                Phase::Closing
            },
            Phase::SendingPayload => if done {
                sent = sent + self.chunk_size as u128;
                Phase::SendingChunkEnd
            } else {
                Phase::Closing
            },
            Phase::SendingChunkEnd => if done {
                self.loop_head()
            } else {
                Phase::Closing
            },
            Phase::SendingTerminal => if done {
                Phase::Terminated(Outcome::Completed)
            } else {
                Phase::Terminated(Outcome::Disconnected)
            },
            Phase::Closing => Phase::Terminated(Outcome::Disconnected),
            Phase::Terminated(outcome) => Phase::Terminated(outcome),
        };
        *self = Connection { budget: self.budget, chunk_size: self.chunk_size, sent, phase };
        self.pending()
    }

    /// The bytes to write for `action`; empty for an action that writes
    /// nothing.
    pub fn wire_bytes(&self, action: Action) -> (out: Vec<u8>)
        ensures
            out@ == wire(action, self@.chunk_size),
    {
        match action {
            Action::WriteHeaders => response_headers(),
            Action::WriteSizeLine => chunk_size_line(self.chunk_size),
            Action::WritePayload => payload(self.chunk_size),
            Action::WriteChunkEnd => chunk_end(),
            Action::WriteTerminal => terminal_chunk(),
            _ => Vec::new(),
        }
    }

    fn loop_head(&self) -> (phase: Phase)
        ensures
            phase == self@.resume().phase,
    {
        if self.sent < self.budget as u128 {
            Phase::SendingSizeLine
        } else {
            Phase::SendingTerminal
        }
    }
}

} // verus!
