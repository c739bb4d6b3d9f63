use vstd::prelude::*;

use crate::clock::{Clock, counts, max_int, receive, tick};
use crate::codec::{CodecError, PeerMessage, decode, decoded, encode, encoding};

verus! {

/// Where the process stands in its life.
#[derive(Debug, Clone, Copy, PartialEq, Eq, Structural)]
pub enum Phase {
    /// Local commands are taken and inbound connections accepted.
    Running,
    /// No new local commands or connections; those in flight may finish.
    ShuttingDown,
    /// Nothing runs any more: the process may exit.
    Stopped,
}

/// Why the core refused an operation.
#[derive(Debug, Clone, Copy, PartialEq, Eq, Structural)]
pub enum CoreError {
    /// A payload was a message with another number of clock entries.
    MalformedClock,
    /// A payload was no message.
    MalformedMessage,
    /// The own clock entry would no longer fit in a `u64`.
    CounterOverflow,
    /// The operation is not taken in the current phase.
    NotRunning,
}

/// The phase once the in-flight count and the accept loop are as given:
/// shutting down ends when both are done.
pub open spec fn settle(phase: Phase, in_flight: nat, listening: bool) -> Phase {
    if phase == Phase::ShuttingDown && in_flight == 0 && !listening {
        Phase::Stopped
    } else {
        phase
    }
}

/// Clock entries back as `u64` values.
pub open spec fn entries(c: Seq<int>) -> Seq<u64> {
    c.map_values(|x: int| x as u64)
}

/// The error that a codec error is reported as.
pub open spec fn codec_error(e: CodecError) -> CoreError {
    match e {
        CodecError::MalformedClock => CoreError::MalformedClock,
        CodecError::MalformedMessage => CoreError::MalformedMessage,
    }
}

/// The sole owner of a process's live clock: it takes local events, send
/// requests and inbound payloads one at a time, and tracks the shutdown of
/// the accept loop and of the connections in flight.
pub struct SyncCore {
    id: Vec<u8>,
    clock: Clock,
    phase: Phase,
    in_flight: usize,
    listening: bool,
}

impl SyncCore {
    pub closed spec fn id_spec(&self) -> Seq<u8> {
        self.id@
    }

    pub closed spec fn clock_spec(&self) -> Seq<int> {
        self.clock@
    }

    pub closed spec fn own_spec(&self) -> int {
        self.clock.own_index()
    }

    pub closed spec fn phase_spec(&self) -> Phase {
        self.phase
    }

    pub closed spec fn in_flight_spec(&self) -> nat {
        self.in_flight as nat
    }

    pub closed spec fn listening_spec(&self) -> bool {
        self.listening
    }

    pub closed spec fn wf(&self) -> bool {
        &&& self.clock.wf()
        &&& self.phase == Phase::Running ==> self.listening
        &&& self.phase == Phase::Stopped ==> self.in_flight == 0 && !self.listening
    }

    /// In a well-formed core the own index stands within the clock, and every
    /// entry fits in a `u64`.
    pub proof fn lemma_wf(&self)
        requires
            self.wf(),
        ensures
            0 <= self.own_spec() < self.clock_spec().len(),
            forall|i: int|
                0 <= i < self.clock_spec().len() ==> 0 <= #[trigger] self.clock_spec()[i]
                    <= u64::MAX,
    {
    }

    /// Whether the core may take one more local event or send.
    pub open spec fn can_advance(&self) -> bool {
        self.phase_spec() == Phase::Running && self.clock_spec()[self.own_spec()] < u64::MAX
    }

    /// A running core for process `process_id`, whose counter stands at
    /// `clock_index` among `n` participants.
    pub fn new(process_id: Vec<u8>, clock_index: usize, n: usize) -> (r: SyncCore)
        requires
            clock_index < n,
        ensures
            r.wf(),
            r.id_spec() == process_id@,
            r.own_spec() == clock_index,
            r.clock_spec() == Seq::new(
                n as nat,
                |i: int| if i == clock_index { 1int } else { 0int },
            ),
            r.phase_spec() == Phase::Running,
            r.in_flight_spec() == 0,
            r.listening_spec(),
    {
        SyncCore {
            id: process_id,
            clock: Clock::new(n, clock_index),
            phase: Phase::Running,
            in_flight: 0,
            listening: true,
        }
    }

    /// A local event. Refused after shutdown began, and where the own counter
    /// is full; then nothing changes.
    pub fn on_local_event(&mut self) -> (r: Result<(), CoreError>)
        requires
            old(self).wf(),
        ensures
            final(self).wf(),
            final(self).id_spec() == old(self).id_spec(),
            final(self).own_spec() == old(self).own_spec(),
            final(self).phase_spec() == old(self).phase_spec(),
            final(self).in_flight_spec() == old(self).in_flight_spec(),
            final(self).listening_spec() == old(self).listening_spec(),
            old(self).phase_spec() != Phase::Running ==> r == Err::<(), CoreError>(
                CoreError::NotRunning,
            ),
            old(self).phase_spec() == Phase::Running && !old(self).can_advance() ==> r == Err::<
                (),
                CoreError,
            >(CoreError::CounterOverflow),
            r is Ok <==> old(self).can_advance(),
            r is Ok ==> final(self).clock_spec() == tick(
                old(self).clock_spec(),
                old(self).own_spec(),
            ),
            r is Ok ==> final(self).clock_spec()[old(self).own_spec()] == old(
                self,
            ).clock_spec()[old(self).own_spec()] + 1,
            r is Err ==> final(self).clock_spec() == old(self).clock_spec(),
    {
        if self.phase != Phase::Running {
            return Err(CoreError::NotRunning);
        }
        if !self.clock.can_tick() {
            return Err(CoreError::CounterOverflow);
        }
        self.clock.local_event();
        Ok(())
    }

    /// A send: counts as a local event, then gives the payload that carries
    /// this process's identity and its clock after that event. The event
    /// stands whatever becomes of the delivery. Refused as a local event is.
    pub fn on_send_request(&mut self) -> (r: Result<Vec<u8>, CoreError>)
        requires
            old(self).wf(),
        ensures
            final(self).wf(),
            final(self).id_spec() == old(self).id_spec(),
            final(self).own_spec() == old(self).own_spec(),
            final(self).phase_spec() == old(self).phase_spec(),
            final(self).in_flight_spec() == old(self).in_flight_spec(),
            final(self).listening_spec() == old(self).listening_spec(),
            old(self).phase_spec() != Phase::Running ==> r == Err::<Vec<u8>, CoreError>(
                CoreError::NotRunning,
            ),
            old(self).phase_spec() == Phase::Running && !old(self).can_advance() ==> r == Err::<
                Vec<u8>,
                CoreError,
            >(CoreError::CounterOverflow),
            r is Ok <==> old(self).can_advance(),
            r is Ok ==> final(self).clock_spec() == tick(
                old(self).clock_spec(),
                old(self).own_spec(),
            ),
            r is Ok ==> final(self).clock_spec()[old(self).own_spec()] == old(
                self,
            ).clock_spec()[old(self).own_spec()] + 1,
            r is Ok ==> r->Ok_0@ == encoding(old(self).id_spec(), entries(final(self).clock_spec())),
            r is Err ==> final(self).clock_spec() == old(self).clock_spec(),
    {
        if self.phase != Phase::Running {
            return Err(CoreError::NotRunning);
        }
        if !self.clock.can_tick() {
            return Err(CoreError::CounterOverflow);
        }
        self.clock.local_event();
        let msg = PeerMessage { sender: self.id.clone(), clock: self.clock.snapshot() };
        let payload = encode(&msg);
        assert(entries(counts(msg.clock@)) =~= msg.clock@);
        Ok(payload)
    }

    /// An inbound connection was accepted. Taken only while running; the
    /// connection is then in flight until its payload is handled.
    pub fn accept_connection(&mut self) -> (r: bool)
        requires
            old(self).wf(),
        ensures
            final(self).wf(),
            r == (old(self).phase_spec() == Phase::Running && old(self).in_flight_spec()
                < usize::MAX),
            r ==> final(self).in_flight_spec() == old(self).in_flight_spec() + 1,
            !r ==> final(self).in_flight_spec() == old(self).in_flight_spec(),
            final(self).id_spec() == old(self).id_spec(),
            final(self).own_spec() == old(self).own_spec(),
            final(self).clock_spec() == old(self).clock_spec(),
            final(self).phase_spec() == old(self).phase_spec(),
            final(self).listening_spec() == old(self).listening_spec(),
    {
        if self.phase == Phase::Running && self.in_flight < usize::MAX {
            self.in_flight = self.in_flight + 1;
            true
        } else {
            false
        }
    }

    /// The payload of a connection in flight: decoded, and where it is a
    /// message with one entry per participant, merged into the clock. The
    /// connection is then done, whatever the outcome; a bad payload is
    /// reported and leaves the clock as it was. Refused once stopped.
    pub fn on_inbound_payload(&mut self, payload: &[u8]) -> (r: Result<(), CoreError>)
        requires
            old(self).wf(),
        ensures
            final(self).wf(),
            final(self).id_spec() == old(self).id_spec(),
            final(self).own_spec() == old(self).own_spec(),
            final(self).listening_spec() == old(self).listening_spec(),
            old(self).phase_spec() == Phase::Stopped ==> r == Err::<(), CoreError>(
                CoreError::NotRunning,
            ) && *final(self) == *old(self),
            old(self).phase_spec() != Phase::Stopped ==> {
                &&& old(self).in_flight_spec() > 0 ==> final(self).in_flight_spec()
                    == old(self).in_flight_spec() - 1
                &&& old(self).in_flight_spec() == 0 ==> final(self).in_flight_spec() == 0
                &&& final(self).phase_spec() == settle(
                    old(self).phase_spec(),
                    final(self).in_flight_spec(),
                    old(self).listening_spec(),
                )
                &&& match decoded(payload@, old(self).clock_spec().len()) {
                    Err(e) => r == Err::<(), CoreError>(codec_error(e)),
                    Ok((s, c)) => if max_int(
                        old(self).clock_spec()[old(self).own_spec()],
                        c[old(self).own_spec()] as int,
                    ) < u64::MAX {
                        r is Ok
                    } else {
                        r == Err::<(), CoreError>(CoreError::CounterOverflow)
                    },
                }
                &&& r is Ok ==> final(self).clock_spec() == receive(
                    old(self).clock_spec(),
                    counts(decoded(payload@, old(self).clock_spec().len())->Ok_0.1),
                    old(self).own_spec(),
                )
                &&& r is Ok ==> final(self).clock_spec()[old(self).own_spec()] > old(
                    self,
                ).clock_spec()[old(self).own_spec()]
                &&& r is Err ==> final(self).clock_spec() == old(self).clock_spec()
            },
    {
        if self.phase == Phase::Stopped {
            return Err(CoreError::NotRunning);
        }
        if self.in_flight > 0 {
            self.in_flight = self.in_flight - 1;
        }
        if self.phase == Phase::ShuttingDown && self.in_flight == 0 && !self.listening {
            self.phase = Phase::Stopped;
        }
        let n = self.clock.len();
        match decode(payload, n) {
            Err(CodecError::MalformedClock) => Err(CoreError::MalformedClock),
            Err(CodecError::MalformedMessage) => Err(CoreError::MalformedMessage),
            Ok(msg) => match self.clock.merge_received(msg.clock.as_slice()) {
                Ok(()) => Ok(()),
                Err(_) => Err(CoreError::CounterOverflow),
            },
        }
    }

    /// Asks the core to shut down: no new local commands or connections are
    /// taken from here on. It stops at once where the accept loop is gone and
    /// no connection is in flight.
    pub fn request_shutdown(&mut self)
        requires
            old(self).wf(),
        ensures
            final(self).wf(),
            final(self).id_spec() == old(self).id_spec(),
            final(self).own_spec() == old(self).own_spec(),
            final(self).clock_spec() == old(self).clock_spec(),
            final(self).in_flight_spec() == old(self).in_flight_spec(),
            final(self).listening_spec() == old(self).listening_spec(),
            final(self).phase_spec() == if old(self).phase_spec() == Phase::Running {
                settle(
                    Phase::ShuttingDown,
                    old(self).in_flight_spec(),
                    old(self).listening_spec(),
                )
            } else {
                old(self).phase_spec()
            },
    {
        if self.phase == Phase::Running {
            self.phase = Phase::ShuttingDown;
            if self.in_flight == 0 && !self.listening {
                self.phase = Phase::Stopped;
            }
        }
    }

    /// The accept loop has exited and accepts nothing more.
    pub fn accept_loop_exited(&mut self)
        requires
            old(self).wf(),
            old(self).phase_spec() != Phase::Running,
        ensures
            final(self).wf(),
            final(self).id_spec() == old(self).id_spec(),
            final(self).own_spec() == old(self).own_spec(),
            final(self).clock_spec() == old(self).clock_spec(),
            final(self).in_flight_spec() == old(self).in_flight_spec(),
            !final(self).listening_spec(),
            final(self).phase_spec() == settle(
                old(self).phase_spec(),
                old(self).in_flight_spec(),
                false,
            ),
    {
        self.listening = false;
        if self.phase == Phase::ShuttingDown && self.in_flight == 0 {
            self.phase = Phase::Stopped;
        }
    }

    /// Whether the accept loop should go on accepting.
    pub fn accepting(&self) -> (r: bool)
        ensures
            r == (self.phase_spec() == Phase::Running),
    {
        self.phase == Phase::Running
    }

    pub fn phase(&self) -> (r: Phase)
        ensures
            r == self.phase_spec(),
    {
        self.phase
    }

    pub fn in_flight(&self) -> (r: usize)
        ensures
            r == self.in_flight_spec(),
    {
        self.in_flight
    }

    /// A copy of the live clock.
    pub fn snapshot(&self) -> (r: Vec<u64>)
        ensures
            counts(r@) == self.clock_spec(),
    {
        self.clock.snapshot()
    }

    /// Number of participants.
    pub fn participants(&self) -> (r: usize)
        ensures
            r == self.clock_spec().len(),
    {
        self.clock.len()
    }
}

} // verus!
