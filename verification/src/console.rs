//! The console: one serial device that every participant writes to, behind
//! a lock.
//!
//! The device is set up by whoever asks for the console first. A write
//! takes the lock, sends its whole text, and gives the lock back, so the
//! texts of two writers never mix. The device itself is kept as the stream
//! of bytes that were sent to it.

use vstd::prelude::*;
use vstd::string::StringSliceAdditionalSpecFns;

verus! {

/// The failure of a write to the device.
#[derive(Debug, Clone, Copy, PartialEq, Eq)]
pub struct Error;

/// What is known of the serial device.
pub struct Device {
    /// The device has been set up and takes bytes.
    pub initialized: bool,
    /// The bytes sent so far, in order.
    pub transmitted: Seq<u8>,
}

/// The serial device at a fixed address.
#[derive(Debug)]
pub struct Uart {
    base_address: usize,
    initialized: bool,
    transmitted: Vec<u8>,
}

impl Uart {
    /// What is known of the device.
    pub closed spec fn view(&self) -> Device {
        Device { initialized: self.initialized, transmitted: self.transmitted@ }
    }

    /// The address that the device answers at.
    pub closed spec fn address(&self) -> usize {
        self.base_address
    }

    /// The device at `base_address`, not yet set up.
    pub fn new(base_address: usize) -> (uart: Uart)
        ensures
            uart.address() == base_address,
            uart@ == (Device { initialized: false, transmitted: Seq::empty() }),
    {
        Uart { base_address, initialized: false, transmitted: Vec::new() }
    }

    /// Sets the device up. What was sent stays sent.
    pub fn init(&mut self)
        ensures
            final(self).address() == old(self).address(),
            final(self)@ == (Device { initialized: true, ..old(self)@ }),
    {
        self.initialized = true;
    }

    /// Sends the bytes of `out`. A device that has not been set up takes
    /// nothing and reports the failure.
    pub fn write_str(&mut self, out: &str) -> (res: Result<(), Error>)
        ensures
            final(self).address() == old(self).address(),
            res is Ok <==> old(self)@.initialized,
            res is Ok ==> final(self)@ == (Device {
                transmitted: old(self)@.transmitted + out.spec_bytes(),
                ..old(self)@
            }),
            res is Err ==> final(self)@ == old(self)@,
    {
        if !self.initialized {
            return Err(Error);
        }
        let ghost before = self.transmitted@;
        self.transmitted.extend_from_slice(out.as_bytes());
        assert(self.transmitted@ =~= before + out.spec_bytes());
        Ok(())
    }

    /// The address that the device answers at.
    pub fn base_address(&self) -> (address: usize)
        ensures
            address == self.address(),
    {
        self.base_address
    }

    /// The bytes sent so far, in order.
    pub fn transmitted(&self) -> (bytes: &Vec<u8>)
        ensures
            bytes@ == self@.transmitted,
    {
        &self.transmitted
    }
}

/// The address of the serial device.
pub const UART_BASE_ADDRESS: usize = 0x1000_0000;

/// What is known of the console.
pub struct ConsoleState {
    /// The device, once somebody has asked for the console.
    pub device: Option<Device>,
    /// Somebody holds the lock.
    pub locked: bool,
}

/// The console: the device, set up on first use, and the lock that guards
/// it.
#[derive(Debug)]
pub struct Console {
    uart: Option<Uart>,
    locked: bool,
}

impl Console {
    /// What is known of the console.
    pub closed spec fn view(&self) -> ConsoleState {
        ConsoleState {
            device: match self.uart {
                Some(uart) => Some(uart@),
                None => None,
            },
            locked: self.locked,
        }
    }

    /// The console before anybody has asked for it: no device, lock free.
    pub fn new() -> (console: Console)
        ensures
            console@ == (ConsoleState { device: None, locked: false }),
    {
        Console { uart: None, locked: false }
    }

    /// Whether the device has been set up.
    pub fn has_device(&self) -> (yes: bool)
        ensures
            yes == self@.device is Some,
    {
        self.uart.is_some()
    }

    /// Whether somebody holds the lock.
    pub fn is_locked(&self) -> (yes: bool)
        ensures
            yes == self@.locked,
    {
        self.locked
    }

    /// The bytes sent to the device so far; none before it is set up.
    pub fn output(&self) -> (bytes: Vec<u8>)
        ensures
            bytes@ == match self@.device {
                Some(device) => device.transmitted,
                None => Seq::empty(),
            },
    {
        match &self.uart {
            Some(uart) => uart.transmitted().clone(),
            None => Vec::new(),
        }
    }

    /// One try at the lock: the caller has it if and only if nobody held
    /// it. Held it stays, by the caller or by who held it before.
    pub fn try_lock(&mut self) -> (won: bool)
        ensures
            won == !old(self)@.locked,
            final(self)@ == (ConsoleState { locked: true, ..old(self)@ }),
    {
        let won = !self.locked;
        self.locked = true;
        won
    }

    /// Gives the lock back. For the caller that holds it.
    pub fn unlock(&mut self)
        requires
            old(self)@.locked,
        ensures
            final(self)@ == (ConsoleState { locked: false, ..old(self)@ }),
    {
        self.locked = false;
    }

    /// Sets the device up if nobody has. For the caller that holds the
    /// lock: it looks again under the lock, so that of two callers that both
    /// found no device only the first makes one.
    pub fn install_device(&mut self)
        requires
            old(self)@.locked,
        ensures
            final(self)@.locked,
            old(self)@.device is Some ==> final(self)@ == old(self)@,
            old(self)@.device is None ==> final(self)@.device == Some(
                Device { initialized: true, transmitted: Seq::empty() },
            ),
    {
        if self.uart.is_none() {
            let mut uart = Uart::new(UART_BASE_ADDRESS);
            uart.init();
            self.uart = Some(uart);
        }
    }

    /// Asks for the console: sets the device up if nobody has, under the
    /// lock, and leaves the lock as it was. With a device in place nothing
    /// changes and the lock is not touched.
    pub fn get(&mut self)
        requires
            old(self)@.device is None ==> !old(self)@.locked,
        ensures
            final(self)@.locked == old(self)@.locked,
            old(self)@.device is Some ==> final(self)@ == old(self)@,
            old(self)@.device is None ==> final(self)@.device == Some(
                Device { initialized: true, transmitted: Seq::empty() },
            ),
    {
        if self.uart.is_none() {
            let won = self.try_lock();
            assert(won);
            self.install_device();
            self.unlock();
        }
    }

    /// Sends `out` to the device. For the caller that holds the lock.
    pub fn write_locked(&mut self, out: &str) -> (res: Result<(), Error>)
        requires
            old(self)@.locked,
            old(self)@.device is Some,
        ensures
            final(self)@.locked,
            final(self)@.device is Some,
            res is Ok <==> old(self)@.device.unwrap().initialized,
            res is Ok ==> final(self)@.device.unwrap() == (Device {
                transmitted: old(self)@.device.unwrap().transmitted + out.spec_bytes(),
                ..old(self)@.device.unwrap()
            }),
            res is Err ==> final(self)@ == old(self)@,
    {
        let mut uart = self.uart.take().unwrap();
        let res = uart.write_str(out);
        self.uart = Some(uart);
        res
    }

    /// Writes `out`: takes the lock, sends the whole text, gives the lock
    /// back, and hands on what the device answered.
    pub fn write_str(&mut self, out: &str) -> (res: Result<(), Error>)
        requires
            !old(self)@.locked,
            old(self)@.device is Some,
        ensures
            !final(self)@.locked,
            final(self)@.device is Some,
            res is Ok <==> old(self)@.device.unwrap().initialized,
            res is Ok ==> final(self)@.device.unwrap() == (Device {
                transmitted: old(self)@.device.unwrap().transmitted + out.spec_bytes(),
                ..old(self)@.device.unwrap()
            }),
            res is Err ==> final(self)@ == old(self)@,
    {
        let won = self.try_lock();
        assert(won);
        let res = self.write_locked(out);
        self.unlock();
        res
    }
}

/// What one writer does to the console in one step.
pub enum Step {
    /// One try at the lock, as `try_lock` makes it.
    TryLock,
    /// Bytes sent to the device, as `write_locked` sends them.
    Send(Seq<u8>),
    /// The lock given back, as `unlock` gives it.
    Unlock,
}

/// One step, and the writer that takes it.
pub struct Event {
    pub writer: nat,
    pub step: Step,
}

/// One write: what one writer sent while it held the lock.
pub struct Write {
    pub writer: nat,
    pub text: Seq<u8>,
}

/// The console as several writers use it at once: the lock, who holds it,
/// the stream of bytes that the device got, and the writes so far in the
/// order in which the lock was won.
pub struct Session {
    pub locked: bool,
    pub holder: nat,
    pub output: Seq<u8>,
    pub writes: Seq<Write>,
}

impl Session {
    /// The console with its device set up, before any write.
    pub open spec fn start() -> Session {
        Session { locked: false, holder: 0, output: Seq::empty(), writes: Seq::empty() }
    }

    /// Whether a writer that writes as `write_str` does can take this step
    /// now: it may always try the lock, and it sends and unlocks only
    /// while it holds the lock.
    pub open spec fn allows(self, event: Event) -> bool {
        match event.step {
            Step::TryLock => true,
            Step::Send(_) => self.locked && self.holder == event.writer,
            Step::Unlock => self.locked && self.holder == event.writer,
        }
    }

    /// The console after the step. A try at a held lock changes nothing; a
    /// try at the free lock begins a write.
    pub open spec fn after(self, event: Event) -> Session {
        match event.step {
            Step::TryLock => if self.locked {
                self
            } else {
                Session {
                    locked: true,
                    holder: event.writer,
                    writes: self.writes.push(Write { writer: event.writer, text: Seq::empty() }),
                    ..self
                }
            },
            Step::Send(bytes) => Session {
                output: self.output + bytes,
                writes: self.writes.update(
                    self.writes.len() - 1,
                    Write { writer: event.writer, text: self.writes.last().text + bytes },
                ),
                ..self
            },
            Step::Unlock => Session { locked: false, ..self },
        }
    }

    /// What `Console` shows of the session: its device, set up, with the
    /// stream so far, and its lock.
    pub open spec fn console(self) -> ConsoleState {
        ConsoleState {
            device: Some(Device { initialized: true, transmitted: self.output }),
            locked: self.locked,
        }
    }

    /// The console after all steps of `trace`, from the start.
    pub open spec fn run(trace: Seq<Event>) -> Session
        decreases trace.len(),
    {
        if trace.len() == 0 {
            Session::start()
        } else {
            Session::run(trace.drop_last()).after(trace.last())
        }
    }

    /// Every step of `trace` was allowed when it was taken.
    pub open spec fn follows_protocol(trace: Seq<Event>) -> bool
        decreases trace.len(),
    {
        trace.len() == 0 || (Session::follows_protocol(trace.drop_last()) && Session::run(
            trace.drop_last(),
        ).allows(trace.last()))
    }
}

/// The texts of `writes`, one after the other.
pub open spec fn joined(writes: Seq<Write>) -> Seq<u8>
    decreases writes.len(),
{
    if writes.len() == 0 {
        Seq::empty()
    } else {
        joined(writes.drop_last()) + writes.last().text
    }
}

/// The texts of the writes of `writer` among `writes`, one after the other.
pub open spec fn written_by(writes: Seq<Write>, writer: nat) -> Seq<u8>
    decreases writes.len(),
{
    if writes.len() == 0 {
        Seq::empty()
    } else if writes.last().writer == writer {
        written_by(writes.drop_last(), writer) + writes.last().text
    } else {
        written_by(writes.drop_last(), writer)
    }
}

/// All bytes that `writer` sent in `trace`, in order.
pub open spec fn sent_by(trace: Seq<Event>, writer: nat) -> Seq<u8>
    decreases trace.len(),
{
    if trace.len() == 0 {
        Seq::empty()
    } else {
        match trace.last().step {
            Step::Send(bytes) if trace.last().writer == writer => sent_by(
                trace.drop_last(),
                writer,
            ) + bytes,
            _ => sent_by(trace.drop_last(), writer),
        }
    }
}

proof fn lemma_extend_last_write(writes: Seq<Write>, bytes: Seq<u8>, writer: nat)
    requires
        writes.len() > 0,
    ensures
        joined(
            writes.update(
                writes.len() - 1,
                Write { writer: writes.last().writer, text: writes.last().text + bytes },
            ),
        ) == joined(writes) + bytes,
        written_by(
            writes.update(
                writes.len() - 1,
                Write { writer: writes.last().writer, text: writes.last().text + bytes },
            ),
            writer,
        ) == if writes.last().writer == writer {
            written_by(writes, writer) + bytes
        } else {
            written_by(writes, writer)
        },
{
    let longer = writes.update(
        writes.len() - 1,
        Write { writer: writes.last().writer, text: writes.last().text + bytes },
    );
    assert(longer.drop_last() =~= writes.drop_last());
    assert(joined(writes.drop_last()) + (writes.last().text + bytes) =~= joined(writes) + bytes);
    assert(written_by(writes.drop_last(), writer) + (writes.last().text + bytes) =~= written_by(
        writes.drop_last(),
        writer,
    ) + writes.last().text + bytes);
}

proof fn lemma_begin_write(writes: Seq<Write>, beginner: nat, writer: nat)
    ensures
        joined(writes.push(Write { writer: beginner, text: Seq::empty() })) == joined(writes),
        written_by(writes.push(Write { writer: beginner, text: Seq::empty() }), writer)
            == written_by(writes, writer),
{
    let longer = writes.push(Write { writer: beginner, text: Seq::empty() });
    assert(longer.drop_last() =~= writes);
    assert(joined(writes) + Seq::<u8>::empty() =~= joined(writes));
    assert(written_by(writes, writer) + Seq::<u8>::empty() =~= written_by(writes, writer));
}

proof fn lemma_session(trace: Seq<Event>, writer: nat)
    requires
        Session::follows_protocol(trace),
    ensures
        Session::run(trace).locked ==> Session::run(trace).writes.len() > 0 && Session::run(
            trace,
        ).writes.last().writer == Session::run(trace).holder,
        Session::run(trace).output == joined(Session::run(trace).writes),
        sent_by(trace, writer) == written_by(Session::run(trace).writes, writer),
    decreases trace.len(),
{
    if trace.len() > 0 {
        let before = Session::run(trace.drop_last());
        lemma_session(trace.drop_last(), writer);
        match trace.last().step {
            Step::TryLock => {
                lemma_begin_write(before.writes, trace.last().writer, writer);
            },
            Step::Send(bytes) => {
                lemma_extend_last_write(before.writes, bytes, writer);
            },
            Step::Unlock => {},
        }
    }
}

/// Writes do not mix. However the steps of several writers follow one
/// another, as long as each writer sends only while it holds the lock, the
/// stream that the device gets is the texts of whole writes, one after the
/// other in the order in which the lock was won; and the writes of each
/// writer hold what this writer sent, all of it and in its order.
pub proof fn lemma_writes_do_not_mix(trace: Seq<Event>)
    requires
        Session::follows_protocol(trace),
    ensures
        Session::run(trace).output == joined(Session::run(trace).writes),
        forall|writer: nat| #[trigger]
            sent_by(trace, writer) == written_by(Session::run(trace).writes, writer),
{
    lemma_session(trace, 0);
    assert forall|writer: nat| #[trigger]
        sent_by(trace, writer) == written_by(Session::run(trace).writes, writer) by {
        lemma_session(trace, writer);
    }
}

/// The steps of a session are the steps of `Console`: a try at the lock
/// leaves the lock held and wins if and only if it was free, as `try_lock`
/// promises; sending adds the bytes to the stream and nothing else, as
/// `write_locked` promises of a device that is set up; unlocking frees the
/// lock and nothing else, as `unlock` promises.
pub proof fn lemma_session_steps_are_console_steps(session: Session, writer: nat, bytes: Seq<u8>)
    ensures
        session.after(Event { writer, step: Step::TryLock }).console() == (ConsoleState {
            locked: true,
            ..session.console()
        }),
        session.after(Event { writer, step: Step::TryLock }).holder == writer
            || session.locked,
        session.after(Event { writer, step: Step::Send(bytes) }).console() == (ConsoleState {
            device: Some(Device { initialized: true, transmitted: session.output + bytes }),
            ..session.console()
        }),
        session.after(Event { writer, step: Step::Unlock }).console() == (ConsoleState {
            locked: false,
            ..session.console()
        }),
{
}

/// The lock has one holder at a time: a try at the lock wins if and only
/// if the lock is free, and whoever wins holds it until it unlocks.
pub proof fn lemma_lock_has_one_holder(session: Session, first: nat, second: nat)
    requires
        !session.locked,
    ensures
        session.after(Event { writer: first, step: Step::TryLock }).locked,
        session.after(Event { writer: first, step: Step::TryLock }).holder == first,
        session.after(Event { writer: first, step: Step::TryLock }).after(
            Event { writer: second, step: Step::TryLock },
        ) == session.after(Event { writer: first, step: Step::TryLock }),
        second != first ==> !session.after(Event { writer: first, step: Step::TryLock }).allows(
            Event { writer: second, step: Step::Send(Seq::empty()) },
        ),
{
}

} // verus!
