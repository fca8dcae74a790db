//! Forwarding engine for Named Data Networking over a stream transport:
//! names, the TLV packet codec, fragmentation, the content store, the
//! dispatch table, retry policy, the per-connection state machine and the
//! facade that ties them to a lifecycle.

use vstd::prelude::*;

pub mod error;
pub mod tlv;
pub mod wide;
pub mod name;
pub mod ndn;
pub mod fragmentation;
pub mod dispatch;
pub mod quic_transport;
pub mod interest_retry;
pub mod pipeline;
pub mod ml;
pub mod security;
pub mod xdp;
pub mod interface;
pub mod cache;

use crate::dispatch::{DispatchTable, DispatchTarget, EntryView};
use crate::error::Error;
use crate::fragmentation::{Fragmenter, fits, fragmenter_wf, fragmented, processed, updated, FragmenterView};
use crate::ndn::{Data, data_encodable, encode_data};
use crate::quic_transport::{frame_data, read_response, opens_with_magic};
use crate::ml::{apply_recommendation, mtu_in_range, worth_applying, MAX_MTU, MIN_MTU};
use crate::name::Name;

verus! {

/// The configuration record of a forwarder.
#[derive(Debug, Clone)]
pub struct Config {
    pub bind_address: String,
    pub port: u16,
    pub mtu: usize,
    pub min_mtu: usize,
    pub max_mtu: usize,
    pub cache_capacity: usize,
    pub idle_timeout: u64,
    pub metrics_port: Option<u16>,
    pub max_packet_size: usize,
    pub retries: u32,
    pub retry_interval: u64,
    pub enable_ml_mtu_prediction: bool,
    pub ml_prediction_interval: u64,
}

impl Default for Config {
    /// Every address, port 6363, MTU 1400 within 576 to 9000, a cache of
    /// 10000 entries, 30 s idle timeout, metrics on port 9090, packets up to
    /// 65535 octets, three retries a second apart, no MTU prediction, a
    /// prediction every 5 s where it is on.
    fn default() -> (r: Self)
        ensures
            r.bind_address@ == "0.0.0.0"@,
            r.port == 6363,
            r.mtu == 1400,
            r.min_mtu == MIN_MTU,
            r.max_mtu == MAX_MTU,
            r.cache_capacity == 10000,
            r.idle_timeout == 30,
            r.metrics_port == Some(9090u16),
            r.max_packet_size == 65535,
            r.retries == 3,
            r.retry_interval == 1000,
            !r.enable_ml_mtu_prediction,
            r.ml_prediction_interval == 5,
    {
        Config {
            bind_address: "0.0.0.0".to_owned(),
            port: 6363,
            mtu: 1400,
            min_mtu: MIN_MTU,
            max_mtu: MAX_MTU,
            cache_capacity: 10000,
            idle_timeout: 30,
            metrics_port: Some(9090),
            max_packet_size: 65535,
            retries: 3,
            retry_interval: 1000,
            enable_ml_mtu_prediction: false,
            ml_prediction_interval: 5,
        }
    }
}

/// Aggregated counters of a forwarder; the hit ratio is in parts per
/// thousand.
#[derive(Debug, Clone, Copy, PartialEq, Eq, Structural)]
pub struct TransportStatistics {
    pub uptime_seconds: u64,
    pub interests_processed: u64,
    pub data_packets_sent: u64,
    pub cache_hits: u64,
    pub cache_misses: u64,
    pub cache_hit_permille: u64,
}

/// The share of hits among all lookups in parts per thousand, zero where
/// there was no lookup.
pub open spec fn hit_permille(hits: u64, misses: u64) -> int {
    if hits + misses == 0 {
        0
    } else {
        hits * 1000 / (hits + misses)
    }
}

/// Lifecycle state of a forwarder.
#[derive(Debug, Clone, Copy, PartialEq, Eq, Structural)]
pub enum TransportState {
    Stopped,
    Starting,
    Running,
    Pausing,
    Paused,
    Resuming,
    Stopping,
    Error,
}

/// A lifecycle operation.
#[derive(Debug, Clone, Copy, PartialEq, Eq, Structural)]
pub enum Command {
    Start,
    Stop,
    Pause,
    Resume,
    Shutdown,
}

/// The state that an operation leads to while it is being carried out, or
/// `None` where the operation is out of sequence. An operation asked for
/// again in the state it leads to, or while it is under way, changes
/// nothing.
pub open spec fn requested(state: TransportState, command: Command) -> Option<TransportState> {
    match command {
        Command::Start => match state {
            TransportState::Stopped => Some(TransportState::Starting),
            TransportState::Starting => Some(TransportState::Starting),
            TransportState::Running => Some(TransportState::Running),
            _ => None,
        },
        Command::Pause => match state {
            TransportState::Running => Some(TransportState::Pausing),
            TransportState::Pausing => Some(TransportState::Pausing),
            TransportState::Paused => Some(TransportState::Paused),
            _ => None,
        },
        Command::Resume => match state {
            TransportState::Paused => Some(TransportState::Resuming),
            TransportState::Resuming => Some(TransportState::Resuming),
            TransportState::Running => Some(TransportState::Running),
            _ => None,
        },
        _ => match state {
            TransportState::Running => Some(TransportState::Stopping),
            TransportState::Paused => Some(TransportState::Stopping),
            TransportState::Stopping => Some(TransportState::Stopping),
            TransportState::Stopped => Some(TransportState::Stopped),
            _ => None,
        },
    }
}

/// The state once the operation under way has ended, well or not.
pub open spec fn settled(state: TransportState, ok: bool) -> TransportState {
    match state {
        TransportState::Starting => if ok {
            TransportState::Running
        } else {
            TransportState::Error
        },
        TransportState::Pausing => if ok {
            TransportState::Paused
        } else {
            TransportState::Error
        },
        TransportState::Resuming => if ok {
            TransportState::Running
        } else {
            TransportState::Error
        },
        TransportState::Stopping => if ok {
            TransportState::Stopped
        } else {
            TransportState::Error
        },
        other => other,
    }
}

/// Executable form of [`requested`]: `InvalidState` where the operation is
/// out of sequence.
pub fn request(state: TransportState, command: Command) -> (r: Result<TransportState, Error>)
    ensures
        match requested(state, command) {
            Some(s) => r == Ok::<TransportState, Error>(s),
            None => r == Err::<TransportState, Error>(Error::InvalidState),
        },
{
    let next = match command {
        Command::Start => match state {
            TransportState::Stopped => Some(TransportState::Starting),
            TransportState::Starting => Some(TransportState::Starting),
            TransportState::Running => Some(TransportState::Running),
            _ => None,
        },
        Command::Pause => match state {
            TransportState::Running => Some(TransportState::Pausing),
            TransportState::Pausing => Some(TransportState::Pausing),
            TransportState::Paused => Some(TransportState::Paused),
            _ => None,
        },
        Command::Resume => match state {
            TransportState::Paused => Some(TransportState::Resuming),
            TransportState::Resuming => Some(TransportState::Resuming),
            TransportState::Running => Some(TransportState::Running),
            _ => None,
        },
        _ => match state {
            TransportState::Running => Some(TransportState::Stopping),
            TransportState::Paused => Some(TransportState::Stopping),
            TransportState::Stopping => Some(TransportState::Stopping),
            TransportState::Stopped => Some(TransportState::Stopped),
            _ => None,
        },
    };
    match next {
        Some(s) => Ok(s),
        None => Err(Error::InvalidState),
    }
}

/// Executable form of [`settled`].
pub fn settle(state: TransportState, ok: bool) -> (r: TransportState)
    ensures
        r == settled(state, ok),
{
    let target = match state {
        TransportState::Starting => TransportState::Running,
        TransportState::Pausing => TransportState::Paused,
        TransportState::Resuming => TransportState::Running,
        TransportState::Stopping => TransportState::Stopped,
        other => {
            return other;
        },
    };
    if ok {
        target
    } else {
        TransportState::Error
    }
}

/// Lifecycle operations are idempotent: an operation that succeeded,
/// asked for again, succeeds and leaves the state as it is.
pub proof fn lemma_lifecycle_idempotent(state: TransportState, command: Command)
    requires
        requested(state, command) is Some,
    ensures
        requested(settled(requested(state, command)->0, true), command) == Some(
            settled(requested(state, command)->0, true),
        ),
{
}

/// The error state is left by an explicit reset only: every operation
/// is out of sequence there.
pub proof fn lemma_error_is_terminal(command: Command)
    ensures
        requested(TransportState::Error, command) is None,
{
}

/// The forwarder: configuration, lifecycle state, dispatch table and
/// fragmenter.
pub struct UdcnTransport {
    config: Config,
    state: TransportState,
    dispatch: DispatchTable,
    fragmenter: Fragmenter,
    started_at: u64,
}

impl UdcnTransport {
    /// The lifecycle state.
    pub closed spec fn lifecycle(&self) -> TransportState {
        self.state
    }

    /// The configuration.
    pub closed spec fn configuration(&self) -> Config {
        self.config
    }

    /// The configured MTU.
    pub open spec fn configured_mtu(&self) -> usize {
        self.configuration().mtu
    }

    /// The id that the next registration gets.
    pub closed spec fn next_registration_id(&self) -> u64 {
        self.dispatch.next_id()
    }

    /// The fragmenter's state.
    pub closed spec fn fragmenter(&self) -> FragmenterView {
        self.fragmenter@
    }

    /// The registrations by id.
    pub closed spec fn registrations(&self) -> Map<u64, EntryView> {
        self.dispatch.entries()
    }

    /// The parts of the forwarder are in order and agree on the MTU.
    pub closed spec fn wf(&self) -> bool {
        &&& fragmenter_wf(self.fragmenter@)
        &&& self.dispatch.wf()
        &&& mtu_in_range(self.config.mtu as int)
    }

    /// A stopped forwarder with the given configuration; `InvalidArgument`
    /// where the configured MTU is outside 576 to 9000.
    pub fn new(config: Config, now: u64) -> (r: Result<Self, Error>)
        ensures
            mtu_in_range(config.mtu as int) ==> r is Ok && r->Ok_0.wf() && r->Ok_0.lifecycle()
                == TransportState::Stopped && r->Ok_0.configuration() == config && r->Ok_0.registrations()
                == Map::<u64, EntryView>::empty() && r->Ok_0.next_registration_id() == 1 && r->Ok_0.fragmenter() == (FragmenterView {
                mtu: config.mtu,
                next_fragment_id: 1,
                history: Seq::empty(),
                last_adjustment: now,
                stale_after: crate::fragmentation::DEFAULT_STALE_SECS,
                contexts: Map::empty(),
            }) && r->Ok_0.started_at() == now,
            !mtu_in_range(config.mtu as int) ==> r is Err && r->Err_0 == Error::InvalidArgument,
    {
        if config.mtu < MIN_MTU || config.mtu > MAX_MTU {
            return Err(Error::InvalidArgument);
        }
        let fragmenter = Fragmenter::new(config.mtu, now);
        Ok(
            UdcnTransport {
                config,
                state: TransportState::Stopped,
                dispatch: DispatchTable::new(),
                fragmenter,
                started_at: now,
            },
        )
    }

    /// Begins a lifecycle operation: the state becomes the one that the
    /// operation passes through; `InvalidState`, with nothing changed, where
    /// the operation is out of sequence.
    pub fn begin(&mut self, command: Command) -> (r: Result<(), Error>)
        requires
            old(self).wf(),
        ensures
            final(self).wf(),
            final(self).configuration() == old(self).configuration(),
            final(self).next_registration_id() == old(self).next_registration_id(),
            final(self).fragmenter() == old(self).fragmenter(),
            final(self).registrations() == old(self).registrations(),
            match requested(old(self).lifecycle(), command) {
                Some(s) => r is Ok && final(self).lifecycle() == s,
                None => r == Err::<(), Error>(Error::InvalidState) && final(self).lifecycle() == old(self).lifecycle(),
            },
    {
        match request(self.state, command) {
            Ok(s) => {
                self.state = s;
                Ok(())
            },
            Err(e) => Err(e),
        }
    }

    /// Ends the operation under way.
    pub fn finish(&mut self, ok: bool)
        requires
            old(self).wf(),
        ensures
            final(self).wf(),
            final(self).configuration() == old(self).configuration(),
            final(self).next_registration_id() == old(self).next_registration_id(),
            final(self).fragmenter() == old(self).fragmenter(),
            final(self).registrations() == old(self).registrations(),
            final(self).lifecycle() == settled(old(self).lifecycle(), ok),
    {
        self.state = settle(self.state, ok);
    }

    fn run(&mut self, command: Command, now: u64) -> (r: Result<(), Error>)
        requires
            old(self).wf(),
        ensures
            final(self).wf(),
            final(self).configuration() == old(self).configuration(),
            final(self).next_registration_id() == old(self).next_registration_id(),
            final(self).fragmenter() == old(self).fragmenter(),
            final(self).registrations() == old(self).registrations(),
            match requested(old(self).lifecycle(), command) {
                Some(s) => r is Ok && final(self).lifecycle() == settled(s, true),
                None => r == Err::<(), Error>(Error::InvalidState) && final(self).lifecycle() == old(self).lifecycle(),
            },
    {
        match request(self.state, command) {
            Ok(s) => {
                if let (TransportState::Starting, TransportState::Stopped) = (s, self.state) {
                    self.started_at = now;
                }
                self.state = settle(s, true);
                Ok(())
            },
            Err(e) => Err(e),
        }
    }

    /// Starts a stopped forwarder; does nothing on a running one;
    /// `InvalidState` otherwise.
    pub fn start(&mut self, now: u64) -> (r: Result<(), Error>)
        requires
            old(self).wf(),
        ensures
            final(self).wf(),
            final(self).configuration() == old(self).configuration(),
            final(self).next_registration_id() == old(self).next_registration_id(),
            final(self).fragmenter() == old(self).fragmenter(),
            final(self).registrations() == old(self).registrations(),
            match requested(old(self).lifecycle(), Command::Start) {
                Some(s) => r is Ok && final(self).lifecycle() == settled(s, true),
                None => r == Err::<(), Error>(Error::InvalidState) && final(self).lifecycle() == old(self).lifecycle(),
            },
    {
        self.run(Command::Start, now)
    }

    /// Stops a running or paused forwarder; does nothing on a stopped one;
    /// `InvalidState` otherwise.
    pub fn stop(&mut self) -> (r: Result<(), Error>)
        requires
            old(self).wf(),
        ensures
            final(self).wf(),
            final(self).configuration() == old(self).configuration(),
            final(self).next_registration_id() == old(self).next_registration_id(),
            final(self).fragmenter() == old(self).fragmenter(),
            final(self).registrations() == old(self).registrations(),
            match requested(old(self).lifecycle(), Command::Stop) {
                Some(s) => r is Ok && final(self).lifecycle() == settled(s, true),
                None => r == Err::<(), Error>(Error::InvalidState) && final(self).lifecycle() == old(self).lifecycle(),
            },
    {
        self.run(Command::Stop, 0)
    }

    /// Pauses a running forwarder; does nothing on a paused one;
    /// `InvalidState` otherwise.
    pub fn pause(&mut self) -> (r: Result<(), Error>)
        requires
            old(self).wf(),
        ensures
            final(self).wf(),
            final(self).configuration() == old(self).configuration(),
            final(self).next_registration_id() == old(self).next_registration_id(),
            final(self).fragmenter() == old(self).fragmenter(),
            final(self).registrations() == old(self).registrations(),
            match requested(old(self).lifecycle(), Command::Pause) {
                Some(s) => r is Ok && final(self).lifecycle() == settled(s, true),
                None => r == Err::<(), Error>(Error::InvalidState) && final(self).lifecycle() == old(self).lifecycle(),
            },
    {
        self.run(Command::Pause, 0)
    }

    /// Resumes a paused forwarder; does nothing on a running one;
    /// `InvalidState` otherwise.
    pub fn resume(&mut self) -> (r: Result<(), Error>)
        requires
            old(self).wf(),
        ensures
            final(self).wf(),
            final(self).configuration() == old(self).configuration(),
            final(self).next_registration_id() == old(self).next_registration_id(),
            final(self).fragmenter() == old(self).fragmenter(),
            final(self).registrations() == old(self).registrations(),
            match requested(old(self).lifecycle(), Command::Resume) {
                Some(s) => r is Ok && final(self).lifecycle() == settled(s, true),
                None => r == Err::<(), Error>(Error::InvalidState) && final(self).lifecycle() == old(self).lifecycle(),
            },
    {
        self.run(Command::Resume, 0)
    }

    /// Shuts the forwarder down: the same as stopping it.
    pub fn shutdown(&mut self) -> (r: Result<(), Error>)
        requires
            old(self).wf(),
        ensures
            final(self).wf(),
            final(self).configuration() == old(self).configuration(),
            final(self).next_registration_id() == old(self).next_registration_id(),
            final(self).fragmenter() == old(self).fragmenter(),
            final(self).registrations() == old(self).registrations(),
            match requested(old(self).lifecycle(), Command::Shutdown) {
                Some(s) => r is Ok && final(self).lifecycle() == settled(s, true),
                None => r == Err::<(), Error>(Error::InvalidState) && final(self).lifecycle() == old(self).lifecycle(),
            },
    {
        self.run(Command::Shutdown, 0)
    }

    /// Puts the forwarder into the error state.
    pub fn fail(&mut self)
        requires
            old(self).wf(),
        ensures
            final(self).wf(),
            final(self).lifecycle() == TransportState::Error,
            final(self).configuration() == old(self).configuration(),
            final(self).next_registration_id() == old(self).next_registration_id(),
            final(self).fragmenter() == old(self).fragmenter(),
            final(self).registrations() == old(self).registrations(),
    {
        self.state = TransportState::Error;
    }

    /// Leaves the error state for the stopped state; does nothing in any
    /// other state.
    pub fn reset(&mut self)
        requires
            old(self).wf(),
        ensures
            final(self).wf(),
            final(self).lifecycle() == if old(self).lifecycle() == TransportState::Error {
                TransportState::Stopped
            } else {
                old(self).lifecycle()
            },
            final(self).configuration() == old(self).configuration(),
            final(self).next_registration_id() == old(self).next_registration_id(),
            final(self).fragmenter() == old(self).fragmenter(),
            final(self).registrations() == old(self).registrations(),
    {
        if let TransportState::Error = self.state {
            self.state = TransportState::Stopped;
        }
    }

    /// The lifecycle state.
    pub fn state(&self) -> (r: TransportState)
        ensures
            r == self.lifecycle(),
    {
        self.state
    }

    /// The configured MTU.
    pub fn mtu(&self) -> (r: usize)
        ensures
            r == self.configured_mtu(),
    {
        self.config.mtu
    }

    /// The configuration.
    pub fn get_config(&self) -> (r: &Config)
        ensures
            *r == self.configuration(),
    {
        &self.config
    }

    /// Changes the MTU. It succeeds exactly for values from 576 to 9000:
    /// the configuration and the fragmenter then take the value. Any other
    /// value is refused with `InvalidArgument` and changes nothing.
    pub fn update_mtu(&mut self, mtu: usize, now: u64) -> (r: Result<(), Error>)
        requires
            old(self).wf(),
        ensures
            final(self).wf(),
            final(self).lifecycle() == old(self).lifecycle(),
            final(self).registrations() == old(self).registrations(),
            final(self).next_registration_id() == old(self).next_registration_id(),
            r is Ok <==> MIN_MTU <= mtu <= MAX_MTU,
            r is Ok ==> final(self).configuration() == (Config { mtu: mtu, ..old(self).configuration() })
                && final(self).fragmenter() == updated(old(self).fragmenter(), mtu as int, now),
            r is Err ==> r == Err::<(), Error>(Error::InvalidArgument) && final(self).configuration() == old(self).configuration() && final(self).fragmenter() == old(self).fragmenter(),
    {
        if mtu < MIN_MTU || mtu > MAX_MTU {
            return Err(Error::InvalidArgument);
        }
        self.config.mtu = mtu;
        self.fragmenter.update_mtu(mtu, now);
        Ok(())
    }

    /// Replaces the configuration. It succeeds exactly where the new MTU is
    /// from 576 to 9000: the fragmenter then takes the new MTU where it
    /// differs from its own. Any other configuration is refused with
    /// `InvalidArgument` and changes nothing.
    pub fn configure(&mut self, config: Config, now: u64) -> (r: Result<(), Error>)
        requires
            old(self).wf(),
        ensures
            final(self).wf(),
            final(self).lifecycle() == old(self).lifecycle(),
            final(self).registrations() == old(self).registrations(),
            final(self).next_registration_id() == old(self).next_registration_id(),
            r is Ok <==> mtu_in_range(config.mtu as int),
            r is Ok ==> final(self).configuration() == config && final(self).fragmenter() == if config.mtu == old(self).fragmenter().mtu {
                old(self).fragmenter()
            } else {
                updated(old(self).fragmenter(), config.mtu as int, now)
            },
            r is Err ==> r == Err::<(), Error>(Error::InvalidArgument) && final(self).configuration() == old(self).configuration() && final(self).fragmenter() == old(self).fragmenter(),
    {
        if config.mtu < MIN_MTU || config.mtu > MAX_MTU {
            return Err(Error::InvalidArgument);
        }
        if config.mtu != self.fragmenter.mtu() {
            self.fragmenter.update_mtu(config.mtu, now);
        }
        self.config = config;
        Ok(())
    }

    /// Takes a recommended MTU: it is applied, as [`UdcnTransport::update_mtu`]
    /// applies one, exactly where it is from 576 to 9000 and differs from
    /// the fragmenter's MTU by more than 100 octets.
    pub fn apply_recommendation(&mut self, recommended: usize, now: u64) -> (r: bool)
        requires
            old(self).wf(),
        ensures
            final(self).wf(),
            final(self).lifecycle() == old(self).lifecycle(),
            final(self).registrations() == old(self).registrations(),
            final(self).next_registration_id() == old(self).next_registration_id(),
            r == (mtu_in_range(recommended as int) && worth_applying(old(self).fragmenter().mtu, recommended)),
            r ==> final(self).configuration() == (Config { mtu: recommended, ..old(self).configuration() })
                && final(self).fragmenter() == updated(old(self).fragmenter(), recommended as int, now),
            !r ==> final(self).configuration() == old(self).configuration() && final(self).fragmenter() == old(self).fragmenter(),
    {
        if recommended < MIN_MTU || recommended > MAX_MTU {
            return false;
        }
        let applied = apply_recommendation(&mut self.fragmenter, recommended, now);
        if applied {
            self.config.mtu = recommended;
        }
        applied
    }

    /// Registers a local producer for `prefix` and returns the registration
    /// id; `InvalidState` once the ids are used up.
    pub fn register_prefix(&mut self, prefix: Name) -> (r: Result<u64, Error>)
        requires
            old(self).wf(),
        ensures
            final(self).wf(),
            final(self).lifecycle() == old(self).lifecycle(),
            final(self).configuration() == old(self).configuration(),
            final(self).fragmenter() == old(self).fragmenter(),
            old(self).next_registration_id() < u64::MAX ==> r == Ok::<u64, Error>(old(self).next_registration_id())
                && final(self).next_registration_id() == old(self).next_registration_id() + 1 && final(self).registrations() == old(self).registrations().insert(
                old(self).next_registration_id(),
                EntryView {
                    registration_id: old(self).next_registration_id(),
                    prefix: prefix@,
                    target: DispatchTarget::Producer,
                    priority: 0,
                },
            ),
            old(self).next_registration_id() == u64::MAX ==> r == Err::<u64, Error>(Error::InvalidState) && final(self).registrations() == old(self).registrations() && final(self).next_registration_id() == old(self).next_registration_id(),
    {
        self.dispatch.register_producer(prefix)
    }

    /// Registers a forwarding route for `prefix` towards `peer` and returns
    /// the registration id; `InvalidState` once the ids are used up.
    pub fn register_forwarding_prefix(&mut self, prefix: Name, peer: u64, priority: usize) -> (r: Result<
        u64,
        Error,
    >)
        requires
            old(self).wf(),
        ensures
            final(self).wf(),
            final(self).lifecycle() == old(self).lifecycle(),
            final(self).configuration() == old(self).configuration(),
            final(self).fragmenter() == old(self).fragmenter(),
            old(self).next_registration_id() < u64::MAX ==> r == Ok::<u64, Error>(old(self).next_registration_id())
                && final(self).next_registration_id() == old(self).next_registration_id() + 1 && final(self).registrations() == old(self).registrations().insert(
                old(self).next_registration_id(),
                EntryView {
                    registration_id: old(self).next_registration_id(),
                    prefix: prefix@,
                    target: DispatchTarget::Route { peer },
                    priority: priority,
                },
            ),
            old(self).next_registration_id() == u64::MAX ==> r == Err::<u64, Error>(Error::InvalidState) && final(self).registrations() == old(self).registrations() && final(self).next_registration_id() == old(self).next_registration_id(),
    {
        self.dispatch.register_route(prefix, peer, priority)
    }

    /// Removes the registration `registration_id`; `NotFound`, with nothing
    /// changed, where there is none.
    pub fn unregister_prefix(&mut self, registration_id: u64) -> (r: Result<(), Error>)
        requires
            old(self).wf(),
        ensures
            final(self).wf(),
            final(self).lifecycle() == old(self).lifecycle(),
            final(self).configuration() == old(self).configuration(),
            final(self).next_registration_id() == old(self).next_registration_id(),
            final(self).fragmenter() == old(self).fragmenter(),
            old(self).registrations().contains_key(registration_id) ==> r is Ok && final(self).registrations()
                == old(self).registrations().remove(registration_id),
            !old(self).registrations().contains_key(registration_id) ==> r == Err::<(), Error>(Error::NotFound)
                && final(self).registrations() == old(self).registrations(),
    {
        self.dispatch.unregister(registration_id)
    }

    /// Frames Data for a stream with the forwarder's fragmenter: the whole
    /// encoding where it fits the MTU, its fragments otherwise.
    pub fn frame(&mut self, data: &Data, now: u64) -> (r: Vec<Vec<u8>>)
        requires
            old(self).wf(),
        ensures
            final(self).wf(),
            fits(r@, final(self).fragmenter().mtu as int),
            final(self).lifecycle() == old(self).lifecycle(),
            final(self).configuration() == old(self).configuration(),
            final(self).next_registration_id() == old(self).next_registration_id(),
            final(self).registrations() == old(self).registrations(),
            !data_encodable(data@) ==> r@.len() == 0 && final(self).fragmenter() == old(self).fragmenter(),
            data_encodable(data@) && encode_data(data@).len() <= old(self).fragmenter().mtu ==> r@.len() == 1
                && r@[0]@ == encode_data(data@) && final(self).fragmenter() == old(self).fragmenter(),
            data_encodable(data@) && encode_data(data@).len() > old(self).fragmenter().mtu ==> exists|
                f: Result<Vec<Vec<u8>>, Error>,
            |
                fragmented(old(self).fragmenter(), final(self).fragmenter(), data@, now, f) && match f {
                    Ok(frags) => r == frags,
                    Err(_) => r@.len() == 0,
                },
    {
        let r = frame_data(&mut self.fragmenter, data, now);
        proof {
            if data_encodable(data@) && encode_data(data@).len() > old(self).fragmenter().mtu {
                let f = choose|f: Result<Vec<Vec<u8>>, Error>|
                    fragmented(old(self).fragmenter@, self.fragmenter@, data@, now, f) && match f {
                        Ok(frags) => r == frags,
                        Err(_) => r@.len() == 0,
                    };
                assert(fragmented(old(self).fragmenter(), self.fragmenter(), data@, now, f));
            }
        }
        r
    }

    /// Takes one chunk of a response with the forwarder's fragmenter.
    pub fn receive(&mut self, chunk: &[u8], now: u64) -> (r: Result<Option<Data>, Error>)
        requires
            old(self).wf(),
        ensures
            final(self).wf(),
            final(self).lifecycle() == old(self).lifecycle(),
            final(self).configuration() == old(self).configuration(),
            final(self).next_registration_id() == old(self).next_registration_id(),
            final(self).registrations() == old(self).registrations(),
            opens_with_magic(chunk@) ==> processed(old(self).fragmenter(), final(self).fragmenter(), chunk@, now, r),
            !opens_with_magic(chunk@) ==> final(self).fragmenter() == old(self).fragmenter() && match crate::ndn::decode_data(
                chunk@,
            ) {
                Some(d) => r is Ok && r->Ok_0 is Some && r->Ok_0->0@ == d,
                None => match crate::ndn::decode_nack(chunk@) {
                    Some(n) => r == Err::<Option<Data>, Error>(Error::Nack(n.reason)),
                    None => r == Err::<Option<Data>, Error>(Error::Parse),
                },
            },
    {
        read_response(&mut self.fragmenter, chunk, now)
    }

    /// Drops the reassemblies that are stale at `now` by the fragmenter's
    /// threshold and names the objects they belonged to, whose Data has
    /// failed as `ReassemblyTimeout`.
    pub fn drop_stale(&mut self, now: u64) -> (r: Vec<u16>)
        requires
            old(self).wf(),
        ensures
            final(self).wf(),
            final(self).lifecycle() == old(self).lifecycle(),
            final(self).configuration() == old(self).configuration(),
            final(self).registrations() == old(self).registrations(),
            final(self).next_registration_id() == old(self).next_registration_id(),
            final(self).fragmenter() == (FragmenterView {
                contexts: Map::new(
                    |k: u16|
                        old(self).fragmenter().contexts.contains_key(k) && !crate::fragmentation::stale(
                            old(self).fragmenter().contexts[k],
                            old(self).fragmenter().stale_after,
                            now,
                        ),
                    |k: u16| old(self).fragmenter().contexts[k],
                ),
                ..old(self).fragmenter()
            }),
            forall|k: u16|
                r@.contains(k) <==> old(self).fragmenter().contexts.contains_key(k) && crate::fragmentation::stale(
                    old(self).fragmenter().contexts[k],
                    old(self).fragmenter().stale_after,
                    now,
                ),
            r@.len() == old(self).fragmenter().contexts.dom().len() - final(self).fragmenter().contexts.dom().len(),
    {
        let threshold = self.fragmenter.stale_threshold();
        self.fragmenter.expire_stale(threshold, now)
    }

    /// The MTU that the fragmenter works with.
    pub fn fragment_mtu(&self) -> (r: usize)
        ensures
            r == self.fragmenter().mtu,
    {
        self.fragmenter.mtu()
    }

    /// The dispatch table.
    pub fn dispatch(&self) -> (r: &DispatchTable)
        requires
            self.wf(),
        ensures
            r.wf(),
            r.entries() == self.registrations(),
    {
        &self.dispatch
    }

    /// Seconds since the forwarder was last started.
    pub fn uptime_seconds(&self, now: u64) -> (r: u64)
        ensures
            now >= self.started_at() ==> r == now - self.started_at(),
            now < self.started_at() ==> r == 0,
    {
        if now >= self.started_at {
            now - self.started_at
        } else {
            0
        }
    }

    /// When the forwarder was last started.
    pub closed spec fn started_at(&self) -> u64 {
        self.started_at
    }

    /// The aggregated statistics at `now`, from the counters that the node
    /// keeps.
    pub fn get_statistics(
        &self,
        now: u64,
        interests_processed: u64,
        data_packets_sent: u64,
        cache_hits: u64,
        cache_misses: u64,
    ) -> (r: TransportStatistics)
        ensures
            r == (TransportStatistics {
                uptime_seconds: if now >= self.started_at() {
                    (now - self.started_at()) as u64
                } else {
                    0
                },
                interests_processed,
                data_packets_sent,
                cache_hits,
                cache_misses,
                cache_hit_permille: hit_permille(cache_hits, cache_misses) as u64,
            }),
    {
        let total: u128 = cache_hits as u128 + cache_misses as u128;
        let permille: u64 = if total == 0 {
            0
        } else {
            ((cache_hits as u128) * 1000 / total) as u64
        };
        TransportStatistics {
            uptime_seconds: self.uptime_seconds(now),
            interests_processed,
            data_packets_sent,
            cache_hits,
            cache_misses,
            cache_hit_permille: permille,
        }
    }
}

} // verus!
