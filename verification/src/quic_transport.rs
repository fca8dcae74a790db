//! Per-connection tracking for the stream transport: the connection state
//! machine, statistics, the advisory congestion window, and the decisions
//! taken for each stream on the server and on the client side.

use vstd::prelude::*;
use crate::cache::{ContentStore, fetched, stored};
use crate::dispatch::{DispatchTable, DispatchTarget, resolves_to, no_match, EntryView};
use crate::error::{Error, NackReason};
use crate::fragmentation::{Fragmenter, fits, fragmenter_wf, fragmented, processed};
use crate::ndn::{
    Data, Interest, Nack, NackView, decode_interest, decode_data, decode_nack, encode_data, encode_nack,
    data_encodable, nack_encodable,
};

verus! {

/// Congestion window of a new connection.
pub const INITIAL_WINDOW: usize = 10;

/// Largest congestion window.
pub const MAX_WINDOW: usize = 100;

/// Largest packet read from a stream unless configured otherwise.
pub const DEFAULT_MAX_PACKET_SIZE: usize = 65535;

/// The hard limit on a packet read from a stream: 10 MiB.
pub const HARD_MAX_PACKET_SIZE: usize = 10485760;

/// State of a connection.
#[derive(Debug, Clone, PartialEq, Eq)]
pub enum ConnectionState {
    Connecting,
    Connected,
    Idle,
    Closing,
    Failed(String),
}

/// Counters and averages of a connection; times are in milliseconds on a
/// monotonic clock.
#[derive(Debug, Clone, Copy, PartialEq, Eq, Structural)]
pub struct ConnectionStats {
    pub rtt_ms: u64,
    pub interests_sent: u64,
    pub data_received: u64,
    pub timeouts: u64,
    pub errors: u64,
    pub last_activity: u64,
    pub avg_data_size: usize,
}

/// The moving average after a new sample: the sample itself where nothing
/// was averaged yet, else eight tenths of the old value and two tenths of
/// the sample.
pub open spec fn ewma(old_value: int, sample: int) -> int {
    if old_value == 0 {
        sample
    } else {
        (old_value * 8 + sample * 2) / 10
    }
}

/// A counter one higher, unless it is at its limit.
pub open spec fn bump(c: u64) -> u64 {
    if c < u64::MAX {
        (c + 1) as u64
    } else {
        c
    }
}

/// The window after a success: one more, up to the cap.
pub open spec fn window_after_success(w: usize) -> usize {
    if w < MAX_WINDOW {
        (w + 1) as usize
    } else {
        MAX_WINDOW
    }
}

/// The window after a failure: three quarters of it, and at least one.
pub open spec fn window_after_failure(w: usize) -> usize {
    if w * 3 / 4 >= 1 {
        (w * 3 / 4) as usize
    } else {
        1
    }
}

fn bump_counter(c: u64) -> (r: u64)
    ensures
        r == bump(c),
{
    if c < u64::MAX {
        c + 1
    } else {
        c
    }
}

fn ewma_u64(old_value: u64, sample: u64) -> (r: u64)
    ensures
        r == ewma(old_value as int, sample as int),
{
    if old_value == 0 {
        sample
    } else {
        (((old_value as u128) * 8 + (sample as u128) * 2) / 10) as u64
    }
}

fn ewma_usize(old_value: usize, sample: usize) -> (r: usize)
    ensures
        r == ewma(old_value as int, sample as int),
{
    if old_value == 0 {
        sample
    } else {
        (((old_value as u128) * 8 + (sample as u128) * 2) / 10) as usize
    }
}

impl ConnectionStats {
    /// The statistics of a connection on which nothing happened yet.
    pub open spec fn fresh(now: u64) -> ConnectionStats {
        ConnectionStats {
            rtt_ms: 0,
            interests_sent: 0,
            data_received: 0,
            timeouts: 0,
            errors: 0,
            last_activity: now,
            avg_data_size: 0,
        }
    }

    /// Fresh statistics for a connection seen at `now`.
    pub fn new(now: u64) -> (r: Self)
        ensures
            r == ConnectionStats::fresh(now),
    {
        ConnectionStats {
            rtt_ms: 0,
            interests_sent: 0,
            data_received: 0,
            timeouts: 0,
            errors: 0,
            last_activity: now,
            avg_data_size: 0,
        }
    }

    /// The statistics after an exchange that brought Data.
    pub open spec fn after_success(self, rtt_ms: u64, data_size: usize, now: u64) -> ConnectionStats {
        ConnectionStats {
            rtt_ms: ewma(self.rtt_ms as int, rtt_ms as int) as u64,
            interests_sent: bump(self.interests_sent),
            data_received: bump(self.data_received),
            timeouts: self.timeouts,
            errors: self.errors,
            last_activity: now,
            avg_data_size: ewma(self.avg_data_size as int, data_size as int) as usize,
        }
    }

    /// The statistics after an exchange that failed.
    pub open spec fn after_failure(self, is_timeout: bool, now: u64) -> ConnectionStats {
        ConnectionStats {
            rtt_ms: self.rtt_ms,
            interests_sent: bump(self.interests_sent),
            data_received: self.data_received,
            timeouts: if is_timeout {
                bump(self.timeouts)
            } else {
                self.timeouts
            },
            errors: if is_timeout {
                self.errors
            } else {
                bump(self.errors)
            },
            last_activity: now,
            avg_data_size: self.avg_data_size,
        }
    }
}

/// Whether nothing happened on a connection for more than `threshold_ms`.
pub open spec fn idle_for(stats: ConnectionStats, threshold_ms: u64, now: u64) -> bool {
    now >= stats.last_activity && now - stats.last_activity > threshold_ms
}

/// The state after a maintenance tick: a connected connection that was idle
/// for more than the idle timeout becomes idle; an idle one that was idle for
/// more than twice the timeout starts closing; others stay.
pub open spec fn state_after_tick(state: ConnectionState, stats: ConnectionStats, idle_timeout_ms: u64, now: u64)
    -> ConnectionState {
    match state {
        ConnectionState::Connected => if idle_for(stats, idle_timeout_ms, now) {
            ConnectionState::Idle
        } else {
            ConnectionState::Connected
        },
        ConnectionState::Idle => if now >= stats.last_activity && now - stats.last_activity > 2 * idle_timeout_ms {
            ConnectionState::Closing
        } else {
            ConnectionState::Idle
        },
        other => other,
    }
}

/// The state after activity: an idle connection is connected again.
pub open spec fn state_after_activity(state: ConnectionState) -> ConnectionState {
    match state {
        ConnectionState::Idle => ConnectionState::Connected,
        other => other,
    }
}

/// Whether the maintenance tick removes a connection in this state.
pub open spec fn removable(state: ConnectionState) -> bool {
    state is Closing || state is Failed
}

/// Tracks one connection.
#[derive(Debug)]
pub struct ConnectionTracker {
    pub conn_id: u64,
    pub state: ConnectionState,
    pub stats: ConnectionStats,
    pub congestion_window: usize,
}

impl ConnectionTracker {
    /// The window stays between one and the cap.
    pub open spec fn wf(&self) -> bool {
        1 <= self.congestion_window <= MAX_WINDOW
    }

    /// A tracker for a connection that is being set up at `now`.
    pub fn new(conn_id: u64, now: u64) -> (r: Self)
        ensures
            r.conn_id == conn_id,
            r.state == ConnectionState::Connecting,
            r.stats == ConnectionStats::fresh(now),
            r.congestion_window == INITIAL_WINDOW,
            r.wf(),
    {
        ConnectionTracker {
            conn_id,
            state: ConnectionState::Connecting,
            stats: ConnectionStats::new(now),
            congestion_window: INITIAL_WINDOW,
        }
    }

    /// Sets the state.
    pub fn set_state(&mut self, state: ConnectionState)
        ensures
            final(self).state == state,
            final(self).conn_id == old(self).conn_id,
            final(self).stats == old(self).stats,
            final(self).congestion_window == old(self).congestion_window,
    {
        self.state = state;
    }

    /// The handshake succeeded: a connecting connection is connected.
    pub fn established(&mut self)
        ensures
            final(self).state == (if old(self).state is Connecting {
                ConnectionState::Connected
            } else {
                old(self).state
            }),
            final(self).conn_id == old(self).conn_id,
            final(self).stats == old(self).stats,
            final(self).congestion_window == old(self).congestion_window,
    {
        if let ConnectionState::Connecting = self.state {
            self.state = ConnectionState::Connected;
        }
    }

    /// A fatal error: whatever the state was, it is `Failed` with the reason.
    pub fn fail(&mut self, reason: String)
        ensures
            final(self).state == ConnectionState::Failed(reason),
            final(self).conn_id == old(self).conn_id,
            final(self).stats == old(self).stats,
            final(self).congestion_window == old(self).congestion_window,
    {
        self.state = ConnectionState::Failed(reason);
    }

    /// An explicit close: a connected or idle connection starts closing.
    pub fn close(&mut self)
        ensures
            final(self).state == (if old(self).state is Connected || old(self).state is Idle {
                ConnectionState::Closing
            } else {
                old(self).state
            }),
            final(self).conn_id == old(self).conn_id,
            final(self).stats == old(self).stats,
            final(self).congestion_window == old(self).congestion_window,
    {
        let closing = match &self.state {
            ConnectionState::Connected => true,
            ConnectionState::Idle => true,
            _ => false,
        };
        if closing {
            self.state = ConnectionState::Closing;
        }
    }

    /// Records an exchange that brought Data: the averages and counters
    /// move, the window grows by one up to the cap, an idle connection is
    /// connected again.
    pub fn report_success(&mut self, rtt_ms: u64, data_size: usize, now: u64)
        requires
            old(self).wf(),
        ensures
            final(self).wf(),
            final(self).conn_id == old(self).conn_id,
            final(self).stats == old(self).stats.after_success(rtt_ms, data_size, now),
            final(self).congestion_window == window_after_success(old(self).congestion_window),
            final(self).state == state_after_activity(old(self).state),
    {
        self.stats.rtt_ms = ewma_u64(self.stats.rtt_ms, rtt_ms);
        self.stats.interests_sent = bump_counter(self.stats.interests_sent);
        self.stats.data_received = bump_counter(self.stats.data_received);
        self.stats.last_activity = now;
        self.stats.avg_data_size = ewma_usize(self.stats.avg_data_size, data_size);
        if self.congestion_window < MAX_WINDOW {
            self.congestion_window = self.congestion_window + 1;
        }
        if let ConnectionState::Idle = self.state {
            self.state = ConnectionState::Connected;
        }
    }

    /// Records an exchange that failed: the counters move, the window
    /// shrinks to three quarters, at least one.
    pub fn report_failure(&mut self, is_timeout: bool, now: u64)
        requires
            old(self).wf(),
        ensures
            final(self).wf(),
            final(self).conn_id == old(self).conn_id,
            final(self).stats == old(self).stats.after_failure(is_timeout, now),
            final(self).congestion_window == window_after_failure(old(self).congestion_window),
            final(self).state == old(self).state,
    {
        if is_timeout {
            self.stats.timeouts = bump_counter(self.stats.timeouts);
        } else {
            self.stats.errors = bump_counter(self.stats.errors);
        }
        self.stats.interests_sent = bump_counter(self.stats.interests_sent);
        self.stats.last_activity = now;
        let shrunk: usize = self.congestion_window * 3 / 4;
        self.congestion_window = if shrunk >= 1 {
            shrunk
        } else {
            1
        };
    }

    /// The statistics.
    pub fn stats(&self) -> (r: ConnectionStats)
        ensures
            r == self.stats,
    {
        self.stats
    }

    /// Whether nothing happened for more than `idle_threshold_ms`.
    pub fn is_idle(&self, idle_threshold_ms: u64, now: u64) -> (r: bool)
        ensures
            r == idle_for(self.stats, idle_threshold_ms, now),
    {
        now >= self.stats.last_activity && now - self.stats.last_activity > idle_threshold_ms
    }

    /// Whether a new stream may be opened: the window is at least one.
    pub fn may_open_stream(&self) -> (r: bool)
        ensures
            r == (self.congestion_window >= 1),
    {
        self.congestion_window >= 1
    }

    /// Whether the maintenance tick removes this connection.
    pub fn is_removable(&self) -> (r: bool)
        ensures
            r == removable(self.state),
    {
        match &self.state {
            ConnectionState::Closing => true,
            ConnectionState::Failed(_) => true,
            _ => false,
        }
    }

    /// Applies the idle rules of a maintenance tick at `now`.
    pub fn tick(&mut self, idle_timeout_ms: u64, now: u64)
        ensures
            final(self).state == state_after_tick(old(self).state, old(self).stats, idle_timeout_ms, now),
            final(self).conn_id == old(self).conn_id,
            final(self).stats == old(self).stats,
            final(self).congestion_window == old(self).congestion_window,
    {
        let elapsed: u64 = if now >= self.stats.last_activity {
            now - self.stats.last_activity
        } else {
            0
        };
        let to_idle = match &self.state {
            ConnectionState::Connected => elapsed > idle_timeout_ms,
            _ => false,
        };
        let to_closing = match &self.state {
            ConnectionState::Idle => elapsed as u128 > 2 * (idle_timeout_ms as u128),
            _ => false,
        };
        if to_idle {
            self.state = ConnectionState::Idle;
        } else if to_closing {
            self.state = ConnectionState::Closing;
        }
    }
}

/// The connection state machine under inactivity: a connected connection
/// that stays silent for more than the idle timeout is idle at the next
/// tick; a successful exchange connects it again; an idle connection that
/// stays silent for more than twice the timeout is closing at the next
/// tick, which removes it from the table, as [`ConnectionTable::maintain`]
/// states.
pub proof fn lemma_idle_life_cycle(stats: ConnectionStats, idle_timeout_ms: u64, now: u64)
    requires
        now >= stats.last_activity,
    ensures
        now - stats.last_activity > idle_timeout_ms ==> state_after_tick(
            ConnectionState::Connected,
            stats,
            idle_timeout_ms,
            now,
        ) == ConnectionState::Idle,
        now - stats.last_activity <= idle_timeout_ms ==> state_after_tick(
            ConnectionState::Connected,
            stats,
            idle_timeout_ms,
            now,
        ) == ConnectionState::Connected,
        state_after_activity(ConnectionState::Idle) == ConnectionState::Connected,
        now - stats.last_activity > 2 * idle_timeout_ms ==> state_after_tick(
            ConnectionState::Idle,
            stats,
            idle_timeout_ms,
            now,
        ) == ConnectionState::Closing,
        removable(ConnectionState::Closing),
{
}

/// What the server does with the octets read from a stream.
#[derive(Debug)]
pub enum InboundPlan {
    /// Close the stream without a response and count an error.
    Drop,
    /// Write the encoded Nack and finish the stream.
    Reject(Vec<u8>),
    /// Hand the Interest to the registration that its name resolves to.
    Invoke { registration_id: u64, target: DispatchTarget, interest: Interest },
}

/// The Nack that answers an Interest for which there is no route.
pub open spec fn no_route_nack(i: crate::ndn::InterestView) -> NackView {
    NackView { interest: i, reason: NackReason::NoRoute, message: Seq::empty() }
}

/// Decides what to do with the request read from a stream: a request that
/// does not decode is dropped; an Interest that no registered prefix matches
/// is answered with a `NoRoute` Nack (dropped where that Nack does not fit
/// the wire); any other Interest goes to the registration it resolves to.
pub fn plan_inbound(table: &DispatchTable, request: &[u8]) -> (r: InboundPlan)
    requires
        table.wf(),
    ensures
        match decode_interest(request@) {
            None => r is Drop,
            Some(i) => if no_match(table.entries(), i.name) {
                if nack_encodable(no_route_nack(i)) {
                    r is Reject && r->Reject_0@ == encode_nack(no_route_nack(i))
                } else {
                    r is Drop
                }
            } else {
                r is Invoke && r->interest@ == i && exists|e: EntryView|
                    resolves_to(table.entries(), i.name, e) && e.registration_id == r->registration_id && e.target
                        == r->target
            },
        },
{
    let interest = match Interest::from_bytes(request) {
        Ok(i) => i,
        Err(_) => {
            return InboundPlan::Drop;
        },
    };
    match table.resolve(interest.name()) {
        Some(found) => {
            assert(!no_match(table.entries(), interest@.name)) by {
                assert(crate::name::is_prefix(table.entries()[found.registration_id].prefix, interest@.name));
            }
            InboundPlan::Invoke { registration_id: found.registration_id, target: found.target, interest }
        },
        None => {
            let nack = Nack::new(interest, NackReason::NoRoute);
            match nack.to_bytes() {
                Ok(bytes) => InboundPlan::Reject(bytes),
                Err(_) => InboundPlan::Drop,
            }
        },
    }
}

/// What the server does with a request once the content store was asked.
#[derive(Debug)]
pub enum InboundStep {
    /// Close the stream without a response and count an error.
    Drop,
    /// Write the encoded Nack and finish the stream.
    Reject(Vec<u8>),
    /// Answer with this Data from the store; no handler runs.
    Serve(Data),
    /// Hand the Interest to the registration that its name resolves to.
    Invoke { registration_id: u64, target: DispatchTarget, interest: Interest },
}

/// The Data that a step answers with from the store, if it does.
pub open spec fn served(step: InboundStep) -> Option<Data> {
    match step {
        InboundStep::Serve(d) => Some(d),
        _ => None,
    }
}

/// Asks the content store before a handler runs. A request that is dropped
/// or refused stays so and the store is not touched. For an Interest that
/// resolved, the store is looked up under the Interest's name: a hit is
/// served and no handler runs; otherwise the Interest goes to its handler.
pub fn consult_store(store: &mut ContentStore, plan: InboundPlan, now: u64) -> (r: InboundStep)
    requires
        old(store).wf(),
    ensures
        final(store).wf(),
        match plan {
            InboundPlan::Drop => r is Drop && *final(store) == *old(store),
            InboundPlan::Reject(bytes) => r is Reject && r->Reject_0 == bytes && *final(store) == *old(store),
            InboundPlan::Invoke { registration_id, target, interest } => fetched(
                *old(store),
                *final(store),
                interest@.name,
                now,
                served(r),
            ) && (r is Serve || (r is Invoke && r->registration_id == registration_id && r->target == target
                && r->interest == interest)),
        },
{
    match plan {
        InboundPlan::Drop => InboundStep::Drop,
        InboundPlan::Reject(bytes) => InboundStep::Reject(bytes),
        InboundPlan::Invoke { registration_id, target, interest } => {
            match store.get(interest.name(), now) {
                Some(data) => InboundStep::Serve(data),
                None => InboundStep::Invoke { registration_id, target, interest },
            }
        },
    }
}

/// Keeps the Data that a handler produced in the content store, under its
/// own name and with the store's default time to live.
pub fn keep_answer(store: &mut ContentStore, data: &Data, now: u64)
    requires
        old(store).wf(),
    ensures
        final(store).wf(),
        stored(*old(store), *final(store), data@.name, data@, old(store).ttl_default(), now),
{
    store.insert(data.name().duplicate(), data.duplicate(), now);
}

/// Why a handler produced no Data: the reason and the text of the Nack that
/// answers the Interest.
#[derive(Debug)]
pub struct HandlerFailure {
    pub reason: NackReason,
    pub text: String,
}

/// The Nack that reports a handler's failure.
pub open spec fn failure_nack(i: crate::ndn::InterestView, reason: NackReason, text: Seq<u8>) -> NackView {
    NackView { interest: i, reason: reason, message: text }
}

/// Frames a handler's failure: the encoded Nack with the handler's reason,
/// as the wire carries it, and text; or nothing where it does not fit the
/// wire.
pub fn frame_failure(interest: Interest, failure: &HandlerFailure) -> (r: Vec<Vec<u8>>)
    ensures
        ({
            let n = failure_nack(
                interest@,
                crate::ndn::reason_of_code(crate::ndn::reason_code(failure.reason)),
                vstd::utf8::encode_utf8(failure.text@),
            );
            if nack_encodable(n) {
                r@.len() == 1 && r@[0]@ == encode_nack(n)
            } else {
                r@.len() == 0
            }
        }),
{
    let nack = Nack::new(interest, failure.reason).with_message(failure.text.as_str());
    let mut out: Vec<Vec<u8>> = Vec::new();
    match nack.to_bytes() {
        Ok(bytes) => {
            out.push(bytes);
        },
        Err(_) => {},
    }
    out
}

/// Frames the Data that a handler produced: the whole encoding where it fits
/// the MTU, its fragments otherwise; nothing where the Data does not fit the
/// wire format or would take more fragments than a header can count. No
/// chunk is longer than the MTU in force, and every fragment but the last
/// fills it.
pub fn frame_data(fragmenter: &mut Fragmenter, data: &Data, now: u64) -> (r: Vec<Vec<u8>>)
    requires
        fragmenter_wf(old(fragmenter)@),
    ensures
        fragmenter_wf(final(fragmenter)@),
        fits(r@, final(fragmenter)@.mtu as int),
        !data_encodable(data@) ==> r@.len() == 0 && final(fragmenter)@ == old(fragmenter)@,
        data_encodable(data@) && encode_data(data@).len() <= old(fragmenter)@.mtu ==> r@.len() == 1 && r@[0]@
            == encode_data(data@) && final(fragmenter)@ == old(fragmenter)@,
        data_encodable(data@) && encode_data(data@).len() > old(fragmenter)@.mtu ==> exists|
            f: Result<Vec<Vec<u8>>, Error>,
        |
            fragmented(old(fragmenter)@, final(fragmenter)@, data@, now, f) && match f {
                Ok(frags) => r == frags,
                Err(_) => r@.len() == 0,
            },
{
    let mut out: Vec<Vec<u8>> = Vec::new();
    let bytes = match data.to_bytes() {
        Ok(b) => b,
        Err(_) => {
            return out;
        },
    };
    if bytes.len() <= fragmenter.mtu() {
        out.push(bytes);
        return out;
    }
    let f = fragmenter.fragment(data, now);
    match f {
        Ok(frags) => {
            assert(fragmented(old(fragmenter)@, fragmenter@, data@, now, Ok::<Vec<Vec<u8>>, Error>(frags)));
            frags
        },
        Err(e) => {
            assert(fragmented(old(fragmenter)@, fragmenter@, data@, now, Err::<Vec<Vec<u8>>, Error>(e)));
            out
        },
    }
}

/// Whether a buffer opens with the fragment magic.
pub open spec fn opens_with_magic(s: Seq<u8>) -> bool {
    s.len() >= 2 && s[0] == 0x46 && s[1] == 0x44
}

/// Executable form of [`opens_with_magic`].
pub fn opens_with_magic_octets(chunk: &[u8]) -> (r: bool)
    ensures
        r == opens_with_magic(chunk@),
{
    chunk.len() >= 2 && chunk[0] == 0x46 && chunk[1] == 0x44
}

/// Concludes a response: the Data where one was completed; where the
/// response ended before its Data was complete, the exchange fails as
/// `ReassemblyTimeout`.
pub fn conclude_response(found: Option<Data>) -> (r: Result<Data, Error>)
    ensures
        match found {
            Some(d) => r == Ok::<Data, Error>(d),
            None => r == Err::<Data, Error>(Error::ReassemblyTimeout),
        },
{
    match found {
        Some(d) => Ok(d),
        None => Err(Error::ReassemblyTimeout),
    }
}

/// Takes one chunk of a response on the client side. A chunk that opens with
/// the fragment magic goes to the fragmenter; any other is decoded as Data,
/// else as a Nack, which comes back as the error `Nack` with its reason;
/// what is neither is refused with `Parse`.
pub fn read_response(fragmenter: &mut Fragmenter, chunk: &[u8], now: u64) -> (r: Result<Option<Data>, Error>)
    requires
        fragmenter_wf(old(fragmenter)@),
    ensures
        fragmenter_wf(final(fragmenter)@),
        opens_with_magic(chunk@) ==> processed(old(fragmenter)@, final(fragmenter)@, chunk@, now, r),
        !opens_with_magic(chunk@) ==> final(fragmenter)@ == old(fragmenter)@ && match decode_data(chunk@) {
            Some(d) => r is Ok && r->Ok_0 is Some && r->Ok_0->0@ == d,
            None => match decode_nack(chunk@) {
                Some(n) => r == Err::<Option<Data>, Error>(Error::Nack(n.reason)),
                None => r == Err::<Option<Data>, Error>(Error::Parse),
            },
        },
{
    if opens_with_magic_octets(chunk) {
        return fragmenter.process_fragment(chunk, now);
    }
    match Data::from_bytes(chunk) {
        Ok(data) => Ok(Some(data)),
        Err(_) => match Nack::from_bytes(chunk) {
            Ok(nack) => Err(Error::Nack(nack.reason())),
            Err(_) => Err(Error::Parse),
        },
    }
}

/// The packet size limit in force: the configured one, at most 10 MiB.
pub fn effective_max_packet_size(configured: usize) -> (r: usize)
    ensures
        r == if configured <= HARD_MAX_PACKET_SIZE {
            configured
        } else {
            HARD_MAX_PACKET_SIZE
        },
{
    if configured <= HARD_MAX_PACKET_SIZE {
        configured
    } else {
        HARD_MAX_PACKET_SIZE
    }
}

/// The concurrent map type of the `dashmap` crate; nothing is known of a
/// value but what the wrappers below say of its contents.
#[verifier::external_type_specification]
#[verifier::external_body]
#[verifier::reject_recursive_types(K)]
#[verifier::reject_recursive_types(V)]
#[verifier::reject_recursive_types(S)]
pub struct ExDashMap<K, V, S>(dashmap::DashMap<K, V, S>);

/// The trackers that a connection map holds, by connection id.
pub uninterp spec fn table_contents(m: dashmap::DashMap<u64, ConnectionTracker>) -> Map<u64, ConnectionTracker>;

/// The contents of a table without connections.
pub open spec fn no_trackers() -> Map<u64, ConnectionTracker> {
    Map::empty()
}

/// Makes a connection map with `DashMap::new`: it is empty.
#[verifier::external_body]
fn table_new() -> (table: dashmap::DashMap<u64, ConnectionTracker>)
    ensures
        table_contents(table) == no_trackers(),
{
    dashmap::DashMap::new()
}

/// Stores a tracker with `DashMap::insert`: afterwards the map holds it
/// under the key, in place of any tracker held there before; every other
/// key keeps its tracker.
#[verifier::external_body]
fn table_insert(m: &mut dashmap::DashMap<u64, ConnectionTracker>, k: u64, v: ConnectionTracker)
    ensures
        table_contents(*final(m)) == table_contents(*old(m)).insert(k, v),
{
    m.insert(k, v);
}

/// Takes a tracker out with `DashMap::remove`: the tracker held under the
/// key, or `None` where there is none; every other key keeps its tracker.
#[verifier::external_body]
fn table_remove(m: &mut dashmap::DashMap<u64, ConnectionTracker>, k: u64) -> (r: Option<ConnectionTracker>)
    ensures
        table_contents(*final(m)) == table_contents(*old(m)).remove(k),
        table_contents(*old(m)).contains_key(k) ==> r == Some(table_contents(*old(m))[k]),
        !table_contents(*old(m)).contains_key(k) ==> r is None,
{
    m.remove(&k).map(|kv| kv.1)
}

/// Lists the keys with `DashMap::iter`: every key once, in no particular
/// order.
#[verifier::external_body]
fn table_keys(m: &dashmap::DashMap<u64, ConnectionTracker>) -> (r: Vec<u64>)
    ensures
        r@.no_duplicates(),
        forall|k: u64| r@.contains(k) <==> table_contents(*m).contains_key(k),
{
    m.iter().map(|e| *e.key()).collect()
}

/// The tracker after the idle rules of a maintenance tick.
pub open spec fn ticked(t: ConnectionTracker, idle_timeout_ms: u64, now: u64) -> ConnectionTracker {
    ConnectionTracker { state: state_after_tick(t.state, t.stats, idle_timeout_ms, now), ..t }
}

/// The connections of an endpoint, by connection id.
pub struct ConnectionTable {
    map: dashmap::DashMap<u64, ConnectionTracker>,
    next_id: u64,
}

impl ConnectionTable {
    /// The trackers by connection id.
    pub closed spec fn trackers(&self) -> Map<u64, ConnectionTracker> {
        table_contents(self.map)
    }

    /// The id that the next connection gets.
    pub closed spec fn next_id(&self) -> u64 {
        self.next_id
    }

    /// Every tracker is held under its own id, and ids are not reused.
    pub open spec fn wf(&self) -> bool {
        forall|k: u64| #[trigger]
            self.trackers().contains_key(k) ==> k < self.next_id() && self.trackers()[k].conn_id == k
    }

    /// An empty table; the first connection gets the id 1.
    pub fn new() -> (r: Self)
        ensures
            r.trackers() == no_trackers(),
            r.next_id() == 1,
            r.wf(),
    {
        ConnectionTable { map: table_new(), next_id: 1 }
    }

    /// Tracks a connection that is being set up at `now` and gives its id;
    /// `InvalidState`, with nothing changed, once the ids are used up.
    pub fn open(&mut self, now: u64) -> (r: Result<u64, Error>)
        requires
            old(self).wf(),
        ensures
            final(self).wf(),
            old(self).next_id() < u64::MAX ==> r == Ok::<u64, Error>(old(self).next_id()) && final(self).next_id()
                == old(self).next_id() + 1 && final(self).trackers().dom() == old(self).trackers().dom().insert(
                old(self).next_id(),
            ) && final(self).trackers()[old(self).next_id()].conn_id == old(self).next_id() && final(self).trackers()[old(self).next_id()].state == ConnectionState::Connecting && final(self).trackers()[old(self).next_id()].stats == ConnectionStats::fresh(now) && final(self).trackers()[old(self).next_id()].congestion_window == INITIAL_WINDOW && (forall|k: u64|
                old(self).trackers().contains_key(k) ==> #[trigger] final(self).trackers()[k] == old(self).trackers()[k]),
            old(self).next_id() == u64::MAX ==> r == Err::<u64, Error>(Error::InvalidState) && final(self).trackers() == old(self).trackers() && final(self).next_id() == old(self).next_id(),
    {
        if self.next_id == u64::MAX {
            return Err(Error::InvalidState);
        }
        let id = self.next_id;
        self.next_id = id + 1;
        table_insert(&mut self.map, id, ConnectionTracker::new(id, now));
        assert(self.trackers().dom() =~= old(self).trackers().dom().insert(id));
        Ok(id)
    }

    /// Takes the tracker of connection `id` out of the table, to be put
    /// back once it was worked on; `None` where the table holds none.
    pub fn take(&mut self, id: u64) -> (r: Option<ConnectionTracker>)
        requires
            old(self).wf(),
        ensures
            final(self).wf(),
            final(self).next_id() == old(self).next_id(),
            final(self).trackers() == old(self).trackers().remove(id),
            old(self).trackers().contains_key(id) ==> r == Some(old(self).trackers()[id]),
            !old(self).trackers().contains_key(id) ==> r is None,
    {
        table_remove(&mut self.map, id)
    }

    /// Puts a tracker into the table under its id; `NotFound`, with nothing
    /// changed, for a tracker whose id the table never gave out.
    pub fn put(&mut self, tracker: ConnectionTracker) -> (r: Result<(), Error>)
        requires
            old(self).wf(),
        ensures
            final(self).wf(),
            final(self).next_id() == old(self).next_id(),
            tracker.conn_id < old(self).next_id() ==> r is Ok && final(self).trackers() == old(self).trackers().insert(tracker.conn_id, tracker),
            tracker.conn_id >= old(self).next_id() ==> r == Err::<(), Error>(Error::NotFound) && final(self).trackers() == old(self).trackers(),
    {
        if tracker.conn_id >= self.next_id {
            return Err(Error::NotFound);
        }
        let id = tracker.conn_id;
        table_insert(&mut self.map, id, tracker);
        Ok(())
    }

    /// The ids of the connections, in no particular order.
    pub fn ids(&self) -> (r: Vec<u64>)
        ensures
            r@.no_duplicates(),
            forall|k: u64| r@.contains(k) <==> self.trackers().contains_key(k),
    {
        table_keys(&self.map)
    }

    /// One maintenance tick at `now`: the idle rules are applied to every
    /// connection, and those that are closing or failed after that leave the
    /// table.
    pub fn maintain(&mut self, idle_timeout_ms: u64, now: u64)
        requires
            old(self).wf(),
        ensures
            final(self).wf(),
            final(self).next_id() == old(self).next_id(),
            final(self).trackers() == Map::new(
                |k: u64|
                    old(self).trackers().contains_key(k) && !removable(
                        ticked(old(self).trackers()[k], idle_timeout_ms, now).state,
                    ),
                |k: u64| ticked(old(self).trackers()[k], idle_timeout_ms, now),
            ),
    {
        let keys = table_keys(&self.map);
        let ghost before = self.trackers();
        let mut i: usize = 0;
        assert forall|j: int| 0 <= j < keys@.len() implies before.contains_key(#[trigger] keys@[j]) by {
            assert(keys@.contains(keys@[j]));
        }
        while i < keys.len()
            invariant
                0 <= i <= keys@.len(),
                keys@.no_duplicates(),
                forall|k: u64| keys@.contains(k) <==> before.contains_key(k),
                before == old(self).trackers(),
                old(self).wf(),
                self.next_id == old(self).next_id,
                forall|k: u64| #[trigger] self.trackers().contains_key(k) ==> before.contains_key(k),
                forall|j: int|
                    0 <= j < i ==> (self.trackers().contains_key(#[trigger] keys@[j]) <==> !removable(
                        ticked(before[keys@[j]], idle_timeout_ms, now).state,
                    )),
                forall|j: int|
                    0 <= j < i && self.trackers().contains_key(#[trigger] keys@[j]) ==> self.trackers()[keys@[j]]
                        == ticked(before[keys@[j]], idle_timeout_ms, now),
                forall|j: int|
                    i <= j < keys@.len() ==> self.trackers().contains_key(#[trigger] keys@[j])
                        && self.trackers()[keys@[j]] == before[keys@[j]],
            decreases keys@.len() - i,
        {
            let k = keys[i];
            assert(keys@.contains(k));
            let ghost mid = self.trackers();
            match table_remove(&mut self.map, k) {
                Some(mut t) => {
                    t.tick(idle_timeout_ms, now);
                    if !t.is_removable() {
                        table_insert(&mut self.map, k, t);
                    }
                },
                None => {},
            }
            proof {
                assert forall|j: int| 0 <= j < keys@.len() && j != i implies keys@[j] != k by {}
            }
            i += 1;
        }
        proof {
            let expected = Map::new(
                |k: u64| before.contains_key(k) && !removable(ticked(before[k], idle_timeout_ms, now).state),
                |k: u64| ticked(before[k], idle_timeout_ms, now),
            );
            assert forall|k: u64| self.trackers().contains_key(k) == expected.contains_key(k) by {
                if before.contains_key(k) {
                    assert(keys@.contains(k));
                    let j = choose|j: int| 0 <= j < keys@.len() && keys@[j] == k;
                    assert(self.trackers().contains_key(keys@[j]) <==> !removable(
                        ticked(before[keys@[j]], idle_timeout_ms, now).state,
                    ));
                }
            }
            assert forall|k: u64| self.trackers().contains_key(k) implies self.trackers()[k] == expected[k] by {
                assert(keys@.contains(k));
                let j = choose|j: int| 0 <= j < keys@.len() && keys@[j] == k;
                assert(self.trackers()[keys@[j]] == ticked(before[keys@[j]], idle_timeout_ms, now));
            }
            assert(self.trackers() =~= expected);
        }
    }
}

} // verus!
