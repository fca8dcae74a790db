use udcn_transport::cache::ContentStore;
use udcn_transport::dispatch::{DispatchTable, DispatchTarget};
use udcn_transport::error::{Error, NackReason};
use udcn_transport::fragmentation::Fragmenter;
use udcn_transport::interest_retry::{apply_jitter, RetryDecision, RetryPolicy};
use udcn_transport::interface::{Face, Protocol};
use udcn_transport::ml::{
    apply_recommendation, MTUPredictor, MtuFeatures, MtuPredictionModel, NetworkType,
    SimpleRuleBasedModel,
};
use udcn_transport::name::Name;
use udcn_transport::ndn::{Data, Interest, Nack};
use udcn_transport::pipeline::{Completion, InterestPipeline, PipelineConfig, PipelineStats};
use udcn_transport::quic_transport::{
    consult_store, effective_max_packet_size, frame_data, frame_failure, keep_answer, plan_inbound,
    read_response, InboundStep,
    ConnectionState, ConnectionStats, ConnectionTable, ConnectionTracker, HandlerFailure,
    InboundPlan,
};
use udcn_transport::security::KeyStore;
use udcn_transport::xdp::{mirror_entry, XdpMetrics, XdpStatus};
use udcn_transport::{request, settle, Command, Config, TransportState, UdcnTransport};

fn abc_table() -> (DispatchTable, u64, u64, u64) {
    let mut table = DispatchTable::new();
    let a = table.register_producer(Name::from("/a")).unwrap();
    let ab = table.register_producer(Name::from("/a/b")).unwrap();
    let abc = table.register_producer(Name::from("/a/b/c")).unwrap();
    (table, a, ab, abc)
}

fn resolved(table: &DispatchTable, uri: &str) -> Option<u64> {
    table.resolve(&Name::from(uri)).map(|e| e.registration_id)
}

#[test]
fn dispatch_resolves_the_longest_prefix() {
    let (table, a, ab, abc) = abc_table();
    assert_eq!((a, ab, abc), (1, 2, 3));
    assert_eq!(resolved(&table, "/a/b/c/d"), Some(abc));
    assert_eq!(resolved(&table, "/a/b/x"), Some(ab));
    assert_eq!(resolved(&table, "/a/y"), Some(a));
    assert_eq!(resolved(&table, "/z"), None);
    assert_eq!(resolved(&table, "/a/b/c"), Some(abc));
}

#[test]
fn dispatch_breaks_ties_by_priority_then_age() {
    let mut table = DispatchTable::new();
    let first = table.register_route(Name::from("/p"), 10, 1).unwrap();
    let second = table.register_route(Name::from("/p"), 11, 5).unwrap();
    let third = table.register_route(Name::from("/p"), 12, 5).unwrap();
    assert_eq!(resolved(&table, "/p/x"), Some(second));
    let entry = table.resolve(&Name::from("/p")).unwrap();
    assert_eq!(entry.target, DispatchTarget::Route { peer: 11 });
    assert_eq!(table.unregister(second), Ok(()));
    assert_eq!(resolved(&table, "/p/x"), Some(third));
    assert_eq!(table.unregister(third), Ok(()));
    assert_eq!(resolved(&table, "/p/x"), Some(first));
    assert_eq!(table.unregister(third), Err(Error::NotFound));
    assert_eq!(table.len(), 1);
}

fn serve(
    table: &DispatchTable,
    fragmenter: &mut Fragmenter,
    request_bytes: &[u8],
    handler: &mut dyn FnMut(u64, &Interest) -> Result<Data, HandlerFailure>,
) -> Vec<Vec<u8>> {
    match plan_inbound(table, request_bytes) {
        InboundPlan::Drop => Vec::new(),
        InboundPlan::Reject(nack) => vec![nack],
        InboundPlan::Invoke { registration_id, interest, .. } => {
            match handler(registration_id, &interest) {
                Ok(data) => frame_data(fragmenter, &data, 0),
                Err(failure) => frame_failure(interest, &failure),
            }
        }
    }
}

fn receive(chunks: &[Vec<u8>]) -> Result<Data, Error> {
    let mut fragmenter = Fragmenter::new(1400, 0);
    for chunk in chunks {
        if let Some(data) = read_response(&mut fragmenter, chunk, 0)? {
            return Ok(data);
        }
    }
    Err(Error::ReassemblyTimeout)
}

#[test]
fn echo_handler_answers_with_the_name() {
    let mut table = DispatchTable::new();
    table.register_producer(Name::from("/udcn/test")).unwrap();
    let mut fragmenter = Fragmenter::new(1400, 0);
    let request_bytes = Interest::new(Name::from("/udcn/test/x")).to_bytes().unwrap();
    let mut handler = |_id: u64, i: &Interest| {
        let mut content = b"Echo for ".to_vec();
        content.extend_from_slice(i.name().to_string().as_bytes());
        Ok(Data::new(i.name().duplicate(), content))
    };
    let chunks = serve(&table, &mut fragmenter, &request_bytes, &mut handler);
    let data = receive(&chunks).unwrap();
    assert_eq!(data.content(), b"Echo for /udcn/test/x");
    assert_eq!(data.name(), &Name::from("/udcn/test/x"));
}

#[test]
fn cached_answer_spares_the_handler() {
    let mut table = DispatchTable::new();
    table.register_producer(Name::from("/test/cache")).unwrap();
    let mut store = ContentStore::new(10);
    let mut fragmenter = Fragmenter::new(1400, 0);
    let mut calls = 0;
    let name = Name::from("/test/cache/item");
    let request_bytes = Interest::new(name.duplicate()).to_bytes().unwrap();
    let mut answers = Vec::new();
    for _ in 0..2 {
        let plan = plan_inbound(&table, &request_bytes);
        let chunks = match consult_store(&mut store, plan, 0) {
            InboundStep::Serve(data) => frame_data(&mut fragmenter, &data, 0),
            InboundStep::Invoke { interest, .. } => {
                calls += 1;
                let data = Data::new(interest.name().duplicate(), b"Cached data".to_vec());
                keep_answer(&mut store, &data, 0);
                frame_data(&mut fragmenter, &data, 0)
            }
            other => panic!("unexpected step {:?}", other),
        };
        answers.push(receive(&chunks).unwrap());
    }
    assert_eq!(calls, 1);
    assert_eq!(answers[0], answers[1]);
    assert_eq!(answers[0].content(), b"Cached data");
    assert!(matches!(
        consult_store(&mut store, plan_inbound(&table, &[1, 2]), 0),
        InboundStep::Drop
    ));
    let unknown = Interest::new(Name::from("/nowhere")).to_bytes().unwrap();
    assert!(matches!(
        consult_store(&mut store, plan_inbound(&table, &unknown), 0),
        InboundStep::Reject(_)
    ));
    assert!(matches!(
        consult_store(&mut store, plan_inbound(&table, &request_bytes), 3_600_001),
        InboundStep::Invoke { .. }
    ));
}

#[test]
fn large_data_travels_in_fragments() {
    let mut table = DispatchTable::new();
    table.register_producer(Name::from("/test/large")).unwrap();
    let mut fragmenter = Fragmenter::new(1400, 0);
    let request_bytes = Interest::new(Name::from("/test/large/x")).to_bytes().unwrap();
    let mut handler =
        |_id: u64, i: &Interest| Ok(Data::new(i.name().duplicate(), vec![0u8; 10_000]));
    let chunks = serve(&table, &mut fragmenter, &request_bytes, &mut handler);
    assert_eq!(chunks.len(), 8);
    assert!(chunks.iter().all(|c| c[0] == 0x46 && c[1] == 0x44));
    let data = receive(&chunks).unwrap();
    assert_eq!(data.content().len(), 10_000);
    assert!(data.content().iter().all(|b| *b == 0));
    let mut shuffled = chunks.clone();
    shuffled.reverse();
    shuffled.swap(1, 5);
    assert_eq!(receive(&shuffled).unwrap(), data);
}

#[test]
fn longest_prefix_scenario_with_distinct_contents() {
    let (table, a, ab, abc) = abc_table();
    let mut fragmenter = Fragmenter::new(1400, 0);
    let mut handler = |id: u64, i: &Interest| {
        let content: &[u8] = if id == a {
            b"A"
        } else if id == ab {
            b"AB"
        } else if id == abc {
            b"ABC"
        } else {
            b"?"
        };
        Ok(Data::new(i.name().duplicate(), content.to_vec()))
    };
    let mut ask = |uri: &str| {
        let request_bytes = Interest::new(Name::from(uri)).to_bytes().unwrap();
        receive(&serve(&table, &mut fragmenter, &request_bytes, &mut handler))
    };
    assert_eq!(ask("/a/b/c/d").unwrap().content(), b"ABC");
    assert_eq!(ask("/a/b/z").unwrap().content(), b"AB");
    assert_eq!(ask("/a/z").unwrap().content(), b"A");
    assert_eq!(ask("/z"), Err(Error::Nack(NackReason::NoRoute)));
}

#[test]
fn handler_failure_becomes_a_nack_that_is_not_retried() {
    let mut table = DispatchTable::new();
    table.register_producer(Name::from("/busy")).unwrap();
    let mut fragmenter = Fragmenter::new(1400, 0);
    let request_bytes = Interest::new(Name::from("/busy/x")).with_nonce(9).to_bytes().unwrap();
    let mut attempts = 0;
    let mut handler = |_id: u64, _i: &Interest| {
        attempts += 1;
        Err(HandlerFailure { reason: NackReason::NoResource, text: "out of buffers".to_string() })
    };
    let chunks = serve(&table, &mut fragmenter, &request_bytes, &mut handler);
    assert_eq!(chunks.len(), 1);
    let nack = Nack::from_bytes(&chunks[0]).unwrap();
    assert_eq!(nack.reason(), NackReason::NoResource);
    assert_eq!(nack.message(), "out of buffers");
    assert_eq!(nack.interest().nonce(), 9);
    let error = receive(&chunks).unwrap_err();
    assert_eq!(error, Error::Nack(NackReason::NoResource));
    let policy = RetryPolicy { with_jitter: false, ..RetryPolicy::standard() };
    assert_eq!(policy.on_failure(error, 1), RetryDecision::GiveUp(error));
    assert_eq!(attempts, 1);
}

#[test]
fn malformed_request_is_dropped_and_garbage_response_is_refused() {
    let (table, _, _, _) = abc_table();
    assert!(matches!(plan_inbound(&table, &[1, 2, 3]), InboundPlan::Drop));
    assert!(matches!(plan_inbound(&table, &[]), InboundPlan::Drop));
    let mut fragmenter = Fragmenter::new(1400, 0);
    assert_eq!(read_response(&mut fragmenter, &[9, 9, 9], 0), Err(Error::Parse));
    assert_eq!(read_response(&mut fragmenter, &[0x46, 0x44, 1], 0), Err(Error::Parse));
    assert_eq!(effective_max_packet_size(65_535), 65_535);
    assert_eq!(effective_max_packet_size(usize::MAX), 10 * 1024 * 1024);
}

#[test]
fn small_data_is_written_whole() {
    let mut fragmenter = Fragmenter::new(1400, 0);
    let data = Data::new(Name::from("/s"), vec![1, 2, 3]);
    let chunks = frame_data(&mut fragmenter, &data, 0);
    assert_eq!(chunks, vec![data.to_bytes().unwrap()]);
    let huge = Data::new(Name::from("/s"), vec![0; 70_000]);
    assert!(frame_data(&mut fragmenter, &huge, 0).is_empty());
}

#[test]
fn backoff_delays_without_jitter() {
    let policy = RetryPolicy {
        max_attempts: 8,
        base_delay_ms: 100,
        max_delay_ms: 5000,
        backoff_num: 2,
        backoff_den: 1,
        with_jitter: false,
    };
    let delays: Vec<u64> = (0..=8).map(|n| policy.delay_for_attempt(n)).collect();
    assert_eq!(delays, vec![0, 100, 200, 400, 800, 1600, 3200, 5000, 5000]);
    assert_eq!(policy.delay_for_attempt(u32::MAX), 5000);
    assert_eq!(policy.base_delay_for_attempt(3), 400);

    let quick = RetryPolicy { with_jitter: false, ..RetryPolicy::quick_retries() };
    let delays: Vec<u64> = (1..=9).map(|n| quick.delay_for_attempt(n)).collect();
    assert_eq!(delays, vec![50, 75, 112, 168, 253, 379, 569, 854, 1000]);
    let slow = RetryPolicy { base_delay_ms: 1000, backoff_num: 1, backoff_den: 3, ..policy };
    let delays: Vec<u64> = (1..=9).map(|n| slow.delay_for_attempt(n)).collect();
    assert_eq!(delays, vec![1000, 333, 111, 37, 12, 4, 1, 0, 0]);
    assert_eq!(slow.delay_for_attempt(u32::MAX), 0);
    let wide = RetryPolicy { base_delay_ms: 7, max_delay_ms: u64::MAX, backoff_num: 3, backoff_den: 2, ..policy };
    assert_eq!(wide.delay_for_attempt(101), 2845928242746506661);
    assert_eq!(wide.delay_for_attempt(110), u64::MAX);

    let flat = RetryPolicy { backoff_num: 1, ..policy };
    assert_eq!(flat.delay_for_attempt(1_000_000), 100);
    let unbounded = RetryPolicy { backoff_den: 0, ..policy };
    assert_eq!(unbounded.delay_for_attempt(2), 5000);
    let capped_base = RetryPolicy { base_delay_ms: 9000, ..policy };
    assert_eq!(capped_base.delay_for_attempt(1), 5000);
}

#[test]
fn retry_scenario_with_two_transient_failures() {
    let policy = RetryPolicy {
        max_attempts: 3,
        base_delay_ms: 50,
        max_delay_ms: 5000,
        backoff_num: 2,
        backoff_den: 1,
        with_jitter: false,
    };
    let mut attempt = 0;
    let mut slept = 0;
    let outcome = loop {
        attempt += 1;
        let result: Result<u8, Error> = if attempt < 3 { Err(Error::Timeout) } else { Ok(7) };
        match result {
            Ok(v) => break Ok(v),
            Err(e) => match policy.on_failure(e, attempt) {
                RetryDecision::RetryAfter(ms) => slept += ms,
                RetryDecision::GiveUp(e) => break Err(e),
            },
        }
    };
    assert_eq!(outcome, Ok(7));
    assert_eq!(slept, 150);
    assert_eq!(attempt, 3);
}

#[test]
fn retry_taxonomy_and_exhaustion() {
    let policy = RetryPolicy { with_jitter: false, ..RetryPolicy::standard() };
    for e in [Error::Io, Error::Connection, Error::Timeout] {
        assert!(e.is_retryable());
        assert!(policy.should_retry(&e, 1));
        assert!(policy.should_retry(&e, 2));
        assert!(!policy.should_retry(&e, 3));
        assert_eq!(policy.on_failure(e, 3), RetryDecision::GiveUp(e));
    }
    for e in [
        Error::Parse,
        Error::InvalidArgument,
        Error::Nack(NackReason::Congestion),
        Error::NotFound,
        Error::InvalidState,
        Error::QueueFull,
        Error::Crypto,
        Error::ReassemblyTimeout,
        Error::Offload,
    ] {
        assert!(!e.is_retryable());
        assert!(!policy.should_retry(&e, 1));
    }
    assert_eq!(RetryPolicy::persistent_retries().max_attempts, 10);
}

#[test]
fn jitter_stays_within_a_quarter() {
    let policy = RetryPolicy::standard();
    for _ in 0..200 {
        let d = policy.delay_for_attempt(2);
        assert!((150..250).contains(&d), "{}", d);
    }
    assert_eq!(apply_jitter(1000, 750), 750);
    assert_eq!(apply_jitter(1000, 1249), 1249);
    assert_eq!(apply_jitter(7, 1100), 7);
    assert_eq!(apply_jitter(u64::MAX, 1249), u64::MAX);
}

#[test]
fn fresh_interests_draw_their_nonce() {
    let nonces: std::collections::HashSet<u32> =
        (0..64).map(|_| Interest::new(Name::from("/n")).nonce()).collect();
    assert!(nonces.len() > 1);
}

#[test]
fn connection_goes_idle_then_closes_and_is_removed() {
    let mut t = ConnectionTracker::new(1, 0);
    assert_eq!(t.state, ConnectionState::Connecting);
    t.established();
    assert_eq!(t.state, ConnectionState::Connected);
    t.tick(30_000, 30_000);
    assert_eq!(t.state, ConnectionState::Connected);
    assert!(!t.is_idle(30_000, 30_000));
    assert!(t.is_idle(30_000, 30_001));
    t.tick(30_000, 30_001);
    assert_eq!(t.state, ConnectionState::Idle);
    t.report_success(20, 100, 31_000);
    assert_eq!(t.state, ConnectionState::Connected);
    t.tick(30_000, 61_001);
    assert_eq!(t.state, ConnectionState::Idle);
    t.tick(30_000, 91_000);
    assert_eq!(t.state, ConnectionState::Idle);
    t.tick(30_000, 91_001);
    assert_eq!(t.state, ConnectionState::Closing);
    assert!(t.is_removable());

    let mut failed = ConnectionTracker::new(3, 0);
    failed.fail("handshake".to_string());
    assert_eq!(failed.state, ConnectionState::Failed("handshake".to_string()));
}

#[test]
fn maintenance_removes_closing_and_failed_connections() {
    let mut table = ConnectionTable::new();
    let a = table.open(0).unwrap();
    let b = table.open(0).unwrap();
    let c = table.open(0).unwrap();
    let d = table.open(0).unwrap();
    assert_eq!((a, b, c, d), (1, 2, 3, 4));
    for id in [a, b, c] {
        let mut t = table.take(id).unwrap();
        assert_eq!(t.conn_id, id);
        assert_eq!(t.state, ConnectionState::Connecting);
        t.established();
        assert_eq!(table.put(t), Ok(()));
    }
    let mut t = table.take(c).unwrap();
    t.fail("reset".to_string());
    table.put(t).unwrap();
    let mut ids = table.ids();
    ids.sort();
    assert_eq!(ids, vec![1, 2, 3, 4]);

    table.maintain(30_000, 30_001);
    let mut ids = table.ids();
    ids.sort();
    assert_eq!(ids, vec![1, 2, 4]);
    let t = table.take(a).unwrap();
    assert_eq!(t.state, ConnectionState::Idle);
    table.put(t).unwrap();
    let mut t = table.take(b).unwrap();
    assert_eq!(t.state, ConnectionState::Idle);
    t.report_success(5, 10, 40_000);
    assert_eq!(t.state, ConnectionState::Connected);
    table.put(t).unwrap();
    assert_eq!(table.take(d).unwrap().state, ConnectionState::Connecting);

    table.maintain(30_000, 60_001);
    assert_eq!(table.ids(), vec![2]);
    assert!(table.take(a).is_none());
    let t = table.take(b).unwrap();
    assert_eq!(t.state, ConnectionState::Connected);
    table.put(t).unwrap();
    assert_eq!(table.put(ConnectionTracker::new(99, 0)), Err(Error::NotFound));
    assert_eq!(table.open(0), Ok(5));
}

#[test]
fn connection_statistics_and_window() {
    let mut t = ConnectionTracker::new(1, 5);
    t.close();
    assert_eq!(t.state, ConnectionState::Connecting);
    t.established();
    assert_eq!(t.stats(), ConnectionStats::new(5));
    assert_eq!(t.congestion_window, 10);
    t.report_success(100, 1000, 10);
    t.report_success(200, 2000, 20);
    let s = t.stats();
    assert_eq!(s.rtt_ms, 120);
    assert_eq!(s.avg_data_size, 1200);
    assert_eq!((s.interests_sent, s.data_received, s.last_activity), (2, 2, 20));
    assert_eq!(t.congestion_window, 12);
    t.report_failure(true, 30);
    t.report_failure(false, 40);
    let s = t.stats();
    assert_eq!((s.timeouts, s.errors, s.interests_sent, s.last_activity), (1, 1, 4, 40));
    assert_eq!(t.congestion_window, 6);
    for _ in 0..10 {
        t.report_failure(false, 50);
    }
    assert_eq!(t.congestion_window, 1);
    assert!(t.may_open_stream());
    for _ in 0..200 {
        t.report_success(1, 1, 60);
    }
    assert_eq!(t.congestion_window, 100);
    t.close();
    assert_eq!(t.state, ConnectionState::Closing);
    t.set_state(ConnectionState::Connected);
    assert_eq!(t.state, ConnectionState::Connected);
}

#[test]
fn pipeline_keeps_to_its_bounds() {
    let config = PipelineConfig { max_in_flight: 3, interest_timeout_ms: 4000, max_queue_size: 5 };
    let mut p = InterestPipeline::new(config);
    for r in 0..5 {
        assert_eq!(p.send_interest(r), Ok(()));
    }
    assert_eq!(p.send_interest(99), Err(Error::QueueFull));
    assert_eq!(p.start_next(), Some(0));
    assert_eq!(p.start_next(), Some(1));
    assert_eq!(p.start_next(), Some(2));
    assert_eq!(p.start_next(), None);
    assert_eq!(p.stats().in_flight, 3);
    assert_eq!(p.stats().queue_size, 2);
    p.complete(Completion::Data { rtt_ms: 100 });
    p.complete(Completion::Data { rtt_ms: 200 });
    assert_eq!(p.stats().avg_rtt_ms, 110);
    assert_eq!(p.start_next(), Some(3));
    assert_eq!(p.start_next(), Some(4));
    assert_eq!(p.start_next(), None);
    p.complete(Completion::Failed);
    p.complete(Completion::TimedOut);
    p.complete(Completion::TimedOut);
    p.complete(Completion::TimedOut);
    let s = p.stats();
    assert_eq!(
        s,
        PipelineStats {
            interests_sent: 5,
            data_received: 2,
            timeouts: 3,
            errors: 1,
            avg_rtt_ms: 110,
            queue_size: 0,
            in_flight: 0,
        }
    );
    assert_eq!(p.send_interest(7), Ok(()));
    assert_eq!(p.shutdown(), 1);
    assert_eq!(PipelineConfig::default().max_in_flight, 16);
    assert_eq!(PipelineConfig::default().max_queue_size, 1000);
    assert_eq!(PipelineStats::default().in_flight, 0);
}

#[test]
fn lifecycle_operations_in_and_out_of_sequence() {
    let mut t = UdcnTransport::new(Config::default(), 0).unwrap();
    assert_eq!(t.state(), TransportState::Stopped);
    assert_eq!(t.pause(), Err(Error::InvalidState));
    assert_eq!(t.resume(), Err(Error::InvalidState));
    assert_eq!(t.stop(), Ok(()));
    assert_eq!(t.start(100), Ok(()));
    assert_eq!(t.state(), TransportState::Running);
    assert_eq!(t.start(200), Ok(()));
    assert_eq!(t.uptime_seconds(160), 60);
    assert_eq!(t.resume(), Ok(()));
    assert_eq!(t.pause(), Ok(()));
    assert_eq!(t.pause(), Ok(()));
    assert_eq!(t.state(), TransportState::Paused);
    assert_eq!(t.start(0), Err(Error::InvalidState));
    assert_eq!(t.resume(), Ok(()));
    assert_eq!(t.state(), TransportState::Running);
    assert_eq!(t.shutdown(), Ok(()));
    assert_eq!(t.state(), TransportState::Stopped);
    t.fail();
    assert_eq!(t.state(), TransportState::Error);
    assert_eq!(t.start(0), Err(Error::InvalidState));
    assert_eq!(t.stop(), Err(Error::InvalidState));
    t.reset();
    assert_eq!(t.state(), TransportState::Stopped);

    assert_eq!(t.begin(Command::Start), Ok(()));
    assert_eq!(t.state(), TransportState::Starting);
    t.finish(false);
    assert_eq!(t.state(), TransportState::Error);
    assert_eq!(request(TransportState::Running, Command::Pause), Ok(TransportState::Pausing));
    assert_eq!(settle(TransportState::Pausing, true), TransportState::Paused);
    assert_eq!(settle(TransportState::Stopping, true), TransportState::Stopped);
    assert_eq!(settle(TransportState::Resuming, false), TransportState::Error);
    assert_eq!(request(TransportState::Starting, Command::Stop), Err(Error::InvalidState));
}

#[test]
fn mtu_update_is_accepted_within_range_only() {
    let mut t = UdcnTransport::new(Config::default(), 0).unwrap();
    assert_eq!(t.mtu(), 1400);
    for bad in [0usize, 100, 575, 9001, 65_535, usize::MAX] {
        assert_eq!(t.update_mtu(bad, 1), Err(Error::InvalidArgument));
        assert_eq!(t.mtu(), 1400);
    }
    for good in [576usize, 577, 1500, 8999, 9000] {
        assert_eq!(t.update_mtu(good, 1), Ok(()));
        assert_eq!(t.mtu(), good);
        assert_eq!(t.get_config().mtu, good);
    }
    let bad_config = Config { mtu: 100, ..Config::default() };
    assert!(matches!(UdcnTransport::new(bad_config, 0), Err(Error::InvalidArgument)));
}

#[test]
fn facade_registers_and_unregisters_prefixes() {
    let mut t = UdcnTransport::new(Config::default(), 0).unwrap();
    let a = t.register_prefix(Name::from("/a")).unwrap();
    let r = t.register_forwarding_prefix(Name::from("/a/b"), 4, 2).unwrap();
    assert_eq!((a, r), (1, 2));
    assert_eq!(t.dispatch().resolve(&Name::from("/a/b/c")).unwrap().registration_id, r);
    assert_eq!(t.unregister_prefix(r), Ok(()));
    assert_eq!(t.unregister_prefix(r), Err(Error::NotFound));
    assert_eq!(t.dispatch().resolve(&Name::from("/a/b/c")).unwrap().registration_id, a);
    let c = Config::default();
    assert_eq!(c.bind_address, "0.0.0.0");
    assert_eq!((c.port, c.cache_capacity, c.idle_timeout), (6363, 10000, 30));
    assert_eq!(c.ml_prediction_interval, 5);
    assert_eq!((c.min_mtu, c.max_mtu, c.metrics_port), (576, 9000, Some(9090)));
    let s = t.get_statistics(10, 5, 4, 3, 1);
    assert_eq!(s.cache_hit_permille, 750);
    assert_eq!(s.uptime_seconds, 10);
    assert_eq!(t.get_statistics(0, 0, 0, 0, 0).cache_hit_permille, 0);
    assert_eq!(udcn_transport::ndn::ContentType::from(2u8), udcn_transport::ndn::ContentType::Key);
    assert_eq!(NackReason::from(101u16), NackReason::Congestion);
    assert_eq!(RetryPolicy::default(), RetryPolicy::standard());
    let x = udcn_transport::xdp::XdpConfig::default();
    assert_eq!((x.interface.as_str(), x.xdp_mode.as_str(), x.cs_size, x.cs_ttl), ("eth0", "skb", 10000, 60));
}

#[test]
fn rule_based_model_follows_its_rules() {
    let model = SimpleRuleBasedModel::new(1400, 576, 9000);
    let base = MtuFeatures::default();
    assert_eq!(model.predict(&base), 1400);
    let slow = MtuFeatures { avg_rtt_us: 150_000, ..base };
    assert_eq!(model.predict(&slow), 1300);
    let very_slow = MtuFeatures { avg_rtt_us: 250_000, ..base };
    assert_eq!(model.predict(&very_slow), 1200);
    let very_slow_small = MtuFeatures { avg_rtt_us: 250_000, avg_packet_size: 1000, ..base };
    assert_eq!(model.predict(&very_slow_small), 1100);
    let lossy = MtuFeatures { packet_loss_ppm: 60_000, ..base };
    assert_eq!(model.predict(&lossy), 1200);
    let fast = MtuFeatures { avg_throughput_bps: 6_000_000, ..base };
    assert_eq!(model.predict(&fast), 1500);
    let big = MtuFeatures { avg_packet_size: 1450, ..base };
    assert_eq!(model.predict(&big), 1500);
    let bigger = MtuFeatures { avg_packet_size: 1401, ..base };
    assert_eq!(model.predict(&bigger), 1500);
    let small = MtuFeatures { avg_packet_size: 600, ..base };
    assert_eq!(model.predict(&small), 1300);
    let wifi = MtuFeatures { network_type: NetworkType::Wifi, ..base };
    assert_eq!(model.predict(&wifi), 1300);
    let cellular = MtuFeatures { network_type: NetworkType::Cellular, ..base };
    assert_eq!(model.predict(&cellular), 1200);
    let tiny = SimpleRuleBasedModel::new(100, 576, 9000);
    assert_eq!(tiny.predict(&MtuFeatures { avg_packet_size: 60, ..base }), 600);
    let wide = SimpleRuleBasedModel::new(20_000, 576, 9000);
    assert_eq!(wide.predict(&MtuFeatures { avg_packet_size: 15_000, ..base }), 9000);
    let mut m = SimpleRuleBasedModel::new(1400, 576, 9000);
    for i in 0..12 {
        m.update(1000 + i);
    }
    assert_eq!(m.predict(&base), 1400);
}

#[test]
fn predictor_override_and_recommendation() {
    let mut p = MTUPredictor::new(SimpleRuleBasedModel::new(1400, 576, 9000));
    let f = MtuFeatures::default();
    assert_eq!(p.predict_mtu(&f), 1400);
    assert_eq!(p.set_override(Some(100)), Err(Error::InvalidArgument));
    assert_eq!(p.set_override(Some(9001)), Err(Error::InvalidArgument));
    assert_eq!(p.get_override(), None);
    assert_eq!(p.set_override(Some(576)), Ok(()));
    assert_eq!(p.predict_mtu(&f), 576);
    assert_eq!(p.set_override(None), Ok(()));
    assert_eq!(p.predict_mtu(&f), 1400);

    let mut fragmenter = Fragmenter::new(1400, 0);
    assert!(!apply_recommendation(&mut fragmenter, 1500, 1));
    assert!(!apply_recommendation(&mut fragmenter, 1300, 1));
    assert_eq!(fragmenter.mtu(), 1400);
    assert!(apply_recommendation(&mut fragmenter, 1501, 1));
    assert_eq!(fragmenter.mtu(), 1501);
    assert!(apply_recommendation(&mut fragmenter, 1400, 1));
    assert_eq!(fragmenter.mtu(), 1400);
    assert_eq!(SimpleRuleBasedModel::new(1400, 576, 9000).model_type(), "SimpleRuleBased");

    let mut t = UdcnTransport::new(Config::default(), 0).unwrap();
    assert!(!t.apply_recommendation(1500, 1));
    assert!(!t.apply_recommendation(20_000, 1));
    assert!(!t.apply_recommendation(100, 1));
    assert_eq!((t.mtu(), t.fragment_mtu()), (1400, 1400));
    assert!(t.apply_recommendation(1501, 1));
    assert_eq!((t.mtu(), t.fragment_mtu()), (1501, 1501));
}

#[test]
fn test_key_store() {
    let mut key_store = KeyStore::new();
    assert!(key_store.get_public_key("test").is_none());
    key_store.insert_key_pair("test", vec![1, 2, 3], vec![4, 5]);
    key_store.insert_key_pair("other", vec![7], vec![8]);
    assert_eq!(key_store.get_public_key("test"), Some(&[4u8, 5][..]));
    assert_eq!(key_store.get_private_key("test"), Some(&[1u8, 2, 3][..]));
    assert_eq!(key_store.get_public_key("other"), Some(&[8u8][..]));
    key_store.insert_key_pair("test", vec![9], vec![10]);
    assert_eq!(key_store.get_public_key("test"), Some(&[10u8][..]));
    assert_eq!(key_store.get_private_key("test"), Some(&[9u8][..]));
    assert!(key_store.get_private_key("missing").is_none());
}

#[test]
fn generated_keys_sign_and_verify() {
    let mut key_store = KeyStore::new();
    assert_eq!(key_store.generate_key_pair("test"), Ok(()));
    assert_eq!(key_store.generate_key_pair("other"), Ok(()));
    let public_key = key_store.get_public_key("test").unwrap().to_vec();
    let private_key = key_store.get_private_key("test").unwrap().to_vec();
    assert_eq!(public_key.len(), 32);
    assert_ne!(private_key, public_key);
    assert_ne!(key_store.get_public_key("other").unwrap(), &public_key[..]);

    let data = b"test data";
    let signature = key_store.sign("test", data).unwrap();
    assert_eq!(signature.len(), 64);
    assert_eq!(key_store.sign("test", data).unwrap(), signature);
    assert_eq!(key_store.verify("test", data, &signature), Ok(()));
    assert_eq!(key_store.verify("test", b"test datb", &signature), Err(Error::Crypto));
    assert_eq!(key_store.verify("other", data, &signature), Err(Error::Crypto));
    assert_eq!(key_store.verify("missing", data, &signature), Err(Error::NotFound));
    assert_eq!(key_store.sign("missing", data), Err(Error::NotFound));
    assert_eq!(
        udcn_transport::security::verify_signature(data, &signature, &public_key),
        Ok(())
    );
    assert_eq!(
        udcn_transport::security::verify_signature(data, &signature[..10], &public_key),
        Err(Error::Crypto)
    );
    key_store.insert_key_pair("bad", vec![1, 2, 3], vec![4]);
    assert_eq!(key_store.sign("bad", data), Err(Error::Crypto));
    let a = udcn_transport::security::generate_nonce().unwrap();
    let b = udcn_transport::security::generate_nonce().unwrap();
    assert_ne!(a, b);
}

#[test]
fn offload_mirror_and_metrics() {
    let data = Data::new(Name::from("/m/x"), vec![0xAB]);
    let entry = mirror_entry(&data).unwrap();
    assert_eq!(entry.key, "/m/x");
    let wire = data.to_bytes().unwrap();
    let hex: String = wire.iter().map(|b| format!("{:02x}", b)).collect();
    assert_eq!(entry.value_hex, hex);
    assert!(entry.value_hex.contains("ab"));
    assert_eq!(
        mirror_entry(&Data::new(Name::from("/m"), vec![0; 70_000])).unwrap_err(),
        Error::InvalidArgument
    );
    let mut m = XdpMetrics::default();
    for key in 0..12u32 {
        m.record(key, 100 + key as u64);
    }
    assert_eq!(m.packets_processed, 100);
    assert_eq!(m.cache_hits, 103);
    assert_eq!(m.avg_processing_time_ns, 108);
    assert_eq!(XdpStatus::after_load(Ok(())), XdpStatus::Running);
    assert!(XdpStatus::Running.is_running());
    let failed = XdpStatus::after_load(Err("no such device".to_string()));
    assert_eq!(failed, XdpStatus::Failed("no such device".to_string()));
    assert!(!failed.is_running());
    assert!(!XdpStatus::NotLoaded.is_running());
}

#[test]
fn face_counters() {
    let mut face = Face::new(1, Protocol::Udp, 1500, 0);
    face.record_bytes_sent(10, 1);
    face.record_bytes_received(u64::MAX, 2);
    face.record_bytes_received(5, 3);
    face.record_interest_sent(4);
    face.record_interest_received(5);
    face.record_data_sent(6);
    face.record_data_received(7);
    assert_eq!(face.bytes_sent, 10);
    assert_eq!(face.bytes_received, u64::MAX);
    assert_eq!(
        (face.interests_sent, face.interests_received, face.data_sent, face.data_received),
        (1, 1, 1, 1)
    );
    assert_eq!(face.last_activity, 7);
    assert!(!face.is_idle(10, 17));
    assert!(face.is_idle(10, 18));
    face.update_activity(18);
    assert!(!face.is_idle(10, 18));
    assert_eq!(face.protocol, Protocol::Udp);
    assert_ne!(Protocol::Udp, Protocol::Ethernet);
}

#[test]
fn counters_are_read_from_decimal_text() {
    use_parse_decimal();
}

fn use_parse_decimal() {
    let parse = udcn_transport::xdp::parse_decimal;
    assert_eq!(parse(b"0"), Some(0));
    assert_eq!(parse(b"007"), Some(7));
    assert_eq!(parse(b"18446744073709551615"), Some(u64::MAX));
    assert_eq!(parse(b"18446744073709551616"), None);
    assert_eq!(parse(b""), None);
    assert_eq!(parse(b"12a"), None);
    assert_eq!(parse(b" 1"), None);
    assert_eq!(parse(b"99999999999999999999x"), None);
}

#[test]
fn wide_numbers_multiply_and_divide_exactly() {
    let x = udcn_transport::wide::wide_from(u64::MAX);
    let y = udcn_transport::wide::wide_times(&x, u64::MAX);
    assert_eq!(y, vec![1, u64::MAX - 1]);
    let z = udcn_transport::wide::wide_times(&y, 10);
    assert_eq!(udcn_transport::wide::wide_min(&z, 77), 77);
    let back = udcn_transport::wide::wide_over(&udcn_transport::wide::wide_over(&z, 10), u64::MAX);
    assert_eq!(udcn_transport::wide::wide_min(&back, u64::MAX), u64::MAX);
    let small = udcn_transport::wide::wide_over(&back, 1 << 40);
    assert_eq!(udcn_transport::wide::wide_min(&small, u64::MAX), (1 << 24) - 1);
    assert_eq!(udcn_transport::wide::wide_min(&Vec::new(), 5), 0);
    let zero = udcn_transport::wide::wide_times(&x, 0);
    assert_eq!(udcn_transport::wide::wide_min(&zero, 5), 0);
}

struct FixedModel(usize, usize);

impl MtuPredictionModel for FixedModel {
    fn predict(&self, _features: &MtuFeatures) -> usize {
        self.0
    }

    fn update(&mut self, _features: &MtuFeatures, observed_optimal: usize) {
        self.1 = observed_optimal;
    }

    fn model_type(&self) -> &'static str {
        "Fixed"
    }
}

#[test]
fn another_model_can_be_substituted() {
    let mut p = MTUPredictor::new(FixedModel(2000, 0));
    let f = MtuFeatures::default();
    assert_eq!(p.predict_mtu(&f), 2000);
    p.learn(&f, 1800);
    assert_eq!(p.model.1, 1800);
    assert_eq!(p.model.model_type(), "Fixed");
    p.set_override(Some(600)).unwrap();
    assert_eq!(p.predict_mtu(&f), 600);
    let simple = SimpleRuleBasedModel::new(1400, 576, 9000);
    assert_eq!(MtuPredictionModel::predict(&simple, &f), 1400);
    assert_eq!(MtuPredictionModel::model_type(&simple), "SimpleRuleBased");
}

#[test]
fn configuration_is_replaced_as_a_whole() {
    let mut t = UdcnTransport::new(Config::default(), 0).unwrap();
    let bad = Config { mtu: 10, ..Config::default() };
    assert_eq!(t.configure(bad, 1), Err(Error::InvalidArgument));
    assert_eq!(t.get_config().mtu, 1400);
    let next = Config { mtu: 2000, cache_capacity: 7, idle_timeout: 9, ..Config::default() };
    assert_eq!(t.configure(next, 1), Ok(()));
    let c = t.get_config();
    assert_eq!((c.mtu, c.cache_capacity, c.idle_timeout), (2000, 7, 9));
    assert_eq!(t.fragment_mtu(), 2000);
    assert_eq!(t.drop_stale(100), Vec::<u16>::new());
}

#[test]
fn incomplete_response_fails_as_timeout() {
    use_conclude();
}

fn use_conclude() {
    let data = Data::new(Name::from("/c"), vec![1]);
    assert_eq!(
        udcn_transport::quic_transport::conclude_response(Some(data.clone())),
        Ok(data)
    );
    assert_eq!(
        udcn_transport::quic_transport::conclude_response(None),
        Err(Error::ReassemblyTimeout)
    );
    let custom = Data::new(Name::from("/c"), vec![1])
        .content_type(udcn_transport::ndn::ContentType::Custom(0));
    assert_eq!(custom.get_content_type(), udcn_transport::ndn::ContentType::Blob);
    assert_eq!(Data::from_bytes(&custom.to_bytes().unwrap()).unwrap(), custom);
    let nack = Nack::new(Interest::new(Name::from("/c")), NackReason::Other(300));
    assert_eq!(nack.reason(), NackReason::NotAuth);
    assert_eq!(Nack::from_bytes(&nack.to_bytes().unwrap()).unwrap(), nack);
    assert_eq!(nack.clone(), nack);
}
