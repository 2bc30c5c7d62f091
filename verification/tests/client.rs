use solana_go_client::client::{AsyncModelClient, CooldownPolicy, Dispatch, InitStep};
use solana_go_client::config::NetworkConfig;
use solana_go_client::error::ClientError;
use solana_go_client::node_pool::EndpointState;
use solana_go_client::rate_limiter::WaitStep;
use solana_go_client::rpc_queue::{RpcResponse, RpcStatus, Signature, WaitOutcome};

const SECOND: u64 = 1_000_000_000;

fn sig(byte: u8) -> Signature {
    Signature::new([byte; 64])
}

fn nodes(count: usize) -> Vec<String> {
    (0..count).map(|i| format!("http://node-{}", i)).collect()
}

fn client_of(count: usize) -> AsyncModelClient<&'static str, u32> {
    AsyncModelClient::new(nodes(count), NetworkConfig::default(), 0)
}

#[test]
fn new_client_has_every_endpoint_ready() {
    let client = client_of(3);
    assert_eq!(client.node_count(), 3);
    assert_eq!(client.pool().len(), 3);
    assert_eq!(client.pool().available(), 3);
    assert_eq!(client.size(), 0);
    assert_eq!(client.queue().queued(), 0);
    assert!(!client.queue().is_shutdown());
    for id in 0..3 {
        assert_eq!(client.pool().state(id), Some(EndpointState::Available));
        assert!(!client.is_initialized(id));
    }
    assert!(!client.is_initialized(3));
}

#[test]
fn broadcast_stops_at_the_endpoint_that_fails() {
    let mut client = client_of(3);
    assert_eq!(client.init_model(), InitStep::Send(0));
    assert_eq!(client.init_model_result(true), InitStep::Send(1));
    let step = client.init_model_result(false);
    assert_eq!(step, InitStep::Failed);
    assert_eq!(step.result(), Some(Err(ClientError::InitializationError)));
    assert!(client.is_initialized(0));
    assert!(!client.is_initialized(1));
    assert!(!client.is_initialized(2));
    // the broadcast is over: a further report is not taken
    assert_eq!(client.init_model_result(true), InitStep::Failed);
    assert!(!client.is_initialized(1));
    assert!(!client.is_initialized(2));
}

#[test]
fn broadcast_reaches_every_endpoint_in_turn() {
    let mut client = client_of(3);
    let first = client.init_model();
    assert_eq!(first, InitStep::Send(0));
    assert_eq!(first.result(), None);
    assert_eq!(client.init_model_result(true), InitStep::Send(1));
    assert_eq!(client.init_model_result(true), InitStep::Send(2));
    let last = client.init_model_result(true);
    assert_eq!(last, InitStep::Done);
    assert_eq!(last.result(), Some(Ok(())));
    for id in 0..3 {
        assert!(client.is_initialized(id));
    }
    // the broadcast does not go through the queue or the pool
    assert_eq!(client.size(), 0);
    assert_eq!(client.pool().available(), 3);
}

#[test]
fn broadcast_that_fails_at_once_reaches_nothing() {
    let mut client = client_of(2);
    assert_eq!(client.init_model(), InitStep::Send(0));
    assert_eq!(client.init_model_result(false), InitStep::Failed);
    assert!(!client.is_initialized(0));
    assert!(!client.is_initialized(1));
}

#[test]
fn broadcast_over_no_endpoint_is_done_at_once() {
    let mut client = client_of(0);
    let step = client.init_model();
    assert_eq!(step, InitStep::Done);
    assert_eq!(step.result(), Some(Ok(())));
    assert_eq!(client.init_model_result(true), InitStep::Failed);
}

#[test]
fn a_second_broadcast_keeps_what_the_first_one_reached() {
    let mut client = client_of(2);
    assert_eq!(client.init_model(), InitStep::Send(0));
    assert_eq!(client.init_model_result(true), InitStep::Send(1));
    assert_eq!(client.init_model_result(false), InitStep::Failed);
    assert_eq!(client.init_model(), InitStep::Send(0));
    assert_eq!(client.init_model_result(false), InitStep::Failed);
    assert!(client.is_initialized(0));
    assert!(!client.is_initialized(1));
}

#[test]
fn a_report_without_a_broadcast_is_a_failure() {
    let mut client = client_of(2);
    assert_eq!(client.init_model_result(true), InitStep::Failed);
    assert!(!client.is_initialized(0));
}

#[test]
fn prediction_needs_an_endpoint() {
    let mut client = client_of(0);
    assert_eq!(client.predict(sig(1), "tx", 7, 0), Err(ClientError::NoNodesAvailable));
    assert_eq!(client.size(), 0);
    let mut busy = client_of(1);
    assert_eq!(busy.get_available_node(), Ok(0));
    assert_eq!(busy.predict(sig(1), "tx", 7, 0), Err(ClientError::NoNodesAvailable));
    assert_eq!(busy.size(), 0);
    assert_eq!(busy.queue().queued(), 0);
}

#[test]
fn a_confirmed_prediction_gives_its_endpoints_back() {
    let mut client = client_of(2);
    let held = client.predict(sig(1), "tx-1", 7, 0).unwrap();
    assert_eq!(held, 1);
    assert_eq!(client.size(), 1);
    assert_eq!(client.pool().state(1), Some(EndpointState::Reserved));
    let (node_id, request) = match client.process_transactions() {
        Dispatch::Send { node_id, request } => (node_id, request),
        _ => panic!("dispatch"),
    };
    assert_eq!(node_id, 0);
    assert_eq!(request.tx, "tx-1");
    assert_eq!(request.timeout_ms, 30000);
    assert!(request.signature.same_as(&sig(1)));
    assert_eq!(client.throttle(node_id, 0), Some(WaitStep::Acquired));
    let (handle, response) =
        client.complete_transaction(node_id, &sig(1), Ok(Some(vec![1, 0, 1])), 5).unwrap();
    assert_eq!(handle, 7);
    assert_eq!(client.size(), 0);
    assert_eq!(client.pool().state(0), Some(EndpointState::Available));
    let output = client.finish_predict(held, &sig(1), WaitOutcome::Responded(response), 6);
    assert_eq!(output, Ok(Some(vec![1, 0, 1])));
    assert_eq!(client.pool().state(1), Some(EndpointState::Available));
    assert_eq!(client.pool().available(), 2);
}

#[test]
fn a_failed_prediction_disables_its_endpoints() {
    let mut client = client_of(2).with_cooldown_policy(CooldownPolicy::FixedPeriod);
    let held = client.predict(sig(1), "tx-1", 7, 0).unwrap();
    let node_id = match client.process_transactions() {
        Dispatch::Send { node_id, .. } => node_id,
        _ => panic!("dispatch"),
    };
    let (_, response) = client
        .complete_transaction(node_id, &sig(1), Err("rejected".to_string()), 10)
        .unwrap();
    assert!(matches!(response.status, RpcStatus::Error(_)));
    assert_eq!(
        client.pool().state(node_id),
        Some(EndpointState::Disabled { until: 10 + 60 * SECOND })
    );
    let output = client.finish_predict(held, &sig(1), WaitOutcome::Responded(response), 20);
    assert_eq!(output, Err(ClientError::PredictionFailed));
    assert_eq!(
        client.pool().state(held),
        Some(EndpointState::Disabled { until: 20 + 60 * SECOND })
    );
    assert_eq!(client.pool().available(), 0);
    assert_eq!(client.size(), 0);
    assert_eq!(client.predict(sig(2), "tx-2", 8, 30), Err(ClientError::NoNodesAvailable));
}

#[test]
fn a_prediction_that_times_out_disables_its_endpoint() {
    let mut client = client_of(1).with_cooldown_policy(CooldownPolicy::FixedPeriod);
    assert_eq!(client.predict(sig(1), "tx-1", 7, 0), Ok(0));
    assert_eq!(client.size(), 1);
    let output = client.finish_predict(0, &sig(1), WaitOutcome::Elapsed, 30 * SECOND);
    assert_eq!(output, Err(ClientError::PredictionFailed));
    assert_eq!(client.size(), 0);
    assert_eq!(client.pool().state(0), Some(EndpointState::Disabled { until: 90 * SECOND }));
    // the request itself is still queued
    assert_eq!(client.queue().queued(), 1);
}

#[test]
fn a_prediction_whose_handle_was_dropped_disables_its_endpoint() {
    let mut client = client_of(1).with_cooldown_policy(CooldownPolicy::FixedPeriod);
    assert_eq!(client.predict(sig(1), "tx-1", 7, 0), Ok(0));
    let output = client.finish_predict(0, &sig(1), WaitOutcome::HandleDropped, 5);
    assert_eq!(output, Err(ClientError::PredictionFailed));
    assert_eq!(client.pool().state(0), Some(EndpointState::Disabled { until: 5 + 60 * SECOND }));
}

#[test]
fn a_response_without_success_fails_the_prediction() {
    let mut client = client_of(1).with_cooldown_policy(CooldownPolicy::FixedPeriod);
    assert_eq!(client.predict(sig(1), "tx-1", 7, 0), Ok(0));
    let response = RpcResponse { status: RpcStatus::Timeout, signature: sig(1), result: None };
    let output = client.finish_predict(0, &sig(1), WaitOutcome::Responded(response), 5);
    assert_eq!(output, Err(ClientError::PredictionFailed));
    assert_eq!(client.pool().state(0), Some(EndpointState::Disabled { until: 5 + 60 * SECOND }));
}

#[test]
fn a_confirmed_prediction_may_carry_no_output() {
    let mut client = client_of(1);
    assert_eq!(client.predict(sig(1), "tx-1", 7, 0), Ok(0));
    let response = RpcResponse { status: RpcStatus::Success, signature: sig(1), result: None };
    let output = client.finish_predict(0, &sig(1), WaitOutcome::Responded(response), 5);
    assert_eq!(output, Ok(None));
    assert_eq!(client.pool().state(0), Some(EndpointState::Available));
}

#[test]
fn a_prediction_the_queue_refuses_disables_its_endpoint() {
    let mut config = NetworkConfig::default();
    config.queue_size = 1;
    let mut client: AsyncModelClient<&str, u32> = AsyncModelClient::new(nodes(3), config, 0);
    client = client.with_cooldown_policy(CooldownPolicy::FixedPeriod);
    assert_eq!(client.predict(sig(1), "tx-1", 7, 0), Ok(2));
    assert_eq!(client.predict(sig(2), "tx-2", 8, 4), Err(ClientError::PredictionFailed));
    assert_eq!(client.pool().state(1), Some(EndpointState::Disabled { until: 4 + 60 * SECOND }));
    assert_eq!(client.size(), 1);
    assert_eq!(client.queue().queued(), 1);
    assert_eq!(client.pool().available(), 1);
}

#[test]
fn a_prediction_under_a_signature_in_use_fails() {
    let mut client = client_of(3).with_cooldown_policy(CooldownPolicy::FixedPeriod);
    assert_eq!(client.predict(sig(1), "tx-1", 7, 0), Ok(2));
    assert_eq!(client.predict(sig(1), "tx-1", 8, 0), Err(ClientError::PredictionFailed));
    assert_eq!(client.pool().state(1), Some(EndpointState::Disabled { until: 60 * SECOND }));
    assert_eq!(client.size(), 1);
}

#[test]
fn predictions_in_flight_hold_different_endpoints() {
    let mut client = client_of(4);
    let a = client.predict(sig(1), "a", 1, 0).unwrap();
    let b = client.predict(sig(2), "b", 2, 0).unwrap();
    let c = client.predict(sig(3), "c", 3, 0).unwrap();
    let d = client.predict(sig(4), "d", 4, 0).unwrap();
    assert!(a != b && a != c && a != d && b != c && b != d && c != d);
    assert_eq!(client.predict(sig(5), "e", 5, 0), Err(ClientError::NoNodesAvailable));
    let response = RpcResponse { status: RpcStatus::Success, signature: sig(2), result: None };
    assert_eq!(client.finish_predict(b, &sig(2), WaitOutcome::Responded(response), 1), Ok(None));
    assert_eq!(client.predict(sig(5), "e", 5, 0), Ok(b));
}

#[test]
fn processor_waits_while_the_queue_is_empty() {
    let mut client = client_of(2);
    assert!(matches!(client.process_transactions(), Dispatch::Idle));
    assert_eq!(client.pool().available(), 2);
}

#[test]
fn processor_stops_after_shutdown() {
    let mut client = client_of(2);
    assert_eq!(client.predict(sig(1), "tx-1", 7, 0), Ok(1));
    client.shutdown();
    assert!(client.queue().is_shutdown());
    assert!(matches!(client.process_transactions(), Dispatch::Stopped));
    assert_eq!(client.queue().queued(), 1);
    assert_eq!(client.pool().available(), 1);
}

#[test]
fn processor_leaves_the_request_queued_without_an_endpoint() {
    let mut client = client_of(1);
    assert_eq!(client.predict(sig(1), "tx-1", 7, 0), Ok(0));
    assert!(matches!(client.process_transactions(), Dispatch::NoEndpoint));
    assert_eq!(client.queue().queued(), 1);
    assert_eq!(client.size(), 1);
    let response = RpcResponse { status: RpcStatus::Success, signature: sig(1), result: None };
    assert_eq!(client.finish_predict(0, &sig(1), WaitOutcome::Responded(response), 1), Ok(None));
    match client.process_transactions() {
        Dispatch::Send { node_id, request } => {
            assert_eq!(node_id, 0);
            assert_eq!(request.tx, "tx-1");
        },
        _ => panic!("dispatch"),
    }
    assert_eq!(client.queue().queued(), 0);
}

#[test]
fn a_result_for_a_waiter_that_left_still_settles_the_endpoint() {
    let mut client = client_of(2);
    let held = client.predict(sig(1), "tx-1", 7, 0).unwrap();
    let node_id = match client.process_transactions() {
        Dispatch::Send { node_id, .. } => node_id,
        _ => panic!("dispatch"),
    };
    assert_eq!(
        client.finish_predict(held, &sig(1), WaitOutcome::Elapsed, 30 * SECOND),
        Err(ClientError::PredictionFailed)
    );
    assert!(client.complete_transaction(node_id, &sig(1), Ok(None), 31 * SECOND).is_none());
    assert_eq!(client.pool().state(node_id), Some(EndpointState::Available));
    assert_eq!(client.size(), 0);
}

#[test]
fn throttle_spends_the_burst_and_then_names_the_sleep() {
    let mut client = client_of(2);
    for _ in 0..20 {
        assert_eq!(client.throttle(1, 0), Some(WaitStep::Acquired));
    }
    assert_eq!(client.throttle(1, 0), Some(WaitStep::Sleep(100_000_000)));
    // ten tokens a second: one is back after a tenth of a second
    assert_eq!(client.throttle(1, 99_999_999), Some(WaitStep::Sleep(100_000_000)));
    assert_eq!(client.throttle(1, 100_000_000), Some(WaitStep::Acquired));
    // every endpoint has a limiter of its own
    assert_eq!(client.throttle(0, 0), Some(WaitStep::Acquired));
    assert_eq!(client.throttle(2, 0), None);
}

#[test]
fn a_cooldown_lasts_until_the_limiter_is_full_again() {
    let mut client = client_of(1);
    for _ in 0..5 {
        assert_eq!(client.throttle(0, 0), Some(WaitStep::Acquired));
    }
    // five tokens at ten a second are back after half a second
    assert_eq!(client.disable_node(0, 0), Some(SECOND / 2));
    assert_eq!(client.pool().state(0), Some(EndpointState::Disabled { until: SECOND / 2 }));
    assert_eq!(client.get_available_node(), Err(ClientError::NoNodesAvailable));
    assert!(!client.complete_cooldown(0, SECOND / 2 - 1));
    assert_eq!(client.get_available_node(), Err(ClientError::NoNodesAvailable));
    assert!(client.complete_cooldown(0, SECOND / 2));
    assert_eq!(client.get_available_node(), Ok(0));
}

#[test]
fn a_cooldown_of_an_endpoint_with_a_full_limiter_is_over_at_once() {
    let mut client = client_of(2);
    assert_eq!(client.disable_node(1, 42), Some(42));
    assert_eq!(client.pool().state(1), Some(EndpointState::Disabled { until: 42 }));
    assert!(client.complete_cooldown(1, 42));
    assert_eq!(client.pool().available(), 2);
}

#[test]
fn a_fixed_cooldown_lasts_the_configured_period() {
    let mut config = NetworkConfig::default();
    config.cooldown_period = 5 * SECOND;
    let mut client: AsyncModelClient<&str, u32> = AsyncModelClient::new(nodes(2), config, 0);
    client = client.with_cooldown_policy(CooldownPolicy::FixedPeriod);
    assert_eq!(client.disable_node(0, 7), Some(7 + 5 * SECOND));
    assert_eq!(client.disable_node(1, u64::MAX - 1), Some(u64::MAX));
    assert_eq!(client.disable_node(2, 7), None);
    assert!(!client.complete_cooldown(0, 5 * SECOND + 6));
    assert!(client.complete_cooldown(0, 5 * SECOND + 7));
}

#[test]
fn node_management_follows_the_pool() {
    let mut client = client_of(2);
    assert_eq!(client.get_available_node(), Ok(1));
    assert_eq!(client.get_available_node(), Ok(0));
    assert_eq!(client.get_available_node(), Err(ClientError::NoNodesAvailable));
    assert!(client.release_node(0));
    assert!(!client.release_node(0));
    assert!(!client.release_node(5));
    assert_eq!(client.get_available_node(), Ok(0));
}

#[test]
fn limiters_take_their_size_from_the_settings() {
    let mut config = NetworkConfig::default();
    config.rate_limit.burst_size = 2;
    config.rate_limit.requests_per_second = 1;
    let mut client: AsyncModelClient<&str, u32> = AsyncModelClient::new(nodes(1), config, 50);
    assert_eq!(client.throttle(0, 50), Some(WaitStep::Acquired));
    assert_eq!(client.throttle(0, 50), Some(WaitStep::Acquired));
    assert_eq!(client.throttle(0, 50), Some(WaitStep::Sleep(100_000_000)));
    assert_eq!(client.throttle(0, 50 + SECOND), Some(WaitStep::Acquired));
    assert_eq!(client.disable_node(0, 50 + SECOND), Some(50 + 3 * SECOND));
}

#[test]
fn due_cooldowns_end_together() {
    let mut config = NetworkConfig::default();
    config.cooldown_period = SECOND;
    let mut client: AsyncModelClient<&str, u32> = AsyncModelClient::new(nodes(3), config, 0);
    client = client.with_cooldown_policy(CooldownPolicy::FixedPeriod);
    assert_eq!(client.disable_node(0, 0), Some(SECOND));
    assert_eq!(client.disable_node(1, 5), Some(SECOND + 5));
    assert_eq!(client.disable_node(2, 10), Some(SECOND + 10));
    assert_eq!(client.complete_due_cooldowns(SECOND - 1), 0);
    assert_eq!(client.get_available_node(), Err(ClientError::NoNodesAvailable));
    assert_eq!(client.complete_due_cooldowns(SECOND + 5), 2);
    assert_eq!(client.pool().available(), 2);
    assert_eq!(client.pool().state(2), Some(EndpointState::Disabled { until: SECOND + 10 }));
    assert_eq!(client.complete_due_cooldowns(SECOND + 10), 1);
    assert_eq!(client.pool().available(), 3);
}

#[test]
fn client_keeps_its_settings_and_addresses() {
    let mut config = NetworkConfig::testnet();
    config.queue_size = 7;
    let client: AsyncModelClient<&str, u32> = AsyncModelClient::new(nodes(2), config, 0);
    assert_eq!(client.config().network, "testnet");
    assert_eq!(client.config().queue_size, 7);
    assert_eq!(client.network_nodes().len(), 2);
    assert_eq!(client.network_nodes()[0], "http://node-0");
    assert_eq!(client.network_nodes()[1], "http://node-1");
}

#[test]
fn the_queue_of_the_client_takes_as_many_requests_as_configured() {
    let mut config = NetworkConfig::default();
    config.queue_size = 2;
    let mut client: AsyncModelClient<&str, u32> = AsyncModelClient::new(nodes(4), config, 0);
    assert_eq!(client.predict(sig(1), "a", 1, 0), Ok(3));
    assert_eq!(client.predict(sig(2), "b", 2, 0), Ok(2));
    assert_eq!(client.predict(sig(3), "c", 3, 0), Err(ClientError::PredictionFailed));
    assert_eq!(client.size(), 2);
    assert_eq!(client.queue().queued(), 2);
}
