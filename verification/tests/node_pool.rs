use solana_go_client::error::ClientError;
use solana_go_client::node_pool::{EndpointState, NodePool};

#[test]
fn new_pool_has_every_endpoint_available() {
    let pool = NodePool::new(3);
    assert_eq!(pool.len(), 3);
    assert_eq!(pool.available(), 3);
    for id in 0..3 {
        assert_eq!(pool.state(id), Some(EndpointState::Available));
    }
    assert_eq!(pool.state(3), None);
}

#[test]
fn reserve_hands_out_the_endpoint_that_joined_last() {
    let mut pool = NodePool::new(3);
    assert_eq!(pool.reserve(), Ok(2));
    assert_eq!(pool.state(2), Some(EndpointState::Reserved));
    assert_eq!(pool.reserve(), Ok(1));
    assert_eq!(pool.reserve(), Ok(0));
    assert_eq!(pool.available(), 0);
    assert_eq!(pool.reserve(), Err(ClientError::NoNodesAvailable));
    assert_eq!(pool.len(), 3);
}

#[test]
fn an_empty_pool_has_nothing_to_reserve() {
    let mut pool = NodePool::new(0);
    assert_eq!(pool.len(), 0);
    assert_eq!(pool.reserve(), Err(ClientError::NoNodesAvailable));
    assert!(!pool.release(0));
    assert!(!pool.disable(0, 5));
    assert!(!pool.complete_cooldown(0, 5));
}

#[test]
fn no_endpoint_is_reserved_twice_at_a_time() {
    let mut pool = NodePool::new(8);
    let mut held: Vec<usize> = Vec::new();
    for round in 0..40usize {
        if round % 3 == 2 {
            let back = held.remove(0);
            assert!(pool.release(back));
        } else if let Ok(id) = pool.reserve() {
            assert!(!held.contains(&id));
            held.push(id);
        }
        for id in 0..8 {
            let reserved = pool.state(id) == Some(EndpointState::Reserved);
            assert_eq!(reserved, held.contains(&id));
        }
        assert_eq!(pool.available() + held.len(), 8);
    }
}

#[test]
fn release_gives_a_reserved_endpoint_back() {
    let mut pool = NodePool::new(2);
    assert_eq!(pool.reserve(), Ok(1));
    assert_eq!(pool.reserve(), Ok(0));
    assert!(pool.release(1));
    assert_eq!(pool.state(1), Some(EndpointState::Available));
    assert_eq!(pool.reserve(), Ok(1));
    assert!(pool.release(0));
    assert!(pool.release(1));
    assert_eq!(pool.reserve(), Ok(1));
    assert_eq!(pool.reserve(), Ok(0));
}

#[test]
fn release_of_an_endpoint_that_is_not_reserved_changes_nothing() {
    let mut pool = NodePool::new(2);
    assert!(!pool.release(0));
    assert!(!pool.release(7));
    assert_eq!(pool.available(), 2);
    assert_eq!(pool.reserve(), Ok(1));
    assert!(pool.release(1));
    assert!(!pool.release(1));
    assert_eq!(pool.available(), 2);
    assert_eq!(pool.reserve(), Ok(1));
    assert_eq!(pool.reserve(), Ok(0));
    assert_eq!(pool.reserve(), Err(ClientError::NoNodesAvailable));
}

#[test]
fn release_does_not_end_a_cooldown() {
    let mut pool = NodePool::new(1);
    assert_eq!(pool.reserve(), Ok(0));
    assert!(pool.disable(0, 100));
    assert!(!pool.release(0));
    assert_eq!(pool.state(0), Some(EndpointState::Disabled { until: 100 }));
    assert_eq!(pool.reserve(), Err(ClientError::NoNodesAvailable));
}

#[test]
fn a_disabled_endpoint_is_out_of_rotation_until_its_cooldown_is_over() {
    let mut pool = NodePool::new(3);
    assert!(pool.disable(1, 100));
    assert_eq!(pool.state(1), Some(EndpointState::Disabled { until: 100 }));
    assert_eq!(pool.available(), 2);
    for _ in 0..5 {
        let first = pool.reserve().unwrap();
        let second = pool.reserve().unwrap();
        assert!(first == 0 || first == 2);
        assert!(second == 0 || second == 2);
        assert_ne!(first, second);
        assert_eq!(pool.reserve(), Err(ClientError::NoNodesAvailable));
        assert!(pool.release(first));
        assert!(pool.release(second));
    }
    assert!(!pool.complete_cooldown(1, 99));
    assert_eq!(pool.state(1), Some(EndpointState::Disabled { until: 100 }));
    assert!(pool.complete_cooldown(1, 100));
    assert_eq!(pool.state(1), Some(EndpointState::Available));
    assert_eq!(pool.reserve(), Ok(1));
}

#[test]
fn a_reserved_endpoint_can_be_disabled() {
    let mut pool = NodePool::new(2);
    assert_eq!(pool.reserve(), Ok(1));
    assert!(pool.disable(1, 50));
    assert_eq!(pool.state(1), Some(EndpointState::Disabled { until: 50 }));
    assert_eq!(pool.available(), 1);
    assert_eq!(pool.reserve(), Ok(0));
    assert_eq!(pool.reserve(), Err(ClientError::NoNodesAvailable));
    assert!(pool.complete_cooldown(1, 51));
    assert_eq!(pool.reserve(), Ok(1));
}

#[test]
fn disabling_again_moves_the_end_of_the_cooldown() {
    let mut pool = NodePool::new(1);
    assert!(pool.disable(0, 50));
    assert!(pool.disable(0, 80));
    assert_eq!(pool.state(0), Some(EndpointState::Disabled { until: 80 }));
    assert!(!pool.complete_cooldown(0, 50));
    assert!(pool.complete_cooldown(0, 80));
    assert!(!pool.complete_cooldown(0, 80));
    assert_eq!(pool.available(), 1);
}

#[test]
fn disable_of_an_unknown_endpoint_changes_nothing() {
    let mut pool = NodePool::new(2);
    assert!(!pool.disable(2, 10));
    assert_eq!(pool.available(), 2);
    assert_eq!(pool.len(), 2);
}

#[test]
fn disabling_from_the_middle_keeps_the_order_of_the_rest() {
    let mut pool = NodePool::new(4);
    assert!(pool.disable(2, 10));
    assert_eq!(pool.reserve(), Ok(3));
    assert_eq!(pool.reserve(), Ok(1));
    assert_eq!(pool.reserve(), Ok(0));
    assert_eq!(pool.reserve(), Err(ClientError::NoNodesAvailable));
}

#[test]
fn complete_cooldown_only_acts_on_disabled_endpoints() {
    let mut pool = NodePool::new(2);
    assert!(!pool.complete_cooldown(0, u64::MAX));
    assert_eq!(pool.reserve(), Ok(1));
    assert!(!pool.complete_cooldown(1, u64::MAX));
    assert_eq!(pool.state(1), Some(EndpointState::Reserved));
    assert_eq!(pool.available(), 1);
}

#[test]
fn a_cooldown_that_never_ends_is_over_at_the_largest_instant_only() {
    let mut pool = NodePool::new(1);
    assert!(pool.disable(0, u64::MAX));
    assert!(!pool.complete_cooldown(0, u64::MAX - 1));
    assert!(pool.complete_cooldown(0, u64::MAX));
}

#[test]
fn every_cooldown_that_is_over_ends_at_once() {
    let mut pool = NodePool::new(5);
    assert!(pool.disable(0, 10));
    assert!(pool.disable(2, 30));
    assert!(pool.disable(3, 20));
    assert_eq!(pool.reserve(), Ok(4));
    assert_eq!(pool.complete_due_cooldowns(9), 0);
    assert_eq!(pool.available(), 1);
    assert_eq!(pool.complete_due_cooldowns(20), 2);
    assert_eq!(pool.state(0), Some(EndpointState::Available));
    assert_eq!(pool.state(1), Some(EndpointState::Available));
    assert_eq!(pool.state(2), Some(EndpointState::Disabled { until: 30 }));
    assert_eq!(pool.state(3), Some(EndpointState::Available));
    assert_eq!(pool.state(4), Some(EndpointState::Reserved));
    // the endpoints came back by rising index: the last one is handed out first
    assert_eq!(pool.reserve(), Ok(3));
    assert_eq!(pool.reserve(), Ok(0));
    assert_eq!(pool.reserve(), Ok(1));
    assert_eq!(pool.reserve(), Err(ClientError::NoNodesAvailable));
    assert_eq!(pool.complete_due_cooldowns(20), 0);
    assert_eq!(pool.complete_due_cooldowns(u64::MAX), 1);
    assert_eq!(pool.reserve(), Ok(2));
}

#[test]
fn nothing_ends_in_a_pool_without_cooldowns() {
    let mut pool = NodePool::new(3);
    assert_eq!(pool.reserve(), Ok(2));
    assert_eq!(pool.complete_due_cooldowns(u64::MAX), 0);
    assert_eq!(pool.available(), 2);
    let mut none = NodePool::new(0);
    assert_eq!(none.complete_due_cooldowns(5), 0);
}

#[test]
fn pool_matches_a_plain_record_over_a_long_run() {
    let mut pool = NodePool::new(6);
    let mut states: Vec<EndpointState> = vec![EndpointState::Available; 6];
    let mut stack: Vec<usize> = (0..6).collect();
    let mut seed: u64 = 0x9e37_79b9_7f4a_7c15;
    for _ in 0..4000 {
        seed = seed.wrapping_mul(6364136223846793005).wrapping_add(1442695040888963407);
        let choice = (seed >> 61) as u8;
        let id = ((seed >> 40) % 7) as usize;
        let now = (seed >> 20) % 100;
        match choice {
            0..=2 => match pool.reserve() {
                Ok(got) => {
                    assert_eq!(stack.pop(), Some(got));
                    assert_eq!(states[got], EndpointState::Available);
                    states[got] = EndpointState::Reserved;
                }
                Err(e) => {
                    assert_eq!(e, ClientError::NoNodesAvailable);
                    assert!(stack.is_empty());
                }
            },
            3..=4 => {
                let expected = id < 6 && states[id] == EndpointState::Reserved;
                assert_eq!(pool.release(id), expected);
                if expected {
                    states[id] = EndpointState::Available;
                    stack.push(id);
                }
            }
            5 => {
                assert_eq!(pool.disable(id, now + 10), id < 6);
                if id < 6 {
                    stack.retain(|held| *held != id);
                    states[id] = EndpointState::Disabled { until: now + 10 };
                }
            }
            6 => {
                let expected = id < 6
                    && matches!(states[id], EndpointState::Disabled { until } if until <= now);
                assert_eq!(pool.complete_cooldown(id, now), expected);
                if expected {
                    states[id] = EndpointState::Available;
                    stack.push(id);
                }
            }
            _ => {
                let mut expected = 0;
                for due in 0..6 {
                    if matches!(states[due], EndpointState::Disabled { until } if until <= now) {
                        states[due] = EndpointState::Available;
                        stack.push(due);
                        expected += 1;
                    }
                }
                assert_eq!(pool.complete_due_cooldowns(now), expected);
            }
        }
        assert_eq!(pool.available(), stack.len());
        for check in 0..6 {
            assert_eq!(pool.state(check), Some(states[check]));
            let stacked = stack.iter().filter(|held| **held == check).count();
            assert_eq!(stacked, if states[check] == EndpointState::Available { 1 } else { 0 });
        }
    }
}
