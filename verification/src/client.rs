//! The dispatcher: one pool of endpoints, a rate limiter for each, and the
//! request queue, tied together.
//!
//! The dispatcher decides; its caller performs. A prediction is two calls,
//! `predict` before the wait for the response and `finish_predict` after it.
//! The background processor is a loop over `process_transactions`,
//! `throttle` and `complete_transaction`, with the call to the backend in
//! between. The initialization broadcast is a loop over `init_model` and
//! `init_model_result`. Endpoints that were disabled come back through
//! `complete_cooldown` or `complete_due_cooldowns`, which the caller calls
//! when their time has come.

use crate::config::NetworkConfig;
use crate::error::ClientError;
use crate::node_pool::{EndpointState, NodePool, PoolView};
use crate::rate_limiter::{BucketView, RateLimiter, WaitStep, REFILL_INTERVAL_NANOS};
use crate::rpc_queue::{
    deadline_after, response_for, AsyncRpcQueue, QueueOp, QueueView, RpcRequest, RpcResponse,
    RpcStatus, Signature, WaitOutcome,
};
use vstd::prelude::*;

verus! {

/// What ends the cooldown of a disabled endpoint.
#[derive(Debug, Clone, Copy, PartialEq, Eq, Structural)]
pub enum CooldownPolicy {
    /// The endpoint comes back when its rate limiter is full again.
    UntilFullCapacity,
    /// The endpoint comes back after the configured cooldown period.
    FixedPeriod,
}

/// One round of the initialization broadcast.
#[derive(Debug, Clone, Copy, PartialEq, Eq, Structural)]
pub enum InitStep {
    /// Send the initialization to this endpoint and report how it went.
    Send(usize),
    /// Every endpoint is initialized.
    Done,
    /// An endpoint failed: the broadcast stopped there.
    Failed,
}

impl InitStep {
    /// What the broadcast returns once it is over; nothing while an endpoint
    /// is still to be asked.
    pub open spec fn outcome(self) -> Option<Result<(), ClientError>> {
        match self {
            InitStep::Send(_) => None,
            InitStep::Done => Some(Ok(())),
            InitStep::Failed => Some(Err(ClientError::InitializationError)),
        }
    }

    /// Computes `outcome`.
    pub fn result(&self) -> (over: Option<Result<(), ClientError>>)
        ensures
            over == self.outcome(),
    {
        match self {
            InitStep::Send(_) => None,
            InitStep::Done => Some(Ok(())),
            InitStep::Failed => Some(Err(ClientError::InitializationError)),
        }
    }
}

/// What the processor does next.
#[derive(Debug)]
pub enum Dispatch<T> {
    /// `shutdown` was called: stop.
    Stopped,
    /// No request is queued: wait for one.
    Idle,
    /// A request is queued, but no endpoint is assignable: try again later.
    NoEndpoint,
    /// Take a token of this endpoint's limiter, then send the request to it.
    Send { node_id: usize, request: RpcRequest<T> },
}

/// An instant, held at the largest 64-bit number where it lies beyond it.
pub open spec fn saturate(instant: nat) -> u64 {
    if instant <= u64::MAX {
        instant as u64
    } else {
        u64::MAX
    }
}

/// Whether the wait for a response ended with a confirmed request.
pub open spec fn succeeded(outcome: WaitOutcome) -> bool {
    outcome matches WaitOutcome::Responded(response) && response.status is Success
}

/// The dispatcher as contracts see it.
pub struct ClientView<T, H> {
    /// The pool of endpoints.
    pub pool: PoolView,
    /// The rate limiter of each endpoint, by its index.
    pub limiters: Seq<BucketView>,
    /// The request queue.
    pub queue: QueueView<T, H>,
    /// Which endpoints an initialization broadcast has reached.
    pub initialized: Seq<bool>,
    /// The endpoint the running broadcast asks next, if one is running.
    pub init_cursor: Option<usize>,
    /// The addresses of the endpoints, by their index.
    pub network_nodes: Seq<String>,
    /// The settings: of these the dispatcher reads the timeout of a request,
    /// the cooldown period, the rate limit and the size of the queue.
    pub config: NetworkConfig,
    /// What ends a cooldown.
    pub cooldown_policy: CooldownPolicy,
}

impl<T, H> ClientView<T, H> {
    /// How many endpoints the dispatcher has.
    pub open spec fn node_count(self) -> nat {
        self.pool.states.len()
    }

    /// The invariant of the dispatcher: its parts keep theirs, and every
    /// endpoint has its limiter and its initialization flag.
    pub open spec fn wf(self) -> bool {
        &&& self.pool.wf()
        &&& self.queue.wf()
        &&& self.node_count() <= usize::MAX
        &&& self.limiters.len() == self.node_count()
        &&& self.initialized.len() == self.node_count()
        &&& forall|i: int| 0 <= i < self.limiters.len() ==> (#[trigger] self.limiters[i]).wf()
        &&& self.init_cursor matches Some(cursor) ==> cursor < self.node_count()
    }

    /// The instant until which `node_id` stays out of rotation when it is
    /// disabled at `now`.
    pub open spec fn cooldown_until(self, node_id: usize, now: u64) -> u64 {
        match self.cooldown_policy {
            CooldownPolicy::FixedPeriod => saturate((now + self.config.cooldown_period) as nat),
            CooldownPolicy::UntilFullCapacity => match self.limiters[node_id as int].refill(
                now as nat,
            ).full_at() {
                Some(at) => saturate(at),
                None => u64::MAX,
            },
        }
    }

    /// The dispatcher after `get_available_node`.
    pub open spec fn get_available_node(self) -> Self {
        ClientView { pool: self.pool.reserve(), ..self }
    }

    /// The dispatcher after `release_node`.
    pub open spec fn release_node(self, node_id: usize) -> Self {
        ClientView { pool: self.pool.release(node_id), ..self }
    }

    /// The dispatcher after `disable_node`: the endpoint is out of rotation
    /// until `cooldown_until`, and under the policy that waits for a full
    /// limiter, the limiter was refilled at `now`.
    pub open spec fn disable_node(self, node_id: usize, now: u64) -> Self {
        if node_id < self.node_count() {
            ClientView {
                pool: self.pool.disable(node_id, self.cooldown_until(node_id, now)),
                limiters: match self.cooldown_policy {
                    CooldownPolicy::FixedPeriod => self.limiters,
                    CooldownPolicy::UntilFullCapacity => self.limiters.update(
                        node_id as int,
                        self.limiters[node_id as int].refill(now as nat),
                    ),
                },
                ..self
            }
        } else {
            self
        }
    }

    /// The dispatcher after `complete_cooldown`.
    pub open spec fn complete_cooldown(self, node_id: usize, now: u64) -> Self {
        ClientView { pool: self.pool.complete_cooldown(node_id, now), ..self }
    }

    /// The dispatcher after `complete_due_cooldowns`.
    pub open spec fn complete_due_cooldowns(self, now: u64) -> Self {
        ClientView { pool: self.pool.complete_due(self.node_count(), now), ..self }
    }

    /// The dispatcher after `init_model`.
    pub open spec fn init_model(self) -> Self {
        ClientView {
            init_cursor: if self.node_count() > 0 {
                Some(0usize)
            } else {
                None
            },
            ..self
        }
    }

    /// What `init_model` answers.
    pub open spec fn init_model_step(self) -> InitStep {
        if self.node_count() > 0 {
            InitStep::Send(0)
        } else {
            InitStep::Done
        }
    }

    /// The dispatcher after `init_model_result`.
    pub open spec fn init_model_result(self, succeeded: bool) -> Self {
        match self.init_cursor {
            Some(cursor) => if succeeded {
                ClientView {
                    initialized: self.initialized.update(cursor as int, true),
                    init_cursor: if cursor + 1 < self.node_count() {
                        Some((cursor + 1) as usize)
                    } else {
                        None
                    },
                    ..self
                }
            } else {
                ClientView { init_cursor: None, ..self }
            },
            None => self,
        }
    }

    /// What `init_model_result` answers.
    pub open spec fn init_model_result_step(self, succeeded: bool) -> InitStep {
        match self.init_cursor {
            Some(cursor) => if !succeeded {
                InitStep::Failed
            } else if cursor + 1 < self.node_count() {
                InitStep::Send((cursor + 1) as usize)
            } else {
                InitStep::Done
            },
            None => InitStep::Failed,
        }
    }

    /// Whether `predict` finds the queue ready to take the request.
    pub open spec fn queue_takes(self, signature: Signature) -> bool {
        !self.queue.is_full() && !self.queue.awaits(signature@)
    }

    /// The dispatcher after `predict`.
    pub open spec fn predict(
        self,
        signature: Signature,
        tx: T,
        response_sender: H,
        now: u64,
    ) -> Self {
        match self.pool.next_reserved() {
            None => self,
            Some(node_id) => if self.queue_takes(signature) {
                ClientView {
                    pool: self.pool.reserve(),
                    queue: self.queue.submit(
                        signature,
                        tx,
                        response_sender,
                        self.config.rpc_timeout_ms,
                        now,
                    ),
                    ..self
                }
            } else {
                self.get_available_node().disable_node(node_id, now)
            },
        }
    }

    /// The dispatcher after `finish_predict`.
    pub open spec fn finish_predict(
        self,
        node_id: usize,
        signature: Signature,
        outcome: WaitOutcome,
        now: u64,
    ) -> Self {
        let waited = ClientView {
            queue: if outcome is Elapsed {
                self.queue.resolve(signature@)
            } else {
                self.queue
            },
            ..self
        };
        if succeeded(outcome) {
            waited.release_node(node_id)
        } else {
            waited.disable_node(node_id, now)
        }
    }

    /// Whether the processor finds work it can hand out.
    pub open spec fn can_dispatch(self) -> bool {
        &&& !self.queue.is_shutdown
        &&& self.queue.queue.len() > 0
        &&& self.pool.next_reserved() is Some
    }

    /// The dispatcher after `process_transactions`.
    pub open spec fn process_transactions(self) -> Self {
        if self.can_dispatch() {
            ClientView { pool: self.pool.reserve(), queue: self.queue.advance(), ..self }
        } else {
            self
        }
    }

    /// The dispatcher after `throttle`.
    pub open spec fn throttle(self, node_id: usize, now: u64) -> Self {
        if node_id < self.node_count() {
            ClientView {
                limiters: self.limiters.update(
                    node_id as int,
                    self.limiters[node_id as int].acquire(1, now as nat),
                ),
                ..self
            }
        } else {
            self
        }
    }

    /// The dispatcher after `complete_transaction`.
    pub open spec fn complete_transaction(
        self,
        node_id: usize,
        signature: Signature,
        confirmed: bool,
        now: u64,
    ) -> Self {
        let settled = if confirmed {
            self.release_node(node_id)
        } else {
            self.disable_node(node_id, now)
        };
        ClientView { queue: settled.queue.resolve(signature@), ..settled }
    }

    /// How many reports come before the first failure: the place of the
    /// first `false`, or the number of reports where all are `true`.
    pub open spec fn first_failure(outcomes: Seq<bool>) -> nat
        decreases outcomes.len(),
    {
        if outcomes.len() == 0 {
            0
        } else {
            let before = Self::first_failure(outcomes.drop_last());
            if before < outcomes.len() - 1 {
                before
            } else if outcomes.last() {
                outcomes.len()
            } else {
                (outcomes.len() - 1) as nat
            }
        }
    }

    /// The dispatcher after a broadcast was started and these reports came
    /// in, one for each endpoint in turn.
    pub open spec fn broadcast(self, outcomes: Seq<bool>) -> Self
        decreases outcomes.len(),
    {
        if outcomes.len() == 0 {
            self.init_model()
        } else {
            self.broadcast(outcomes.drop_last()).init_model_result(outcomes.last())
        }
    }

    /// What the last call of such a broadcast answers.
    pub open spec fn broadcast_step(self, outcomes: Seq<bool>) -> InitStep
        decreases outcomes.len(),
    {
        if outcomes.len() == 0 {
            self.init_model_step()
        } else {
            self.broadcast(outcomes.drop_last()).init_model_result_step(outcomes.last())
        }
    }

    /// The broadcast stops at the first failure. After a broadcast with one
    /// report for each endpoint asked, the endpoints before the first
    /// failure are initialized, the others are as they were, and nothing
    /// else has changed. The broadcast has failed where a report was a
    /// failure; otherwise it names the next endpoint, or is done where every
    /// endpoint has reported.
    pub proof fn lemma_broadcast_stops_at_first_failure(self, outcomes: Seq<bool>)
        requires
            self.wf(),
            outcomes.len() <= self.node_count(),
        ensures
            ({
                let after = self.broadcast(outcomes);
                let reached = Self::first_failure(outcomes);
                &&& after.wf()
                &&& reached <= outcomes.len()
                &&& after == (ClientView {
                    initialized: after.initialized,
                    init_cursor: after.init_cursor,
                    ..self
                })
                &&& after.initialized.len() == self.initialized.len()
                &&& forall|j: int|
                    0 <= j < self.initialized.len() ==> #[trigger] after.initialized[j] == (
                    self.initialized[j] || j < reached)
                &&& after.init_cursor == if reached == outcomes.len() && outcomes.len()
                    < self.node_count() {
                    Some(outcomes.len() as usize)
                } else {
                    None
                }
                &&& self.broadcast_step(outcomes) == if reached < outcomes.len() {
                    InitStep::Failed
                } else if outcomes.len() < self.node_count() {
                    InitStep::Send(outcomes.len() as usize)
                } else {
                    InitStep::Done
                }
            }),
        decreases outcomes.len(),
    {
        if outcomes.len() > 0 {
            let head = outcomes.drop_last();
            self.lemma_broadcast_stops_at_first_failure(head);
            let before = self.broadcast(head);
            let after = self.broadcast(outcomes);
            assert(after == before.init_model_result(outcomes.last()));
            if Self::first_failure(head) == head.len() {
                assert(before.init_cursor == Some(head.len() as usize));
            } else {
                assert(before.init_cursor is None);
                assert(after == before);
            }
        }
    }

    /// Predictions in flight hold different endpoints: where a prediction
    /// was given an endpoint, the endpoint is reserved, the prediction that
    /// starts next is given another one or none, and the endpoint is still
    /// reserved after it.
    pub proof fn lemma_predictions_hold_different_endpoints(
        self,
        signature: Signature,
        tx: T,
        response_sender: H,
        now: u64,
        next_signature: Signature,
        next_tx: T,
        next_response_sender: H,
        later: u64,
    )
        requires
            self.wf(),
            self.pool.next_reserved() is Some,
            self.queue_takes(signature),
        ensures
            ({
                let held = self.pool.next_reserved();
                let after = self.predict(signature, tx, response_sender, now);
                let after_next = after.predict(
                    next_signature,
                    next_tx,
                    next_response_sender,
                    later,
                );
                &&& after.wf()
                &&& after.pool.states[held->0 as int] == EndpointState::Reserved
                &&& after.pool.next_reserved() != held
                &&& after_next.pool.states[held->0 as int] == EndpointState::Reserved
            }),
    {
        let after = self.predict(signature, tx, response_sender, now);
        self.pool.lemma_reserve();
        self.queue.lemma_apply(
            QueueOp::Submit {
                signature,
                tx,
                response_sender,
                timeout_ms: self.config.rpc_timeout_ms,
                now,
            },
        );
        self.pool.lemma_reservations_differ();
        match after.pool.next_reserved() {
            None => {},
            Some(other) => {
                after.pool.lemma_reserve();
                if !after.queue_takes(next_signature) {
                    after.get_available_node().lemma_disable_node(other, later);
                    after.pool.reserve().lemma_disable(
                        other,
                        after.get_available_node().cooldown_until(other, later),
                    );
                }
            },
        }
    }

    /// `disable_node` keeps the invariant, and the endpoint is then disabled
    /// and not assignable.
    pub proof fn lemma_disable_node(self, node_id: usize, now: u64)
        requires
            self.wf(),
        ensures
            self.disable_node(node_id, now).wf(),
            self.disable_node(node_id, now).node_count() == self.node_count(),
            node_id < self.node_count() ==> {
                &&& self.disable_node(node_id, now).pool.states[node_id as int] == (
                EndpointState::Disabled { until: self.cooldown_until(node_id, now) })
                &&& !self.disable_node(node_id, now).pool.is_assignable(node_id as int)
            },
    {
        if node_id < self.node_count() {
            self.pool.lemma_disable(node_id, self.cooldown_until(node_id, now));
            self.limiters[node_id as int].lemma_refill(now as nat);
        }
    }
}

/// Dispatcher over a pool of endpoints.
///
/// `T` is the unit of work handed to the backend, `H` the completion handle
/// through which the waiter of a request is resolved.
pub struct AsyncModelClient<T, H> {
    network_nodes: Vec<String>,
    config: NetworkConfig,
    pool: NodePool,
    rate_limiters: Vec<RateLimiter>,
    queue: AsyncRpcQueue<T, H>,
    initialized: Vec<bool>,
    init_cursor: Option<usize>,
    cooldown_policy: CooldownPolicy,
}

impl<T, H> View for AsyncModelClient<T, H> {
    type V = ClientView<T, H>;

    closed spec fn view(&self) -> ClientView<T, H> {
        ClientView {
            pool: self.pool@,
            limiters: Seq::new(self.rate_limiters@.len(), |i: int| self.rate_limiters@[i]@),
            queue: self.queue@,
            initialized: self.initialized@,
            init_cursor: self.init_cursor,
            network_nodes: self.network_nodes@,
            config: self.config,
            cooldown_policy: self.cooldown_policy,
        }
    }
}

impl<T, H> AsyncModelClient<T, H> {
    /// The invariant every dispatcher made by `new` keeps.
    pub open spec fn wf(&self) -> bool {
        self@.wf()
    }

    /// A dispatcher over the endpoints at `nodes`.
    ///
    /// Every endpoint is available, not initialized, and has a full rate
    /// limiter of `burst_size` tokens that gains `requests_per_second`
    /// tokens a second from `now` on. The queue is empty and takes
    /// `queue_size` requests. A cooldown lasts until the limiter of the
    /// endpoint is full again.
    pub fn new(nodes: Vec<String>, config: NetworkConfig, now: u64) -> (client: Self)
        ensures
            client.wf(),
            client@ == (ClientView {
                pool: PoolView::fresh(nodes@.len()),
                limiters: Seq::new(
                    nodes@.len(),
                    |i: int|
                        BucketView::filled(
                            config.rate_limit.burst_size as nat,
                            config.rate_limit.requests_per_second as nat,
                            now as nat,
                        ),
                ),
                queue: QueueView::<T, H>::empty(config.queue_size as nat),
                initialized: Seq::new(nodes@.len(), |i: int| false),
                init_cursor: None,
                network_nodes: nodes@,
                config,
                cooldown_policy: CooldownPolicy::UntilFullCapacity,
            }),
    {
        let count: usize = nodes.len();
        let mut rate_limiters: Vec<RateLimiter> = Vec::new();
        let mut initialized: Vec<bool> = Vec::new();
        let mut i: usize = 0;
        while i < count
            invariant
                i <= count,
                rate_limiters@.len() == i,
                initialized@ == Seq::new(i as nat, |j: int| false),
                forall|j: int|
                    0 <= j < i ==> (#[trigger] rate_limiters@[j])@ == BucketView::filled(
                        config.rate_limit.burst_size as nat,
                        config.rate_limit.requests_per_second as nat,
                        now as nat,
                    ),
            decreases count - i,
        {
            rate_limiters.push(
                RateLimiter::new(
                    config.rate_limit.burst_size,
                    config.rate_limit.requests_per_second,
                    now,
                ),
            );
            initialized.push(false);
            i += 1;
        }
        let client = AsyncModelClient {
            network_nodes: nodes,
            pool: NodePool::new(count),
            rate_limiters,
            queue: AsyncRpcQueue::new(config.queue_size),
            initialized,
            init_cursor: None,
            cooldown_policy: CooldownPolicy::UntilFullCapacity,
            config,
        };
        proof {
            PoolView::lemma_fresh(count as nat);
            assert(client@.limiters =~= Seq::new(
                count as nat,
                |i: int|
                    BucketView::filled(
                        config.rate_limit.burst_size as nat,
                        config.rate_limit.requests_per_second as nat,
                        now as nat,
                    ),
            ));
        }
        client
    }

    /// The same dispatcher with another cooldown policy.
    pub fn with_cooldown_policy(self, cooldown_policy: CooldownPolicy) -> (client: Self)
        ensures
            client@ == (ClientView { cooldown_policy, ..self@ }),
    {
        let mut client = self;
        client.cooldown_policy = cooldown_policy;
        client
    }

    /// The settings the dispatcher was made with.
    pub fn config(&self) -> (config: &NetworkConfig)
        ensures
            *config == self@.config,
    {
        &self.config
    }

    /// The addresses of the endpoints, by their index.
    pub fn network_nodes(&self) -> (nodes: &Vec<String>)
        ensures
            nodes@ == self@.network_nodes,
    {
        &self.network_nodes
    }

    /// How many endpoints the dispatcher has.
    pub fn node_count(&self) -> (count: usize)
        ensures
            count == self@.node_count(),
    {
        self.pool.len()
    }

    /// The pool of endpoints.
    pub fn pool(&self) -> (pool: &NodePool)
        ensures
            pool@ == self@.pool,
    {
        &self.pool
    }

    /// The request queue.
    pub fn queue(&self) -> (queue: &AsyncRpcQueue<T, H>)
        ensures
            queue@ == self@.queue,
    {
        &self.queue
    }

    /// The depth of the request queue.
    pub fn size(&self) -> (depth: usize)
        ensures
            depth == self@.queue.size,
    {
        self.queue.size()
    }

    /// Whether an initialization broadcast has reached `node_id`.
    pub fn is_initialized(&self, node_id: usize) -> (reached: bool)
        ensures
            reached == (node_id < self@.initialized.len() && self@.initialized[node_id as int]),
    {
        node_id < self.initialized.len() && self.initialized[node_id]
    }

    /// Tells the processor to stop.
    pub fn shutdown(&mut self)
        ensures
            final(self)@ == (ClientView {
                queue: QueueView { is_shutdown: true, ..old(self)@.queue },
                ..old(self)@
            }),
    {
        self.queue.shutdown();
    }

    /// Reserves an endpoint, or fails with `NoNodesAvailable` where none is
    /// assignable.
    pub fn get_available_node(&mut self) -> (reserved: Result<usize, ClientError>)
        requires
            old(self).wf(),
        ensures
            final(self).wf(),
            final(self)@ == old(self)@.get_available_node(),
            match reserved {
                Ok(node_id) => old(self)@.pool.next_reserved() == Some(node_id) && node_id < old(
                    self,
                )@.node_count(),
                Err(e) => e == ClientError::NoNodesAvailable && old(self)@.pool.next_reserved()
                    is None,
            },
    {
        proof {
            self@.pool.lemma_reserve();
        }
        self.pool.reserve()
    }

    /// Gives a reserved endpoint back. Returns whether it was reserved.
    pub fn release_node(&mut self, node_id: usize) -> (released: bool)
        requires
            old(self).wf(),
        ensures
            final(self).wf(),
            final(self)@ == old(self)@.release_node(node_id),
            released == old(self)@.pool.releasable(node_id),
    {
        proof {
            self@.pool.lemma_release(node_id);
        }
        self.pool.release(node_id)
    }

    /// Takes an endpoint out of rotation and says until when: the instant at
    /// which the caller is to call `complete_cooldown`. Under the fixed
    /// policy that is `now` plus the cooldown period; otherwise it is the
    /// instant at which the limiter of the endpoint is full again. Answers
    /// nothing, and changes nothing, where there is no such endpoint.
    pub fn disable_node(&mut self, node_id: usize, now: u64) -> (until: Option<u64>)
        requires
            old(self).wf(),
        ensures
            final(self).wf(),
            final(self)@ == old(self)@.disable_node(node_id, now),
            until == if node_id < old(self)@.node_count() {
                Some(old(self)@.cooldown_until(node_id, now))
            } else {
                None
            },
    {
        proof {
            self@.lemma_disable_node(node_id, now);
        }
        if node_id >= self.pool.len() {
            return None;
        }
        let until: u64 = match self.cooldown_policy {
            CooldownPolicy::FixedPeriod => {
                if self.config.cooldown_period > u64::MAX - now {
                    u64::MAX
                } else {
                    now + self.config.cooldown_period
                }
            },
            CooldownPolicy::UntilFullCapacity => {
                let mut limiter: RateLimiter = self.rate_limiters[node_id];
                assert(limiter@ == self@.limiters[node_id as int]);
                let at: u64 = limiter.capacity_restored_at(now);
                self.rate_limiters.set(node_id, limiter);
                assert(self@.limiters =~= old(self)@.limiters.update(
                    node_id as int,
                    old(self)@.limiters[node_id as int].refill(now as nat),
                ));
                at
            },
        };
        self.pool.disable(node_id, until);
        assert(self@.limiters =~= old(self)@.disable_node(node_id, now).limiters);
        Some(until)
    }

    /// Puts a disabled endpoint back into rotation once its cooldown is
    /// over. Returns whether it was disabled until an instant at or before
    /// `now`.
    pub fn complete_cooldown(&mut self, node_id: usize, now: u64) -> (restored: bool)
        requires
            old(self).wf(),
        ensures
            final(self).wf(),
            final(self)@ == old(self)@.complete_cooldown(node_id, now),
            restored == old(self)@.pool.cooled_down(node_id, now),
    {
        proof {
            self@.pool.lemma_complete_cooldown(node_id, now);
        }
        self.pool.complete_cooldown(node_id, now)
    }

    /// Puts every endpoint whose cooldown is over at `now` back into
    /// rotation, and says how many came back.
    pub fn complete_due_cooldowns(&mut self, now: u64) -> (restored: usize)
        requires
            old(self).wf(),
        ensures
            final(self).wf(),
            final(self)@ == old(self)@.complete_due_cooldowns(now),
            restored == old(self)@.pool.due_count(old(self)@.node_count(), now),
    {
        proof {
            self@.pool.lemma_complete_due(self@.node_count(), now);
        }
        self.pool.complete_due_cooldowns(now)
    }

    /// Starts the initialization broadcast: names the first endpoint to
    /// send to, or is done at once where there is none. The broadcast goes
    /// to every endpoint in turn, not through the queue.
    pub fn init_model(&mut self) -> (step: InitStep)
        requires
            old(self).wf(),
        ensures
            final(self).wf(),
            final(self)@ == old(self)@.init_model(),
            step == old(self)@.init_model_step(),
    {
        if self.pool.len() > 0 {
            self.init_cursor = Some(0);
            InitStep::Send(0)
        } else {
            self.init_cursor = None;
            InitStep::Done
        }
    }

    /// Takes the report on the endpoint that was asked last.
    ///
    /// After a success the endpoint counts as initialized, and the next
    /// endpoint is named, or the broadcast is done. The first failure ends
    /// the broadcast: the endpoints after it are not asked, and those before
    /// it stay initialized. A report that no broadcast waits for counts as a
    /// failure and changes nothing.
    pub fn init_model_result(&mut self, succeeded: bool) -> (step: InitStep)
        requires
            old(self).wf(),
        ensures
            final(self).wf(),
            final(self)@ == old(self)@.init_model_result(succeeded),
            step == old(self)@.init_model_result_step(succeeded),
    {
        match self.init_cursor {
            Some(cursor) => {
                if !succeeded {
                    self.init_cursor = None;
                    InitStep::Failed
                } else {
                    let count: usize = self.pool.len();
                    assert(cursor < count);
                    self.initialized.set(cursor, true);
                    if cursor + 1 < count {
                        self.init_cursor = Some(cursor + 1);
                        InitStep::Send(cursor + 1)
                    } else {
                        self.init_cursor = None;
                        InitStep::Done
                    }
                }
            },
            None => InitStep::Failed,
        }
    }

    /// The first half of a prediction: reserves an endpoint and submits the
    /// signed request through the queue with the configured timeout.
    ///
    /// Fails with `NoNodesAvailable`, and changes nothing, where no endpoint
    /// is assignable. Where the queue refuses the request, the endpoint that
    /// was reserved is disabled and the call fails with `PredictionFailed`.
    /// Otherwise the answer is the reserved endpoint, to be handed to
    /// `finish_predict` when the wait for the response is over.
    pub fn predict(&mut self, signature: Signature, tx: T, response_sender: H, now: u64) -> (reserved:
        Result<usize, ClientError>)
        requires
            old(self).wf(),
        ensures
            final(self).wf(),
            final(self)@ == old(self)@.predict(signature, tx, response_sender, now),
            match old(self)@.pool.next_reserved() {
                None => reserved == Err::<usize, ClientError>(ClientError::NoNodesAvailable),
                Some(node_id) => if old(self)@.queue_takes(signature) {
                    reserved == Ok::<usize, ClientError>(node_id)
                } else {
                    reserved == Err::<usize, ClientError>(ClientError::PredictionFailed)
                },
            },
            reserved is Ok ==> final(self)@.queue.awaits(signature@) && final(self)@.queue.deadline(
                signature@,
            ) == deadline_after(now, old(self)@.config.rpc_timeout_ms),
    {
        let node_id: usize = match self.get_available_node() {
            Ok(node_id) => node_id,
            Err(e) => {
                return Err(e);
            },
        };
        let timeout_ms: u64 = self.config.rpc_timeout_ms;
        match self.queue.submit(signature, tx, response_sender, timeout_ms, now) {
            Ok(()) => Ok(node_id),
            Err(_) => {
                let _ = self.disable_node(node_id, now);
                Err(ClientError::PredictionFailed)
            },
        }
    }

    /// The second half of a prediction: takes the end of the wait for the
    /// response.
    ///
    /// Where the timeout elapsed, the correlation entry of the request
    /// leaves the queue and the depth falls by one. A response with the status
    /// `Success` gives the endpoint back to the pool, and the answer is the
    /// output that the response carries. Every other end disables the
    /// endpoint and fails with `PredictionFailed`. Either way the endpoint
    /// is accounted for: released or disabled.
    pub fn finish_predict(
        &mut self,
        node_id: usize,
        signature: &Signature,
        outcome: WaitOutcome,
        now: u64,
    ) -> (output: Result<Option<Vec<u8>>, ClientError>)
        requires
            old(self).wf(),
        ensures
            final(self).wf(),
            final(self)@ == old(self)@.finish_predict(node_id, *signature, outcome, now),
            match outcome {
                WaitOutcome::Responded(response) => if response.status is Success {
                    output == Ok::<Option<Vec<u8>>, ClientError>(response.result)
                } else {
                    output == Err::<Option<Vec<u8>>, ClientError>(ClientError::PredictionFailed)
                },
                _ => output == Err::<Option<Vec<u8>>, ClientError>(ClientError::PredictionFailed),
            },
    {
        match self.queue.finish_submit(signature, outcome) {
            Ok(response) => {
                match response.status {
                    RpcStatus::Success => {
                        self.release_node(node_id);
                        Ok(response.result)
                    },
                    _ => {
                        let _ = self.disable_node(node_id, now);
                        Err(ClientError::PredictionFailed)
                    },
                }
            },
            Err(_) => {
                let _ = self.disable_node(node_id, now);
                Err(ClientError::PredictionFailed)
            },
        }
    }

    /// One round of the processor: takes the oldest request off the queue
    /// and reserves an endpoint for it.
    ///
    /// Nothing is taken after `shutdown`, from an empty queue, or while no
    /// endpoint is assignable; the request then stays queued.
    pub fn process_transactions(&mut self) -> (next: Dispatch<T>)
        requires
            old(self).wf(),
        ensures
            final(self).wf(),
            final(self)@ == old(self)@.process_transactions(),
            match next {
                Dispatch::Stopped => old(self)@.queue.is_shutdown,
                Dispatch::Idle => !old(self)@.queue.is_shutdown && old(self)@.queue.queue.len()
                    == 0,
                Dispatch::NoEndpoint => {
                    &&& !old(self)@.queue.is_shutdown
                    &&& old(self)@.queue.queue.len() > 0
                    &&& old(self)@.pool.next_reserved() is None
                },
                Dispatch::Send { node_id, request } => {
                    &&& old(self)@.can_dispatch()
                    &&& old(self)@.pool.next_reserved() == Some(node_id)
                    &&& node_id < old(self)@.node_count()
                    &&& request == old(self)@.queue.queue[0]
                },
            },
    {
        if self.queue.is_shutdown() {
            return Dispatch::Stopped;
        }
        if self.queue.queued() == 0 {
            return Dispatch::Idle;
        }
        proof {
            self@.pool.lemma_reserve();
        }
        match self.pool.reserve() {
            Ok(node_id) => {
                let request = self.queue.next_request().unwrap();
                Dispatch::Send { node_id, request }
            },
            Err(_) => Dispatch::NoEndpoint,
        }
    }

    /// One round of the wait at the limiter of an endpoint: takes a token if
    /// the limiter holds one at `now`, and names the sleep before the next
    /// round if it does not. Answers nothing where there is no such endpoint.
    pub fn throttle(&mut self, node_id: usize, now: u64) -> (step: Option<WaitStep>)
        requires
            old(self).wf(),
        ensures
            final(self).wf(),
            final(self)@ == old(self)@.throttle(node_id, now),
            step == if node_id < old(self)@.node_count() {
                Some(
                    if old(self)@.limiters[node_id as int].grants(1, now as nat) {
                        WaitStep::Acquired
                    } else {
                        WaitStep::Sleep(REFILL_INTERVAL_NANOS)
                    },
                )
            } else {
                None
            },
    {
        if node_id >= self.rate_limiters.len() {
            return None;
        }
        let mut limiter: RateLimiter = self.rate_limiters[node_id];
        assert(limiter@ == self@.limiters[node_id as int]);
        let step: WaitStep = limiter.wait_for_token(now);
        self.rate_limiters.set(node_id, limiter);
        proof {
            old(self)@.limiters[node_id as int].lemma_acquire(1, now as nat);
            assert(self@.limiters =~= old(self)@.throttle(node_id, now).limiters);
        }
        Some(step)
    }

    /// Takes the result of the backend for a request that the processor
    /// sent to `node_id`.
    ///
    /// After a failure the endpoint is disabled, before the waiter is
    /// resolved; after a success it is given back to the pool. Then the
    /// request is resolved as the queue's `complete` does: where its waiter
    /// is still there, the completion handle comes back with the response to
    /// send through it, and the depth falls by one.
    pub fn complete_transaction(
        &mut self,
        node_id: usize,
        signature: &Signature,
        backend_result: Result<Option<Vec<u8>>, String>,
        now: u64,
    ) -> (resolved: Option<(H, RpcResponse)>)
        requires
            old(self).wf(),
        ensures
            final(self).wf(),
            final(self)@ == old(self)@.complete_transaction(
                node_id,
                *signature,
                backend_result is Ok,
                now,
            ),
            match resolved {
                Some((handle, response)) => {
                    &&& old(self)@.queue.awaits(signature@)
                    &&& handle == old(self)@.queue.pending[old(self)@.queue.position(
                        signature@,
                    )].response_sender
                    &&& response == response_for(*signature, backend_result)
                },
                None => !old(self)@.queue.awaits(signature@),
            },
    {
        if backend_result.is_ok() {
            self.release_node(node_id);
        } else {
            let _ = self.disable_node(node_id, now);
        }
        self.queue.complete(signature, backend_result)
    }
}

} // verus!
