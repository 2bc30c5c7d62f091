//! The pool of endpoints: which are assignable, reserved, or cooling down.
//!
//! Every endpoint is in exactly one state. The assignable endpoints stand in
//! a stack, and `reserve` hands out the one that joined last. An endpoint
//! that was handed out is not handed out again before it came back by
//! `release`, or by `complete_cooldown` after a `disable`.

use crate::error::ClientError;
use vstd::prelude::*;

verus! {

/// The state of one endpoint.
#[derive(Debug, Clone, Copy, PartialEq, Eq, Structural)]
pub enum EndpointState {
    /// In rotation: `reserve` may hand it out.
    Available,
    /// Handed out to one operation in flight.
    Reserved,
    /// Out of rotation until the instant `until`.
    Disabled { until: u64 },
}

/// One call on the pool, as the model sees it.
pub enum PoolOp {
    /// `reserve`.
    Reserve,
    /// `release` of this endpoint.
    Release { node_id: usize },
    /// `disable` of this endpoint until the given instant.
    Disable { node_id: usize, until: u64 },
    /// `complete_cooldown` of this endpoint at `now`.
    CompleteCooldown { node_id: usize, now: u64 },
}

/// The pool as contracts see it.
pub struct PoolView {
    /// The state of each endpoint, by its index.
    pub states: Seq<EndpointState>,
    /// The stack of assignable endpoints; the last one is handed out next.
    pub assignable: Seq<usize>,
}

impl PoolView {
    /// Whether `node_id` stands in the stack of assignable endpoints.
    pub open spec fn is_assignable(self, node_id: int) -> bool {
        exists|k: int| 0 <= k < self.assignable.len() && #[trigger] self.assignable[k] == node_id
    }

    /// The invariant of the pool: the stack holds known endpoints, none of
    /// them twice, and an endpoint stands in it exactly when it is available.
    pub open spec fn wf(self) -> bool {
        &&& forall|k: int|
            0 <= k < self.assignable.len() ==> #[trigger] self.assignable[k] < self.states.len()
        &&& self.assignable.no_duplicates()
        &&& forall|e: int|
            #![trigger self.states[e]]
            #![trigger self.is_assignable(e)]
            0 <= e < self.states.len() ==> (self.states[e] == EndpointState::Available
                <==> self.is_assignable(e))
    }

    /// A pool of `count` endpoints, all available, stacked by rising index.
    pub open spec fn fresh(count: nat) -> Self {
        PoolView {
            states: Seq::new(count, |i: int| EndpointState::Available),
            assignable: Seq::new(count, |i: int| i as usize),
        }
    }

    /// The endpoint that `reserve` hands out, if there is one.
    pub open spec fn next_reserved(self) -> Option<usize> {
        if self.assignable.len() == 0 {
            None
        } else {
            Some(self.assignable.last())
        }
    }

    /// The pool after `reserve`.
    pub open spec fn reserve(self) -> Self {
        if self.assignable.len() == 0 {
            self
        } else {
            PoolView {
                states: self.states.update(
                    self.assignable.last() as int,
                    EndpointState::Reserved,
                ),
                assignable: self.assignable.drop_last(),
            }
        }
    }

    /// Whether `release` takes `node_id` back: it is a reserved endpoint.
    pub open spec fn releasable(self, node_id: usize) -> bool {
        node_id < self.states.len() && self.states[node_id as int] == EndpointState::Reserved
    }

    /// The pool after `release`.
    pub open spec fn release(self, node_id: usize) -> Self {
        if self.releasable(node_id) {
            PoolView {
                states: self.states.update(node_id as int, EndpointState::Available),
                assignable: self.assignable.push(node_id),
            }
        } else {
            self
        }
    }

    /// The pool after `disable`.
    pub open spec fn disable(self, node_id: usize, until: u64) -> Self {
        if node_id < self.states.len() {
            PoolView {
                states: self.states.update(node_id as int, EndpointState::Disabled { until }),
                assignable: if self.is_assignable(node_id as int) {
                    self.assignable.remove(self.assignable.index_of(node_id))
                } else {
                    self.assignable
                },
            }
        } else {
            self
        }
    }

    /// Whether the cooldown of `node_id` is over at `now`.
    pub open spec fn cooled_down(self, node_id: usize, now: u64) -> bool {
        &&& node_id < self.states.len()
        &&& self.states[node_id as int] matches EndpointState::Disabled { until }
        &&& until <= now
    }

    /// The pool after `complete_cooldown`.
    pub open spec fn complete_cooldown(self, node_id: usize, now: u64) -> Self {
        if self.cooled_down(node_id, now) {
            PoolView {
                states: self.states.update(node_id as int, EndpointState::Available),
                assignable: self.assignable.push(node_id),
            }
        } else {
            self
        }
    }

    /// The pool after `complete_cooldown` was tried at `now` on each of the
    /// first `upto` endpoints, by rising index.
    pub open spec fn complete_due(self, upto: nat, now: u64) -> Self
        decreases upto,
    {
        if upto == 0 {
            self
        } else {
            self.complete_due((upto - 1) as nat, now).complete_cooldown((upto - 1) as usize, now)
        }
    }

    /// How many of the first `upto` endpoints have their cooldown over at
    /// `now`.
    pub open spec fn due_count(self, upto: nat, now: u64) -> nat
        decreases upto,
    {
        if upto == 0 {
            0
        } else {
            self.due_count((upto - 1) as nat, now) + if self.cooled_down(
                (upto - 1) as usize,
                now,
            ) {
                1nat
            } else {
                0nat
            }
        }
    }

    /// The pool after one call.
    pub open spec fn apply(self, op: PoolOp) -> Self {
        match op {
            PoolOp::Reserve => self.reserve(),
            PoolOp::Release { node_id } => self.release(node_id),
            PoolOp::Disable { node_id, until } => self.disable(node_id, until),
            PoolOp::CompleteCooldown { node_id, now } => self.complete_cooldown(node_id, now),
        }
    }

    /// The pool after a run of calls, first to last.
    pub open spec fn apply_all(self, ops: Seq<PoolOp>) -> Self
        decreases ops.len(),
    {
        if ops.len() == 0 {
            self
        } else {
            self.apply_all(ops.drop_last()).apply(ops.last())
        }
    }

    /// A fresh pool keeps the invariant.
    pub proof fn lemma_fresh(count: nat)
        requires
            count <= usize::MAX,
        ensures
            Self::fresh(count).wf(),
    {
        let pool = Self::fresh(count);
        assert forall|e: int| 0 <= e < pool.states.len() implies pool.is_assignable(e) by {
            assert(pool.assignable[e] == e);
        }
    }

    /// `reserve` keeps the invariant.
    pub proof fn lemma_reserve(self)
        requires
            self.wf(),
        ensures
            self.reserve().wf(),
            self.reserve().states.len() == self.states.len(),
            self.next_reserved() matches Some(node_id) ==> {
                &&& node_id < self.states.len()
                &&& self.states[node_id as int] == EndpointState::Available
                &&& self.reserve().states[node_id as int] == EndpointState::Reserved
                &&& !self.reserve().is_assignable(node_id as int)
            },
    {
        if self.assignable.len() > 0 {
            let top = self.assignable.len() - 1;
            let node_id = self.assignable[top];
            let after = self.reserve();
            assert(self.is_assignable(node_id as int));
            assert forall|e: int| 0 <= e < after.states.len() implies (after.states[e]
                == EndpointState::Available <==> after.is_assignable(e)) by {
                if after.is_assignable(e) {
                    let k = choose|k: int|
                        0 <= k < after.assignable.len() && #[trigger] after.assignable[k] == e;
                    assert(self.assignable[k] == e);
                    assert(self.is_assignable(e));
                    assert(e != node_id);
                }
                if after.states[e] == EndpointState::Available {
                    assert(e != node_id);
                    assert(self.is_assignable(e));
                    let k = choose|k: int|
                        0 <= k < self.assignable.len() && #[trigger] self.assignable[k] == e;
                    assert(k != top);
                    assert(after.assignable[k] == e);
                }
            }
            if after.is_assignable(node_id as int) {
                let k = choose|k: int|
                    0 <= k < after.assignable.len() && #[trigger] after.assignable[k] == node_id;
                assert(self.assignable[k] == node_id);
            }
        }
    }

    /// Putting an endpoint that is not available on the stack, and marking it
    /// available, keeps the invariant; the endpoint is then handed out next.
    proof fn lemma_push(self, node_id: usize)
        requires
            self.wf(),
            node_id < self.states.len(),
            self.states[node_id as int] != EndpointState::Available,
        ensures
            ({
                let after = PoolView {
                    states: self.states.update(node_id as int, EndpointState::Available),
                    assignable: self.assignable.push(node_id),
                };
                &&& after.wf()
                &&& after.is_assignable(node_id as int)
                &&& after.next_reserved() == Some(node_id)
            }),
    {
        let after = PoolView {
            states: self.states.update(node_id as int, EndpointState::Available),
            assignable: self.assignable.push(node_id),
        };
        let top = self.assignable.len() as int;
        assert(after.assignable[top] == node_id);
        assert(!self.is_assignable(node_id as int));
        assert forall|k: int, l: int|
            0 <= k < after.assignable.len() && 0 <= l < after.assignable.len() && k
                != l implies after.assignable[k] != after.assignable[l] by {
            if k < top {
                assert(self.assignable[k] == after.assignable[k]);
            }
            if l < top {
                assert(self.assignable[l] == after.assignable[l]);
            }
        }
        assert forall|e: int| 0 <= e < after.states.len() implies (after.states[e]
            == EndpointState::Available <==> after.is_assignable(e)) by {
            if after.is_assignable(e) && e != node_id {
                let k = choose|k: int|
                    0 <= k < after.assignable.len() && #[trigger] after.assignable[k] == e;
                assert(self.assignable[k] == e);
                assert(self.is_assignable(e));
            }
            if after.states[e] == EndpointState::Available && e != node_id {
                assert(self.is_assignable(e));
                let k = choose|k: int|
                    0 <= k < self.assignable.len() && #[trigger] self.assignable[k] == e;
                assert(after.assignable[k] == e);
            }
        }
    }

    /// `release` keeps the invariant, and a released endpoint is assignable.
    pub proof fn lemma_release(self, node_id: usize)
        requires
            self.wf(),
        ensures
            self.release(node_id).wf(),
            self.release(node_id).states.len() == self.states.len(),
            self.releasable(node_id) ==> self.release(node_id).is_assignable(node_id as int),
    {
        if self.releasable(node_id) {
            self.lemma_push(node_id);
        }
    }

    /// `complete_cooldown` keeps the invariant.
    pub proof fn lemma_complete_cooldown(self, node_id: usize, now: u64)
        requires
            self.wf(),
        ensures
            self.complete_cooldown(node_id, now).wf(),
            self.complete_cooldown(node_id, now).states.len() == self.states.len(),
    {
        if self.cooled_down(node_id, now) {
            self.lemma_push(node_id);
        }
    }

    /// `disable` keeps the invariant, and a disabled endpoint is not
    /// assignable.
    pub proof fn lemma_disable(self, node_id: usize, until: u64)
        requires
            self.wf(),
        ensures
            self.disable(node_id, until).wf(),
            self.disable(node_id, until).states.len() == self.states.len(),
            node_id < self.states.len() ==> !self.disable(node_id, until).is_assignable(
                node_id as int,
            ),
    {
        if node_id < self.states.len() {
            let after = self.disable(node_id, until);
            if self.is_assignable(node_id as int) {
                let p = self.assignable.index_of(node_id);
                assert(0 <= p < self.assignable.len() && self.assignable[p] == node_id);
                self.assignable.remove_ensures(p);
                assert forall|k: int| 0 <= k < after.assignable.len() implies (
                #[trigger] after.assignable[k]) == self.assignable[if k < p {
                    k
                } else {
                    k + 1
                }] by {}
                assert forall|k: int, l: int|
                    0 <= k < after.assignable.len() && 0 <= l < after.assignable.len() && k
                        != l implies after.assignable[k] != after.assignable[l] by {
                    let ok = if k < p { k } else { k + 1 };
                    let ol = if l < p { l } else { l + 1 };
                    assert(after.assignable[k] == self.assignable[ok]);
                    assert(after.assignable[l] == self.assignable[ol]);
                }
                assert forall|e: int| 0 <= e < after.states.len() implies (after.states[e]
                    == EndpointState::Available <==> after.is_assignable(e)) by {
                    if after.is_assignable(e) {
                        let k = choose|k: int|
                            0 <= k < after.assignable.len() && #[trigger] after.assignable[k] == e;
                        let ok = if k < p { k } else { k + 1 };
                        assert(self.assignable[ok] == e);
                        assert(self.is_assignable(e));
                        assert(ok != p);
                        assert(e != node_id);
                    }
                    if after.states[e] == EndpointState::Available {
                        assert(e != node_id);
                        assert(self.is_assignable(e));
                        let k = choose|k: int|
                            0 <= k < self.assignable.len() && #[trigger] self.assignable[k] == e;
                        assert(k != p);
                        let nk = if k < p { k } else { k - 1 };
                        assert(after.assignable[nk] == e);
                    }
                }
            } else {
                assert forall|e: int| 0 <= e < after.states.len() implies (after.states[e]
                    == EndpointState::Available <==> after.is_assignable(e)) by {
                    if after.is_assignable(e) {
                        assert(self.is_assignable(e));
                    }
                    if e != node_id && self.is_assignable(e) {
                        assert(after.is_assignable(e));
                    }
                }
            }
        }
    }

    /// `complete_due` brings back exactly the endpoints whose cooldown is
    /// over: each of the first `upto` endpoints that was disabled until an
    /// instant at or before `now` is available, and every other endpoint is
    /// in the state it was in.
    pub proof fn lemma_complete_due(self, upto: nat, now: u64)
        requires
            self.wf(),
            upto <= self.states.len() <= usize::MAX,
        ensures
            self.complete_due(upto, now).wf(),
            self.complete_due(upto, now).states.len() == self.states.len(),
            forall|e: int|
                0 <= e < self.states.len() ==> #[trigger] self.complete_due(upto, now).states[e]
                    == if e < upto && self.cooled_down(e as usize, now) {
                    EndpointState::Available
                } else {
                    self.states[e]
                },
        decreases upto,
    {
        if upto > 0 {
            self.lemma_complete_due((upto - 1) as nat, now);
            self.complete_due((upto - 1) as nat, now).lemma_complete_cooldown(
                (upto - 1) as usize,
                now,
            );
        }
    }

    /// One call keeps the invariant and the number of endpoints.
    pub proof fn lemma_apply(self, op: PoolOp)
        requires
            self.wf(),
        ensures
            self.apply(op).wf(),
            self.apply(op).states.len() == self.states.len(),
    {
        match op {
            PoolOp::Reserve => self.lemma_reserve(),
            PoolOp::Release { node_id } => self.lemma_release(node_id),
            PoolOp::Disable { node_id, until } => self.lemma_disable(node_id, until),
            PoolOp::CompleteCooldown { node_id, now } => self.lemma_complete_cooldown(
                node_id,
                now,
            ),
        }
    }

    /// Endpoints are neither made nor lost, and the invariant holds after
    /// any run of calls.
    pub proof fn lemma_invariant_holds(self, ops: Seq<PoolOp>)
        requires
            self.wf(),
        ensures
            self.apply_all(ops).wf(),
            self.apply_all(ops).states.len() == self.states.len(),
        decreases ops.len(),
    {
        if ops.len() > 0 {
            self.lemma_invariant_holds(ops.drop_last());
            self.apply_all(ops.drop_last()).lemma_apply(ops.last());
        }
    }

    /// Whether the call gives `node_id` back to the pool or takes it out of
    /// rotation: a `release` or a `disable` of it.
    pub open spec fn returns_endpoint(op: PoolOp, node_id: usize) -> bool {
        match op {
            PoolOp::Release { node_id: id } => id == node_id,
            PoolOp::Disable { node_id: id, .. } => id == node_id,
            _ => false,
        }
    }

    /// Whether the call can end or change the cooldown that keeps `node_id`
    /// out of rotation until `until`: a `complete_cooldown` of it at or after
    /// `until`, or another `disable` of it.
    pub open spec fn ends_cooldown(op: PoolOp, node_id: usize, until: u64) -> bool {
        match op {
            PoolOp::CompleteCooldown { node_id: id, now } => id == node_id && until <= now,
            PoolOp::Disable { node_id: id, .. } => id == node_id,
            _ => false,
        }
    }

    /// Exclusivity: an endpoint that is reserved is not handed out again. It
    /// stays reserved through any run of calls that holds no `release` and no
    /// `disable` of it, and after such a run `reserve` hands out another
    /// endpoint or none. As every start of such a run is such a run, no
    /// `reserve` within the run handed it out either.
    pub proof fn lemma_reserved_is_exclusive(self, held: usize, ops: Seq<PoolOp>)
        requires
            self.wf(),
            held < self.states.len(),
            self.states[held as int] == EndpointState::Reserved,
            forall|k: int| 0 <= k < ops.len() ==> !Self::returns_endpoint(#[trigger] ops[k], held),
        ensures
            self.apply_all(ops).wf(),
            self.apply_all(ops).states[held as int] == EndpointState::Reserved,
            self.apply_all(ops).next_reserved() != Some(held),
        decreases ops.len(),
    {
        if ops.len() > 0 {
            let before = self.apply_all(ops.drop_last());
            let op = ops.last();
            assert forall|k: int| 0 <= k < ops.drop_last().len() implies !Self::returns_endpoint(
                #[trigger] ops.drop_last()[k],
                held,
            ) by {
                assert(ops.drop_last()[k] == ops[k]);
            }
            self.lemma_reserved_is_exclusive(held, ops.drop_last());
            self.lemma_invariant_holds(ops.drop_last());
            before.lemma_apply(op);
            assert(!Self::returns_endpoint(op, held));
            before.lemma_reserve();
        }
        let after = self.apply_all(ops);
        if after.next_reserved() == Some(held) {
            assert(after.is_assignable(held as int));
        }
    }

    /// Two reservations in a row never hand out the same endpoint.
    pub proof fn lemma_reservations_differ(self)
        requires
            self.wf(),
        ensures
            self.next_reserved() is Some ==> self.reserve().next_reserved()
                != self.next_reserved(),
    {
        if self.next_reserved() is Some {
            self.lemma_reserve();
            self.reserve().lemma_reserved_is_exclusive(self.next_reserved()->0, Seq::empty());
        }
    }

    /// A disabled endpoint stays out of rotation until its cooldown is over:
    /// after `disable`, through any run of calls that holds no
    /// `complete_cooldown` of it at or after `until` and no further `disable`
    /// of it, the endpoint is disabled until `until`, and `reserve` hands out
    /// another endpoint or none.
    pub proof fn lemma_disabled_until_cooldown(self, node_id: usize, until: u64, ops: Seq<PoolOp>)
        requires
            self.wf(),
            node_id < self.states.len(),
            forall|k: int|
                0 <= k < ops.len() ==> !Self::ends_cooldown(#[trigger] ops[k], node_id, until),
        ensures
            self.disable(node_id, until).apply_all(ops).wf(),
            self.disable(node_id, until).apply_all(ops).states[node_id as int]
                == (EndpointState::Disabled { until }),
            self.disable(node_id, until).apply_all(ops).next_reserved() != Some(node_id),
        decreases ops.len(),
    {
        let start = self.disable(node_id, until);
        self.lemma_disable(node_id, until);
        if ops.len() > 0 {
            let before = start.apply_all(ops.drop_last());
            let op = ops.last();
            assert forall|k: int| 0 <= k < ops.drop_last().len() implies !Self::ends_cooldown(
                #[trigger] ops.drop_last()[k],
                node_id,
                until,
            ) by {
                assert(ops.drop_last()[k] == ops[k]);
            }
            self.lemma_disabled_until_cooldown(node_id, until, ops.drop_last());
            start.lemma_invariant_holds(ops.drop_last());
            before.lemma_apply(op);
            assert(!Self::ends_cooldown(op, node_id, until));
            before.lemma_reserve();
        }
        let after = start.apply_all(ops);
        if after.next_reserved() == Some(node_id) {
            assert(after.is_assignable(node_id as int));
        }
    }

    /// Once its cooldown is over a disabled endpoint comes back: after
    /// `complete_cooldown` at or after `until` it is available, and the next
    /// `reserve` hands it out.
    pub proof fn lemma_reappears_after_cooldown(self, node_id: usize, until: u64, now: u64)
        requires
            self.wf(),
            node_id < self.states.len(),
            self.states[node_id as int] == (EndpointState::Disabled { until }),
            until <= now,
        ensures
            self.complete_cooldown(node_id, now).wf(),
            self.complete_cooldown(node_id, now).states[node_id as int]
                == EndpointState::Available,
            self.complete_cooldown(node_id, now).next_reserved() == Some(node_id),
    {
        self.lemma_push(node_id);
    }
}

/// The endpoints of the dispatcher and the state of each.
pub struct NodePool {
    states: Vec<EndpointState>,
    available_nodes: Vec<usize>,
}

impl View for NodePool {
    type V = PoolView;

    closed spec fn view(&self) -> PoolView {
        PoolView { states: self.states@, assignable: self.available_nodes@ }
    }
}

impl NodePool {
    /// The invariant every pool made by `new` keeps.
    pub open spec fn wf(&self) -> bool {
        self@.wf()
    }

    /// A pool of `count` endpoints, all available. The endpoint with the
    /// highest index is handed out first.
    pub fn new(count: usize) -> (pool: Self)
        ensures
            pool.wf(),
            pool@ == PoolView::fresh(count as nat),
    {
        let mut states: Vec<EndpointState> = Vec::new();
        let mut available_nodes: Vec<usize> = Vec::new();
        let mut i: usize = 0;
        while i < count
            invariant
                i <= count,
                states@ == Seq::new(i as nat, |j: int| EndpointState::Available),
                available_nodes@ == Seq::new(i as nat, |j: int| j as usize),
            decreases count - i,
        {
            states.push(EndpointState::Available);
            available_nodes.push(i);
            i += 1;
        }
        proof {
            PoolView::lemma_fresh(count as nat);
        }
        NodePool { states, available_nodes }
    }

    /// How many endpoints the pool has.
    pub fn len(&self) -> (count: usize)
        ensures
            count == self@.states.len(),
    {
        self.states.len()
    }

    /// How many endpoints are assignable.
    pub fn available(&self) -> (count: usize)
        ensures
            count == self@.assignable.len(),
    {
        self.available_nodes.len()
    }

    /// The state of `node_id`, if the pool has such an endpoint.
    pub fn state(&self, node_id: usize) -> (state: Option<EndpointState>)
        ensures
            state == if node_id < self@.states.len() {
                Some(self@.states[node_id as int])
            } else {
                None
            },
    {
        if node_id < self.states.len() {
            Some(self.states[node_id])
        } else {
            None
        }
    }

    /// Hands out an assignable endpoint: the one that joined the stack last.
    ///
    /// Fails with `NoNodesAvailable` exactly when no endpoint is assignable.
    /// The endpoint handed out was available and is reserved from now on.
    pub fn reserve(&mut self) -> (reserved: Result<usize, ClientError>)
        requires
            old(self).wf(),
        ensures
            final(self).wf(),
            final(self)@ == old(self)@.reserve(),
            match reserved {
                Ok(node_id) => {
                    &&& old(self)@.next_reserved() == Some(node_id)
                    &&& node_id < old(self)@.states.len()
                    &&& old(self)@.states[node_id as int] == EndpointState::Available
                    &&& final(self)@.states[node_id as int] == EndpointState::Reserved
                },
                Err(e) => e == ClientError::NoNodesAvailable && old(self)@.next_reserved() is None,
            },
    {
        proof {
            self@.lemma_reserve();
        }
        match self.available_nodes.pop() {
            Some(node_id) => {
                self.states.set(node_id, EndpointState::Reserved);
                Ok(node_id)
            },
            None => Err(ClientError::NoNodesAvailable),
        }
    }

    /// Gives a reserved endpoint back to the pool.
    ///
    /// Returns whether `node_id` was reserved; nothing changes where it was
    /// not.
    pub fn release(&mut self, node_id: usize) -> (released: bool)
        requires
            old(self).wf(),
        ensures
            final(self).wf(),
            released == old(self)@.releasable(node_id),
            final(self)@ == old(self)@.release(node_id),
    {
        proof {
            self@.lemma_release(node_id);
        }
        if node_id < self.states.len() && self.states[node_id] == EndpointState::Reserved {
            self.states.set(node_id, EndpointState::Available);
            self.available_nodes.push(node_id);
            true
        } else {
            false
        }
    }

    /// Takes an endpoint out of rotation until the instant `until`.
    ///
    /// Works from every state: an available endpoint leaves the stack, a
    /// reserved one is not given back, a disabled one gets the new instant.
    /// Returns whether the pool has such an endpoint.
    pub fn disable(&mut self, node_id: usize, until: u64) -> (disabled: bool)
        requires
            old(self).wf(),
        ensures
            final(self).wf(),
            disabled == (node_id < old(self)@.states.len()),
            final(self)@ == old(self)@.disable(node_id, until),
    {
        proof {
            self@.lemma_disable(node_id, until);
        }
        if node_id >= self.states.len() {
            return false;
        }
        if self.states[node_id] == EndpointState::Available {
            assert(self@.is_assignable(node_id as int));
            let mut p: usize = 0;
            while self.available_nodes[p] != node_id
                invariant
                    self.wf(),
                    self@.is_assignable(node_id as int),
                    p < self.available_nodes.len(),
                    forall|k: int| 0 <= k < p ==> self.available_nodes@[k] != node_id,
                decreases self.available_nodes.len() - p,
            {
                proof {
                    let k = choose|k: int|
                        0 <= k < self@.assignable.len() && #[trigger] self@.assignable[k]
                            == node_id;
                    assert(k > p);
                }
                p += 1;
            }
            proof {
                let q = self@.assignable.index_of(node_id);
                assert(self@.assignable[p as int] == node_id);
                assert(0 <= q < self@.assignable.len() && self@.assignable[q] == node_id);
                assert(q == p);
            }
            self.available_nodes.remove(p);
        } else {
            assert(!self@.is_assignable(node_id as int));
        }
        self.states.set(node_id, EndpointState::Disabled { until });
        true
    }

    /// Puts a disabled endpoint back into rotation once its cooldown is over.
    ///
    /// Returns whether `node_id` was disabled until an instant at or before
    /// `now`; nothing changes where it was not.
    pub fn complete_cooldown(&mut self, node_id: usize, now: u64) -> (restored: bool)
        requires
            old(self).wf(),
        ensures
            final(self).wf(),
            restored == old(self)@.cooled_down(node_id, now),
            final(self)@ == old(self)@.complete_cooldown(node_id, now),
    {
        proof {
            self@.lemma_complete_cooldown(node_id, now);
        }
        if node_id >= self.states.len() {
            return false;
        }
        match self.states[node_id] {
            EndpointState::Disabled { until } => {
                if until <= now {
                    self.states.set(node_id, EndpointState::Available);
                    self.available_nodes.push(node_id);
                    true
                } else {
                    false
                }
            },
            _ => false,
        }
    }

    /// Puts every endpoint whose cooldown is over at `now` back into
    /// rotation, by rising index, and says how many came back.
    pub fn complete_due_cooldowns(&mut self, now: u64) -> (restored: usize)
        requires
            old(self).wf(),
        ensures
            final(self).wf(),
            final(self)@ == old(self)@.complete_due(old(self)@.states.len(), now),
            restored == old(self)@.due_count(old(self)@.states.len(), now),
    {
        let count: usize = self.states.len();
        let mut restored: usize = 0;
        let mut node_id: usize = 0;
        while node_id < count
            invariant
                self.wf(),
                old(self).wf(),
                count == old(self)@.states.len(),
                node_id <= count,
                restored <= node_id,
                self@ == old(self)@.complete_due(node_id as nat, now),
                restored == old(self)@.due_count(node_id as nat, now),
            decreases count - node_id,
        {
            proof {
                old(self)@.lemma_complete_due(node_id as nat, now);
            }
            if self.complete_cooldown(node_id, now) {
                restored += 1;
            }
            node_id += 1;
        }
        restored
    }
}

} // verus!
