//! Bounded request queue with response correlation and deadlines.
//!
//! A request is admitted while the queue holds fewer requests than it was made
//! for. Admission registers a correlation entry under the request's signature
//! and raises the depth counter; the entry lives until the request is resolved
//! by a backend result or its waiter gives up at the timeout, whichever comes
//! first. A request whose waiter has left is still handed to the processor:
//! its result then finds no entry and is discarded.

use std::collections::VecDeque;
use vstd::prelude::*;

verus! {

/// Nanoseconds in one millisecond.
pub const NANOS_PER_MILLI: u64 = 1_000_000;

/// The 64 bytes of a transaction signature, used as correlation key.
#[derive(Debug, Clone, Copy)]
pub struct Signature {
    pub bytes: [u8; 64],
}

impl View for Signature {
    type V = Seq<u8>;

    open spec fn view(&self) -> Seq<u8> {
        self.bytes@
    }
}

impl Signature {
    /// Wraps the bytes of a signature.
    pub fn new(bytes: [u8; 64]) -> (signature: Signature)
        ensures
            signature@ == bytes@,
            signature@.len() == 64,
    {
        Signature { bytes }
    }

    /// The bytes of the signature.
    pub fn to_bytes(&self) -> (bytes: [u8; 64])
        ensures
            bytes@ == self@,
    {
        self.bytes
    }

    /// Whether two signatures hold the same bytes.
    pub fn same_as(&self, other: &Signature) -> (same: bool)
        ensures
            same == (self@ == other@),
    {
        let mut i: usize = 0;
        while i < 64
            invariant
                i <= 64,
                forall|j: int| 0 <= j < i ==> self.bytes@[j] == other.bytes@[j],
            decreases 64 - i,
        {
            if self.bytes[i] != other.bytes[i] {
                return false;
            }
            i += 1;
        }
        assert(self@ =~= other@);
        true
    }
}

/// How a request ended at the backend.
#[derive(Debug)]
pub enum RpcStatus {
    Success,
    Timeout,
    Error(String),
}

/// What the waiter of a request receives.
#[derive(Debug)]
pub struct RpcResponse {
    pub status: RpcStatus,
    pub signature: Signature,
    pub result: Option<Vec<u8>>,
}

/// A unit of work as the processor receives it.
#[derive(Debug)]
pub struct RpcRequest<T> {
    pub signature: Signature,
    pub tx: T,
    pub timeout_ms: u64,
}

/// Correlation entry of a request that was admitted and not yet resolved.
#[derive(Debug)]
pub struct PendingRequest<H> {
    pub signature: Signature,
    pub response_sender: H,
    pub deadline: u64,
}

/// Why a submission did not yield a response.
#[derive(Debug, Clone, Copy, PartialEq, Eq, Structural)]
pub enum RpcError {
    /// The queue already holds as many requests as it was made for.
    QueueFull,
    /// The deadline of the request passed before a response arrived.
    Timeout,
    /// The completion handle was lost, or the signature is already awaited.
    ChannelClosed,
}

impl RpcError {
    /// The text a user is shown for this error.
    pub open spec fn message_spec(self) -> Seq<char> {
        match self {
            RpcError::QueueFull => "RPC queue is full"@,
            RpcError::Timeout => "Request timed out"@,
            RpcError::ChannelClosed => "Response channel closed"@,
        }
    }

    /// Renders the error as text.
    pub fn message(&self) -> (text: String)
        ensures
            text@ == self.message_spec(),
    {
        match self {
            RpcError::QueueFull => "RPC queue is full".to_string(),
            RpcError::Timeout => "Request timed out".to_string(),
            RpcError::ChannelClosed => "Response channel closed".to_string(),
        }
    }
}

/// How the wait for a response ended.
#[derive(Debug)]
pub enum WaitOutcome {
    /// The response arrived.
    Responded(RpcResponse),
    /// The completion handle was dropped without a response.
    HandleDropped,
    /// The timeout of the request elapsed first.
    Elapsed,
}

/// The instant at which a request admitted at `now` stops waiting: `now` plus
/// the timeout, held at the largest instant where the sum passes it.
pub open spec fn deadline_after(now: u64, timeout_ms: u64) -> u64 {
    if now + timeout_ms * NANOS_PER_MILLI > u64::MAX {
        u64::MAX
    } else {
        (now + timeout_ms * NANOS_PER_MILLI) as u64
    }
}

/// No two entries share a signature.
pub open spec fn keys_distinct<H>(pending: Seq<PendingRequest<H>>) -> bool {
    forall|i: int, j: int|
        0 <= i < j < pending.len() ==> (#[trigger] pending[i]).signature@ != (
        #[trigger] pending[j]).signature@
}

/// The response that resolves `signature` with the given backend result.
pub open spec fn response_for(
    signature: Signature,
    backend_result: Result<Option<Vec<u8>>, String>,
) -> RpcResponse {
    match backend_result {
        Ok(output) => RpcResponse { status: RpcStatus::Success, signature, result: output },
        Err(reason) => RpcResponse { status: RpcStatus::Error(reason), signature, result: None },
    }
}

/// The queue as contracts see it.
pub struct QueueView<T, H> {
    /// How many requests the queue may hold at once.
    pub queue_size: nat,
    /// Admitted requests the processor has not taken yet, oldest first.
    pub queue: Seq<RpcRequest<T>>,
    /// Correlation entries of the requests that are admitted and unresolved.
    pub pending: Seq<PendingRequest<H>>,
    /// The depth counter.
    pub size: nat,
    /// Whether the processor was told to stop.
    pub is_shutdown: bool,
}

impl<T, H> QueueView<T, H> {
    /// The invariant of the queue: it is within its bound, the depth counter
    /// counts the correlation entries, and their signatures are unique.
    pub open spec fn wf(self) -> bool {
        &&& self.queue.len() <= self.queue_size
        &&& self.size == self.pending.len()
        &&& keys_distinct(self.pending)
    }

    /// A fresh queue.
    pub open spec fn empty(queue_size: nat) -> Self {
        QueueView {
            queue_size,
            queue: Seq::empty(),
            pending: Seq::empty(),
            size: 0,
            is_shutdown: false,
        }
    }

    /// Whether no further request can be admitted.
    pub open spec fn is_full(self) -> bool {
        self.queue.len() >= self.queue_size
    }

    /// Whether a request with this signature awaits its response.
    pub open spec fn awaits(self, key: Seq<u8>) -> bool {
        exists|i: int| 0 <= i < self.pending.len() && (#[trigger] self.pending[i]).signature@ == key
    }

    /// Where the entry of `key` stands, if `awaits(key)`.
    pub open spec fn position(self, key: Seq<u8>) -> int {
        choose|i: int| 0 <= i < self.pending.len() && (#[trigger] self.pending[i]).signature@ == key
    }

    /// The deadline registered for `key`, if `awaits(key)`.
    pub open spec fn deadline(self, key: Seq<u8>) -> u64 {
        self.pending[self.position(key)].deadline
    }

    /// In a queue with unique signatures the entry of `key` stands where any
    /// entry with that signature stands.
    pub proof fn lemma_position(self, key: Seq<u8>, i: int)
        requires
            keys_distinct(self.pending),
            0 <= i < self.pending.len(),
            self.pending[i].signature@ == key,
        ensures
            self.awaits(key),
            self.position(key) == i,
    {
        let p = self.position(key);
        assert(self.pending[p].signature@ == key);
        if p < i {
            assert(self.pending[p].signature@ != self.pending[i].signature@);
        } else if i < p {
            assert(self.pending[i].signature@ != self.pending[p].signature@);
        }
    }

    /// The queue after admitting `request` with its correlation `entry`.
    pub open spec fn accept(self, request: RpcRequest<T>, entry: PendingRequest<H>) -> Self {
        QueueView {
            queue: self.queue.push(request),
            pending: self.pending.push(entry),
            size: self.size + 1,
            ..self
        }
    }

    /// The queue after the entry of `key` left it.
    pub open spec fn forget(self, key: Seq<u8>) -> Self {
        QueueView {
            pending: self.pending.remove(self.position(key)),
            size: (self.size - 1) as nat,
            ..self
        }
    }

    /// The queue after the processor took the oldest request.
    pub open spec fn advance(self) -> Self {
        QueueView { queue: self.queue.drop_first(), ..self }
    }

    /// The queue after `expire` at `now`: the entry of `key` has left if its
    /// deadline had come.
    pub open spec fn expire(self, key: Seq<u8>, now: u64) -> Self {
        if self.awaits(key) && self.deadline(key) <= now {
            self.forget(key)
        } else {
            self
        }
    }

    /// The queue after the request of `key` was resolved, by a result of the
    /// backend or because its waiter stopped waiting: the entry has left, if
    /// there was one.
    pub open spec fn resolve(self, key: Seq<u8>) -> Self {
        if self.awaits(key) {
            self.forget(key)
        } else {
            self
        }
    }

    /// Removing the entry of an awaited signature keeps the invariant, and
    /// the signature is then no longer awaited.
    pub proof fn lemma_forget(self, key: Seq<u8>)
        requires
            self.wf(),
            self.awaits(key),
        ensures
            self.forget(key).wf(),
            !self.forget(key).awaits(key),
            self.forget(key).size + 1 == self.size,
    {
        let p = self.position(key);
        let after = self.forget(key);
        assert forall|i: int, j: int| 0 <= i < j < after.pending.len() implies (
        #[trigger] after.pending[i]).signature@ != (#[trigger] after.pending[j]).signature@ by {
            let oi = if i < p { i } else { i + 1 };
            let oj = if j < p { j } else { j + 1 };
            assert(after.pending[i] == self.pending[oi]);
            assert(after.pending[j] == self.pending[oj]);
        }
        if after.awaits(key) {
            let i = after.position(key);
            let oi = if i < p { i } else { i + 1 };
            assert(after.pending[i] == self.pending[oi]);
            self.lemma_position(key, oi);
        }
    }

    /// Admitting a request under a signature that is not awaited keeps the
    /// invariant, as long as the queue was not full.
    pub proof fn lemma_accept(self, request: RpcRequest<T>, entry: PendingRequest<H>)
        requires
            self.wf(),
            !self.is_full(),
            !self.awaits(entry.signature@),
        ensures
            self.accept(request, entry).wf(),
            self.accept(request, entry).awaits(entry.signature@),
            self.accept(request, entry).position(entry.signature@) == self.pending.len(),
    {
        let after = self.accept(request, entry);
        assert forall|i: int, j: int| 0 <= i < j < after.pending.len() implies (
        #[trigger] after.pending[i]).signature@ != (#[trigger] after.pending[j]).signature@ by {
            assert(after.pending[i] == self.pending[i]);
            if j < self.pending.len() {
                assert(after.pending[j] == self.pending[j]);
            }
        }
        assert(after.pending[self.pending.len() as int] == entry);
        after.lemma_position(entry.signature@, self.pending.len() as int);
    }
}

/// One call on the queue, as the model sees it.
pub enum QueueOp<T, H> {
    /// `submit` with these arguments.
    Submit { signature: Signature, tx: T, response_sender: H, timeout_ms: u64, now: u64 },
    /// `next_request`.
    NextRequest,
    /// `complete` for this signature.
    Complete { key: Seq<u8> },
    /// `finish_submit` for this signature after the waiter's timeout elapsed.
    GiveUp { key: Seq<u8> },
    /// `expire` for this signature at `now`.
    Expire { key: Seq<u8>, now: u64 },
    /// `shutdown`.
    Shutdown,
}

impl<T, H> QueueView<T, H> {
    /// The queue after `submit`.
    pub open spec fn submit(
        self,
        signature: Signature,
        tx: T,
        response_sender: H,
        timeout_ms: u64,
        now: u64,
    ) -> Self {
        if self.is_full() || self.awaits(signature@) {
            self
        } else {
            self.accept(
                RpcRequest { signature, tx, timeout_ms },
                PendingRequest {
                    signature,
                    response_sender,
                    deadline: deadline_after(now, timeout_ms),
                },
            )
        }
    }

    /// The queue after `next_request`.
    pub open spec fn next_request(self) -> Self {
        if self.is_shutdown || self.queue.len() == 0 {
            self
        } else {
            self.advance()
        }
    }

    /// The queue after one call.
    pub open spec fn apply(self, op: QueueOp<T, H>) -> Self {
        match op {
            QueueOp::Submit { signature, tx, response_sender, timeout_ms, now } => self.submit(
                signature,
                tx,
                response_sender,
                timeout_ms,
                now,
            ),
            QueueOp::NextRequest => self.next_request(),
            QueueOp::Complete { key } => self.resolve(key),
            QueueOp::GiveUp { key } => self.resolve(key),
            QueueOp::Expire { key, now } => self.expire(key, now),
            QueueOp::Shutdown => QueueView { is_shutdown: true, ..self },
        }
    }

    /// The queue after a run of calls, first to last.
    pub open spec fn apply_all(self, ops: Seq<QueueOp<T, H>>) -> Self
        decreases ops.len(),
    {
        if ops.len() == 0 {
            self
        } else {
            self.apply_all(ops.drop_last()).apply(ops.last())
        }
    }

    /// Whether the call has a request admitted.
    pub open spec fn admits(self, op: QueueOp<T, H>) -> bool {
        op matches QueueOp::Submit { signature, .. } && !self.is_full() && !self.awaits(signature@)
    }

    /// Whether the call ends the wait of an admitted request: by a backend
    /// result, by the waiter's timeout, or at its deadline.
    pub open spec fn resolves(self, op: QueueOp<T, H>) -> bool {
        match op {
            QueueOp::Complete { key } => self.awaits(key),
            QueueOp::GiveUp { key } => self.awaits(key),
            QueueOp::Expire { key, now } => self.awaits(key) && self.deadline(key) <= now,
            _ => false,
        }
    }

    /// How many calls of the run had a request admitted.
    pub open spec fn admitted_in(self, ops: Seq<QueueOp<T, H>>) -> nat
        decreases ops.len(),
    {
        if ops.len() == 0 {
            0
        } else {
            let before = self.apply_all(ops.drop_last());
            self.admitted_in(ops.drop_last()) + if before.admits(ops.last()) {
                1nat
            } else {
                0nat
            }
        }
    }

    /// How many calls of the run ended the wait of an admitted request.
    pub open spec fn resolved_in(self, ops: Seq<QueueOp<T, H>>) -> nat
        decreases ops.len(),
    {
        if ops.len() == 0 {
            0
        } else {
            let before = self.apply_all(ops.drop_last());
            self.resolved_in(ops.drop_last()) + if before.resolves(ops.last()) {
                1nat
            } else {
                0nat
            }
        }
    }

    /// One call keeps the invariant and moves the depth by what it admits or
    /// resolves.
    pub proof fn lemma_apply(self, op: QueueOp<T, H>)
        requires
            self.wf(),
        ensures
            self.apply(op).wf(),
            self.apply(op).size == self.size + (if self.admits(op) {
                1int
            } else {
                0int
            }) - (if self.resolves(op) {
                1int
            } else {
                0int
            }),
    {
        match op {
            QueueOp::Submit { signature, tx, response_sender, timeout_ms, now } => {
                if !self.is_full() && !self.awaits(signature@) {
                    self.lemma_accept(
                        RpcRequest { signature, tx, timeout_ms },
                        PendingRequest {
                            signature,
                            response_sender,
                            deadline: deadline_after(now, timeout_ms),
                        },
                    );
                }
            },
            QueueOp::NextRequest => {},
            QueueOp::Complete { key } => {
                if self.awaits(key) {
                    self.lemma_forget(key);
                }
            },
            QueueOp::GiveUp { key } => {
                if self.awaits(key) {
                    self.lemma_forget(key);
                }
            },
            QueueOp::Expire { key, now } => {
                if self.awaits(key) && self.deadline(key) <= now {
                    self.lemma_forget(key);
                }
            },
            QueueOp::Shutdown => {},
        }
    }

    /// The depth never drifts: after any run of calls on a queue that keeps
    /// its invariant, the invariant still holds, and the depth is what it was
    /// plus the requests admitted in the run minus those that a result, a
    /// timeout or a deadline resolved in it. On a fresh queue the depth therefore equals the number of
    /// requests submitted and not yet completed.
    pub proof fn lemma_depth_never_drifts(self, ops: Seq<QueueOp<T, H>>)
        requires
            self.wf(),
        ensures
            self.apply_all(ops).wf(),
            self.apply_all(ops).size == self.size + self.admitted_in(ops) - self.resolved_in(ops),
            self.apply_all(ops).size == self.apply_all(ops).pending.len(),
        decreases ops.len(),
    {
        if ops.len() > 0 {
            self.lemma_depth_never_drifts(ops.drop_last());
            self.apply_all(ops.drop_last()).lemma_apply(ops.last());
        }
    }

    /// A request is resolved once: after a result of the backend, the
    /// waiter's timeout or the deadline took the entry of `key`, a later one
    /// of them changes nothing.
    pub proof fn lemma_resolved_once(self, key: Seq<u8>, now: u64, later: u64)
        requires
            self.wf(),
        ensures
            self.resolve(key).resolve(key) == self.resolve(key),
            self.resolve(key).expire(key, later) == self.resolve(key),
            self.awaits(key) && self.deadline(key) <= now ==> {
                &&& self.expire(key, now).resolve(key) == self.expire(key, now)
                &&& self.expire(key, now).expire(key, later) == self.expire(key, now)
            },
    {
        if self.awaits(key) {
            self.lemma_forget(key);
        }
    }

    /// No wait outlasts its deadline: a request admitted at `now` with a
    /// timeout is awaited until its deadline, `now` plus the timeout, and an
    /// expiry at any instant from the deadline on ends the wait.
    pub proof fn lemma_wait_ends_at_deadline(
        self,
        signature: Signature,
        tx: T,
        response_sender: H,
        timeout_ms: u64,
        now: u64,
        at: u64,
    )
        requires
            self.wf(),
            !self.is_full(),
            !self.awaits(signature@),
        ensures
            ({
                let waiting = self.submit(signature, tx, response_sender, timeout_ms, now);
                &&& waiting.awaits(signature@)
                &&& waiting.deadline(signature@) == deadline_after(now, timeout_ms)
                &&& at < deadline_after(now, timeout_ms) ==> waiting.expire(signature@, at)
                    == waiting
                &&& at >= deadline_after(now, timeout_ms) ==> !waiting.expire(
                    signature@,
                    at,
                ).awaits(signature@) && waiting.expire(signature@, at).size == self.size
            }),
    {
        let entry = PendingRequest {
            signature,
            response_sender,
            deadline: deadline_after(now, timeout_ms),
        };
        self.lemma_accept(RpcRequest { signature, tx, timeout_ms }, entry);
        let waiting = self.submit(signature, tx, response_sender, timeout_ms, now);
        waiting.lemma_forget(signature@);
    }
}

/// Bounded queue of requests with the correlation entries of their waiters.
///
/// `T` is the unit of work handed to the backend, `H` the completion handle
/// through which the waiter of a request is resolved.
pub struct AsyncRpcQueue<T, H> {
    queue_size: usize,
    queue: VecDeque<RpcRequest<T>>,
    pending_requests: Vec<PendingRequest<H>>,
    size: usize,
    is_shutdown: bool,
}

impl<T, H> View for AsyncRpcQueue<T, H> {
    type V = QueueView<T, H>;

    closed spec fn view(&self) -> QueueView<T, H> {
        QueueView {
            queue_size: self.queue_size as nat,
            queue: self.queue@,
            pending: self.pending_requests@,
            size: self.size as nat,
            is_shutdown: self.is_shutdown,
        }
    }
}

impl<T, H> AsyncRpcQueue<T, H> {
    /// The invariant every queue made by `new` keeps.
    pub open spec fn wf(&self) -> bool {
        self@.wf()
    }

    /// An empty queue that admits up to `queue_size` requests at a time.
    pub fn new(queue_size: usize) -> (queue: Self)
        ensures
            queue.wf(),
            queue@ == QueueView::<T, H>::empty(queue_size as nat),
    {
        AsyncRpcQueue {
            queue_size,
            queue: VecDeque::new(),
            pending_requests: Vec::new(),
            size: 0,
            is_shutdown: false,
        }
    }

    /// Where the entry of `signature` stands among the pending requests.
    fn find(&self, signature: &Signature) -> (found: Option<usize>)
        requires
            self.wf(),
        ensures
            match found {
                Some(i) => self@.awaits(signature@) && i == self@.position(signature@),
                None => !self@.awaits(signature@),
            },
    {
        let mut i: usize = 0;
        while i < self.pending_requests.len()
            invariant
                self.wf(),
                i <= self.pending_requests.len(),
                forall|j: int| 0 <= j < i ==> self.pending_requests@[j].signature@ != signature@,
            decreases self.pending_requests.len() - i,
        {
            if self.pending_requests[i].signature.same_as(signature) {
                proof {
                    self@.lemma_position(signature@, i as int);
                }
                return Some(i);
            }
            i += 1;
        }
        None
    }

    /// Admits a request, or refuses it.
    ///
    /// The request is refused with `QueueFull` when the queue holds
    /// `queue_size` requests, and otherwise with `ChannelClosed` when a
    /// request with the same signature still awaits its response. An admitted
    /// request joins the end of the queue, its correlation entry is
    /// registered with the deadline `now + timeout_ms`, and the depth rises
    /// by one.
    pub fn submit(
        &mut self,
        signature: Signature,
        tx: T,
        response_sender: H,
        timeout_ms: u64,
        now: u64,
    ) -> (admitted: Result<(), RpcError>)
        requires
            old(self).wf(),
        ensures
            final(self).wf(),
            old(self)@.is_full() ==> admitted == Err::<(), RpcError>(RpcError::QueueFull),
            !old(self)@.is_full() && old(self)@.awaits(signature@) ==> admitted == Err::<
                (),
                RpcError,
            >(RpcError::ChannelClosed),
            !old(self)@.is_full() && !old(self)@.awaits(signature@) ==> admitted is Ok,
            final(self)@ == old(self)@.submit(signature, tx, response_sender, timeout_ms, now),
            admitted is Ok ==> final(self)@.awaits(signature@) && final(self)@.deadline(signature@)
                == deadline_after(now, timeout_ms),
    {
        if self.queue.len() >= self.queue_size {
            return Err(RpcError::QueueFull);
        }
        if self.find(&signature).is_some() {
            return Err(RpcError::ChannelClosed);
        }
        let deadline: u64 = deadline_at(now, timeout_ms);
        proof {
            self@.lemma_accept(
                RpcRequest { signature, tx, timeout_ms },
                PendingRequest { signature, response_sender, deadline },
            );
        }
        self.queue.push_back(RpcRequest { signature, tx, timeout_ms });
        self.pending_requests.push(PendingRequest { signature, response_sender, deadline });
        self.size = self.pending_requests.len();
        Ok(())
    }

    /// Hands the processor the oldest request of the queue.
    ///
    /// Nothing is handed out once `shutdown` was called: the requests that
    /// are still queued then stay where they are.
    pub fn next_request(&mut self) -> (next: Option<RpcRequest<T>>)
        requires
            old(self).wf(),
        ensures
            final(self).wf(),
            match next {
                Some(request) => {
                    &&& !old(self)@.is_shutdown
                    &&& old(self)@.queue.len() > 0
                    &&& request == old(self)@.queue[0]
                },
                None => old(self)@.is_shutdown || old(self)@.queue.len() == 0,
            },
            final(self)@ == old(self)@.next_request(),
    {
        if self.is_shutdown {
            return None;
        }
        self.queue.pop_front()
    }

    /// Resolves the request of `signature` with the result of the backend.
    ///
    /// Where the request still awaits its response, its entry leaves the
    /// queue, the depth falls by one, and the completion handle comes back
    /// together with the response to send through it. Where the waiter has
    /// left already, nothing changes and the result is to be discarded.
    pub fn complete(
        &mut self,
        signature: &Signature,
        backend_result: Result<Option<Vec<u8>>, String>,
    ) -> (resolved: Option<(H, RpcResponse)>)
        requires
            old(self).wf(),
        ensures
            final(self).wf(),
            final(self)@ == old(self)@.resolve(signature@),
            match resolved {
                Some((handle, response)) => {
                    &&& old(self)@.awaits(signature@)
                    &&& handle == old(self)@.pending[old(self)@.position(
                        signature@,
                    )].response_sender
                    &&& response == response_for(*signature, backend_result)
                },
                None => !old(self)@.awaits(signature@),
            },
    {
        match self.find(signature) {
            Some(i) => {
                proof {
                    self@.lemma_forget(signature@);
                }
                let entry = self.pending_requests.remove(i);
                self.size = self.pending_requests.len();
                let response = match backend_result {
                    Ok(output) => RpcResponse {
                        status: RpcStatus::Success,
                        signature: *signature,
                        result: output,
                    },
                    Err(reason) => RpcResponse {
                        status: RpcStatus::Error(reason),
                        signature: *signature,
                        result: None,
                    },
                };
                Some((entry.response_sender, response))
            },
            None => None,
        }
    }

    /// Removes the entry of `signature` if its deadline has come.
    ///
    /// The completion handle of the removed entry comes back; the depth falls
    /// by one. An entry whose deadline lies after `now`, and a signature that
    /// is not awaited, leave the queue as it is.
    pub fn expire(&mut self, signature: &Signature, now: u64) -> (expired: Option<H>)
        requires
            old(self).wf(),
        ensures
            final(self).wf(),
            final(self)@ == old(self)@.expire(signature@, now),
            match expired {
                Some(handle) => {
                    &&& old(self)@.awaits(signature@)
                    &&& old(self)@.deadline(signature@) <= now
                    &&& handle == old(self)@.pending[old(self)@.position(
                        signature@,
                    )].response_sender
                },
                None => !(old(self)@.awaits(signature@) && old(self)@.deadline(signature@) <= now),
            },
    {
        match self.find(signature) {
            Some(i) => {
                if self.pending_requests[i].deadline <= now {
                    proof {
                        self@.lemma_forget(signature@);
                    }
                    let entry = self.pending_requests.remove(i);
                    self.size = self.pending_requests.len();
                    Some(entry.response_sender)
                } else {
                    None
                }
            },
            None => None,
        }
    }

    /// Turns the end of a wait into what the submitter is told.
    ///
    /// A response is passed on. A dropped handle gives `ChannelClosed`. An
    /// elapsed timeout gives `Timeout`; the entry of the request, if it is
    /// still there, leaves the queue, and the depth falls by one.
    pub fn finish_submit(&mut self, signature: &Signature, outcome: WaitOutcome) -> (told: Result<
        RpcResponse,
        RpcError,
    >)
        requires
            old(self).wf(),
        ensures
            final(self).wf(),
            match outcome {
                WaitOutcome::Responded(response) => {
                    &&& told == Ok::<RpcResponse, RpcError>(response)
                    &&& final(self)@ == old(self)@
                },
                WaitOutcome::HandleDropped => {
                    &&& told == Err::<RpcResponse, RpcError>(RpcError::ChannelClosed)
                    &&& final(self)@ == old(self)@
                },
                WaitOutcome::Elapsed => {
                    &&& told == Err::<RpcResponse, RpcError>(RpcError::Timeout)
                    &&& final(self)@ == old(self)@.resolve(signature@)
                },
            },
    {
        match outcome {
            WaitOutcome::Responded(response) => Ok(response),
            WaitOutcome::HandleDropped => Err(RpcError::ChannelClosed),
            WaitOutcome::Elapsed => {
                match self.find(signature) {
                    Some(i) => {
                        proof {
                            self@.lemma_forget(signature@);
                        }
                        let _ = self.pending_requests.remove(i);
                        self.size = self.pending_requests.len();
                    },
                    None => {},
                }
                Err(RpcError::Timeout)
            },
        }
    }

    /// Tells the processor to stop taking requests.
    pub fn shutdown(&mut self)
        ensures
            final(self)@ == (QueueView { is_shutdown: true, ..old(self)@ }),
    {
        self.is_shutdown = true;
    }

    /// Whether `shutdown` was called.
    pub fn is_shutdown(&self) -> (stopped: bool)
        ensures
            stopped == self@.is_shutdown,
    {
        self.is_shutdown
    }

    /// The depth: how many requests are admitted and not yet resolved.
    pub fn size(&self) -> (depth: usize)
        ensures
            depth == self@.size,
    {
        self.size
    }

    /// How many requests the processor has not taken yet.
    pub fn queued(&self) -> (waiting: usize)
        ensures
            waiting == self@.queue.len(),
    {
        self.queue.len()
    }
}

/// Computes `deadline_after`.
pub fn deadline_at(now: u64, timeout_ms: u64) -> (deadline: u64)
    ensures
        deadline == deadline_after(now, timeout_ms),
{
    let wait: u128 = timeout_ms as u128 * 1_000_000;
    let end: u128 = now as u128 + wait;
    if end > u64::MAX as u128 {
        u64::MAX
    } else {
        end as u64
    }
}

} // verus!
