use vstd::prelude::*;
use crate::codec::{Body, Header};
use crate::error::Error;
use crate::json::{encode_call_frame, pair_json_v};
use crate::codec::frame_bytes;

verus! {

/// What the receive pump delivers to a blocked caller: the response
/// body's JSON text, or the error that terminated the call.
pub type CompletionMessage = Result<String, Error>;

#[verifier::external_type_specification]
#[verifier::external_body]
#[verifier::reject_recursive_types(T)]
pub struct ExSender<T>(std::sync::mpsc::Sender<T>);

#[verifier::external_type_specification]
#[verifier::external_body]
#[verifier::reject_recursive_types(T)]
pub struct ExReceiver<T>(std::sync::mpsc::Receiver<T>);

/// Relies on std::sync::mpsc::channel: returns a connected asynchronous
/// channel pair; the library sends at most one completion through it.
#[verifier::external_body]
pub(crate) fn completion_channel() -> (
    std::sync::mpsc::Sender<CompletionMessage>,
    std::sync::mpsc::Receiver<CompletionMessage>,
) {
    std::sync::mpsc::channel()
}

/// Relies on Sender::send: queues the message for the receiver, and
/// reports false exactly when the receiver is already gone.
#[verifier::external_body]
pub(crate) fn send_completion(
    tx: &std::sync::mpsc::Sender<CompletionMessage>,
    m: CompletionMessage,
) -> bool {
    tx.send(m).is_ok()
}

/// Relies on Receiver::recv: blocks until a message arrives, and returns
/// nothing once every sender is gone.
#[verifier::external_body]
pub(crate) fn recv_completion(
    rx: &std::sync::mpsc::Receiver<CompletionMessage>,
) -> Option<CompletionMessage> {
    rx.recv().ok()
}

/// Blocks on a call's completion channel and returns what the receive
/// pump or the termination broadcast delivered.  A channel whose senders
/// vanished without a message is reported as an unclassified failure.
pub fn wait_completion(rx: &std::sync::mpsc::Receiver<CompletionMessage>) -> (r: Result<
    String,
    Error,
>) {
    match recv_completion(rx) {
        Some(m) => m,
        None => Err(Error::OtherError("completion channel closed without a reply".to_owned())),
    }
}

/// One outstanding request awaiting its reply.  Constructed with `seq`
/// zero; `register_call` assigns the real sequence number.  `sender` is
/// the single-shot completion channel that wakes the blocked caller.
pub struct Call {
    pub seq: usize,
    pub service: String,
    pub method: String,
    pub body: String,
    pub error: Option<Error>,
    pub sender: Option<std::sync::mpsc::Sender<CompletionMessage>>,
}

impl Call {
    pub fn new(service: String, method: String, body: String) -> (r: Self)
        ensures
            r.seq == 0,
            r.service == service,
            r.method == method,
            r.body == body,
            r.error is None,
            r.sender is None,
    {
        Call { seq: 0, service, method, body, error: None, sender: None }
    }
}

/// True when some pending call carries this sequence number.
pub open spec fn has_seq(s: Seq<Call>, q: usize) -> bool {
    exists|i: int| 0 <= i < s.len() && s[i].seq == q
}

/// The index of the pending call carrying this sequence number; well
/// defined whenever `has_seq` holds and the numbers are distinct.
pub open spec fn index_of_seq(s: Seq<Call>, q: usize) -> int {
    choose|i: int| 0 <= i < s.len() && s[i].seq == q
}

/// Every pending sequence number is positive and below the counter.
pub open spec fn seqs_bounded(s: Seq<Call>, bound: usize) -> bool {
    forall|i: int| 0 <= i < s.len() ==> 1 <= (#[trigger] s[i].seq) < bound
}

/// No two pending calls share a sequence number.
pub open spec fn seqs_distinct(s: Seq<Call>) -> bool {
    forall|i: int, j: int| #![trigger s[i].seq, s[j].seq]
        0 <= i < j < s.len() ==> s[i].seq != s[j].seq
}

/// The client-side call multiplexer's state: the sequence counter, the
/// pending registry, and the two lifecycle flags.  The connection's
/// runtime shares one value of this behind a lock and drives it from the
/// caller side (`call_async`) and the receive pump (`handle_reply`,
/// `terminate_calls`).
pub struct Client {
    seq: usize,
    pending: Vec<Call>,
    closing: bool,
    shutdown: bool,
}

/// What the receive pump does after one reply: keep pumping, or stop
/// with the error that terminates every remaining call.
pub enum PumpStep {
    Continue,
    Stop(Error),
}

impl Client {
    /// The next sequence number to assign; starts at one and only grows.
    pub closed spec fn next_seq(&self) -> usize {
        self.seq
    }

    /// The registered calls still awaiting a reply, oldest first.
    pub closed spec fn pending_calls(&self) -> Seq<Call> {
        self.pending@
    }

    pub closed spec fn is_closing(&self) -> bool {
        self.closing
    }

    pub closed spec fn is_shutdown(&self) -> bool {
        self.shutdown
    }

    /// A call can be registered exactly while the client is neither
    /// closing nor shut down.
    pub open spec fn available(&self) -> bool {
        !self.is_closing() && !self.is_shutdown()
    }

    /// The registry's invariant: every pending sequence number is
    /// positive, below the counter, and no two entries share one — a
    /// sequence number is never reused within one client.
    pub open spec fn wf(&self) -> bool {
        &&& 1 <= self.next_seq()
        &&& seqs_bounded(self.pending_calls(), self.next_seq())
        &&& seqs_distinct(self.pending_calls())
    }

    pub fn new() -> (r: Self)
        ensures
            r.wf(),
            r.next_seq() == 1,
            r.pending_calls() =~= Seq::<Call>::empty(),
            !r.is_closing(),
            !r.is_shutdown(),
            r.available(),
    {
        Client { seq: 1, pending: Vec::new(), closing: false, shutdown: false }
    }

    /// The sequence number the next successful registration will take.
    pub fn current_seq(&self) -> (r: usize)
        ensures
            r == self.next_seq(),
    {
        self.seq
    }

    /// True while calls may still be registered.
    pub fn is_available(&self) -> (r: bool)
        ensures
            r == self.available(),
    {
        !self.closing && !self.shutdown
    }

    /// Registers a call: while the client is available, assigns it the
    /// current sequence number, appends it to the pending registry and
    /// advances the counter; otherwise refuses with
    /// `ClientNotAvailableError` and changes nothing.
    pub fn register_call(&mut self, call: Call) -> (r: Result<usize, Error>)
        requires
            old(self).wf(),
            old(self).available() ==> old(self).next_seq() < usize::MAX,
        ensures
            final(self).wf(),
            final(self).is_closing() == old(self).is_closing(),
            final(self).is_shutdown() == old(self).is_shutdown(),
            old(self).available() ==> (r matches Ok(q) && q == old(self).next_seq()
                && final(self).next_seq() == old(self).next_seq() + 1
                && final(self).pending_calls() =~= old(self).pending_calls().push(
                Call { seq: old(self).next_seq(), ..call },
            )),
            !old(self).available() ==> (r matches Err(e) && e == Error::ClientNotAvailableError)
                && final(self).pending_calls() =~= old(self).pending_calls()
                && final(self).next_seq() == old(self).next_seq(),
    {
        if !self.closing && !self.shutdown {
            let q = self.seq;
            let mut call = call;
            call.seq = q;
            self.pending.push(call);
            self.seq = q + 1;
            Ok(q)
        } else {
            Err(Error::ClientNotAvailableError)
        }
    }

    /// Removes and returns the pending call carrying `seq`, if any; the
    /// rest of the registry and the counter are untouched.
    #[verifier::loop_isolation(false)]
    pub fn remove_call(&mut self, seq: usize) -> (r: Option<Call>)
        requires
            old(self).wf(),
        ensures
            final(self).wf(),
            final(self).next_seq() == old(self).next_seq(),
            final(self).is_closing() == old(self).is_closing(),
            final(self).is_shutdown() == old(self).is_shutdown(),
            has_seq(old(self).pending_calls(), seq) ==> (r matches Some(c) && c == old(
                self,
            ).pending_calls()[index_of_seq(old(self).pending_calls(), seq)] && c.seq == seq
                && final(self).pending_calls() =~= old(self).pending_calls().remove(
                index_of_seq(old(self).pending_calls(), seq),
            )),
            !has_seq(old(self).pending_calls(), seq) ==> r is None
                && final(self).pending_calls() =~= old(self).pending_calls(),
    {
        let mut i: usize = 0;
        while i < self.pending.len()
            invariant
                *self == *old(self),
                i <= self.pending@.len(),
                forall|j: int| 0 <= j < i ==> self.pending@[j].seq != seq,
            decreases self.pending@.len() - i,
        {
            if self.pending[i].seq == seq {
                let c = self.pending.remove(i);
                proof {
                    let s = old(self).pending_calls();
                    assert(s[i as int].seq == seq);
                    assert(has_seq(s, seq));
                    let idx = index_of_seq(s, seq);
                    assert(0 <= idx < s.len() && s[idx].seq == seq);
                    if idx < i as int {
                        assert(s[idx].seq != s[i as int].seq);
                        assert(false);
                    } else if idx > i as int {
                        assert(s[i as int].seq != s[idx].seq);
                        assert(false);
                    }
                    let t = s.remove(i as int);
                    assert forall|a: int| 0 <= a < t.len() implies 1 <= (#[trigger] t[a].seq)
                        < old(self).next_seq() by {
                        if a < i as int {
                            assert(t[a] == s[a]);
                            assert(1 <= s[a].seq < old(self).next_seq());
                        } else {
                            assert(t[a] == s[a + 1]);
                            assert(1 <= s[a + 1].seq < old(self).next_seq());
                        }
                    }
                    assert forall|a: int, b: int| #![trigger t[a].seq, t[b].seq]
                        0 <= a < b < t.len() implies t[a].seq != t[b].seq by {
                        let a2: int = if a < i as int { a } else { a + 1 };
                        let b2: int = if b < i as int { b } else { b + 1 };
                        assert(t[a] == s[a2]);
                        assert(t[b] == s[b2]);
                        assert(0 <= a2 < b2 < s.len());
                        assert(s[a2].seq != s[b2].seq);
                    }
                }
                return Some(c);
            }
            i = i + 1;
        }
        None
    }

    /// Broadcast termination: sets the shutdown flag, so no further
    /// registration succeeds, and completes every pending call with the
    /// given error, waking each blocked caller exactly once; the registry
    /// is left empty.
    pub fn terminate_calls(&mut self, e: Error)
        requires
            old(self).wf(),
        ensures
            final(self).wf(),
            final(self).is_shutdown(),
            !final(self).available(),
            final(self).is_closing() == old(self).is_closing(),
            final(self).next_seq() == old(self).next_seq(),
            final(self).pending_calls() =~= Seq::<Call>::empty(),
    {
        self.shutdown = true;
        while self.pending.len() > 0
            invariant
                self.wf(),
                self.is_shutdown(),
                self.is_closing() == old(self).is_closing(),
                self.next_seq() == old(self).next_seq(),
            decreases self.pending@.len(),
        {
            match self.pending.pop() {
                Some(call) => {
                    let mut call = call;
                    call.error = Some(e.clone());
                    match &call.sender {
                        Some(tx) => {
                            let _delivered = send_completion(tx, Err(e.clone()));
                        },
                        None => {},
                    }
                },
                None => {},
            }
        }
    }

    /// Builds a call for `(service, method)` with the given argument
    /// JSON text, registers it, and returns the assigned sequence number,
    /// the complete wire frame to write, and the completion channel the
    /// caller blocks on.  While the client is unavailable it refuses with
    /// `ClientNotAvailableError` and changes nothing.
    pub fn call_async(&mut self, service: &str, method: &str, args_json: &str) -> (r: Result<
        (usize, Vec<u8>, std::sync::mpsc::Receiver<CompletionMessage>),
        Error,
    >)
        requires
            old(self).wf(),
            old(self).available() ==> old(self).next_seq() < usize::MAX,
        ensures
            final(self).wf(),
            final(self).is_closing() == old(self).is_closing(),
            final(self).is_shutdown() == old(self).is_shutdown(),
            old(self).available() ==> (r matches Ok(t) && t.0 == old(self).next_seq() && t.1@
                == frame_bytes(
                pair_json_v(service@, method@, old(self).next_seq() as nat, None, args_json@),
            ) && final(self).next_seq() == old(self).next_seq() + 1
                && final(self).pending_calls().len() == old(self).pending_calls().len() + 1
                && final(self).pending_calls() =~= old(self).pending_calls().push(
                final(self).pending_calls().last(),
            ) && final(self).pending_calls().last().seq == old(self).next_seq()
                && final(self).pending_calls().last().service@ == service@
                && final(self).pending_calls().last().method@ == method@
                && final(self).pending_calls().last().body@ == args_json@
                && final(self).pending_calls().last().error is None
                && final(self).pending_calls().last().sender is Some),
            !old(self).available() ==> (r matches Err(e) && e == Error::ClientNotAvailableError)
                && final(self).pending_calls() =~= old(self).pending_calls()
                && final(self).next_seq() == old(self).next_seq(),
    {
        let body = Body::new(args_json.to_owned());
        let mut call = Call::new(service.to_owned(), method.to_owned(), args_json.to_owned());
        let (tx, rx) = completion_channel();
        call.sender = Some(tx);
        match self.register_call(call) {
            Ok(q) => {
                let header = Header::new(service.to_owned(), method.to_owned(), q, None);
                let frame = encode_call_frame(&header, &body);
                Ok((q, frame, rx))
            },
            Err(e) => Err(e),
        }
    }

    /// The receive pump's decision for one decoded reply.  The matching
    /// pending call is removed; a clean reply wakes its caller with the
    /// body's contents and the pump continues.  A reply whose header
    /// carries an error wakes that caller with the header's error and
    /// stops the pump with it; one that matches no pending call stops the
    /// pump with an unclassified error.  After a stop, `terminate_calls`
    /// broadcasts the error to every other pending caller.
    pub fn handle_reply(&mut self, header: Header, body: Body) -> (r: PumpStep)
        requires
            old(self).wf(),
        ensures
            final(self).wf(),
            final(self).next_seq() == old(self).next_seq(),
            final(self).is_closing() == old(self).is_closing(),
            final(self).is_shutdown() == old(self).is_shutdown(),
            has_seq(old(self).pending_calls(), header.seq) ==> final(self).pending_calls()
                =~= old(self).pending_calls().remove(
                index_of_seq(old(self).pending_calls(), header.seq),
            ),
            !has_seq(old(self).pending_calls(), header.seq) ==> final(self).pending_calls()
                =~= old(self).pending_calls() && (r matches PumpStep::Stop(e)
                && e matches Error::OtherError(_)),
            has_seq(old(self).pending_calls(), header.seq) && header.error is None ==> r
                is Continue,
            has_seq(old(self).pending_calls(), header.seq) ==> (header.error matches Some(e)
                ==> r == PumpStep::Stop(e)),
    {
        match self.remove_call(header.seq) {
            Some(call) => {
                match header.error {
                    Some(e) => {
                        match &call.sender {
                            Some(tx) => {
                                let _delivered = send_completion(tx, Err(e.clone()));
                            },
                            None => {},
                        }
                        PumpStep::Stop(e)
                    },
                    None => {
                        match &call.sender {
                            Some(tx) => {
                                let _delivered = send_completion(tx, Ok(body.contents));
                            },
                            None => {},
                        }
                        PumpStep::Continue
                    },
                }
            },
            None => PumpStep::Stop(
                Error::OtherError("received a reply that matches no pending call".to_owned()),
            ),
        }
    }
}

// ----------------------------------------------------------------------
// Laws of the registry.
// ----------------------------------------------------------------------

/// A fresh registration can never collide: in a well-formed client the
/// next sequence number differs from every pending call's, so sequence
/// numbers are never duplicated or reused.
pub proof fn lemma_next_seq_fresh(c: Client)
    requires
        c.wf(),
    ensures
        forall|i: int| 0 <= i < c.pending_calls().len()
            ==> (#[trigger] c.pending_calls()[i].seq) != c.next_seq(),
{
}

/// Registering a call under a fresh sequence number and then removing
/// that number yields the registered call and the original registry.
pub proof fn lemma_register_then_remove(s: Seq<Call>, c: Call)
    requires
        !has_seq(s, c.seq),
    ensures
        has_seq(s.push(c), c.seq),
        index_of_seq(s.push(c), c.seq) == s.len(),
        s.push(c)[index_of_seq(s.push(c), c.seq)] == c,
        s.push(c).remove(index_of_seq(s.push(c), c.seq)) =~= s,
{
    let t = s.push(c);
    assert(t[s.len() as int] == c);
    assert(has_seq(t, c.seq));
    let idx = index_of_seq(t, c.seq);
    assert(0 <= idx < t.len() && t[idx].seq == c.seq);
    if idx < s.len() {
        assert(t[idx] == s[idx]);
        assert(has_seq(s, c.seq));
    }
}

/// A sequence number is removed at most once: after the matching call
/// leaves a registry with distinct sequence numbers, no pending call
/// carries that number any more, so a second removal finds nothing.
pub proof fn lemma_remove_is_final(s: Seq<Call>, q: usize)
    requires
        has_seq(s, q),
        seqs_distinct(s),
    ensures
        !has_seq(s.remove(index_of_seq(s, q)), q),
{
    let idx = index_of_seq(s, q);
    assert(0 <= idx < s.len() && s[idx].seq == q);
    let t = s.remove(idx);
    assert forall|i: int| 0 <= i < t.len() implies t[i].seq != q by {
        if i < idx {
            assert(t[i] == s[i]);
        } else {
            assert(t[i] == s[i + 1]);
        }
    }
}

/// Once the client is shut down it never becomes available again, so no
/// registration after a broadcast termination can succeed.
pub proof fn lemma_shutdown_refuses_registration(c: Client)
    requires
        c.is_shutdown(),
    ensures
        !c.available(),
{
}

} // verus!
