//! The bridge: a clonable foreground handle, the worker loop, and the
//! lifecycle around them.
//!
//! The queue holds every envelope ever accepted, in issue order; the worker
//! has consumed a prefix of it.  The delivery log, the installed client and
//! the worker's liveness are verified, at every step, against the model in
//! [`crate::model`]: the log is exactly what consuming the prefix delivers,
//! and the worker's state is exactly what consuming the prefix leaves.
//!
//! In the running system each handle clone holds a sender of the shared
//! queue and the worker owns the receiving end on its own thread; here the
//! queue is reached through the [`Bridge`] value itself, which the runtime
//! shares across that boundary.  A reply slot is a [`Pending`] value: it is
//! not clonable, so a delivered result can be taken at most once.

use vstd::prelude::*;
use vstd::string::StrSliceExecFns;
use vstd::string::StringSliceAdditionalSpecFns;

use crate::api::{ApiClient, Page, PageKind, SpecPage};
use crate::errors::{LoginError, RequestError};
use crate::header::valid_cookie;
use crate::model::{
    abandoned_log, delivery_of, distinct_ids, fold_client, lemma_abandoned_snoc,
    lemma_delivery_content, lemma_fifo_order, lemma_lookup_prefix, lemma_lookup_some_iff,
    lemma_model_append, lemma_model_snoc, lemma_no_stop_running, lemma_reply_ids_from_index,
    log_ids, log_lookup, model_log, model_state, no_stop, reply_ids, step_client, SpecState,
};
use crate::msg::{
    reply_id, serve_request, Delivery, Message, Outcome, Request, SpecDelivery, SpecMessage,
    SpecOutcome, SpecRequest,
};

verus! {

/// The worker's own state: serving with the installed client, or stopped
/// for good.
pub enum WorkerState {
    Running(ApiClient),
    Stopped,
}

/// The mathematical value of a [`WorkerState`].
pub open spec fn worker_state_view(s: WorkerState) -> SpecState {
    match s {
        WorkerState::Running(c) => SpecState::Running(c.creds()),
        WorkerState::Stopped => SpecState::Stopped,
    }
}

/// The credentials the placeholder client starts with.
pub open spec fn initial_creds() -> Option<Seq<u8>> {
    Option::None
}

/// Reply identifiers equal queue positions: the slot of the message at
/// index `i` is numbered `i`.
pub open spec fn ids_are_indices(q: Seq<SpecMessage>) -> bool {
    forall|i: int|
        0 <= i < q.len() ==> (match reply_id(#[trigger] q[i]) {
            Option::Some(id) => id == i as u64,
            Option::None => true,
        })
}

/// A single-use claim on one reply slot.  It cannot be cloned, so the
/// slot's result is taken at most once.
#[derive(Debug)]
pub struct Pending {
    id: u64,
}

impl Pending {
    /// The identifier of the claimed slot.
    pub closed spec fn id_spec(self) -> u64 {
        self.id
    }
}

/// The foreground-facing handle.  Every clone is interchangeable: an
/// operation builds an envelope, enqueues it, and its caller later takes
/// the reply.  The handle holds no state of its own.
#[derive(Clone, Copy, Debug)]
pub struct Client {}

/// The whole bridge: the request queue, how much of it the worker has
/// consumed, the worker's state, and the deliveries made so far.
pub struct Bridge {
    queue: Vec<Message>,
    served: usize,
    state: WorkerState,
    replies: Vec<Delivery>,
    open: bool,
}

impl Bridge {
    /// Every envelope ever accepted, in issue order.
    pub closed spec fn queue_view(self) -> Seq<SpecMessage> {
        Seq::new(self.queue@.len(), |i: int| self.queue@[i]@)
    }

    /// Every delivery made so far, in delivery order.
    pub closed spec fn log_view(self) -> Seq<SpecDelivery> {
        Seq::new(self.replies@.len(), |i: int| self.replies@[i]@)
    }

    /// How many envelopes the worker has consumed.
    pub closed spec fn consumed(self) -> int {
        self.served as int
    }

    /// Whether foreground handles still exist: while they do, the queue
    /// accepts envelopes from them.
    pub closed spec fn is_open(self) -> bool {
        self.open
    }

    /// Whether the worker still serves: enqueuing succeeds exactly while
    /// it does.
    pub closed spec fn accepting(self) -> bool {
        self.state is Running
    }

    /// The consumed prefix of the queue.
    pub open spec fn prefix(self) -> Seq<SpecMessage> {
        self.queue_view().take(self.consumed())
    }

    /// The bridge's invariant: the log is exactly what consuming the
    /// prefix delivers, the worker's state is exactly what consuming it
    /// leaves (or stopped because every handle is gone and the queue is
    /// drained), a consumed stop message has taken the whole queue with
    /// it, and reply identifiers are queue positions.
    pub closed spec fn wf(self) -> bool {
        &&& 0 <= self.consumed() <= self.queue_view().len()
        &&& self.log_view() == model_log(initial_creds(), self.prefix())
        &&& (worker_state_view(self.state) == model_state(initial_creds(), self.prefix()) || (
        !self.is_open() && self.consumed() == self.queue_view().len()
            && self.state is Stopped))
        &&& (no_stop(self.prefix()) || self.consumed() == self.queue_view().len())
        &&& ids_are_indices(self.queue_view())
    }

    /// A live reply slot: the message at the slot's queue position carries
    /// exactly that identifier.
    pub open spec fn has_slot(self, id: u64) -> bool {
        &&& id < self.queue_view().len()
        &&& reply_id(self.queue_view()[id as int]) == Option::Some(id)
    }

    /// A claimed slot belonging to a domain request.
    pub open spec fn pending_request(self, p: Pending) -> bool {
        &&& self.has_slot(p.id_spec())
        &&& self.queue_view()[p.id_spec() as int] is Request
    }

    /// Create the bridge: an empty queue, the placeholder client
    /// installed, the worker running, handles live.
    pub fn spawn() -> (b: Bridge)
        ensures
            b.wf(),
            b.queue_view() == Seq::<SpecMessage>::empty(),
            b.log_view() == Seq::<SpecDelivery>::empty(),
            b.consumed() == 0,
            b.accepting(),
            b.is_open(),
    {
        let b = Bridge {
            queue: Vec::new(),
            served: 0,
            state: WorkerState::Running(ApiClient::new()),
            replies: Vec::new(),
            open: true,
        };
        proof {
            assert(b.queue_view() =~= Seq::<SpecMessage>::empty());
            assert(b.log_view() =~= Seq::<SpecDelivery>::empty());
            assert(b.prefix() =~= Seq::<SpecMessage>::empty());
        }
        b
    }

    /// A fresh handle; any number may exist at once.
    pub fn client(&self) -> (c: Client)
    {
        Client {  }
    }

    /// All foreground handles are gone: nothing can enqueue any more, and
    /// the worker, once it drains the queue, terminates on its own.
    pub fn close(&mut self)
        requires
            old(self).wf(),
        ensures
            final(self).wf(),
            !final(self).is_open(),
            final(self).queue_view() == old(self).queue_view(),
            final(self).log_view() == old(self).log_view(),
            final(self).consumed() == old(self).consumed(),
            final(self).accepting() == old(self).accepting(),
    {
        self.open = false;
    }

    /// The reply identifiers filled so far, in delivery order.
    pub fn delivery_ids(&self) -> (r: Vec<u64>)
        ensures
            r@ == log_ids(self.log_view()),
    {
        let mut r: Vec<u64> = Vec::new();
        let mut i: usize = 0;
        proof {
            assert(self.log_view().take(0) =~= Seq::<SpecDelivery>::empty());
        }
        while i < self.replies.len()
            invariant
                i <= self.replies.len(),
                self.log_view().len() == self.replies@.len(),
                r@ == log_ids(self.log_view().take(i as int)),
            decreases self.replies@.len() - i,
        {
            r.push(self.replies[i].id);
            proof {
                assert(self.log_view().take(i as int + 1) =~= self.log_view().take(i as int).push(
                    self.log_view()[i as int],
                ));
                crate::model::lemma_log_ids_snoc(
                    self.log_view().take(i as int),
                    self.log_view()[i as int],
                );
            }
            i += 1;
        }
        proof {
            assert(self.log_view().take(self.replies@.len() as int) =~= self.log_view());
        }
        r
    }

    /// Whether the worker still serves.
    pub fn is_accepting(&self) -> (r: bool)
        ensures
            r == self.accepting(),
    {
        match &self.state {
            WorkerState::Running(_) => true,
            WorkerState::Stopped => false,
        }
    }
}

impl Client {
    /// Enqueue a domain request.  While the worker serves, the envelope is
    /// accepted and a claim on its fresh reply slot is returned; once the
    /// worker is gone, nothing is enqueued and the operation reports the
    /// exited failure.
    pub fn request(&self, b: &mut Bridge, op: Request) -> (r: Result<Pending, RequestError>)
        requires
            old(b).wf(),
        ensures
            final(b).wf(),
            final(b).is_open() == old(b).is_open(),
            final(b).consumed() == old(b).consumed(),
            final(b).log_view() == old(b).log_view(),
            final(b).accepting() == old(b).accepting(),
            !old(b).accepting() ==> r == Result::<Pending, RequestError>::Err(RequestError::Exited)
                && final(b).queue_view() == old(b).queue_view(),
            old(b).accepting() ==> (r matches Result::Ok(p) && {
                &&& p.id_spec() == old(b).queue_view().len()
                &&& final(b).queue_view() == old(b).queue_view().push(
                    SpecMessage::Request(op@, p.id_spec()),
                )
                &&& final(b).pending_request(p)
            }),
    {
        if !b.is_accepting() {
            return Err(RequestError::Exited);
        }
        let id = b.queue.len() as u64;
        let ghost pre = *b;
        b.queue.push(Message::Request(op, id));
        proof {
            lemma_enqueue_keeps_wf(pre, *b, SpecMessage::Request(op@, id));
        }
        Ok(Pending { id })
    }

    /// Ask the worker to terminate.  The envelope is fire-and-forget: no
    /// reply slot is attached, calling it twice or after the worker has
    /// already exited is harmless.
    pub fn stop(&self, b: &mut Bridge)
        requires
            old(b).wf(),
        ensures
            final(b).wf(),
            final(b).is_open() == old(b).is_open(),
            final(b).consumed() == old(b).consumed(),
            final(b).log_view() == old(b).log_view(),
            final(b).accepting() == old(b).accepting(),
            old(b).accepting() ==> final(b).queue_view() == old(b).queue_view().push(
                SpecMessage::Stop,
            ),
            !old(b).accepting() ==> final(b).queue_view() == old(b).queue_view(),
    {
        if b.is_accepting() {
            let ghost pre = *b;
            b.queue.push(Message::Stop);
            proof {
                lemma_enqueue_keeps_wf(pre, *b, SpecMessage::Stop);
            }
        }
    }
}

/// The mathematical value of a domain operation's result.
pub open spec fn req_result_view(r: Result<Page, RequestError>) -> Result<SpecPage, RequestError> {
    match r {
        Result::Ok(p) => Result::Ok(p@),
        Result::Err(e) => Result::Err(e),
    }
}

/// How the handle surfaces a resolved request slot: the page as served, a
/// remote failure verbatim, abandonment as the exited failure.  (A request
/// slot never resolves as an acknowledgement.)
pub open spec fn answer_to_result(oc: SpecOutcome) -> Result<SpecPage, RequestError> {
    match oc {
        SpecOutcome::Answer(Result::Ok(p)) => Result::Ok(p),
        SpecOutcome::Answer(Result::Err(e)) => Result::Err(RequestError::Request(e)),
        SpecOutcome::Abandoned => Result::Err(RequestError::Exited),
        SpecOutcome::Ack => arbitrary(),
    }
}

/// How the handle surfaces a resolved acknowledgement slot.  (It never
/// resolves as an answer.)
pub open spec fn ack_to_result(oc: SpecOutcome) -> Result<(), LoginError> {
    match oc {
        SpecOutcome::Ack => Result::Ok(()),
        SpecOutcome::Abandoned => Result::Err(LoginError::Exited),
        SpecOutcome::Answer(_) => arbitrary(),
    }
}

impl Client {
    /// Take the result of a claimed request slot, running the worker while
    /// waiting.  The slot always resolves: with the page the installed
    /// client served, with the remote failure passed through verbatim, or
    /// — if the envelope was still queued when the worker stopped — with
    /// the exited failure.
    pub fn recv(&self, b: &mut Bridge, p: Pending) -> (r: Result<Page, RequestError>)
        requires
            old(b).wf(),
            old(b).pending_request(p),
        ensures
            final(b).wf(),
            final(b).queue_view() == old(b).queue_view(),
            final(b).is_open() == old(b).is_open(),
            old(b).log_view().is_prefix_of(final(b).log_view()),
            log_lookup(model_log(initial_creds(), old(b).queue_view()), p.id_spec())
                matches Option::Some(oc) && req_result_view(r) == answer_to_result(oc),
    {
        let i = b.drive_until(p.id);
        proof {
            lemma_slot_outcome_shape(*b, p.id);
        }
        match &b.replies[i].outcome {
            Outcome::Answer(res) => match res {
                Ok(page) => Ok(page.duplicate()),
                Err(e) => Err(RequestError::Request(*e)),
            },
            Outcome::Abandoned => Err(RequestError::Exited),
            Outcome::Ack => unreached(),
        }
    }

    /// Build a client from the credential string and ask the worker to
    /// install it, waiting for the acknowledgement.  A string no header
    /// value may carry is rejected before anything is enqueued.  Once the
    /// acknowledgement arrives, the new client is installed: every
    /// operation enqueued after that observes it.  If the worker is gone,
    /// or stops before acknowledging, the exited failure is surfaced.
    pub fn login(&self, b: &mut Bridge, cookies: &str) -> (r: Result<(), LoginError>)
        requires
            old(b).wf(),
        ensures
            final(b).wf(),
            final(b).is_open() == old(b).is_open(),
            old(b).log_view().is_prefix_of(final(b).log_view()),
            r == Result::<(), LoginError>::Err(LoginError::InvalidHeaderValue) <==> !valid_cookie(
                cookies.spec_bytes(),
            ),
            !valid_cookie(cookies.spec_bytes()) ==> final(b).queue_view() == old(b).queue_view()
                && final(b).log_view() == old(b).log_view() && final(b).consumed() == old(
                b,
            ).consumed() && final(b).accepting() == old(b).accepting(),
            valid_cookie(cookies.spec_bytes()) && !old(b).accepting() ==> r == Result::<
                (),
                LoginError,
            >::Err(LoginError::Exited) && final(b).queue_view() == old(b).queue_view(),
            valid_cookie(cookies.spec_bytes()) && old(b).accepting() ==> ({
                let id = old(b).queue_view().len() as u64;
                &&& final(b).queue_view() == old(b).queue_view().push(
                    SpecMessage::Replace(Option::Some(cookies.spec_bytes()), id),
                )
                &&& (log_lookup(model_log(initial_creds(), final(b).queue_view()), id)
                    matches Option::Some(oc) && r == ack_to_result(oc))
            }),
    {
        match reqwest::header::HeaderValue::from_str(cookies) {
            Err(_) => {
                return Err(LoginError::InvalidHeaderValue);
            },
            Ok(_validated) => {},
        }
        if !b.is_accepting() {
            return Err(LoginError::Exited);
        }
        let token = cookies.as_bytes_vec();
        let client = ApiClient::with_cookies(token);
        let id = b.queue.len() as u64;
        let ghost pre = *b;
        b.queue.push(Message::Replace(client, id));
        proof {
            lemma_enqueue_keeps_wf(
                pre,
                *b,
                SpecMessage::Replace(Option::Some(cookies.spec_bytes()), id),
            );
        }
        let i = b.drive_until(id);
        proof {
            lemma_slot_outcome_shape(*b, id);
        }
        match &b.replies[i].outcome {
            Outcome::Ack => Ok(()),
            Outcome::Abandoned => Err(LoginError::Exited),
            Outcome::Answer(_) => unreached(),
        }
    }

    /// Enqueue a domain request and await its reply.  Each of the named
    /// operations below goes through here.
    fn issue(&self, b: &mut Bridge, op: Request) -> (r: Result<Page, RequestError>)
        requires
            old(b).wf(),
        ensures
            final(b).wf(),
            final(b).is_open() == old(b).is_open(),
            old(b).log_view().is_prefix_of(final(b).log_view()),
            !old(b).accepting() ==> r == Result::<Page, RequestError>::Err(RequestError::Exited)
                && final(b).queue_view() == old(b).queue_view(),
            old(b).accepting() ==> ({
                let id = old(b).queue_view().len() as u64;
                &&& final(b).queue_view() == old(b).queue_view().push(
                    SpecMessage::Request(op@, id),
                )
                &&& (log_lookup(model_log(initial_creds(), final(b).queue_view()), id)
                    matches Option::Some(oc) && req_result_view(r) == answer_to_result(oc))
            }),
    {
        let ghost entry = *old(b);
        let p = match self.request(b, op) {
            Err(e) => {
                return Err(e);
            },
            Ok(p) => p,
        };
        let ghost mid = *b;
        let r = self.recv(b, p);
        proof {
            assert(entry.log_view().is_prefix_of(mid.log_view())) by {
                assert(entry.log_view() =~= mid.log_view().subrange(
                    0,
                    entry.log_view().len() as int,
                ));
            }
            lemma_prefix_trans(entry.log_view(), mid.log_view(), b.log_view());
        }
        r
    }

    /// Fetch one page of the submission listing, starting at the key.
    pub fn submissions(&self, b: &mut Bridge , key: u64) -> (r: Result<Page, RequestError>)
        requires
            old(b).wf(),
        ensures
            final(b).wf(),
            final(b).is_open() == old(b).is_open(),
            old(b).log_view().is_prefix_of(final(b).log_view()),
            !old(b).accepting() ==> r == Result::<Page, RequestError>::Err(RequestError::Exited)
                && final(b).queue_view() == old(b).queue_view(),
            old(b).accepting() ==> ({
                let id = old(b).queue_view().len() as u64;
                &&& final(b).queue_view() == old(b).queue_view().push(
                    SpecMessage::Request(SpecRequest::Submissions(key), id),
                )
                &&& (log_lookup(model_log(initial_creds(), final(b).queue_view()), id)
                    matches Option::Some(oc) && req_result_view(r) == answer_to_result(oc))
            }),
    {
        self.issue(b, Request::Submissions(key))
    }

    /// Fetch a submission view by key.
    pub fn view_page(&self, b: &mut Bridge , key: u64) -> (r: Result<Page, RequestError>)
        requires
            old(b).wf(),
        ensures
            final(b).wf(),
            final(b).is_open() == old(b).is_open(),
            old(b).log_view().is_prefix_of(final(b).log_view()),
            !old(b).accepting() ==> r == Result::<Page, RequestError>::Err(RequestError::Exited)
                && final(b).queue_view() == old(b).queue_view(),
            old(b).accepting() ==> ({
                let id = old(b).queue_view().len() as u64;
                &&& final(b).queue_view() == old(b).queue_view().push(
                    SpecMessage::Request(SpecRequest::ViewPage(key), id),
                )
                &&& (log_lookup(model_log(initial_creds(), final(b).queue_view()), id)
                    matches Option::Some(oc) && req_result_view(r) == answer_to_result(oc))
            }),
    {
        self.issue(b, Request::ViewPage(key))
    }

    /// Fetch a journal by key.
    pub fn journal(&self, b: &mut Bridge , key: u64) -> (r: Result<Page, RequestError>)
        requires
            old(b).wf(),
        ensures
            final(b).wf(),
            final(b).is_open() == old(b).is_open(),
            old(b).log_view().is_prefix_of(final(b).log_view()),
            !old(b).accepting() ==> r == Result::<Page, RequestError>::Err(RequestError::Exited)
                && final(b).queue_view() == old(b).queue_view(),
            old(b).accepting() ==> ({
                let id = old(b).queue_view().len() as u64;
                &&& final(b).queue_view() == old(b).queue_view().push(
                    SpecMessage::Request(SpecRequest::Journal(key), id),
                )
                &&& (log_lookup(model_log(initial_creds(), final(b).queue_view()), id)
                    matches Option::Some(oc) && req_result_view(r) == answer_to_result(oc))
            }),
    {
        self.issue(b, Request::Journal(key))
    }

    /// Add the keyed submission to the favorites.
    pub fn fav(&self, b: &mut Bridge , key: u64) -> (r: Result<Page, RequestError>)
        requires
            old(b).wf(),
        ensures
            final(b).wf(),
            final(b).is_open() == old(b).is_open(),
            old(b).log_view().is_prefix_of(final(b).log_view()),
            !old(b).accepting() ==> r == Result::<Page, RequestError>::Err(RequestError::Exited)
                && final(b).queue_view() == old(b).queue_view(),
            old(b).accepting() ==> ({
                let id = old(b).queue_view().len() as u64;
                &&& final(b).queue_view() == old(b).queue_view().push(
                    SpecMessage::Request(SpecRequest::Fav(key), id),
                )
                &&& (log_lookup(model_log(initial_creds(), final(b).queue_view()), id)
                    matches Option::Some(oc) && req_result_view(r) == answer_to_result(oc))
            }),
    {
        self.issue(b, Request::Fav(key))
    }

    /// Remove the keyed submission from the favorites.
    pub fn unfav(&self, b: &mut Bridge , key: u64) -> (r: Result<Page, RequestError>)
        requires
            old(b).wf(),
        ensures
            final(b).wf(),
            final(b).is_open() == old(b).is_open(),
            old(b).log_view().is_prefix_of(final(b).log_view()),
            !old(b).accepting() ==> r == Result::<Page, RequestError>::Err(RequestError::Exited)
                && final(b).queue_view() == old(b).queue_view(),
            old(b).accepting() ==> ({
                let id = old(b).queue_view().len() as u64;
                &&& final(b).queue_view() == old(b).queue_view().push(
                    SpecMessage::Request(SpecRequest::Unfav(key), id),
                )
                &&& (log_lookup(model_log(initial_creds(), final(b).queue_view()), id)
                    matches Option::Some(oc) && req_result_view(r) == answer_to_result(oc))
            }),
    {
        self.issue(b, Request::Unfav(key))
    }

    /// Fetch the notification counts page.
    pub fn others(&self, b: &mut Bridge ) -> (r: Result<Page, RequestError>)
        requires
            old(b).wf(),
        ensures
            final(b).wf(),
            final(b).is_open() == old(b).is_open(),
            old(b).log_view().is_prefix_of(final(b).log_view()),
            !old(b).accepting() ==> r == Result::<Page, RequestError>::Err(RequestError::Exited)
                && final(b).queue_view() == old(b).queue_view(),
            old(b).accepting() ==> ({
                let id = old(b).queue_view().len() as u64;
                &&& final(b).queue_view() == old(b).queue_view().push(
                    SpecMessage::Request(SpecRequest::Others, id),
                )
                &&& (log_lookup(model_log(initial_creds(), final(b).queue_view()), id)
                    matches Option::Some(oc) && req_result_view(r) == answer_to_result(oc))
            }),
    {
        self.issue(b, Request::Others)
    }

    /// Post a reply (the text) under the comment named by the key.
    pub fn reply(&self, b: &mut Bridge , key: u64, text: String) -> (r: Result<Page, RequestError>)
        requires
            old(b).wf(),
        ensures
            final(b).wf(),
            final(b).is_open() == old(b).is_open(),
            old(b).log_view().is_prefix_of(final(b).log_view()),
            !old(b).accepting() ==> r == Result::<Page, RequestError>::Err(RequestError::Exited)
                && final(b).queue_view() == old(b).queue_view(),
            old(b).accepting() ==> ({
                let id = old(b).queue_view().len() as u64;
                &&& final(b).queue_view() == old(b).queue_view().push(
                    SpecMessage::Request(SpecRequest::Reply(key, text@), id),
                )
                &&& (log_lookup(model_log(initial_creds(), final(b).queue_view()), id)
                    matches Option::Some(oc) && req_result_view(r) == answer_to_result(oc))
            }),
    {
        self.issue(b, Request::Reply(key, text))
    }

    /// Clear the listed submissions from the inbox.
    pub fn clear_submissions(&self, b: &mut Bridge , keys: Vec<u64>) -> (r: Result<Page, RequestError>)
        requires
            old(b).wf(),
        ensures
            final(b).wf(),
            final(b).is_open() == old(b).is_open(),
            old(b).log_view().is_prefix_of(final(b).log_view()),
            !old(b).accepting() ==> r == Result::<Page, RequestError>::Err(RequestError::Exited)
                && final(b).queue_view() == old(b).queue_view(),
            old(b).accepting() ==> ({
                let id = old(b).queue_view().len() as u64;
                &&& final(b).queue_view() == old(b).queue_view().push(
                    SpecMessage::Request(SpecRequest::ClearSubmissions(keys@), id),
                )
                &&& (log_lookup(model_log(initial_creds(), final(b).queue_view()), id)
                    matches Option::Some(oc) && req_result_view(r) == answer_to_result(oc))
            }),
    {
        self.issue(b, Request::ClearSubmissions(keys))
    }
}

/// A log is a prefix of itself extended.
proof fn lemma_prefix_extend(l1: Seq<SpecDelivery>, l2: Seq<SpecDelivery>)
    ensures
        l1.is_prefix_of(l1 + l2),
{
    assert(l1 =~= (l1 + l2).subrange(0, l1.len() as int));
}

/// Prefixes chain.
proof fn lemma_prefix_trans(l1: Seq<SpecDelivery>, l2: Seq<SpecDelivery>, l3: Seq<SpecDelivery>)
    requires
        l1.is_prefix_of(l2),
        l2.is_prefix_of(l3),
    ensures
        l1.is_prefix_of(l3),
{
    assert(l1 =~= l3.subrange(0, l1.len() as int));
}

/// What the popped envelope asks of the worker.
enum Act {
    Halt,
    Install(ApiClient, u64),
    Serve(PageKind, u64, u64),
}

impl Bridge {
    /// One worker-loop iteration: pop the next envelope and act on it.  A
    /// stop envelope ends the loop and abandons everything still queued
    /// behind it; a replacement installs its client wholesale and
    /// acknowledges; a domain request is served against the installed
    /// client — the one current now, not the one current at enqueue time —
    /// and answered, with delivery failure ignored.  On a drained queue
    /// with no handles left, the worker terminates on its own.
    pub fn step(&mut self)
        requires
            old(self).wf(),
        ensures
            final(self).wf(),
            final(self).queue_view() == old(self).queue_view(),
            final(self).is_open() == old(self).is_open(),
            old(self).log_view().is_prefix_of(final(self).log_view()),
            final(self).consumed() >= old(self).consumed(),
            old(self).consumed() < old(self).queue_view().len() ==> final(self).consumed() > old(
                self,
            ).consumed(),
            old(self).consumed() == old(self).queue_view().len() ==> ({
                &&& final(self).consumed() == old(self).consumed()
                &&& final(self).log_view() == old(self).log_view()
                &&& final(self).accepting() == (old(self).accepting() && old(self).is_open())
            }),
    {
        let n = self.queue.len();
        if self.served < n {
            let ghost pre = *self;
            proof {
                // Mid-queue, the prefix is stop-free, so the worker runs.
                assert(no_stop(pre.prefix()));
                assert(worker_state_view(pre.state) == model_state(initial_creds(), pre.prefix()));
                lemma_no_stop_running(initial_creds(), pre.prefix());
            }
            let act = match &self.queue[self.served] {
                Message::Stop => Act::Halt,
                Message::Replace(c, id) => Act::Install(c.duplicate(), *id),
                Message::Request(rq, id) => {
                    let s = rq.summary();
                    Act::Serve(s.0, s.1, *id)
                },
            };
            let ghost m = pre.queue_view()[pre.consumed()];
            proof {
                match &act {
                    Act::Halt => {
                        assert(m is Stop);
                    },
                    Act::Install(c, id) => {
                        assert(m == SpecMessage::Replace(c.creds(), *id));
                    },
                    Act::Serve(kind, key, id) => {
                        assert(m is Request && reply_id(m) == Option::Some(*id)
                            && crate::msg::kind_of(m->Request_0) == *kind && crate::msg::key_of(
                            m->Request_0,
                        ) == *key);
                    },
                }
            }
            match act {
                Act::Halt => {
                    self.state = WorkerState::Stopped;
                    let mut j = self.served + 1;
                    while j < self.queue.len()
                        invariant
                            pre.wf(),
                            pre.consumed() < pre.queue_view().len(),
                            pre.queue_view()[pre.consumed()] is Stop,
                            pre.consumed() + 1 <= j <= self.queue.len(),
                            self.queue_view() == pre.queue_view(),
                            self.queue@.len() == pre.queue@.len(),
                            self.served == pre.served,
                            self.state is Stopped,
                            self.open == pre.open,
                            self.log_view() =~= pre.log_view() + abandoned_log(
                                pre.queue_view().subrange(pre.consumed() + 1, j as int),
                            ),
                        decreases self.queue@.len() - j,
                    {
                        let oid: Option<u64> = match &self.queue[j] {
                            Message::Stop => None,
                            Message::Replace(_, id) => Some(*id),
                            Message::Request(_, id) => Some(*id),
                        };
                        let ghost lpre = *self;
                        let ghost mj = pre.queue_view()[j as int];
                        proof {
                            assert(match oid {
                                Option::Some(id) => reply_id(mj) == Option::Some(id),
                                Option::None => reply_id(mj) is None,
                            });
                        }
                        match oid {
                            Some(id) => {
                                self.replies.push(Delivery { id, outcome: Outcome::Abandoned });
                            },
                            None => {},
                        }
                        proof {
                            let sub = pre.queue_view().subrange(pre.consumed() + 1, j as int);
                            assert(pre.queue_view().subrange(pre.consumed() + 1, j as int + 1)
                                =~= sub.push(mj));
                            lemma_abandoned_snoc(sub, mj);
                            match oid {
                                Option::Some(id) => {
                                    assert(self.log_view() =~= lpre.log_view().push(
                                        SpecDelivery { id, outcome: SpecOutcome::Abandoned },
                                    ));
                                },
                                Option::None => {},
                            }
                            assert(self.log_view() =~= pre.log_view() + abandoned_log(
                                pre.queue_view().subrange(pre.consumed() + 1, j as int + 1),
                            ));
                        }
                        j += 1;
                    }
                    self.served = n;
                    proof {
                        let qv = pre.queue_view();
                        let p0 = pre.prefix();
                        let suffix = qv.skip(pre.consumed());
                        assert(qv =~= p0 + suffix);
                        lemma_model_append(initial_creds(), p0, suffix);
                        assert(suffix[0] == qv[pre.consumed()]);
                        assert(suffix.drop_first() =~= qv.subrange(pre.consumed() + 1,
                            qv.len() as int));
                        assert(model_log(initial_creds(), qv) == pre.log_view() + abandoned_log(
                            qv.subrange(pre.consumed() + 1, qv.len() as int),
                        ));
                        assert(self.prefix() =~= qv);
                        assert(self.log_view() == model_log(initial_creds(), self.prefix()));
                        assert(model_state(initial_creds(), qv) is Stopped);
                        lemma_prefix_extend(pre.log_view(), abandoned_log(
                            qv.subrange(pre.consumed() + 1, qv.len() as int),
                        ));
                    }
                },
                Act::Install(c, id) => {
                    let ghost cc = c.creds();
                    self.state = WorkerState::Running(c);
                    self.replies.push(Delivery { id, outcome: Outcome::Ack });
                    self.served = self.served + 1;
                    proof {
                        let p0 = pre.prefix();
                        let fc = fold_client(initial_creds(), p0);
                        lemma_model_snoc(initial_creds(), p0, m);
                        assert(self.prefix() =~= p0.push(m));
                        assert(delivery_of(m, fc) =~= seq![
                            SpecDelivery { id, outcome: SpecOutcome::Ack },
                        ]);
                        assert(self.log_view() =~= pre.log_view().push(
                            SpecDelivery { id, outcome: SpecOutcome::Ack },
                        ));
                        assert(self.log_view() == model_log(initial_creds(), self.prefix()));
                        assert(worker_state_view(self.state) == SpecState::Running(cc));
                        assert(step_client(fc, m) == cc);
                        assert(worker_state_view(self.state) == model_state(
                            initial_creds(),
                            self.prefix(),
                        ));
                        assert(no_stop(self.prefix())) by {
                            assert forall|k: int| 0 <= k < self.prefix().len() implies !((
                            #[trigger] self.prefix()[k]) is Stop) by {
                                if k < p0.len() {
                                    assert(self.prefix()[k] == p0[k]);
                                } else {
                                    assert(self.prefix()[k] == m);
                                }
                            }
                        }
                        lemma_prefix_extend(pre.log_view(), seq![
                            SpecDelivery { id, outcome: SpecOutcome::Ack },
                        ]);
                        assert(pre.log_view() + seq![SpecDelivery { id, outcome: SpecOutcome::Ack }]
                            =~= self.log_view());
                    }
                },
                Act::Serve(kind, key, id) => {
                    let ghost rq = m->Request_0;
                    let res = match &self.state {
                        WorkerState::Running(cl) => cl.serve(kind, key),
                        WorkerState::Stopped => unreached(),
                    };
                    let d = Delivery { id, outcome: Outcome::Answer(res) };
                    let ghost dv = d@;
                    self.replies.push(d);
                    self.served = self.served + 1;
                    proof {
                        let p0 = pre.prefix();
                        let fc = fold_client(initial_creds(), p0);
                        lemma_model_snoc(initial_creds(), p0, m);
                        assert(self.prefix() =~= p0.push(m));
                        assert(m == SpecMessage::Request(rq, id));
                        assert(crate::api::result_view(res) == crate::api::serve_spec(
                            fc,
                            kind,
                            key,
                        ));
                        assert(dv == SpecDelivery {
                            id,
                            outcome: SpecOutcome::Answer(serve_request(fc, rq)),
                        });
                        assert(delivery_of(m, fc) =~= seq![dv]);
                        assert(self.log_view() =~= pre.log_view().push(dv));
                        assert(self.log_view() == model_log(initial_creds(), self.prefix()));
                        assert(worker_state_view(self.state) == model_state(
                            initial_creds(),
                            self.prefix(),
                        ));
                        assert(no_stop(self.prefix())) by {
                            assert forall|k: int| 0 <= k < self.prefix().len() implies !((
                            #[trigger] self.prefix()[k]) is Stop) by {
                                if k < p0.len() {
                                    assert(self.prefix()[k] == p0[k]);
                                } else {
                                    assert(self.prefix()[k] == m);
                                }
                            }
                        }
                        lemma_prefix_extend(pre.log_view(), seq![dv]);
                        assert(pre.log_view() + seq![dv] =~= self.log_view());
                    }
                },
            }
        } else {
            if !self.open {
                self.state = WorkerState::Stopped;
            }
            proof {
                assert(self.prefix() =~= old(self).prefix());
                assert(self.log_view().is_prefix_of(self.log_view()));
            }
        }
    }
}

impl Bridge {
    /// The worker loop, driven to quiescence: consume every queued
    /// envelope.  A consumed stop message leaves the worker stopped; so
    /// does a drained queue once every handle is gone — the loop never
    /// hangs awaiting senders that cannot exist.  Otherwise the worker
    /// stands ready on the drained queue.
    pub fn run(&mut self)
        requires
            old(self).wf(),
        ensures
            final(self).wf(),
            final(self).queue_view() == old(self).queue_view(),
            final(self).is_open() == old(self).is_open(),
            old(self).log_view().is_prefix_of(final(self).log_view()),
            final(self).consumed() == final(self).queue_view().len(),
            final(self).log_view() == model_log(initial_creds(), final(self).queue_view()),
            final(self).accepting() == (model_state(initial_creds(), final(self).queue_view())
                is Running && old(self).is_open()),
    {
        proof {
            assert(self.log_view().is_prefix_of(self.log_view())) by {
                assert(self.log_view() =~= self.log_view().subrange(
                    0,
                    self.log_view().len() as int,
                ));
            }
        }
        while self.served < self.queue.len()
            invariant
                self.wf(),
                self.queue_view() == old(self).queue_view(),
                self.is_open() == old(self).is_open(),
                old(self).log_view().is_prefix_of(self.log_view()),
            decreases self.queue_view().len() - self.consumed(),
        {
            let ghost lpre = *self;
            self.step();
            proof {
                lemma_prefix_trans(old(self).log_view(), lpre.log_view(), self.log_view());
            }
        }
        let ghost before = *self;
        self.step();
        proof {
            lemma_prefix_trans(old(self).log_view(), before.log_view(), self.log_view());
            assert(self.prefix() =~= self.queue_view());
        }
    }

    /// Shut down: ask the worker to stop, then consume to termination.
    /// This is bounded by the queue — it cannot hang — and it leaves every
    /// issued reply slot resolved, delivered or abandoned, each exactly
    /// once and in issue order.
    pub fn join(&mut self)
        requires
            old(self).wf(),
        ensures
            final(self).wf(),
            !final(self).accepting(),
            final(self).consumed() == final(self).queue_view().len(),
            final(self).log_view() == model_log(initial_creds(), final(self).queue_view()),
            old(self).log_view().is_prefix_of(final(self).log_view()),
            final(self).queue_view() == (if old(self).accepting() {
                old(self).queue_view().push(SpecMessage::Stop)
            } else {
                old(self).queue_view()
            }),
            log_ids(final(self).log_view()) == reply_ids(final(self).queue_view()),
    {
        let c = self.client();
        c.stop(self);
        self.run();
        proof {
            if old(self).accepting() {
                crate::model::lemma_stop_halts(
                    initial_creds(),
                    self.queue_view(),
                    old(self).queue_view().len() as int,
                );
            } else {
                // The worker was already stopped: either it consumed a stop
                // message — then the whole queue was consumed and the model
                // says stopped — or every handle was gone.
                if worker_state_view(old(self).state) == model_state(
                    initial_creds(),
                    old(self).prefix(),
                ) {
                    if no_stop(old(self).prefix()) {
                        lemma_no_stop_running(initial_creds(), old(self).prefix());
                    } else {
                        assert(old(self).prefix() =~= old(self).queue_view());
                    }
                }
            }
            lemma_fifo_order(initial_creds(), self.queue_view());
        }
    }

    /// Scan the delivery log for a slot's entry.
    fn find_reply(&self, id: u64) -> (r: Option<usize>)
        ensures
            (match r {
                Option::Some(i) => {
                    &&& i < self.log_view().len()
                    &&& self.log_view()[i as int].id == id
                    &&& log_lookup(self.log_view(), id) == Option::Some(
                        self.log_view()[i as int].outcome,
                    )
                },
                Option::None => log_lookup(self.log_view(), id) is None,
            }),
    {
        proof {
            assert(self.log_view().skip(0) =~= self.log_view());
        }
        let mut i: usize = 0;
        while i < self.replies.len()
            invariant
                i <= self.replies.len(),
                self.log_view().len() == self.replies.len(),
                log_lookup(self.log_view(), id) == log_lookup(
                    self.log_view().skip(i as int),
                    id,
                ),
            decreases self.replies.len() - i,
        {
            proof {
                assert(self.log_view().skip(i as int)[0] == self.log_view()[i as int]);
            }
            if self.replies[i].id == id {
                return Some(i);
            }
            proof {
                assert(self.log_view().skip(i as int).drop_first() =~= self.log_view().skip(
                    i as int + 1,
                ));
            }
            i += 1;
        }
        proof {
            assert(self.log_view().skip(i as int) =~= Seq::<SpecDelivery>::empty());
        }
        None
    }

    /// Run the worker until the slot is resolved, and return where its
    /// delivery stands in the log.  The foreground's await maps here: the
    /// worker makes progress while the caller waits, and a slot always
    /// resolves — delivered, or abandoned at shutdown.
    fn drive_until(&mut self, id: u64) -> (i: usize)
        requires
            old(self).wf(),
            old(self).has_slot(id),
        ensures
            final(self).wf(),
            final(self).queue_view() == old(self).queue_view(),
            final(self).is_open() == old(self).is_open(),
            old(self).log_view().is_prefix_of(final(self).log_view()),
            i < final(self).log_view().len(),
            final(self).log_view()[i as int].id == id,
            log_lookup(model_log(initial_creds(), old(self).queue_view()), id) == Option::Some(
                final(self).log_view()[i as int].outcome,
            ),
    {
        proof {
            assert(self.log_view().is_prefix_of(self.log_view())) by {
                assert(self.log_view() =~= self.log_view().subrange(
                    0,
                    self.log_view().len() as int,
                ));
            }
        }
        loop
            invariant
                self.wf(),
                self.queue_view() == old(self).queue_view(),
                self.is_open() == old(self).is_open(),
                self.has_slot(id),
                old(self).log_view().is_prefix_of(self.log_view()),
            decreases self.queue_view().len() - self.consumed(),
        {
            match self.find_reply(id) {
                Some(i) => {
                    proof {
                        lemma_log_prefix_of_model(*self);
                        lemma_lookup_prefix(
                            self.log_view(),
                            model_log(initial_creds(), self.queue_view()),
                            id,
                        );
                    }
                    return i;
                },
                None => {
                    proof {
                        lemma_unresolved_not_consumed(*self, id);
                    }
                    let ghost lpre = *self;
                    self.step();
                    proof {
                        lemma_prefix_trans(old(self).log_view(), lpre.log_view(), self.log_view());
                    }
                },
            }
        }
    }
}

/// The bridge's log so far is a prefix of what consuming the whole queue
/// delivers.
proof fn lemma_log_prefix_of_model(b: Bridge)
    requires
        b.wf(),
    ensures
        b.log_view().is_prefix_of(model_log(initial_creds(), b.queue_view())),
{
    if b.consumed() == b.queue_view().len() {
        assert(b.prefix() =~= b.queue_view());
        assert(b.log_view() =~= model_log(initial_creds(), b.queue_view()));
        assert(b.log_view() =~= model_log(initial_creds(), b.queue_view()).subrange(
            0,
            b.log_view().len() as int,
        ));
    } else {
        assert(no_stop(b.prefix()));
        let suffix = b.queue_view().skip(b.consumed());
        assert(b.queue_view() =~= b.prefix() + suffix);
        lemma_model_append(initial_creds(), b.prefix(), suffix);
        lemma_prefix_extend(
            b.log_view(),
            model_log(fold_client(initial_creds(), b.prefix()), suffix),
        );
    }
}

/// An unresolved slot's envelope is still queued: the worker has more to
/// consume.
proof fn lemma_unresolved_not_consumed(b: Bridge, id: u64)
    requires
        b.wf(),
        b.has_slot(id),
        log_lookup(b.log_view(), id) is None,
    ensures
        b.consumed() < b.queue_view().len(),
{
    if (id as int) < b.consumed() {
        assert(b.prefix()[id as int] == b.queue_view()[id as int]);
        lemma_reply_ids_from_index(b.prefix(), id as int, id);
        lemma_fifo_order(initial_creds(), b.prefix());
        lemma_lookup_some_iff(b.log_view(), id);
        assert(false);
    }
}

/// Reply identifiers that are queue positions never collide.
proof fn lemma_indices_distinct(q: Seq<SpecMessage>)
    requires
        ids_are_indices(q),
        q.len() <= u64::MAX,
    ensures
        distinct_ids(q),
{
    assert forall|i: int, j: int|
        0 <= i < j < q.len() && reply_id(q[i]) is Some && reply_id(q[j]) is Some implies reply_id(
        #[trigger] q[i],
    ) != reply_id(#[trigger] q[j]) by {
        assert(i as u64 as int == i);
        assert(j as u64 as int == j);
    }
}

/// A slot's eventual outcome matches its own envelope: a request's slot
/// never resolves as an acknowledgement, a replacement's never as an
/// answer, and both always resolve.
proof fn lemma_slot_outcome_shape(b: Bridge, id: u64)
    requires
        b.wf(),
        b.has_slot(id),
    ensures
        log_lookup(model_log(initial_creds(), b.queue_view()), id) is Some,
        b.queue_view()[id as int] is Request ==> log_lookup(
            model_log(initial_creds(), b.queue_view()),
            id,
        ) != Option::Some(SpecOutcome::Ack),
        b.queue_view()[id as int] is Replace ==> (log_lookup(
            model_log(initial_creds(), b.queue_view()),
            id,
        ) matches Option::Some(oc) ==> !(oc is Answer)),
{
    assert(b.queue_view().len() == b.queue.len());
    lemma_indices_distinct(b.queue_view());
    lemma_delivery_content(initial_creds(), b.queue_view(), id as int, id);
    let qv = b.queue_view();
    if crate::model::stop_before(qv, id as int) {
    } else {
        match qv[id as int] {
            SpecMessage::Request(rq, _) => {
                assert(qv[id as int] == SpecMessage::Request(rq, id));
                let fc = fold_client(initial_creds(), qv.take(id as int));
                assert(log_lookup(model_log(initial_creds(), qv), id) == Option::Some(
                    SpecOutcome::Answer(serve_request(fc, rq)),
                ));
            },
            _ => {},
        }
    }
}

/// Accepting one more envelope moves none of the worker's ground: the
/// consumed prefix, the log and the state all stand.
proof fn lemma_enqueue_keeps_wf(pre: Bridge, post: Bridge, m: SpecMessage)
    requires
        pre.wf(),
        pre.accepting(),
        post.queue_view() =~= pre.queue_view().push(m),
        post.consumed() == pre.consumed(),
        post.log_view() == pre.log_view(),
        post.state == pre.state,
        post.is_open() == pre.is_open(),
        (match reply_id(m) {
            Option::Some(id) => id == pre.queue_view().len() as u64,
            Option::None => true,
        }),
    ensures
        post.wf(),
{
    assert(post.prefix() =~= pre.prefix());
    assert(ids_are_indices(post.queue_view())) by {
        assert forall|i: int| 0 <= i < post.queue_view().len() implies (match reply_id(
            #[trigger] post.queue_view()[i],
        ) {
            Option::Some(id) => id == i as u64,
            Option::None => true,
        }) by {
            if i < pre.queue_view().len() {
                assert(post.queue_view()[i] == pre.queue_view()[i]);
            } else {
                assert(post.queue_view()[i] == m);
            }
        }
    }
    // The worker consumed no stop message: it is still accepting, so the
    // prefix left it running.
    assert(worker_state_view(pre.state) == model_state(initial_creds(), pre.prefix()));
    crate::model::lemma_running_no_stop(initial_creds(), pre.prefix());
    assert(no_stop(post.prefix()));
}

} // verus!
