//! Envelopes and delivery records.
//!
//! Every operation issued through a handle becomes one message on the shared
//! FIFO queue.  A domain request and a client replacement each carry the
//! identifier of their single-use reply slot; the worker resolves every such
//! identifier exactly once, either with the operation's outcome or with the
//! abandonment that shutdown leaves behind.  Reply identifiers equal the
//! message's position in the queue, which makes them unique by construction.

use vstd::prelude::*;

use crate::api::{ApiClient, ApiError, Page, PageKind, SpecPage};

verus! {

/// A domain operation, one variant per remote capability.
#[derive(Debug)]
pub enum Request {
    /// Fetch a journal by key.
    Journal(u64),
    /// Fetch a submission view by key.
    ViewPage(u64),
    /// Post a reply (the text) under the comment named by the key.
    Reply(u64, String),
    /// Add the keyed submission to the favorites.
    Fav(u64),
    /// Remove the keyed submission from the favorites.
    Unfav(u64),
    /// Fetch the notification counts page.
    Others,
    /// Fetch one page of the submission listing, starting at the key.
    Submissions(u64),
    /// Clear the listed submissions from the inbox.
    ClearSubmissions(Vec<u64>),
}

/// The mathematical value of a [`Request`].
#[verifier::ext_equal]
pub ghost enum SpecRequest {
    Journal(u64),
    ViewPage(u64),
    Reply(u64, Seq<char>),
    Fav(u64),
    Unfav(u64),
    Others,
    Submissions(u64),
    ClearSubmissions(Seq<u64>),
}

impl View for Request {
    type V = SpecRequest;

    open spec fn view(&self) -> SpecRequest {
        match self {
            Request::Journal(k) => SpecRequest::Journal(*k),
            Request::ViewPage(k) => SpecRequest::ViewPage(*k),
            Request::Reply(k, text) => SpecRequest::Reply(*k, text@),
            Request::Fav(k) => SpecRequest::Fav(*k),
            Request::Unfav(k) => SpecRequest::Unfav(*k),
            Request::Others => SpecRequest::Others,
            Request::Submissions(k) => SpecRequest::Submissions(*k),
            Request::ClearSubmissions(keys) => SpecRequest::ClearSubmissions(keys@),
        }
    }
}

/// Which page kind answers a request.
pub open spec fn kind_of(r: SpecRequest) -> PageKind {
    match r {
        SpecRequest::Journal(_) => PageKind::Journal,
        SpecRequest::ViewPage(_) => PageKind::ViewPage,
        SpecRequest::Reply(_, _) => PageKind::CommentReply,
        SpecRequest::Fav(_) => PageKind::Fav,
        SpecRequest::Unfav(_) => PageKind::Unfav,
        SpecRequest::Others => PageKind::Others,
        SpecRequest::Submissions(_) => PageKind::Submissions,
        SpecRequest::ClearSubmissions(_) => PageKind::ClearSubmissions,
    }
}

/// Which key a request asks for; zero for the unkeyed capabilities.
pub open spec fn key_of(r: SpecRequest) -> u64 {
    match r {
        SpecRequest::Journal(k) => k,
        SpecRequest::ViewPage(k) => k,
        SpecRequest::Reply(k, _) => k,
        SpecRequest::Fav(k) => k,
        SpecRequest::Unfav(k) => k,
        SpecRequest::Others => 0,
        SpecRequest::Submissions(k) => k,
        SpecRequest::ClearSubmissions(_) => 0,
    }
}

/// What serving a request against a client with the given credentials
/// returns.
pub open spec fn serve_request(creds: Option<Seq<u8>>, r: SpecRequest) -> Result<
    SpecPage,
    ApiError,
> {
    crate::api::serve_spec(creds, kind_of(r), key_of(r))
}

impl Request {
    /// The page kind and key this request asks for.
    pub fn summary(&self) -> (s: (PageKind, u64))
        ensures
            s.0 == kind_of(self@),
            s.1 == key_of(self@),
    {
        match self {
            Request::Journal(k) => (PageKind::Journal, *k),
            Request::ViewPage(k) => (PageKind::ViewPage, *k),
            Request::Reply(k, _) => (PageKind::CommentReply, *k),
            Request::Fav(k) => (PageKind::Fav, *k),
            Request::Unfav(k) => (PageKind::Unfav, *k),
            Request::Others => (PageKind::Others, 0),
            Request::Submissions(k) => (PageKind::Submissions, *k),
            Request::ClearSubmissions(_) => (PageKind::ClearSubmissions, 0),
        }
    }
}

/// One envelope on the request queue.
#[derive(Debug)]
pub enum Message {
    /// End the worker loop; everything still queued behind it is abandoned.
    Stop,
    /// Install the carried client and acknowledge through the reply slot.
    Replace(ApiClient, u64),
    /// Serve the carried request and answer through the reply slot.
    Request(Request, u64),
}

/// The mathematical value of a [`Message`].
#[verifier::ext_equal]
pub ghost enum SpecMessage {
    Stop,
    Replace(Option<Seq<u8>>, u64),
    Request(SpecRequest, u64),
}

impl View for Message {
    type V = SpecMessage;

    open spec fn view(&self) -> SpecMessage {
        match self {
            Message::Stop => SpecMessage::Stop,
            Message::Replace(c, id) => SpecMessage::Replace(c.creds(), *id),
            Message::Request(r, id) => SpecMessage::Request(r@, *id),
        }
    }
}

/// The reply-slot identifier a message carries, if any.
pub open spec fn reply_id(m: SpecMessage) -> Option<u64> {
    match m {
        SpecMessage::Stop => Option::None,
        SpecMessage::Replace(_, id) => Option::Some(id),
        SpecMessage::Request(_, id) => Option::Some(id),
    }
}

/// How one resolved reply slot was filled.
#[derive(Debug)]
pub enum Outcome {
    /// The acknowledgement of a client replacement.
    Ack,
    /// The result of a served domain request.
    Answer(Result<Page, ApiError>),
    /// The slot's envelope was still queued when the worker stopped.
    Abandoned,
}

/// The mathematical value of an [`Outcome`].
#[verifier::ext_equal]
pub ghost enum SpecOutcome {
    Ack,
    Answer(Result<SpecPage, ApiError>),
    Abandoned,
}

impl View for Outcome {
    type V = SpecOutcome;

    open spec fn view(&self) -> SpecOutcome {
        match self {
            Outcome::Ack => SpecOutcome::Ack,
            Outcome::Answer(r) => SpecOutcome::Answer(crate::api::result_view(*r)),
            Outcome::Abandoned => SpecOutcome::Abandoned,
        }
    }
}

/// One filled reply slot: which identifier, and with what.
#[derive(Debug)]
pub struct Delivery {
    pub id: u64,
    pub outcome: Outcome,
}

/// The mathematical value of a [`Delivery`].
#[verifier::ext_equal]
pub ghost struct SpecDelivery {
    pub id: u64,
    pub outcome: SpecOutcome,
}

impl View for Delivery {
    type V = SpecDelivery;

    open spec fn view(&self) -> SpecDelivery {
        SpecDelivery { id: self.id, outcome: self.outcome@ }
    }
}

} // verus!
