//! The model of the remote-API client that the worker owns.
//!
//! The real client is an opaque value driven by the runtime outside this
//! crate; the bridge's own logic reads nothing of it beyond the credential
//! material it was built with, so the model carries exactly that.  A call
//! served by an authenticated client answers with a page that names the
//! operation, the key it was asked for, and the serving credentials; the
//! placeholder client installed before any login refuses every call.

use vstd::prelude::*;
use vstd::slice::slice_to_vec;

verus! {

/// Which remote operation a result answers.
#[derive(Clone, Copy, PartialEq, Eq, Structural, Debug)]
pub enum PageKind {
    Journal,
    ViewPage,
    CommentReply,
    Fav,
    Unfav,
    Others,
    Submissions,
    ClearSubmissions,
}

/// A remote call's own failure, delivered to the caller as an ordinary
/// result and never treated as fatal by the worker.
#[derive(Clone, Copy, PartialEq, Eq, Structural, Debug)]
pub enum ApiError {
    /// The serving client was the placeholder installed before any login.
    Unauthenticated,
}

/// A successful remote result: the operation it answers, the key it was
/// asked for, and the credentials of the client that served it.
#[derive(Clone, Debug)]
pub struct Page {
    pub kind: PageKind,
    pub key: u64,
    pub creds: Vec<u8>,
}

/// The mathematical value of a [`Page`].
#[verifier::ext_equal]
pub ghost struct SpecPage {
    pub kind: PageKind,
    pub key: u64,
    pub creds: Seq<u8>,
}

impl View for Page {
    type V = SpecPage;

    open spec fn view(&self) -> SpecPage {
        SpecPage { kind: self.kind, key: self.key, creds: self.creds@ }
    }
}

impl Page {
    /// An exact copy.
    pub fn duplicate(&self) -> (p: Page)
        ensures
            p@ == self@,
    {
        let p = Page { kind: self.kind, key: self.key, creds: slice_to_vec(self.creds.as_slice()) };
        proof {
            assert(p@ =~= self@);
        }
        p
    }
}

/// The mathematical value of a call's result.
pub open spec fn result_view(r: Result<Page, ApiError>) -> Result<SpecPage, ApiError> {
    match r {
        Result::Ok(p) => Result::Ok(p@),
        Result::Err(e) => Result::Err(e),
    }
}

/// What a call returns, as a function of the credentials the serving client
/// was built with.
pub open spec fn serve_spec(creds: Option<Seq<u8>>, kind: PageKind, key: u64) -> Result<
    SpecPage,
    ApiError,
> {
    match creds {
        Option::Some(tok) => Result::Ok(SpecPage { kind, key, creds: tok }),
        Option::None => Result::Err(ApiError::Unauthenticated),
    }
}

/// The worker-owned remote-API client, modelled by the credential material
/// it was built with.  Exactly one live instance exists inside the worker at
/// a time; it is replaced wholesale, never mutated field by field.
#[derive(Clone, Debug)]
pub struct ApiClient {
    token: Option<Vec<u8>>,
}

impl ApiClient {
    /// The credential material this client was built with; `None` for the
    /// placeholder client.
    pub closed spec fn creds(self) -> Option<Seq<u8>> {
        match self.token {
            Option::Some(t) => Option::Some(t@),
            Option::None => Option::None,
        }
    }

    /// The placeholder client installed before the worker loop starts.
    pub fn new() -> (c: ApiClient)
        ensures
            c.creds() == Option::<Seq<u8>>::None,
    {
        ApiClient { token: None }
    }

    /// A client built from credential material.  Whether the material is
    /// acceptable is decided before this point (see the handle's login).
    pub fn with_cookies(token: Vec<u8>) -> (c: ApiClient)
        ensures
            c.creds() == Option::Some(token@),
    {
        ApiClient { token: Some(token) }
    }

    /// An exact copy, built with the same credential material.
    pub fn duplicate(&self) -> (c: ApiClient)
        ensures
            c.creds() == self.creds(),
    {
        match &self.token {
            Some(t) => ApiClient { token: Some(slice_to_vec(t.as_slice())) },
            None => ApiClient { token: None },
        }
    }

    /// One remote call, served sequentially by the worker.
    pub(crate) fn serve(&self, kind: PageKind, key: u64) -> (r: Result<Page, ApiError>)
        ensures
            result_view(r) == serve_spec(self.creds(), kind, key),
    {
        match &self.token {
            Some(t) => Ok(Page { kind, key, creds: slice_to_vec(t.as_slice()) }),
            None => Err(ApiError::Unauthenticated),
        }
    }

    /// Fetch a journal by key.
    pub fn journal(&self, key: u64) -> (r: Result<Page, ApiError>)
        ensures
            result_view(r) == serve_spec(self.creds(), PageKind::Journal, key),
    {
        self.serve(PageKind::Journal, key)
    }

    /// Fetch a submission view by key.
    pub fn view_page(&self, key: u64) -> (r: Result<Page, ApiError>)
        ensures
            result_view(r) == serve_spec(self.creds(), PageKind::ViewPage, key),
    {
        self.serve(PageKind::ViewPage, key)
    }

    /// Post a reply under the comment named by the key.
    pub fn reply(&self, key: u64, _text: &str) -> (r: Result<Page, ApiError>)
        ensures
            result_view(r) == serve_spec(self.creds(), PageKind::CommentReply, key),
    {
        self.serve(PageKind::CommentReply, key)
    }

    /// Add the keyed submission to the favorites.
    pub fn fav(&self, key: u64) -> (r: Result<Page, ApiError>)
        ensures
            result_view(r) == serve_spec(self.creds(), PageKind::Fav, key),
    {
        self.serve(PageKind::Fav, key)
    }

    /// Remove the keyed submission from the favorites.
    pub fn unfav(&self, key: u64) -> (r: Result<Page, ApiError>)
        ensures
            result_view(r) == serve_spec(self.creds(), PageKind::Unfav, key),
    {
        self.serve(PageKind::Unfav, key)
    }

    /// Fetch the notification counts page.
    pub fn others(&self) -> (r: Result<Page, ApiError>)
        ensures
            result_view(r) == serve_spec(self.creds(), PageKind::Others, 0),
    {
        self.serve(PageKind::Others, 0)
    }

    /// Fetch one page of the submission listing, starting at the key.
    pub fn submissions(&self, key: u64) -> (r: Result<Page, ApiError>)
        ensures
            result_view(r) == serve_spec(self.creds(), PageKind::Submissions, key),
    {
        self.serve(PageKind::Submissions, key)
    }

    /// Clear the listed submissions from the inbox.
    pub fn clear_submissions(&self, _keys: &Vec<u64>) -> (r: Result<Page, ApiError>)
        ensures
            result_view(r) == serve_spec(self.creds(), PageKind::ClearSubmissions, 0),
    {
        self.serve(PageKind::ClearSubmissions, 0)
    }
}

} // verus!
