use labrat_bridge::api::{ApiError, PageKind};
use labrat_bridge::bridge::Bridge;
use labrat_bridge::errors::{LoginError, RequestError};
use labrat_bridge::msg::Request;

#[test]
fn fetch_view_before_login_is_unauthenticated() {
    let mut b = Bridge::spawn();
    let c = b.client();
    match c.view_page(&mut b, 7) {
        Err(RequestError::Request(ApiError::Unauthenticated)) => {},
        other => panic!("unexpected result: {:?}", other),
    }
}

#[test]
fn login_then_submissions_uses_credentials() {
    let mut b = Bridge::spawn();
    let c = b.client();
    assert!(c.login(&mut b, "session=abc123").is_ok());
    let page = c.submissions(&mut b, 42).unwrap();
    assert_eq!(page.kind, PageKind::Submissions);
    assert_eq!(page.key, 42);
    assert_eq!(page.creds, b"session=abc123".to_vec());
}

#[test]
fn stop_then_operation_is_exited() {
    let mut b = Bridge::spawn();
    let c = b.client();
    c.stop(&mut b);
    assert_eq!(c.submissions(&mut b, 1).unwrap_err(), RequestError::Exited);
}

#[test]
fn operation_after_worker_stopped_is_exited() {
    let mut b = Bridge::spawn();
    let c = b.client();
    c.stop(&mut b);
    b.run();
    assert!(!b.is_accepting());
    assert_eq!(c.view_page(&mut b, 3).unwrap_err(), RequestError::Exited);
    // stopping again, after the worker has exited, is harmless
    c.stop(&mut b);
}

#[test]
fn deliveries_follow_issue_order() {
    let mut b = Bridge::spawn();
    let c = b.client();
    let p1 = c.request(&mut b, Request::Journal(1)).unwrap();
    let p2 = c.request(&mut b, Request::ViewPage(2)).unwrap();
    let p3 = c.request(&mut b, Request::Others).unwrap();
    b.run();
    assert_eq!(b.delivery_ids(), vec![0, 1, 2]);
    for p in [p1, p2, p3] {
        assert_eq!(
            c.recv(&mut b, p).unwrap_err(),
            RequestError::Request(ApiError::Unauthenticated)
        );
    }
}

#[test]
fn concurrent_handles_each_get_their_own_reply() {
    let mut b = Bridge::spawn();
    let c1 = b.client();
    let c2 = c1.clone();
    let c3 = b.client();
    c1.login(&mut b, "k=1").unwrap();
    let p1 = c1.request(&mut b, Request::Journal(10)).unwrap();
    let p2 = c2.request(&mut b, Request::Fav(20)).unwrap();
    let p3 = c3.request(&mut b, Request::Submissions(30)).unwrap();
    b.run();
    let r2 = c2.recv(&mut b, p2).unwrap();
    assert_eq!(r2.kind, PageKind::Fav);
    assert_eq!(r2.key, 20);
    let r1 = c1.recv(&mut b, p1).unwrap();
    assert_eq!(r1.kind, PageKind::Journal);
    assert_eq!(r1.key, 10);
    let r3 = c3.recv(&mut b, p3).unwrap();
    assert_eq!(r3.kind, PageKind::Submissions);
    assert_eq!(r3.key, 30);
    let ids = b.delivery_ids();
    let mut deduped = ids.clone();
    deduped.sort();
    deduped.dedup();
    assert_eq!(deduped.len(), ids.len());
}

#[test]
fn requests_after_replace_ack_observe_new_client() {
    let mut b = Bridge::spawn();
    let c = b.client();
    c.login(&mut b, "first=1").unwrap();
    let a = c.submissions(&mut b, 5).unwrap();
    assert_eq!(a.creds, b"first=1".to_vec());
    c.login(&mut b, "second=2").unwrap();
    let d = c.submissions(&mut b, 5).unwrap();
    assert_eq!(d.creds, b"second=2".to_vec());
}

#[test]
fn stop_abandons_still_queued_envelopes() {
    let mut b = Bridge::spawn();
    let c = b.client();
    c.login(&mut b, "tok=9").unwrap();
    let p1 = c.request(&mut b, Request::Journal(1)).unwrap();
    c.stop(&mut b);
    // the stop is not yet consumed, so this envelope is still accepted
    let p2 = c.request(&mut b, Request::ViewPage(2)).unwrap();
    b.run();
    assert!(!b.is_accepting());
    // ahead of the stop: served
    let r1 = c.recv(&mut b, p1).unwrap();
    assert_eq!(r1.kind, PageKind::Journal);
    // behind the stop: abandoned
    assert_eq!(c.recv(&mut b, p2).unwrap_err(), RequestError::Exited);
}

#[test]
fn dropping_all_handles_terminates_worker() {
    let mut b = Bridge::spawn();
    let c = b.client();
    let p = c.request(&mut b, Request::Others).unwrap();
    b.close();
    b.run();
    assert!(!b.is_accepting());
    // the envelope was drained before the worker terminated
    assert_eq!(
        c.recv(&mut b, p).unwrap_err(),
        RequestError::Request(ApiError::Unauthenticated)
    );
}

#[test]
fn join_terminates_and_resolves_everything() {
    let mut b = Bridge::spawn();
    let c = b.client();
    let p = c.request(&mut b, Request::Journal(4)).unwrap();
    b.join();
    assert!(!b.is_accepting());
    assert_eq!(
        c.recv(&mut b, p).unwrap_err(),
        RequestError::Request(ApiError::Unauthenticated)
    );
}

#[test]
fn each_capability_answers_with_its_kind() {
    let mut b = Bridge::spawn();
    let c = b.client();
    c.login(&mut b, "cap=1").unwrap();
    assert_eq!(c.journal(&mut b, 1).unwrap().kind, PageKind::Journal);
    assert_eq!(c.view_page(&mut b, 2).unwrap().kind, PageKind::ViewPage);
    assert_eq!(c.fav(&mut b, 3).unwrap().kind, PageKind::Fav);
    assert_eq!(c.unfav(&mut b, 4).unwrap().kind, PageKind::Unfav);
    assert_eq!(c.others(&mut b).unwrap().kind, PageKind::Others);
    let r = c.reply(&mut b, 5, String::from("hi")).unwrap();
    assert_eq!(r.kind, PageKind::CommentReply);
    assert_eq!(r.key, 5);
    let cl = c.clear_submissions(&mut b, vec![1, 2]).unwrap();
    assert_eq!(cl.kind, PageKind::ClearSubmissions);
}

#[test]
fn login_rejects_control_bytes_in_cookie() {
    let mut b = Bridge::spawn();
    let c = b.client();
    assert_eq!(
        c.login(&mut b, "bad\nvalue").unwrap_err(),
        LoginError::InvalidHeaderValue
    );
    // nothing was enqueued
    assert!(b.delivery_ids().is_empty());
}

#[test]
fn login_rejects_delete_byte_in_cookie() {
    let mut b = Bridge::spawn();
    let c = b.client();
    assert_eq!(
        c.login(&mut b, "bad\u{7f}value").unwrap_err(),
        LoginError::InvalidHeaderValue
    );
}

#[test]
fn login_accepts_tab_and_high_bytes() {
    let mut b = Bridge::spawn();
    let c = b.client();
    assert!(c.login(&mut b, "a=b\tc=\u{0434}").is_ok());
}

#[test]
fn login_after_worker_stopped_is_exited() {
    let mut b = Bridge::spawn();
    let c = b.client();
    c.stop(&mut b);
    b.run();
    assert_eq!(c.login(&mut b, "tok=1").unwrap_err(), LoginError::Exited);
}

#[test]
fn login_abandoned_by_earlier_stop_is_exited() {
    let mut b = Bridge::spawn();
    let c = b.client();
    c.stop(&mut b);
    // the stop is still queued: the replacement is accepted, then abandoned
    assert_eq!(c.login(&mut b, "tok=1").unwrap_err(), LoginError::Exited);
}
