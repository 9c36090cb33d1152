use labrat_bridge::api::{ApiClient, ApiError, PageKind};

#[test]
fn placeholder_client_refuses_calls() {
    let c = ApiClient::new();
    assert_eq!(c.journal(5).unwrap_err(), ApiError::Unauthenticated);
    assert_eq!(c.others().unwrap_err(), ApiError::Unauthenticated);
    assert_eq!(c.view_page(1).unwrap_err(), ApiError::Unauthenticated);
}

#[test]
fn built_client_serves_with_its_credentials() {
    let c = ApiClient::with_cookies(b"c=1".to_vec());
    let p = c.view_page(9).unwrap();
    assert_eq!(p.kind, PageKind::ViewPage);
    assert_eq!(p.key, 9);
    assert_eq!(p.creds, b"c=1".to_vec());
    let q = c.reply(3, "hello").unwrap();
    assert_eq!(q.kind, PageKind::CommentReply);
    assert_eq!(q.key, 3);
    let r = c.clear_submissions(&vec![1, 2, 3]).unwrap();
    assert_eq!(r.kind, PageKind::ClearSubmissions);
    assert_eq!(r.key, 0);
    let s = c.fav(4).unwrap();
    assert_eq!(s.kind, PageKind::Fav);
    let t = c.unfav(4).unwrap();
    assert_eq!(t.kind, PageKind::Unfav);
    let u = c.submissions(1).unwrap();
    assert_eq!(u.kind, PageKind::Submissions);
    let v = c.journal(2).unwrap();
    assert_eq!(v.kind, PageKind::Journal);
    let w = c.others().unwrap();
    assert_eq!(w.kind, PageKind::Others);
    assert_eq!(w.key, 0);
}

#[test]
fn duplicate_preserves_credentials() {
    let c = ApiClient::with_cookies(b"z=9".to_vec());
    let d = c.duplicate();
    assert_eq!(d.submissions(8).unwrap().creds, b"z=9".to_vec());
    let e = ApiClient::new().duplicate();
    assert_eq!(e.submissions(8).unwrap_err(), ApiError::Unauthenticated);
}
