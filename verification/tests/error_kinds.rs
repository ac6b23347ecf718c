use resolved_nftset::error::{Error, ErrorKind};

#[test]
fn new_keeps_kind_and_inner() {
    let e = Error::new(ErrorKind::Timeout, "late");
    assert!(matches!(e.kind, ErrorKind::Timeout));
    assert_eq!(e.inner, "late");
}

#[test]
fn general_timeout_abort_pick_their_kind() {
    let g = Error::general(1u32);
    assert!(matches!(g.kind, ErrorKind::General));
    assert_eq!(g.inner, 1);
    let t = Error::timeout(2u32);
    assert!(matches!(t.kind, ErrorKind::Timeout));
    assert_eq!(t.inner, 2);
    let a = Error::abort(3u32);
    assert!(matches!(a.kind, ErrorKind::Abort));
    assert_eq!(a.inner, 3);
}
