use cov::error::{Error, ErrorKind, IsEof, Location};

#[test]
fn test_wrap_error_attaches_location() {
    let e = Location::Cursor(12).wrap_error(Error::new(ErrorKind::UnknownTag(7)));
    assert_eq!(e.kind, ErrorKind::UnknownTag(7));
    assert_eq!(e.trail, vec![Location::Cursor(12)]);
    let e = Location::File("x.gcno".to_string()).wrap_error(e);
    assert_eq!(
        e.trail,
        vec![Location::Cursor(12), Location::File("x.gcno".to_string())]
    );
}

#[test]
fn test_wrap_error_nowhere_attaches_nothing() {
    let e = Location::Nowhere.wrap_error(Error::new(ErrorKind::Eof));
    assert_eq!(e.kind, ErrorKind::Eof);
    assert_eq!(e.trail, vec![]);
}

#[test]
fn test_wrap_passes_success_through() {
    let r = Location::RecordIndex(3).wrap(|| Ok::<u32, Error>(5));
    assert_eq!(r, Ok(5));
}

#[test]
fn test_wrap_locates_failure() {
    let r = Location::RecordIndex(3).wrap(|| Err::<u32, Error>(Error::new(ErrorKind::FromUtf8)));
    let e = r.unwrap_err();
    assert_eq!(e.kind, ErrorKind::FromUtf8);
    assert_eq!(e.trail, vec![Location::RecordIndex(3)]);
}

#[test]
fn test_is_eof() {
    assert!(ErrorKind::Eof.is_eof());
    assert!(!ErrorKind::UnknownTag(1).is_eof());
    assert!(!ErrorKind::Io("broken".to_string()).is_eof());
    assert!(Error::new(ErrorKind::Eof).is_eof());
    assert!(!Error::new(ErrorKind::RecordWithoutFunction).is_eof());
}
