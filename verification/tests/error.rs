use leaf::error::{IoErrorKind, LError, LErrorClass, LErrorExt};

#[test]
fn new_errors_carry_class_and_message() {
    let e = LError::new(LErrorClass::JSON, "bad");
    assert_eq!(e.class, LErrorClass::JSON);
    assert_eq!(e.messages, vec!["bad".to_string()]);
    let c = LError::new_class(LErrorClass::Abort);
    assert_eq!(c.class, LErrorClass::Abort);
    assert!(c.messages.is_empty());
    let n = LError::none();
    assert_eq!(n.class, LErrorClass::NoError);
    assert!(n.messages.is_empty());
}

#[test]
fn append_and_prepend_order_the_messages() {
    let mut e = LError::new(LErrorClass::Unknown, "middle");
    e.append("last");
    e.prepend("first");
    assert_eq!(e.messages, vec!["first".to_string(), "middle".to_string(), "last".to_string()]);
    assert_eq!(e.class, LErrorClass::Unknown);
}

#[test]
fn class_texts() {
    let texts = [
        (LErrorClass::NoError, "None"),
        (LErrorClass::Unknown, "Unknown"),
        (LErrorClass::Abort, "Action was aborted"),
        (LErrorClass::CURL, "Error in CURL occured"),
        (LErrorClass::CURLHttpNot2xx, "HTTP response code was not 2xx"),
        (LErrorClass::JSON, "Failed to parse json"),
        (LErrorClass::TOML, "Failed to parse toml"),
        (LErrorClass::SQL, "An SQL error occured"),
        (LErrorClass::MirrorNotLoaded, "Mirror not loaded"),
        (LErrorClass::PackageNotFound, "Package not found"),
        (LErrorClass::UnresolvedDependencies, "Dependencies are not resolved"),
        (LErrorClass::UnexpectedPackageVariant, "Unexpected package variant"),
        (LErrorClass::IO(IoErrorKind::NotFound), "An IO error occured"),
    ];
    for (class, text) in texts {
        assert_eq!(LError::new_class(class).ec_str(), text);
    }
}

#[test]
fn rendering_is_a_nested_trace() {
    let mut e = LError::new(LErrorClass::IO(IoErrorKind::AlreadyExists), "first");
    e.append("second");
    e.append("third");
    assert_eq!(e.to_string(), "An IO error occured: \n- first\n  - second\n    - third\n");
    assert_eq!(LError::none().to_string(), "None: \n");
}

#[test]
fn io_class_keeps_the_kind() {
    assert_eq!(LErrorClass::from_io_err(IoErrorKind::TimedOut), LErrorClass::IO(IoErrorKind::TimedOut));
    let e = LError::from_io(IoErrorKind::NotFound, "No such file or directory");
    assert_eq!(e.class, LErrorClass::IO(IoErrorKind::NotFound));
    assert_eq!(e.messages, vec!["No such file or directory".to_string()]);
}

#[test]
fn results_enrich_their_errors() {
    let ok: Result<u8, LError> = Ok(3);
    assert_eq!(ok.err_append("x").unwrap(), 3);
    let ok: Result<u8, LError> = Ok(4);
    assert_eq!(ok.err_prepend("x").unwrap(), 4);
    let bad: Result<u8, LError> = Err(LError::new(LErrorClass::SQL, "base"));
    let e = bad.err_append("below").unwrap_err();
    assert_eq!(e.messages, vec!["base".to_string(), "below".to_string()]);
    let bad: Result<u8, LError> = Err(LError::new(LErrorClass::SQL, "base"));
    let e = bad.err_prepend("above").unwrap_err();
    assert_eq!(e.class, LErrorClass::SQL);
    assert_eq!(e.messages, vec!["above".to_string(), "base".to_string()]);
}

#[test]
fn duplicate_copies_an_error() {
    let mut e = LError::new(LErrorClass::CURL, "a");
    e.append("b");
    let d = e.duplicate();
    assert_eq!(d.class, e.class);
    assert_eq!(d.messages, e.messages);
}
