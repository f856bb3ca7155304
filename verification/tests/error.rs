use howto::error::Error;

#[test]
fn err_always_fails() {
    let r: Result<u32, Error> = Error::err("boom");
    assert!(r.is_err());
}

#[test]
fn err_message_is_debug_of_text() {
    let e = Error::err::<()>("Tried to recreate children of a non-child node").unwrap_err();
    assert_eq!(e.0, "\"Tried to recreate children of a non-child node\"");
}

#[test]
fn err_message_escapes_quotes() {
    let e = Error::err::<()>("say \"hi\"\n").unwrap_err();
    assert_eq!(e.0, "\"say \\\"hi\\\"\\n\"");
}
