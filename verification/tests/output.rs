use atlas::output::BoundedWriter;

#[test]
fn bounded_output_fails_without_accepting_over_budget_bytes() {
    let mut output = BoundedWriter {
        inner: Vec::new(),
        remaining: 3,
    };
    output.write_all(b"ab").unwrap();
    assert!(output.write_all(b"cd").is_err());
    assert_eq!(output.inner, b"ab");
    output.write_all(b"c").unwrap();
    assert_eq!(output.remaining, 0);
}

#[test]
fn accepted_and_refused_writes_conserve_the_budget() {
    let mut output = BoundedWriter {
        inner: Vec::new(),
        remaining: 5,
    };
    for chunk in [&b"abc"[..], &b"defg"[..], &b"d"[..], &b""[..], &b"ef"[..]] {
        let before = output.inner.len() + output.remaining;
        let _ = output.write_all(chunk);
        assert_eq!(output.inner.len() + output.remaining, before);
    }
    assert_eq!(output.inner, b"abcd");
    assert_eq!(output.remaining, 1);
}
