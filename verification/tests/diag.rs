use plasma::diag::Diag;

#[test]
fn a_new_diagnostic_is_empty() {
    let d = Diag::new();
    assert!(d.is_empty());
    assert_eq!(d.message(), "");
}

#[test]
fn a_message_reads_back() {
    let mut d = Diag::new();
    d.set(3, 8, "qubit index out of range");
    assert!(!d.is_empty());
    assert_eq!(d.line, 3);
    assert_eq!(d.col, 8);
    assert_eq!(d.message(), "qubit index out of range");
    d.clear();
    assert!(d.is_empty());
    assert_eq!(d.message(), "");
}

#[test]
fn long_messages_are_cut() {
    let mut d = Diag::new();
    let long = "x".repeat(100);
    d.set(1, 1, &long);
    assert_eq!(d.message(), &long[..80]);
}

#[test]
fn a_cut_inside_a_character_is_marked() {
    let mut d = Diag::new();
    let mut long = "x".repeat(79);
    long.push('\u{e9}');
    d.set(1, 1, &long);
    assert_eq!(d.message(), "?");
    let mut whole = "x".repeat(78);
    whole.push('\u{e9}');
    d.set(1, 1, &whole);
    assert_eq!(d.message(), whole);
}
