use arrform::ArrForm;
use core::fmt::Write;

#[test]
fn new_buffer_is_empty() {
    let af = ArrForm::<16>::new();
    assert_eq!(af.as_str(), "");
    assert_eq!(af.as_bytes().len(), 0);
}

#[test]
fn stuff_and_rounded_float() {
    let mut af = ArrForm::<64>::new();
    af.begin_format();
    assert!(af.write_str("write some stuff ").is_ok());
    assert!(af.write_str("foo").is_ok());
    assert!(af.write_str(": ").is_ok());
    assert!(af.write_str(&format!("{:.2}", 42.3456)).is_ok());
    assert_eq!(af.as_str(), "write some stuff foo: 42.35");
    assert_eq!(af.as_bytes(), b"write some stuff foo: 42.35");
    assert_eq!(af.as_bytes().len(), 27);
}

#[test]
fn oversized_argument_is_cut_at_capacity() {
    let mut af = ArrForm::<10>::new();
    af.begin_format();
    assert!(af.write_str("abcdefghijklmno").is_err());
    assert_eq!(af.as_bytes(), b"abcdefghij");
    assert_eq!(af.as_bytes().len(), 10);
    assert_eq!(af.as_str(), "abcdefghij");
}

#[test]
fn second_pass_leaves_no_residue() {
    let mut af = ArrForm::<64>::new();
    af.begin_format();
    af.write_str("write some stuff ").unwrap();
    af.write_str("foo").unwrap();
    af.write_str(": ").unwrap();
    af.write_str(&format!("{:.2}", 42.3456)).unwrap();
    assert_eq!(af.as_str(), "write some stuff foo: 42.35");

    af.begin_format();
    assert_eq!(af.as_bytes().len(), 0);
    af.write_str("same buffer, new ").unwrap();
    af.write_str("text").unwrap();
    af.write_str(", int ").unwrap();
    af.write_str(&format!("{}", 123)).unwrap();
    af.write_str(", float ").unwrap();
    af.write_str(&format!("{:.1}", 4.1234)).unwrap();
    assert_eq!(af.as_str(), "same buffer, new text, int 123, float 4.1");
}

#[test]
fn length_never_exceeds_capacity() {
    let mut af = ArrForm::<8>::new();
    let pieces = ["abc", "", "defg", "hi", "jklmnop", "q", "rs"];
    for p in pieces.iter() {
        let _ = af.write_str(p);
        assert!(af.as_bytes().len() <= 8);
    }
    assert_eq!(af.as_bytes().len(), 8);
    assert_eq!(af.as_str(), "abcdefgh");
}

#[test]
fn fragments_filling_exactly_all_succeed() {
    let mut af = ArrForm::<6>::new();
    assert!(af.write_str("ab").is_ok());
    assert!(af.write_str("cd").is_ok());
    assert!(af.write_str("ef").is_ok());
    assert_eq!(af.as_bytes().len(), 6);
    assert_eq!(af.as_str(), "abcdef");
    assert!(af.write_str("").is_ok());
    assert!(af.write_str("g").is_err());
    assert_eq!(af.as_str(), "abcdef");
}

#[test]
fn overflow_copies_the_room_left() {
    let mut af = ArrForm::<5>::new();
    assert!(af.write_str("abc").is_ok());
    assert!(af.write_str("defgh").is_err());
    assert_eq!(af.as_bytes(), b"abcde");
    assert_eq!(af.as_bytes().len(), 5);
}

#[test]
fn overflow_keeps_whole_characters() {
    let mut af = ArrForm::<4>::new();
    assert!(af.write_str("ab").is_ok());
    // "é" takes two bytes and fits; "x" does not.
    assert!(af.write_str("éx").is_err());
    assert_eq!(af.as_str(), "abé");
    assert_eq!(af.as_bytes().len(), 4);

    let mut small = ArrForm::<3>::new();
    assert!(small.write_str("ab").is_ok());
    // One byte is left, too little for "é": nothing of it is copied.
    assert!(small.write_str("é").is_err());
    assert_eq!(small.as_str(), "ab");
    assert_eq!(small.as_bytes().len(), 2);

    let mut tiny = ArrForm::<2>::new();
    assert!(tiny.write_str("€").is_err());
    assert_eq!(tiny.as_str(), "");
}

#[test]
fn text_that_fits_reads_back_unchanged() {
    let mut af = ArrForm::<32>::new();
    let pieces = ["héllo", ", ", "wörld", " ", "€5"];
    for p in pieces.iter() {
        assert!(af.write_str(p).is_ok());
    }
    assert_eq!(af.as_str(), "héllo, wörld €5");
    assert_eq!(af.as_bytes(), "héllo, wörld €5".as_bytes());
}

#[test]
fn zero_capacity_takes_only_empty_text() {
    let mut af = ArrForm::<0>::new();
    assert!(af.write_str("").is_ok());
    assert!(af.write_str("a").is_err());
    assert_eq!(af.as_bytes().len(), 0);
    assert_eq!(af.as_str(), "");
}

#[test]
fn reset_after_overflow_allows_a_fresh_pass() {
    let mut af = ArrForm::<4>::new();
    assert!(af.write_str("overflowing").is_err());
    assert_eq!(af.as_str(), "over");
    af.begin_format();
    assert!(af.write_str("ok").is_ok());
    assert_eq!(af.as_str(), "ok");
}

#[test]
fn overflow_refuses_later_text() {
    let mut af = ArrForm::<3>::new();
    assert!(af.write_str("ab").is_ok());
    // One byte is left, too little for "é": the write fails and copies nothing.
    assert!(af.write_str("é").is_err());
    // The buffer has overflowed: "x" would fit in the byte left, but it is refused.
    assert!(af.write_str("x").is_err());
    assert_eq!(af.as_str(), "ab");
    // Empty text still succeeds and changes nothing.
    assert!(af.write_str("").is_ok());
    assert_eq!(af.as_str(), "ab");
    af.begin_format();
    assert!(af.write_str("xyz").is_ok());
    assert_eq!(af.as_str(), "xyz");
}

#[test]
fn two_writes_match_one_joined_write() {
    let cases = [("é", "x"), ("ab", "cd"), ("a", "€"), ("", "abcd"), ("abcd", "")];
    for (a, b) in cases.iter() {
        let mut split = ArrForm::<3>::new();
        let mut whole = ArrForm::<3>::new();
        split.write_str("ab").unwrap_or(());
        whole.write_str("ab").unwrap_or(());
        split.begin_format();
        whole.begin_format();
        assert!(split.write_str("a").is_ok());
        assert!(whole.write_str("a").is_ok());
        let r1 = split.write_str(a);
        let r2 = split.write_str(b);
        let joined = format!("{}{}", a, b);
        let r = whole.write_str(&joined);
        assert_eq!(split.as_bytes(), whole.as_bytes());
        assert_eq!(r1.is_err() || r2.is_err(), r.is_err());
    }
}
