use hershey::reader::{HersheyChar, HersheyError};

#[test]
fn decode_a_space() -> Result<(), HersheyError> {
    // Space character
    const CHR: &str = "12345  1JZ";

    let c = HersheyChar::new_from_str(CHR);
    let c = c?;

    assert_eq!(c.id, 12345);
    assert_eq!(c.vertex_num, 0);
    assert_eq!(c.left_hand, -8);
    assert_eq!(c.right_hand, 8);
    assert!(c.vertex_data.is_empty());

    Ok(())
}

#[test]
fn wackier_space() -> Result<(), HersheyError> {
    // Incorrect/nonstandard/whatever-you-wanna-call-it

    // Space-obsessed space character
    const CHR: &str = "3    1 JZ";

    let c = HersheyChar::new_from_str(CHR);
    let c = c?;

    assert_eq!(c.id, 3);
    assert_eq!(c.vertex_num, 0);
    assert_eq!(c.left_hand, -8);
    assert_eq!(c.right_hand, 8);
    assert!(c.vertex_data.is_empty());

    Ok(())
}

#[test]
fn something_else() -> Result<(), HersheyError> {
    const CHR: &str = r" 2715 58I\LKLJMHNGQFTFWGXHYJYLXNWOUPRQ RLKMKMJNHQGTGWHXJXLWNUORP RMIPG RUGXI RXMTP RRPRTSTSP RRXQYQZR[S[TZTYSXRX RRYRZSZSYRY";

    let c = HersheyChar::new_from_str(CHR);
    let c = c?;

    assert_eq!(c.id, 2715);
    assert_eq!(c.vertex_num, 58 - 1);
    assert_eq!(c.vertex_data.iter().filter(|v| v.is_none()).count(), 7);

    Ok(())
}

#[test]
fn the_gosh_darned_8() -> Result<(), HersheyError> {
    const CHR: &str = r"12345104H]SFPGOHNJNMOOQPTPWOYNZLZIYGWFSF RUFPG RPHOJONPO ROORP RSPWO RXNYLYIXG RYGUF RSFQHPJPNQP RTPVOWNXLXHWF RQPMQKSJUJXKZN[R[VZWYXWXTWRVQTP RRPMQ RNQLSKUKXLZ RKZP[VZ RVYWWWTVR RVQSP RQPOQMSLULXMZN[ RR[TZUYVWVSUQTP";

    let c = HersheyChar::new_from_str(CHR);
    let c = c?;

    assert_eq!(c.id, 12345);
    assert_eq!(c.vertex_num, 104 - 1);

    Ok(())
}

#[test]
fn codec_offsets() {
    // The codec's fixed points: 'R' is the origin of the coordinate system.
    assert_eq!(HersheyChar::parse_ascii_ofs('R'), 0);
    assert_eq!(HersheyChar::parse_ascii_ofs('J'), -8);
    assert_eq!(HersheyChar::parse_ascii_ofs('Z'), 8);
    assert_eq!(HersheyChar::parse_ascii_ofs(' '), -50);
    assert_eq!(HersheyChar::parse_ascii_ofs('['), 9);
}

#[test]
fn decode_is_deterministic() {
    const CHR: &str = "12345  3JZNRPQ";
    let a = HersheyChar::new_from_str(CHR);
    let b = HersheyChar::new_from_str(CHR);
    assert_eq!(a, b);

    const BAD: &str = "12a45  1JZ";
    let a = HersheyChar::new_from_str(BAD);
    let b = HersheyChar::new_from_str(BAD);
    assert_eq!(a, b);
}

#[test]
fn error_too_short() {
    let r = HersheyChar::new_from_str("1234567");
    assert!(matches!(r, Err(HersheyError::TooShort)));
}

#[test]
fn error_invalid_spacing() {
    let r = HersheyChar::new_from_str("ABCDEFGH");
    assert!(matches!(r, Err(HersheyError::InvalidSpacing)));
}

#[test]
fn error_invalid_afterwards() {
    let r = HersheyChar::new_from_str("12345 67 89");
    assert!(matches!(r, Err(HersheyError::InvalidAfterwards)));
}

#[test]
fn error_numeric_parse() {
    let r = HersheyChar::new_from_str("12a45  1JZ");
    assert!(matches!(r, Err(HersheyError::NumericParse)));
}

#[test]
fn error_malformed_vertices() {
    let r = HersheyChar::new_from_str("12345  1JZA");
    assert!(matches!(r, Err(HersheyError::MalformedVertices)));
}

#[test]
fn fixed_width_fallback() -> Result<(), HersheyError> {
    // The identifier column abuts the count column, as classic files have it:
    // only the fixed-width reading accepts this record.
    let c = HersheyChar::new_from_str("12345104H]SFPG R")?;
    assert_eq!(c.id, 12345);
    assert_eq!(c.vertex_num, 103);
    assert_eq!(c.left_hand, -10);
    assert_eq!(c.right_hand, 11);
    assert_eq!(c.vertex_data, vec![Some((1, -12)), Some((-2, -11)), None]);
    Ok(())
}

#[test]
fn plus_signed_id() -> Result<(), HersheyError> {
    let c = HersheyChar::new_from_str("+2345  1JZ")?;
    assert_eq!(c.id, 2345);
    assert_eq!(c.vertex_num, 0);
    Ok(())
}

#[test]
fn trailing_whitespace_is_trimmed() -> Result<(), HersheyError> {
    let c = HersheyChar::new_from_str("12345  1JZ  \r")?;
    assert_eq!(c.id, 12345);
    assert!(c.vertex_data.is_empty());
    Ok(())
}

#[test]
fn stroke_count_ignores_declared_count() -> Result<(), HersheyError> {
    // The same coordinate region under wildly different declared counts
    // decodes to the same stroke list.
    let a = HersheyChar::new_from_str("12345  9JZNR")?;
    let b = HersheyChar::new_from_str("12345  2JZNR")?;
    assert_eq!(a.vertex_data, b.vertex_data);
    assert_eq!(a.vertex_data, vec![Some((-4, 0))]);
    assert_eq!(a.vertex_num, 8);
    assert_eq!(b.vertex_num, 1);
    Ok(())
}

#[test]
fn pen_lift_is_its_own_variant() -> Result<(), HersheyError> {
    // The sentinel pair " R" decodes to a pen lift, not to a point (-50, 0).
    let c = HersheyChar::new_from_str("12345  3JZNR RPQ")?;
    assert_eq!(c.vertex_data, vec![Some((-4, 0)), None, Some((-2, -1))]);
    Ok(())
}

#[test]
fn id_at_the_word_boundary() -> Result<(), HersheyError> {
    // The largest identifier the machine word holds still parses...
    let c = HersheyChar::new_from_str("18446744073709551615  1JZ")?;
    assert_eq!(c.id, 18446744073709551615);
    Ok(())
}

#[test]
fn id_overflow_is_a_numeric_parse_error() {
    // ...and one past it does not.
    let r = HersheyChar::new_from_str("18446744073709551616  1JZ");
    assert!(matches!(r, Err(HersheyError::NumericParse)));
}
