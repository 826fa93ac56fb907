use word2vec_bin::{
    decode_ascii_uint, decode_header, decode_record, decode_terminated_text, FormatError, Header,
    HeaderFault, LoadError, Store,
};

fn le(v: &[f32]) -> Vec<u8> {
    let mut out = Vec::new();
    for x in v {
        out.extend_from_slice(&x.to_le_bytes());
    }
    out
}

#[test]
fn test_ascii_u32_terminated_by_ok() {
    let n = 923732897_u32;
    let delimiter = ';';
    let s = format!("{n}{delimiter}");
    let (used, n_parsed) = decode_ascii_uint(s.as_bytes(), b';').unwrap();
    assert_eq!(&s.as_bytes()[used..], &[] as &[u8]);
    assert_eq!(n_parsed, n);
}

#[test]
fn test_ascii_u32_terminated_by_wrong_digit() {
    let s = "23374ciao123;";
    assert_eq!(decode_ascii_uint(s.as_bytes(), b';'), Err(FormatError::MissingTerminator));
}

#[test]
fn test_ascii_u32_terminated_by_delimiter_not_found() {
    assert_eq!(decode_ascii_uint(b"236274.", b';'), Err(FormatError::MissingTerminator));
}

#[test]
fn uint_overflow_and_invalid() {
    assert_eq!(decode_ascii_uint(b"4294967295 ", b' '), Ok((11, 4294967295)));
    assert_eq!(decode_ascii_uint(b"4294967296 ", b' '), Err(FormatError::IntegerOverflow));
    assert_eq!(decode_ascii_uint(b"x1 ", b' '), Err(FormatError::InvalidInteger));
}

#[test]
fn text_empty_and_round_trip() {
    assert_eq!(decode_terminated_text(b" abc", b' '), Err(FormatError::EmptyToken));
    assert_eq!(decode_terminated_text(b"abc", b' '), Err(FormatError::MissingTerminator));
    assert_eq!(decode_terminated_text(b"abc rest", b' '), Ok((4, "abc".to_string())));
    let (_, s) = decode_terminated_text(b"a\xffb ", b' ').unwrap();
    assert!(s.contains('\u{FFFD}'));
}

#[test]
fn record_truncated() {
    let mut b = b"cat ".to_vec();
    b.extend(le(&[1.0, 2.0]));
    assert_eq!(decode_record(&b, 3).err(), Some(FormatError::TruncatedVector));
}

fn sample() -> Vec<u8> {
    let mut b = b"2 3\n".to_vec();
    b.extend(b"cat ");
    b.extend(le(&[1.5, -2.0, f32::NAN]));
    b.extend(b"dog ");
    b.extend(le(&[0.25, 4.0, 8.0]));
    b
}

#[test]
fn load_end_to_end() {
    let st = Store::from_bytes(&sample()).unwrap();
    assert_eq!(st.len(), 2);
    assert_eq!(st.dimension(), 3);
    assert_eq!(st.record_count(), 2);
    let v = st.lookup("cat").unwrap();
    assert_eq!(v, &vec![1.5f32.to_bits(), (-2.0f32).to_bits(), f32::NAN.to_bits()]);
    assert_eq!(st.words().len(), 2);
}

#[test]
fn load_twice_same() {
    let a = Store::from_bytes(&sample()).unwrap();
    let b = Store::from_bytes(&sample()).unwrap();
    assert_eq!(a.words(), b.words());
    for w in a.words() {
        assert_eq!(a.lookup(w), b.lookup(w));
    }
}

#[test]
fn load_length_mismatch() {
    let mut b = sample();
    b[0] = b'3';
    let end = b.len();
    assert_eq!(
        Store::from_bytes(&b).err(),
        Some(LoadError { offset: end, error: FormatError::LengthMismatch })
    );
    let mut c = sample();
    c.push(0);
    assert_eq!(
        Store::from_bytes(&c).err(),
        Some(LoadError { offset: end, error: FormatError::LengthMismatch })
    );
}

#[test]
fn load_invalid_text_word() {
    let mut b = b"1 1\n".to_vec();
    b.extend(b"c\xfft ");
    b.extend(le(&[1.0]));
    let st = Store::from_bytes(&b).unwrap();
    assert!(st.words()[0].contains('\u{FFFD}'));
}

#[test]
fn uint_digit_terminator_fails() {
    assert_eq!(decode_ascii_uint(b"12x", b'2'), Err(FormatError::MissingTerminator));
    assert_eq!(decode_ascii_uint(b"12", b';'), Err(FormatError::MissingTerminator));
    assert_eq!(decode_ascii_uint(b"99999999999", b';'), Err(FormatError::MissingTerminator));
}

#[test]
fn header_ok_and_faults() {
    assert_eq!(
        decode_header(b"2 3\ncat "),
        Ok((4, Header { record_count: 2, dimension: 3 }))
    );
    assert_eq!(
        decode_header(b"2 3 "),
        Err(FormatError::HeaderMalformed(HeaderFault::MissingTerminator))
    );
    assert_eq!(
        decode_header(b""),
        Err(FormatError::HeaderMalformed(HeaderFault::InvalidInteger))
    );
    assert_eq!(
        decode_header(b"2 x\n"),
        Err(FormatError::HeaderMalformed(HeaderFault::InvalidInteger))
    );
    assert_eq!(
        decode_header(b"4294967296 3\n"),
        Err(FormatError::HeaderMalformed(HeaderFault::IntegerOverflow))
    );
}

#[test]
fn record_followed_by_next_record() {
    let mut b = b"cat ".to_vec();
    b.extend(le(&[1.0, 2.0, 3.0]));
    b.extend(b"dog ");
    let (n, rec) = decode_record(&b, 3).unwrap();
    assert_eq!(n, 16);
    assert_eq!(rec.word, "cat");
    assert_eq!(rec.vector, vec![1.0f32.to_bits(), 2.0f32.to_bits(), 3.0f32.to_bits()]);
    assert_eq!(decode_record(b" x", 0).err(), Some(FormatError::EmptyToken));
    assert_eq!(decode_record(b"cat", 0).err(), Some(FormatError::MissingTerminator));
}

#[test]
fn record_passes_nan_and_infinity() {
    let mut b = b"w ".to_vec();
    b.extend([0x00, 0x00, 0xC0, 0x7F, 0x00, 0x00, 0x80, 0x7F, 0x00, 0x00, 0x80, 0xFF]);
    let (_, rec) = decode_record(&b, 3).unwrap();
    assert_eq!(rec.vector, vec![0x7FC00000, 0x7F800000, 0xFF800000]);
}

#[test]
fn load_duplicate_word_last_wins() {
    let mut b = b"2 1\n".to_vec();
    b.extend(b"cat ");
    b.extend(le(&[1.0]));
    b.extend(b"cat ");
    b.extend(le(&[2.0]));
    let st = Store::from_bytes(&b).unwrap();
    assert_eq!(st.len(), 1);
    assert_eq!(st.words(), &vec!["cat".to_string()]);
    assert_eq!(st.lookup("cat"), Some(&vec![2.0f32.to_bits()]));
}

#[test]
fn load_first_error_aborts() {
    let mut b = b"2 1\n".to_vec();
    b.extend(b" bad");
    assert_eq!(
        Store::from_bytes(&b).err(),
        Some(LoadError { offset: 4, error: FormatError::EmptyToken })
    );
    assert_eq!(
        Store::from_bytes(b"2\n").err(),
        Some(LoadError {
            offset: 0,
            error: FormatError::HeaderMalformed(HeaderFault::MissingTerminator)
        })
    );
}
