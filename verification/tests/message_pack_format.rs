use asap_sketchlib::message_pack_format::envelope::{encode, split, EnvelopeError, MAGIC, VERSION};
use asap_sketchlib::message_pack_format::wire_key::{
    WireBytes, WireKeyError, WireString, WireValue,
};

#[test]
fn an_envelope_is_laid_out_in_order() {
    let bytes = encode(&[7, 8, 9], &[1, 2], &[3]);
    assert_eq!(MAGIC, *b"ASAPv1");
    assert_eq!(VERSION, 1);
    let mut expected = b"ASAPv1".to_vec();
    expected.extend([1, 3, 7, 8, 9]);
    expected.extend([0, 0, 0, 0, 0, 0, 0, 2]);
    expected.extend([0, 0, 0, 0, 0, 0, 0, 1]);
    expected.extend([1, 2, 3]);
    assert_eq!(bytes, expected);
}

#[test]
fn split_undoes_encode() {
    let long = vec![5u8; 70_000];
    for (kind, metadata, payload) in [
        (&[][..], &[][..], &[][..]),
        (&[1, 2], &[3], &[4, 5]),
        (&[0; 255], &long, &[]),
        (&[1], &[], &long),
    ] {
        let bytes = encode(kind, metadata, payload);
        let (k, m, p) = split(&bytes).expect("framed");
        assert_eq!((k, m, p), (kind, metadata, payload));
        assert_eq!(encode(k, m, p), bytes);
    }
}

#[test]
fn what_is_no_envelope_is_refused() {
    let good = encode(&[1, 2], &[3, 4], &[5]);
    for len in 0..good.len() {
        assert_eq!(split(&good[..len]), Err(EnvelopeError::Truncated), "{len} bytes");
    }
    let mut long = good.clone();
    long.push(0);
    assert_eq!(split(&long), Err(EnvelopeError::TrailingBytes));
    for at in 0..6 {
        let mut bad = good.clone();
        bad[at] ^= 1;
        assert_eq!(split(&bad), Err(EnvelopeError::BadMagic));
    }
    let mut bad = good.clone();
    bad[6] = 2;
    assert_eq!(split(&bad), Err(EnvelopeError::UnsupportedVersion { version: 2 }));
    // A length that no memory could hold.
    let mut bad = good.clone();
    for byte in bad[10..18].iter_mut() {
        *byte = 0xFF;
    }
    assert_eq!(split(&bad), Err(EnvelopeError::Truncated));
}

#[test]
fn refusals_are_worded() {
    assert_eq!(EnvelopeError::Truncated.message(), "ASAPv1 envelope: truncated");
    assert_eq!(
        EnvelopeError::TrailingBytes.message(),
        "ASAPv1 envelope: trailing bytes"
    );
    assert_eq!(EnvelopeError::BadMagic.message(), "ASAPv1 envelope: bad magic");
    assert_eq!(
        EnvelopeError::UnsupportedVersion { version: 200 }.message(),
        "ASAPv1 envelope: unsupported version 200"
    );
}

#[test]
fn keys_round_trip_under_their_own_family() {
    let wire = WireBytes(vec![0, 159, 255]).to_wire();
    assert!(matches!(&wire, WireValue::Bin(bytes) if bytes == &[0, 159, 255]));
    assert_eq!(
        WireBytes::from_wire(wire).expect("bin").into_vec(),
        vec![0, 159, 255]
    );
    let wire = WireString("käse".to_string()).to_wire();
    assert!(matches!(&wire, WireValue::Str(text) if text == "käse"));
    assert_eq!(WireString::from_wire(wire).expect("str").into_string(), "käse");
}

#[test]
fn a_relabelled_key_is_refused() {
    let err = WireBytes::from_wire(WireValue::Str("a".to_string())).expect_err("str");
    assert_eq!(err, WireKeyError::StrForBytes);
    assert_eq!(err.message(), "ASAPv1: a bytes key must be msgpack bin, not str");
    // Valid UTF-8, and still refused.
    let err = WireString::from_wire(WireValue::Bin(b"a".to_vec())).expect_err("bin");
    assert_eq!(err, WireKeyError::BinForString);
    assert_eq!(err.message(), "ASAPv1: a string key must be msgpack str, not bin");
    let err = WireBytes::from_wire(WireValue::Other).expect_err("neither");
    assert_eq!(err, WireKeyError::NotBytes);
    assert_eq!(err.message(), "a msgpack bin value");
    let err = WireString::from_wire(WireValue::Other).expect_err("neither");
    assert_eq!(err, WireKeyError::NotString);
    assert_eq!(err.message(), "a msgpack str value");
}
