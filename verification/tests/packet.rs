use core::mem;
use shaiya::packet::{LoginHandshakeRequest, SerializablePacket, LOGIN_HANDSHAKE_OPCODE,
    EXPONENT_LENGTH, MODULUS_LENGTH};

/// Test the length of the handshake packet.
#[test]
fn test_packet_length() {
    assert_eq!(mem::size_of::<LoginHandshakeRequest>(), 197);
}

/// Test that the opcode and public key sizes are correct in a default-initialised struct.
#[test]
fn test_default_values() {
    let request = LoginHandshakeRequest::new();
    assert_eq!(request.opcode(), LOGIN_HANDSHAKE_OPCODE);
    assert_eq!(request.exponent_length, EXPONENT_LENGTH);
    assert_eq!(request.modulus_length, MODULUS_LENGTH);
}

#[test]
fn serialize_writes_the_wire_image() {
    let request = LoginHandshakeRequest::new();
    let mut buf = bytes::BytesMut::new();
    request.serialize(&mut buf);
    assert_eq!(buf.len(), 197);
    assert_eq!(buf[0], 0x01);
    assert_eq!(buf[1], 0xA1);
    assert_eq!(buf[2], 0x00);
    assert_eq!(buf[3], 64);
    assert_eq!(buf[4], 128);
    assert!(buf[5..].iter().all(|b| *b == 0));
}

#[test]
fn serialize_appends_after_existing_bytes() {
    let request = LoginHandshakeRequest::new();
    let mut buf = bytes::BytesMut::new();
    bytes::BufMut::put_u8(&mut buf, 0x7F);
    request.serialize(&mut buf);
    assert_eq!(buf.len(), 198);
    assert_eq!(buf[0], 0x7F);
    assert_eq!(buf[1], 0x01);
    assert_eq!(buf[2], 0xA1);
}

#[test]
fn from_key_parts_lays_out_the_parts() {
    let e = vec![0x01, 0x00, 0x01];
    let n = vec![0xAB; 128];
    let request = LoginHandshakeRequest::from_key_parts(&e, &n).unwrap();
    assert_eq!(request.exponent_length, 3);
    assert_eq!(request.modulus_length, 128);
    assert_eq!(&request.exponent[..3], &[0x01, 0x00, 0x01]);
    assert!(request.exponent[3..].iter().all(|b| *b == 0));
    assert!(request.modulus.iter().all(|b| *b == 0xAB));
}

#[test]
fn from_key_parts_rejects_a_short_modulus() {
    let e = vec![0x01, 0x00, 0x01];
    let n = vec![0xAB; 127];
    assert!(LoginHandshakeRequest::from_key_parts(&e, &n).is_none());
}

#[test]
fn from_key_reads_a_real_public_key() {
    let n_bytes = [0xFFu8; 128];
    let n = rsa::BigUint::from_bytes_le(&n_bytes);
    let e = rsa::BigUint::from_bytes_le(&[0x01, 0x00, 0x01]);
    let key = rsa::RsaPublicKey::new(n, e).unwrap();
    let request = LoginHandshakeRequest::from_key(&key).unwrap();
    assert_eq!(request.exponent_length, 3);
    assert_eq!(request.modulus_length, 128);
    assert_eq!(&request.exponent[..3], &[0x01, 0x00, 0x01]);
    assert!(request.modulus.iter().all(|b| *b == 0xFF));
}
