use vstd::prelude::*;
use vstd::array::ArrayAdditionalExecFns;
use bytes::BufMut;
use rsa::traits::PublicKeyParts;

verus! {

/// The opcode for a login handshake.
pub const LOGIN_HANDSHAKE_OPCODE: u16 = 0xA101;

/// The length of the public exponent array.
pub const EXPONENT_LENGTH: u8 = 64;

/// The length of the modulus array.
pub const MODULUS_LENGTH: u8 = 128;

/// bytes::BytesMut, declared so signatures can carry it; what it holds is
/// named by `buf_contents`.
#[verifier::external_type_specification]
#[verifier::external_body]
pub struct ExBytesMut(bytes::BytesMut);

/// rsa::RsaPublicKey, declared so signatures can carry it. The key is
/// opaque here; only the raw part bytes below are ever read from it.
#[verifier::external_type_specification]
#[verifier::external_body]
pub struct ExRsaPublicKey(rsa::RsaPublicKey);

/// The bytes a BytesMut holds, in order. The wrappers below say how each
/// call into the bytes crate changes them.
pub uninterp spec fn buf_contents(b: bytes::BytesMut) -> Seq<u8>;

/// Relies on bytes::BufMut::put_u8 on BytesMut: appends the one byte.
#[verifier::external_body]
fn buf_put_u8(w: &mut bytes::BytesMut, v: u8)
    ensures
        buf_contents(*final(w)) == buf_contents(*old(w)).push(v),
{
    w.put_u8(v);
}

/// Relies on bytes::BufMut::put_slice on BytesMut: appends the bytes as
/// they stand.
#[verifier::external_body]
fn buf_put_slice(w: &mut bytes::BytesMut, s: &[u8])
    ensures
        buf_contents(*final(w)) == buf_contents(*old(w)) + s@,
{
    w.put_slice(s);
}

/// Relies on rsa::traits::PublicKeyParts::e and BigUint::to_bytes_le: the
/// key's public exponent, least significant byte first. Nothing is promised
/// of the bytes themselves; callers check the length they need.
#[verifier::external_body]
fn key_exponent_le(key: &rsa::RsaPublicKey) -> Vec<u8> {
    key.e().to_bytes_le()
}

/// Relies on rsa::traits::PublicKeyParts::n and BigUint::to_bytes_le: the
/// key's modulus, least significant byte first. Nothing is promised of the
/// bytes themselves; callers check the length they need.
#[verifier::external_body]
fn key_modulus_le(key: &rsa::RsaPublicKey) -> Vec<u8> {
    key.n().to_bytes_le()
}

/// Represents a request from the login server to a client, to initiate a
/// handshake and configure the encryption for further communication.
///
/// The fields sit in wire order and each is one byte wide, so the struct in
/// memory is exactly as long as the packet it serializes to.
#[derive(Debug)]
pub struct LoginHandshakeRequest {
    pub opcode_low: u8,
    pub opcode_high: u8,
    pub encrypted: bool,
    pub exponent_length: u8,
    pub modulus_length: u8,
    pub exponent: [u8; 64],
    pub modulus: [u8; 128],
}

/// The wire image of a handshake request: the opcode little-endian, the
/// encryption flag, the two part lengths, then both part arrays.
pub open spec fn spec_serialized(p: LoginHandshakeRequest) -> Seq<u8> {
    seq![
        p.opcode_low,
        p.opcode_high,
        (if p.encrypted { 1u8 } else { 0u8 }),
        p.exponent_length,
        p.modulus_length,
    ] + p.exponent@ + p.modulus@
}

/// A trait that a structure must implement if it wishes to be treated as a
/// serializable packet.
pub trait SerializablePacket {
    /// Serializes the structure into the writer's buffer.
    fn serialize(&self, writer: &mut bytes::BytesMut);
}

impl LoginHandshakeRequest {
    /// The opcode carried by this request.
    pub fn opcode(&self) -> (r: u16)
        ensures
            r == self.opcode_low + self.opcode_high * 0x100,
    {
        (self.opcode_low as u16) + (self.opcode_high as u16) * 0x100
    }

    /// Initialises a new handshake request: the fixed opcode, encryption
    /// off, the full part lengths, and zeroed part arrays.
    pub fn new() -> (r: LoginHandshakeRequest)
        ensures
            r.opcode_low == 0x01u8,
            r.opcode_high == 0xA1u8,
            r.opcode_low + r.opcode_high * 0x100 == LOGIN_HANDSHAKE_OPCODE,
            r.encrypted == false,
            r.exponent_length == EXPONENT_LENGTH,
            r.modulus_length == MODULUS_LENGTH,
            r.exponent@ == Seq::new(64, |i: int| 0u8),
            r.modulus@ == Seq::new(128, |i: int| 0u8),
    {
        let r = LoginHandshakeRequest {
            opcode_low: 0x01,
            opcode_high: 0xA1,
            encrypted: false,
            exponent_length: EXPONENT_LENGTH,
            modulus_length: MODULUS_LENGTH,
            exponent: [0u8; 64],
            modulus: [0u8; 128],
        };
        proof {
            assert(r.exponent@ =~= Seq::new(64, |i: int| 0u8));
            assert(r.modulus@ =~= Seq::new(128, |i: int| 0u8));
        }
        r
    }

    /// Build the request from raw little-endian key part bytes: `Some`
    /// exactly when the exponent fits its 64-byte array and the modulus
    /// fills its 128-byte array; the exponent is zero padded at the top.
    #[verifier::loop_isolation(false)]
    pub fn from_key_parts(e: &Vec<u8>, n: &Vec<u8>) -> (r: Option<LoginHandshakeRequest>)
        ensures
            r is Some <==> e@.len() <= 64 && n@.len() == 128,
            r matches Some(p) ==> {
                &&& p.opcode_low == 0x01u8
                &&& p.opcode_high == 0xA1u8
                &&& p.encrypted == false
                &&& p.exponent_length == e@.len()
                &&& p.modulus_length == n@.len()
                &&& p.exponent@ == e@ + Seq::new((64 - e@.len()) as nat, |i: int| 0u8)
                &&& p.modulus@ == n@
            },
    {
        if !(e.len() <= 64 && n.len() == 128) {
            return None;
        }
        let mut exponent = [0u8; 64];
        let mut i: usize = 0;
        while i < e.len()
            invariant
                i <= e@.len(),
                forall|k: int| 0 <= k < i ==> exponent@[k] == e@[k],
                forall|k: int| i <= k < 64 ==> exponent@[k] == 0u8,
            decreases e@.len() - i,
        {
            exponent.set(i, e[i]);
            i = i + 1;
        }
        let mut modulus = [0u8; 128];
        let mut j: usize = 0;
        while j < n.len()
            invariant
                j <= n@.len(),
                forall|k: int| 0 <= k < j ==> modulus@[k] == n@[k],
            decreases n@.len() - j,
        {
            modulus.set(j, n[j]);
            j = j + 1;
        }
        let r = LoginHandshakeRequest {
            opcode_low: 0x01,
            opcode_high: 0xA1,
            encrypted: false,
            exponent_length: e.len() as u8,
            modulus_length: n.len() as u8,
            exponent,
            modulus,
        };
        proof {
            assert(r.exponent@ =~= e@ + Seq::new((64 - e@.len()) as nat, |i: int| 0u8));
            assert(r.modulus@ =~= n@);
        }
        Some(r)
    }

    /// Initialises a handshake request from a given RSA public key, when
    /// the key's parts fit the packet's fixed arrays. The part bytes come
    /// from the rsa crate; whatever they are, the built request carries
    /// them as `from_key_parts` lays them out.
    pub fn from_key(public_key: &rsa::RsaPublicKey) -> (r: Option<LoginHandshakeRequest>)
        ensures
            r matches Some(p) ==> {
                &&& p.opcode_low == 0x01u8
                &&& p.opcode_high == 0xA1u8
                &&& p.encrypted == false
                &&& p.modulus_length == 128u8
            },
    {
        let e = key_exponent_le(public_key);
        let n = key_modulus_le(public_key);
        LoginHandshakeRequest::from_key_parts(&e, &n)
    }

    /// Append this packet's wire bytes to the writer: exactly its
    /// `spec_serialized` image after what the writer already held.
    pub fn write_to(&self, writer: &mut bytes::BytesMut)
        ensures
            buf_contents(*final(writer)) == buf_contents(*old(writer)) + spec_serialized(*self),
    {
        buf_put_u8(writer, self.opcode_low);
        buf_put_u8(writer, self.opcode_high);
        buf_put_u8(writer, if self.encrypted { 1 } else { 0 });
        buf_put_u8(writer, self.exponent_length);
        buf_put_u8(writer, self.modulus_length);
        buf_put_slice(writer, self.exponent.as_slice());
        buf_put_slice(writer, self.modulus.as_slice());
        proof {
            assert(buf_contents(*writer) =~= buf_contents(*old(writer)) + spec_serialized(*self));
        }
    }
}

/// Add support for serializing this packet over the network.
impl SerializablePacket for LoginHandshakeRequest {
    fn serialize(&self, writer: &mut bytes::BytesMut) {
        self.write_to(writer);
    }
}

} // verus!
