//! Meshtastic-compatible channel encryption: AES-256-CTR over the payload,
//! a key derived with SHA-256 from the channel name and PSK, and a 4-byte
//! MIC from HMAC-SHA256 over header and ciphertext.
//!
//! Key derivation: `key = SHA256(channel_name || PSK || "Meshtastic")`.
//! Nonce: bytes 0-3 source node id, bytes 4-7 packet id (little-endian),
//! bytes 8-15 zero. MIC: the first 4 bytes of
//! `HMAC-SHA256(key, header || ciphertext)`.

use vstd::prelude::*;
use vstd::string::StringSliceAdditionalSpecFns;
use vstd::utf8::encode_utf8;

use crate::mesh::packet::{header_bytes, MeshPacket, NodeId, PacketHeader};

verus! {

// ---------------------------------------------------------------------------
// Trusted primitives
// ---------------------------------------------------------------------------

/// The SHA-256 digest of a byte string.
pub uninterp spec fn sha256_digest(data: Seq<u8>) -> Seq<u8>;

/// SHA-256 of `data`, by `sha2::Sha256::digest`. Trusted: the digest is
/// the one named by `sha256_digest` for these bytes; the array type gives
/// its 32 bytes.
#[verifier::external_body]
fn sha256(data: &[u8]) -> (d: [u8; 32])
    ensures
        d@ == sha256_digest(data@),
{
    let out = <sha2::Sha256 as sha2::Digest>::digest(data);
    out.into()
}

/// The error `hmac` gives for a key it cannot take.
#[verifier::external_type_specification]
#[verifier::external_body]
pub struct ExInvalidLength(hmac::digest::InvalidLength);

/// The HMAC-SHA256 tag of a message under a key.
pub uninterp spec fn hmac_sha256_tag(key: Seq<u8>, msg: Seq<u8>) -> Seq<u8>;

/// HMAC-SHA256 of `msg` under `key`, by `Hmac::<Sha256>::new_from_slice`,
/// `Mac::update` and `Mac::finalize`. Trusted: the tag is the one named by
/// `hmac_sha256_tag` for the key and message, and the result is `Ok`, as
/// the `hmac` source shows (`new_from_slice` accepts keys of any length).
#[verifier::external_body]
fn hmac_sha256(key: &[u8], msg: &[u8]) -> (r: Result<[u8; 32], hmac::digest::InvalidLength>)
    ensures
        r.is_ok(),
        r.is_ok() ==> r.unwrap()@ == hmac_sha256_tag(key@, msg@),
{
    let mut mac = <hmac::Hmac<sha2::Sha256> as hmac::Mac>::new_from_slice(key)?;
    hmac::Mac::update(&mut mac, msg);
    Ok(hmac::Mac::finalize(mac).into_bytes().into())
}

/// Byte `i` of the AES-256-CTR keystream (128-bit big-endian counter) for
/// a key and initial counter block.
pub uninterp spec fn aes256_ctr_keystream(key: Seq<u8>, iv: Seq<u8>, i: int) -> u8;

/// AES-256-CTR over `data`, by `Ctr128BE::<Aes256>::new` and
/// `StreamCipher::apply_keystream`. Trusted: as CTR mode is documented, the
/// output is the input XORed with the keystream named by
/// `aes256_ctr_keystream` for the key and counter block; with a 128-bit
/// counter that starts at zero the keystream does not run out, so the call
/// does not panic.
#[verifier::external_body]
fn aes256_ctr_apply(key: &[u8; 32], iv: &[u8; 16], data: &[u8]) -> (out: Vec<u8>)
    ensures
        out.len() == data.len(),
        forall|i: int|
            0 <= i < data.len() ==> #[trigger] out[i] == data[i] ^ aes256_ctr_keystream(key@, iv@, i),
{
    let mut buf = data.to_vec();
    let mut cipher = <ctr::Ctr128BE<aes::Aes256> as ctr::cipher::KeyIvInit>::new(key.into(), iv.into());
    ctr::cipher::StreamCipher::apply_keystream(&mut cipher, &mut buf);
    buf
}

// ---------------------------------------------------------------------------
// Keys and contexts
// ---------------------------------------------------------------------------

/// Default Pre-Shared Key (PSK) for the default channel.
pub const DEFAULT_PSK: &'static [u8; 16] = &[
    0xd4u8,
    0xf1u8,
    0xbbu8,
    0x3au8,
    0x20u8,
    0x29u8,
    0x07u8,
    0x59u8,
    0xf0u8,
    0xbcu8,
    0xffu8,
    0xabu8,
    0xcfu8,
    0x4eu8,
    0x69u8,
    0x01u8,
];

/// The bytes of "Meshtastic", appended to the key material.
pub open spec fn key_magic() -> Seq<u8> {
    seq![0x4Du8, 0x65, 0x73, 0x68, 0x74, 0x61, 0x73, 0x74, 0x69, 0x63]
}

/// The channel key for a channel name (as UTF-8 bytes) and PSK.
pub open spec fn derived_key(name_bytes: Seq<u8>, psk: Seq<u8>) -> Seq<u8> {
    sha256_digest(name_bytes + psk + key_magic())
}

/// Crypto error types
#[derive(Debug, Clone, Copy, PartialEq, Eq, Structural)]
pub enum CryptoError {
    /// Invalid key length
    InvalidKeyLength,
    /// Invalid data length
    InvalidDataLength,
    /// MIC verification failed
    MicMismatch,
    /// Encryption failed
    EncryptionFailed,
    /// Decryption failed
    DecryptionFailed,
    /// Crypto feature not enabled
    FeatureNotEnabled,
}

/// The text of each crypto error.
pub open spec fn crypto_error_text(e: CryptoError) -> Seq<char> {
    match e {
        CryptoError::InvalidKeyLength => "Invalid key length"@,
        CryptoError::InvalidDataLength => "Invalid data length"@,
        CryptoError::MicMismatch => "MIC verification failed"@,
        CryptoError::EncryptionFailed => "Encryption failed"@,
        CryptoError::DecryptionFailed => "Decryption failed"@,
        CryptoError::FeatureNotEnabled => "Crypto feature not enabled, compile with --features crypto"@,
    }
}

impl CryptoError {
    /// The error's message.
    pub fn message(&self) -> (m: &'static str)
        ensures
            m@ == crypto_error_text(*self),
    {
        match self {
            CryptoError::InvalidKeyLength => "Invalid key length",
            CryptoError::InvalidDataLength => "Invalid data length",
            CryptoError::MicMismatch => "MIC verification failed",
            CryptoError::EncryptionFailed => "Encryption failed",
            CryptoError::DecryptionFailed => "Decryption failed",
            CryptoError::FeatureNotEnabled => "Crypto feature not enabled, compile with --features crypto",
        }
    }
}

/// Result type for crypto operations
pub type CryptoResult<T> = Result<T, CryptoError>;

/// Channel encryption key
pub struct ChannelKey {
    /// 32-byte AES-256 key
    key: [u8; 32],
    /// Channel name for identification
    channel_name: String,
}

impl ChannelKey {
    /// The key bytes.
    pub closed spec fn key_bytes(&self) -> Seq<u8> {
        self.key@
    }

    /// The channel name.
    pub closed spec fn name(&self) -> Seq<char> {
        self.channel_name@
    }

    /// Derive key from channel name and PSK using SHA-256
    fn derive_key(channel_name: &str, psk: &[u8]) -> (key: [u8; 32])
        ensures
            key@ == derived_key(encode_utf8(channel_name@), psk@),
    {
        let mut material: Vec<u8> = vstd::slice::slice_to_vec(channel_name.as_bytes());
        let mut i: usize = 0;
        let ghost start = material@;
        while i < psk.len()
            invariant
                i <= psk.len(),
                material@ == start + psk@.subrange(0, i as int),
            decreases psk.len() - i,
        {
            material.push(psk[i]);
            proof {
                assert(start + psk@.subrange(0, i + 1) =~= (start + psk@.subrange(0, i as int)).push(psk[i as int]));
            }
            i += 1;
        }
        let magic: [u8; 10] = [0x4D, 0x65, 0x73, 0x68, 0x74, 0x61, 0x73, 0x74, 0x69, 0x63];
        let mut j: usize = 0;
        let ghost mid = material@;
        proof {
            assert(psk@.subrange(0, psk.len() as int) =~= psk@);
        }
        while j < 10
            invariant
                j <= 10,
                magic@ == key_magic(),
                material@ == mid + key_magic().subrange(0, j as int),
            decreases 10 - j,
        {
            material.push(magic[j]);
            proof {
                assert(mid + key_magic().subrange(0, j + 1) =~= (mid + key_magic().subrange(0, j as int)).push(
                    key_magic()[j as int],
                ));
            }
            j += 1;
        }
        proof {
            assert(key_magic().subrange(0, 10) =~= key_magic());
        }
        sha256(material.as_slice())
    }

    /// Create a channel key from name and PSK
    pub fn new(channel_name: &str, psk: &[u8]) -> (k: Self)
        ensures
            k.key_bytes() == derived_key(encode_utf8(channel_name@), psk@),
            k.name() == channel_name@,
    {
        let key = Self::derive_key(channel_name, psk);
        ChannelKey { key, channel_name: channel_name.to_owned() }
    }

    /// Create a channel key with the default PSK
    pub fn with_default_psk(channel_name: &str) -> (k: Self)
        ensures
            k.key_bytes() == derived_key(encode_utf8(channel_name@), DEFAULT_PSK@),
            k.name() == channel_name@,
    {
        Self::new(channel_name, DEFAULT_PSK)
    }

    /// Create from raw 32-byte key
    pub fn from_raw(key: [u8; 32], channel_name: &str) -> (k: Self)
        ensures
            k.key_bytes() == key@,
            k.name() == channel_name@,
    {
        ChannelKey { key, channel_name: channel_name.to_owned() }
    }

    /// Get the raw key bytes
    pub fn as_bytes(&self) -> (b: &[u8; 32])
        ensures
            b@ == self.key_bytes(),
    {
        &self.key
    }

    /// Get the channel name
    pub fn channel_name(&self) -> (n: &str)
        ensures
            n@ == self.name(),
    {
        self.channel_name.as_str()
    }

    /// Compute channel hash (first byte of SHA-256(channel_name))
    pub fn channel_hash(&self) -> (h: u8)
        ensures
            h == sha256_digest(encode_utf8(self.name()))[0],
    {
        let d = sha256(self.channel_name.as_str().as_bytes());
        d[0]
    }
}

/// The 16-byte CTR nonce: the source node id's value little-endian (its
/// four bytes in reverse), the packet id little-endian, and eight zero
/// bytes (the base pattern 0..7 XORed with its own index).
pub open spec fn nonce_spec(source: Seq<u8>, packet_id: u32) -> Seq<u8> {
    seq![source[3], source[2], source[1], source[0]] + seq![
        packet_id as u8,
        (packet_id >> 8u32) as u8,
        (packet_id >> 16u32) as u8,
        (packet_id >> 24u32) as u8,
    ] + Seq::new(8, |i: int| 0u8)
}

/// The payload encrypted (or decrypted) with AES-256-CTR.
pub open spec fn ctr_crypt(key: Seq<u8>, nonce: Seq<u8>, data: Seq<u8>) -> Seq<u8> {
    Seq::new(data.len(), |i: int| data[i] ^ aes256_ctr_keystream(key, nonce, i))
}

/// The MIC: the first 4 bytes of HMAC-SHA256(key, header || payload).
pub open spec fn mic_spec(key: Seq<u8>, header: Seq<u8>, payload: Seq<u8>) -> Seq<u8> {
    hmac_sha256_tag(key, header + payload).subrange(0, 4)
}

/// Crypto context for a channel
pub struct CryptoContext {
    /// Channel key
    key: ChannelKey,
}

impl CryptoContext {
    /// The channel key bytes in use.
    pub closed spec fn key_bytes(&self) -> Seq<u8> {
        self.key.key_bytes()
    }

    /// The channel name in use.
    pub closed spec fn name(&self) -> Seq<char> {
        self.key.name()
    }

    /// Create a new crypto context for a channel
    pub fn new(channel_name: &str, psk: &[u8]) -> (c: Self)
        ensures
            c.key_bytes() == derived_key(encode_utf8(channel_name@), psk@),
            c.name() == channel_name@,
    {
        CryptoContext { key: ChannelKey::new(channel_name, psk) }
    }

    /// Create with default PSK
    pub fn with_default_psk(channel_name: &str) -> (c: Self)
        ensures
            c.key_bytes() == derived_key(encode_utf8(channel_name@), DEFAULT_PSK@),
            c.name() == channel_name@,
    {
        CryptoContext { key: ChannelKey::with_default_psk(channel_name) }
    }

    /// Create from an existing channel key
    pub fn from_key(key: ChannelKey) -> (c: Self)
        ensures
            c.key_bytes() == key.key_bytes(),
            c.name() == key.name(),
    {
        CryptoContext { key }
    }

    /// Get channel hash
    pub fn channel_hash(&self) -> (h: u8)
        ensures
            h == sha256_digest(encode_utf8(self.name()))[0],
    {
        self.key.channel_hash()
    }

    /// Construct the 16-byte nonce/IV for AES-CTR: bytes 0-3 the source
    /// node id little-endian, bytes 4-7 the packet id little-endian, bytes
    /// 8-15 zero.
    pub fn make_nonce(source: NodeId, packet_id: u32) -> (nonce: [u8; 16])
        ensures
            nonce@ == nonce_spec(source.bytes(), packet_id),
    {
        let s = source.as_bytes();
        let nonce: [u8; 16] = [
            s[3],
            s[2],
            s[1],
            s[0],
            packet_id as u8,
            (packet_id >> 8) as u8,
            (packet_id >> 16) as u8,
            (packet_id >> 24) as u8,
            0u8 ^ 0u8,
            1u8 ^ 1u8,
            2u8 ^ 2u8,
            3u8 ^ 3u8,
            4u8 ^ 4u8,
            5u8 ^ 5u8,
            6u8 ^ 6u8,
            7u8 ^ 7u8,
        ];
        proof {
            assert(0u8 ^ 0u8 == 0u8 && 1u8 ^ 1u8 == 0u8 && 2u8 ^ 2u8 == 0u8 && 3u8 ^ 3u8 == 0u8 && 4u8
                ^ 4u8 == 0u8 && 5u8 ^ 5u8 == 0u8 && 6u8 ^ 6u8 == 0u8 && 7u8 ^ 7u8 == 0u8) by (bit_vector);
            assert(nonce@ =~= nonce_spec(source.bytes(), packet_id));
        }
        nonce
    }

    /// Compute MIC (first 4 bytes of HMAC-SHA256 of header and payload)
    fn compute_mic(&self, header: &[u8], payload: &[u8]) -> (r: CryptoResult<[u8; 4]>)
        ensures
            r.is_ok(),
            r.is_ok() ==> r.unwrap()@ == mic_spec(self.key_bytes(), header@, payload@),
    {
        let mut msg: Vec<u8> = vstd::slice::slice_to_vec(header);
        let ghost h = msg@;
        let mut i: usize = 0;
        while i < payload.len()
            invariant
                i <= payload.len(),
                h == header@,
                msg@ == h + payload@.subrange(0, i as int),
            decreases payload.len() - i,
        {
            msg.push(payload[i]);
            proof {
                assert(h + payload@.subrange(0, i + 1) =~= (h + payload@.subrange(0, i as int)).push(payload[i as int]));
            }
            i += 1;
        }
        proof {
            assert(payload@.subrange(0, payload.len() as int) =~= payload@);
        }
        let key = self.key.as_bytes();
        match hmac_sha256(key.as_slice(), msg.as_slice()) {
            Ok(tag) => {
                let mic: [u8; 4] = [tag[0], tag[1], tag[2], tag[3]];
                proof {
                    assert(mic@ =~= tag@.subrange(0, 4));
                }
                Ok(mic)
            },
            Err(_) => Err(CryptoError::InvalidKeyLength),
        }
    }

    /// Encrypt payload and compute MIC
    ///
    /// Returns (ciphertext, mic)
    pub fn encrypt(&self, plaintext: &[u8], source: NodeId, packet_id: u32, header_bytes: &[u8]) -> (r:
        CryptoResult<(Vec<u8>, [u8; 4])>)
        ensures
            r.is_ok(),
            r.is_ok() ==> ({
                let (ct, mic) = r.unwrap();
                &&& ct@ == ctr_crypt(self.key_bytes(), nonce_spec(source.bytes(), packet_id), plaintext@)
                &&& mic@ == mic_spec(self.key_bytes(), header_bytes@, ct@)
            }),
    {
        let nonce = Self::make_nonce(source, packet_id);
        let ciphertext = aes256_ctr_apply(self.key.as_bytes(), &nonce, plaintext);
        proof {
            assert(ciphertext@ =~= ctr_crypt(self.key_bytes(), nonce@, plaintext@));
        }
        match self.compute_mic(header_bytes, ciphertext.as_slice()) {
            Ok(mic) => Ok((ciphertext, mic)),
            Err(e) => Err(e),
        }
    }

    /// Decrypt payload and verify MIC
    pub fn decrypt(
        &self,
        ciphertext: &[u8],
        source: NodeId,
        packet_id: u32,
        header_bytes: &[u8],
        mic: &[u8; 4],
    ) -> (r: CryptoResult<Vec<u8>>)
        ensures
            mic_spec(self.key_bytes(), header_bytes@, ciphertext@) != mic@ ==> r == Err::<Vec<u8>, CryptoError>(
                CryptoError::MicMismatch,
            ),
            mic_spec(self.key_bytes(), header_bytes@, ciphertext@) == mic@ ==> r.is_ok() && r.unwrap()@
                == ctr_crypt(self.key_bytes(), nonce_spec(source.bytes(), packet_id), ciphertext@),
    {
        let expected_mic = match self.compute_mic(header_bytes, ciphertext) {
            Ok(m) => m,
            Err(e) => {
                return Err(e);
            },
        };
        let same = expected_mic[0] == mic[0] && expected_mic[1] == mic[1] && expected_mic[2] == mic[2]
            && expected_mic[3] == mic[3];
        if !same {
            proof {
                assert(expected_mic@ != mic@) by {
                    if expected_mic@ == mic@ {
                        assert(expected_mic@[0] == mic@[0] && expected_mic@[1] == mic@[1]
                            && expected_mic@[2] == mic@[2] && expected_mic@[3] == mic@[3]);
                    }
                }
            }
            return Err(CryptoError::MicMismatch);
        }
        proof {
            assert(expected_mic@ =~= mic@);
        }
        let nonce = Self::make_nonce(source, packet_id);
        let plaintext = aes256_ctr_apply(self.key.as_bytes(), &nonce, ciphertext);
        proof {
            assert(plaintext@ =~= ctr_crypt(self.key_bytes(), nonce@, ciphertext@));
        }
        Ok(plaintext)
    }
}

/// Extension trait for encrypting/decrypting packets.
pub trait PacketCrypto {
    /// Encrypt the packet payload
    fn encrypt(&mut self, ctx: &CryptoContext) -> CryptoResult<()>;

    /// Decrypt the packet payload
    fn decrypt(&mut self, ctx: &CryptoContext) -> CryptoResult<()>;
}

/// Two packets agree in every field, the payload by its bytes.
pub open spec fn same_packet(a: MeshPacket, b: MeshPacket) -> bool {
    &&& a.header == b.header
    &&& a.packet_type == b.packet_type
    &&& a.payload@ == b.payload@
    &&& a.mic == b.mic
    &&& a.rx_rssi == b.rx_rssi
    &&& a.rx_snr == b.rx_snr
    &&& a.rx_time == b.rx_time
}

/// The nonce of a packet: its source and its packet id widened to 32 bits.
pub open spec fn packet_nonce(h: PacketHeader) -> Seq<u8> {
    nonce_spec(h.source.bytes(), h.packet_id as u32)
}

impl PacketCrypto for MeshPacket {
    /// Encrypt the payload in place, unless the packet is already
    /// encrypted: the encrypted flag is set first, the payload is replaced
    /// by its AES-CTR ciphertext under the packet's nonce, and the MIC is
    /// taken over the header (flag set) and the ciphertext.
    fn encrypt(&mut self, ctx: &CryptoContext) -> (r: CryptoResult<()>)
        ensures
            r.is_ok(),
            old(self).header.flags.bits() & 0x20u8 != 0 ==> same_packet(*final(self), *old(self)),
            old(self).header.flags.bits() & 0x20u8 == 0 ==> {
                &&& final(self).header.flags.bits() == old(self).header.flags.bits() | 0x20u8
                &&& final(self).header.destination == old(self).header.destination
                &&& final(self).header.source == old(self).header.source
                &&& final(self).header.packet_id == old(self).header.packet_id
                &&& final(self).header.hop_limit == old(self).header.hop_limit
                &&& final(self).header.channel == old(self).header.channel
                &&& final(self).payload@ == ctr_crypt(ctx.key_bytes(), packet_nonce(old(self).header), old(self).payload@)
                &&& final(self).mic matches Some(m) && m@ == mic_spec(
                    ctx.key_bytes(),
                    header_bytes(final(self).header),
                    final(self).payload@,
                )
                &&& final(self).packet_type == old(self).packet_type
                &&& final(self).rx_rssi == old(self).rx_rssi
                &&& final(self).rx_snr == old(self).rx_snr
                &&& final(self).rx_time == old(self).rx_time
            },
    {
        if self.header.flags.encrypted() {
            return Ok(());
        }
        self.header.flags.set_encrypted(true);
        let header = self.header.to_bytes();
        let packet_id_32 = self.header.packet_id as u32;
        match ctx.encrypt(self.payload.as_slice(), self.header.source, packet_id_32, header.as_slice()) {
            Ok((ciphertext, mic)) => {
                self.payload = ciphertext;
                self.mic = Some(mic);
                Ok(())
            },
            Err(e) => Err(e),
        }
    }

    /// Decrypt the payload in place, if the packet is encrypted: without a
    /// MIC, or with one that does not match the header and ciphertext, the
    /// packet stays as it is and `MicMismatch` comes back; otherwise the
    /// payload becomes the plaintext, the MIC goes and the encrypted flag
    /// is cleared.
    fn decrypt(&mut self, ctx: &CryptoContext) -> (r: CryptoResult<()>)
        ensures
            old(self).header.flags.bits() & 0x20u8 == 0 ==> r.is_ok() && same_packet(*final(self), *old(self)),
            old(self).header.flags.bits() & 0x20u8 != 0 ==> match old(self).mic {
                None => r == Err::<(), CryptoError>(CryptoError::MicMismatch) && same_packet(
                    *final(self),
                    *old(self),
                ),
                Some(m) => if m@ != mic_spec(ctx.key_bytes(), header_bytes(old(self).header), old(self).payload@) {
                    r == Err::<(), CryptoError>(CryptoError::MicMismatch) && same_packet(*final(self), *old(self))
                } else {
                    &&& r.is_ok()
                    &&& final(self).payload@ == ctr_crypt(
                        ctx.key_bytes(),
                        packet_nonce(old(self).header),
                        old(self).payload@,
                    )
                    &&& final(self).mic.is_none()
                    &&& final(self).header.flags.bits() == old(self).header.flags.bits() & 0xDFu8
                    &&& final(self).header.destination == old(self).header.destination
                    &&& final(self).header.source == old(self).header.source
                    &&& final(self).header.packet_id == old(self).header.packet_id
                    &&& final(self).header.hop_limit == old(self).header.hop_limit
                    &&& final(self).header.channel == old(self).header.channel
                    &&& final(self).packet_type == old(self).packet_type
                    &&& final(self).rx_rssi == old(self).rx_rssi
                    &&& final(self).rx_snr == old(self).rx_snr
                    &&& final(self).rx_time == old(self).rx_time
                },
            },
    {
        if !self.header.flags.encrypted() {
            return Ok(());
        }
        let mic = match self.mic {
            Some(m) => m,
            None => {
                return Err(CryptoError::MicMismatch);
            },
        };
        let header = self.header.to_bytes();
        let packet_id_32 = self.header.packet_id as u32;
        match ctx.decrypt(self.payload.as_slice(), self.header.source, packet_id_32, header.as_slice(), &mic) {
            Ok(plaintext) => {
                self.payload = plaintext;
                self.mic = None;
                self.header.flags.set_encrypted(false);
                Ok(())
            },
            Err(e) => Err(e),
        }
    }
}

/// Decrypting what encryption produced, with the same key, source, packet
/// id and header, passes the MIC check and gives the plaintext back.
pub proof fn lemma_encrypt_decrypt_roundtrip(
    key: Seq<u8>,
    source: Seq<u8>,
    packet_id: u32,
    header: Seq<u8>,
    plaintext: Seq<u8>,
    ct: Seq<u8>,
    mic: Seq<u8>,
)
    requires
        ct == ctr_crypt(key, nonce_spec(source, packet_id), plaintext),
        mic == mic_spec(key, header, ct),
    ensures
        mic_spec(key, header, ct) == mic,
        ctr_crypt(key, nonce_spec(source, packet_id), ct) == plaintext,
{
    let nonce = nonce_spec(source, packet_id);
    assert forall|i: int| 0 <= i < plaintext.len() implies ctr_crypt(key, nonce, ct)[i] == plaintext[i] by {
        let k = aes256_ctr_keystream(key, nonce, i);
        let p = plaintext[i];
        assert((p ^ k) ^ k == p) by (bit_vector);
    }
    assert(ctr_crypt(key, nonce, ct) =~= plaintext);
}

/// Different sources or packet ids give different nonces.
pub proof fn lemma_nonce_injective(s1: Seq<u8>, p1: u32, s2: Seq<u8>, p2: u32)
    requires
        s1.len() == 4,
        s2.len() == 4,
        nonce_spec(s1, p1) == nonce_spec(s2, p2),
    ensures
        s1 == s2,
        p1 == p2,
{
    let n1 = nonce_spec(s1, p1);
    let n2 = nonce_spec(s2, p2);
    assert forall|i: int| 0 <= i < 4 implies s1[i] == s2[i] by {
        assert(n1[3 - i] == n2[3 - i]);
    }
    assert(s1 =~= s2);
    assert(n1[4] == n2[4] && n1[5] == n2[5] && n1[6] == n2[6] && n1[7] == n2[7]);
    let a0 = p1 as u8;
    let a1 = (p1 >> 8u32) as u8;
    let a2 = (p1 >> 16u32) as u8;
    let a3 = (p1 >> 24u32) as u8;
    let b0 = p2 as u8;
    let b1 = (p2 >> 8u32) as u8;
    let b2 = (p2 >> 16u32) as u8;
    let b3 = (p2 >> 24u32) as u8;
    assert(p1 == p2) by (bit_vector)
        requires
            p1 as u8 == p2 as u8,
            (p1 >> 8u32) as u8 == (p2 >> 8u32) as u8,
            (p1 >> 16u32) as u8 == (p2 >> 16u32) as u8,
            (p1 >> 24u32) as u8 == (p2 >> 24u32) as u8,
    ;
}


/// Decrypting an encrypted packet gives the original packet back: when `e`
/// is what encrypting the unencrypted packet `p` under `key` gives (flag
/// set, payload enciphered under the packet's nonce, MIC over the new
/// header and the ciphertext), then `e` is marked encrypted, its MIC
/// checks, its payload deciphers to `p`'s, and clearing the flag restores
/// `p`'s flags.
pub proof fn lemma_packet_encrypt_decrypt_roundtrip(key: Seq<u8>, p: MeshPacket, e: MeshPacket, m: [u8; 4])
    requires
        p.header.flags.bits() & 0x20u8 == 0,
        e.header.flags.bits() == p.header.flags.bits() | 0x20u8,
        e.header.source == p.header.source,
        e.header.packet_id == p.header.packet_id,
        e.payload@ == ctr_crypt(key, packet_nonce(p.header), p.payload@),
        e.mic == Some(m),
        m@ == mic_spec(key, header_bytes(e.header), e.payload@),
    ensures
        e.header.flags.bits() & 0x20u8 != 0,
        m@ == mic_spec(key, header_bytes(e.header), e.payload@),
        ctr_crypt(key, packet_nonce(e.header), e.payload@) == p.payload@,
        e.header.flags.bits() & 0xDFu8 == p.header.flags.bits(),
{
    lemma_encrypt_decrypt_roundtrip(
        key,
        p.header.source.bytes(),
        p.header.packet_id as u32,
        header_bytes(e.header),
        p.payload@,
        e.payload@,
        m@,
    );
    let b = p.header.flags.bits();
    assert((b | 0x20u8) & 0x20u8 != 0 && (b | 0x20u8) & 0xDFu8 == b) by (bit_vector)
        requires
            b & 0x20u8 == 0,
    ;
}

} // verus!
