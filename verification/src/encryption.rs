//! Decryption of payloads, and the keys that the peer sends for it.
//!
//! The peer encrypts payloads with AES in counter mode under one of two keys, the even
//! and the odd one, and names the key in each packet. It sends the keys in keying-material
//! messages, wrapped under a key that both sides derive from the passphrase. While one
//! key is in use the peer can replace the other, so that packets under the old key are
//! still read while the new one comes into use.

use crate::packet::{DataEncryption, DataPacket, KeyingMaterialMessage, KeyingMaterialView};
use crate::seq_number::SeqNumber;
use ctr::cipher::{KeyIvInit, StreamCipher};
use vstd::prelude::*;

verus! {

/// Bytes of salt in a keying-material message.
pub const SALT_SIZE: usize = 16;

/// Bytes by which a wrapped key is longer than the key.
pub const WRAP_OVERHEAD: usize = 8;

/// Rounds of the derivation of the key that wraps the keys.
pub const KEY_DERIVATION_ROUNDS: u32 = 2048;

/// Bytes of the counter block that the cipher starts from.
pub const IV_SIZE: usize = 16;

/// Why a payload could not be decrypted.
#[derive(Clone, Copy, Debug, PartialEq, Eq, Structural)]
pub enum DecryptionError {
    /// The packet is encrypted and the connection has no passphrase.
    NoCipher,
    /// No key has been received yet for the stream of the packet.
    MissingKey,
    /// The cipher refused the key, the counter block or the payload.
    CipherFailure,
}

/// Why keying material was not taken.
#[derive(Clone, Copy, Debug, PartialEq, Eq, Structural)]
pub enum KeyMaterialError {
    /// The connection has no passphrase.
    NoCipher,
    /// The salt or the wrapped keys do not have the length that the message announces.
    Malformed,
    /// The wrapped keys do not unwrap under the key that the passphrase gives.
    Unauthenticated,
}

/// The length of the keys of a connection.
#[derive(Clone, Copy, Debug, PartialEq, Eq, Structural)]
pub enum KeySize {
    Aes128,
    Aes192,
    Aes256,
}

impl KeySize {
    pub open spec fn len(self) -> int {
        match self {
            KeySize::Aes128 => 16,
            KeySize::Aes192 => 24,
            KeySize::Aes256 => 32,
        }
    }

    /// The length of a key in bytes.
    pub fn bytes(self) -> (r: usize)
        ensures
            r == self.len(),
    {
        match self {
            KeySize::Aes128 => 16,
            KeySize::Aes192 => 24,
            KeySize::Aes256 => 32,
        }
    }
}

/// What a connection needs to decrypt: the length of its keys and the passphrase.
#[derive(Debug, PartialEq, Eq)]
pub struct CipherSettings {
    pub key_size: KeySize,
    pub passphrase: Vec<u8>,
}

/// The key of one stream and the salt that came with it.
#[derive(Debug)]
pub struct StreamKey {
    key: Vec<u8>,
    salt: Vec<u8>,
}

/// The key of one stream, as values.
pub struct StreamKeyView {
    pub key: Seq<u8>,
    pub salt: Seq<u8>,
}

impl View for StreamKey {
    type V = StreamKeyView;

    closed spec fn view(&self) -> StreamKeyView {
        StreamKeyView { key: self.key@, salt: self.salt@ }
    }
}

/// The key that PBKDF2 with HMAC-SHA1 derives: `len` bytes from `password` and `salt`
/// in `rounds` rounds.
pub uninterp spec fn pbkdf2_hmac_sha1(password: Seq<u8>, salt: Seq<u8>, rounds: int, len: int) -> Seq<u8>;

/// What the AES key unwrap of RFC 3394 makes of `wrapped` under the key `kek`, into
/// `room` bytes: the keys, or nothing where the lengths do not fit or the wrapped bytes
/// are not authentic.
pub uninterp spec fn aes_key_unwrap(kek: Seq<u8>, wrapped: Seq<u8>, room: int) -> Option<Seq<u8>>;

/// What AES in counter mode, with a big-endian counter of 128 bits that starts at `iv`,
/// makes of `data` under `key`: the data with the key stream applied, or nothing where
/// the cipher refuses the lengths.
pub uninterp spec fn aes_ctr(key: Seq<u8>, iv: Seq<u8>, data: Seq<u8>) -> Option<Seq<u8>>;

/// Calls `pbkdf2::pbkdf2_hmac` with SHA-1 on a buffer of `len` zero bytes. The call fills
/// the buffer it is given and does not change its length.
#[verifier::external_body]
fn derive_key(password: &[u8], salt: &[u8], rounds: u32, len: usize) -> (key: Vec<u8>)
    ensures
        key@ == pbkdf2_hmac_sha1(password@, salt@, rounds as int, len as int),
        key@.len() == len,
{
    let mut key = vec![0u8; len];
    pbkdf2::pbkdf2_hmac::<sha1::Sha1>(password, salt, rounds, &mut key);
    key
}

/// Calls `aes_kw::Kek::unwrap` with AES-128 on a buffer of `room` bytes. The call
/// succeeds only into a buffer that it fills whole. The key has the 16 bytes of an
/// AES-128 key: the length tells the three ciphers apart, so the result is named by the
/// key, the wrapped bytes and the room alone.
#[verifier::external_body]
fn key_unwrap_128(kek: &[u8], wrapped: &[u8], room: usize) -> (r: Option<Vec<u8>>)
    requires
        kek@.len() == 16,
    ensures
        match r {
            Some(keys) => aes_key_unwrap(kek@, wrapped@, room as int) == Some(keys@)
                && keys@.len() == room,
            None => aes_key_unwrap(kek@, wrapped@, room as int).is_none(),
        },
{
    let mut keys = vec![0u8; room];
    match aes_kw::KekAes128::try_from(kek) {
        Ok(unwrapper) => match unwrapper.unwrap(wrapped, &mut keys) {
            Ok(()) => Some(keys),
            Err(_) => None,
        },
        Err(_) => None,
    }
}

/// Calls `aes_kw::Kek::unwrap` with AES-192 on a buffer of `room` bytes. The call
/// succeeds only into a buffer that it fills whole. The key has the 24 bytes of an
/// AES-192 key: the length tells the three ciphers apart, so the result is named by the
/// key, the wrapped bytes and the room alone.
#[verifier::external_body]
fn key_unwrap_192(kek: &[u8], wrapped: &[u8], room: usize) -> (r: Option<Vec<u8>>)
    requires
        kek@.len() == 24,
    ensures
        match r {
            Some(keys) => aes_key_unwrap(kek@, wrapped@, room as int) == Some(keys@)
                && keys@.len() == room,
            None => aes_key_unwrap(kek@, wrapped@, room as int).is_none(),
        },
{
    let mut keys = vec![0u8; room];
    match aes_kw::KekAes192::try_from(kek) {
        Ok(unwrapper) => match unwrapper.unwrap(wrapped, &mut keys) {
            Ok(()) => Some(keys),
            Err(_) => None,
        },
        Err(_) => None,
    }
}

/// Calls `aes_kw::Kek::unwrap` with AES-256 on a buffer of `room` bytes. The call
/// succeeds only into a buffer that it fills whole. The key has the 32 bytes of an
/// AES-256 key: the length tells the three ciphers apart, so the result is named by the
/// key, the wrapped bytes and the room alone.
#[verifier::external_body]
fn key_unwrap_256(kek: &[u8], wrapped: &[u8], room: usize) -> (r: Option<Vec<u8>>)
    requires
        kek@.len() == 32,
    ensures
        match r {
            Some(keys) => aes_key_unwrap(kek@, wrapped@, room as int) == Some(keys@)
                && keys@.len() == room,
            None => aes_key_unwrap(kek@, wrapped@, room as int).is_none(),
        },
{
    let mut keys = vec![0u8; room];
    match aes_kw::KekAes256::try_from(kek) {
        Ok(unwrapper) => match unwrapper.unwrap(wrapped, &mut keys) {
            Ok(()) => Some(keys),
            Err(_) => None,
        },
        Err(_) => None,
    }
}

/// Calls `try_apply_keystream` of `ctr::Ctr128BE` over AES-128 on `data`. The call
/// changes the bytes of the buffer in place. The key has the 16 bytes of an AES-128 key:
/// the length tells the three ciphers apart, so the result is named by the key, the
/// counter block and the data alone.
#[verifier::external_body]
fn apply_ctr_128(key: &[u8], iv: &[u8], data: Vec<u8>) -> (r: Option<Vec<u8>>)
    requires
        key@.len() == 16,
    ensures
        match r {
            Some(out) => aes_ctr(key@, iv@, data@) == Some(out@) && out@.len() == data@.len(),
            None => aes_ctr(key@, iv@, data@).is_none(),
        },
{
    let mut out = data;
    match ctr::Ctr128BE::<aes::Aes128>::new_from_slices(key, iv) {
        Ok(mut cipher) => match cipher.try_apply_keystream(&mut out) {
            Ok(()) => Some(out),
            Err(_) => None,
        },
        Err(_) => None,
    }
}

/// Calls `try_apply_keystream` of `ctr::Ctr128BE` over AES-192 on `data`. The call
/// changes the bytes of the buffer in place. The key has the 24 bytes of an AES-192 key:
/// the length tells the three ciphers apart, so the result is named by the key, the
/// counter block and the data alone.
#[verifier::external_body]
fn apply_ctr_192(key: &[u8], iv: &[u8], data: Vec<u8>) -> (r: Option<Vec<u8>>)
    requires
        key@.len() == 24,
    ensures
        match r {
            Some(out) => aes_ctr(key@, iv@, data@) == Some(out@) && out@.len() == data@.len(),
            None => aes_ctr(key@, iv@, data@).is_none(),
        },
{
    let mut out = data;
    match ctr::Ctr128BE::<aes::Aes192>::new_from_slices(key, iv) {
        Ok(mut cipher) => match cipher.try_apply_keystream(&mut out) {
            Ok(()) => Some(out),
            Err(_) => None,
        },
        Err(_) => None,
    }
}

/// Calls `try_apply_keystream` of `ctr::Ctr128BE` over AES-256 on `data`. The call
/// changes the bytes of the buffer in place. The key has the 32 bytes of an AES-256 key:
/// the length tells the three ciphers apart, so the result is named by the key, the
/// counter block and the data alone.
#[verifier::external_body]
fn apply_ctr_256(key: &[u8], iv: &[u8], data: Vec<u8>) -> (r: Option<Vec<u8>>)
    requires
        key@.len() == 32,
    ensures
        match r {
            Some(out) => aes_ctr(key@, iv@, data@) == Some(out@) && out@.len() == data@.len(),
            None => aes_ctr(key@, iv@, data@).is_none(),
        },
{
    let mut out = data;
    match ctr::Ctr128BE::<aes::Aes256>::new_from_slices(key, iv) {
        Ok(mut cipher) => match cipher.try_apply_keystream(&mut out) {
            Ok(()) => Some(out),
            Err(_) => None,
        },
        Err(_) => None,
    }
}

/// Byte `i` of a salt, or zero where the salt is shorter.
pub open spec fn salt_byte(salt: Seq<u8>, i: int) -> u8 {
    if 0 <= i < salt.len() {
        salt[i]
    } else {
        0u8
    }
}

/// Byte `i` of the counter block of a packet: the salt's byte, and in the four bytes
/// from the tenth on the salt's byte combined by exclusive or with the packet's
/// sequence number, most significant byte first. The last two bytes count the blocks and
/// start at zero.
pub open spec fn iv_byte(salt: Seq<u8>, seq: int, i: int) -> u8 {
    if i >= 14 {
        0u8
    } else if i == 10 {
        salt_byte(salt, i) ^ ((seq / 0x100_0000) % 0x100) as u8
    } else if i == 11 {
        salt_byte(salt, i) ^ ((seq / 0x1_0000) % 0x100) as u8
    } else if i == 12 {
        salt_byte(salt, i) ^ ((seq / 0x100) % 0x100) as u8
    } else if i == 13 {
        salt_byte(salt, i) ^ (seq % 0x100) as u8
    } else {
        salt_byte(salt, i)
    }
}

/// The counter block that the cipher starts from for the packet numbered `seq`.
pub open spec fn packet_iv(salt: Seq<u8>, seq: int) -> Seq<u8> {
    Seq::new(16, |i: int| iv_byte(salt, seq, i))
}

/// The bytes of keys that a message carries, for keys of `key_len` bytes.
pub open spec fn carried_len(material: KeyingMaterialView, key_len: int) -> int {
    (if material.even {
        key_len
    } else {
        0
    }) + (if material.odd {
        key_len
    } else {
        0
    })
}

/// Whether a message has a salt of the right length, carries a key, and has wrapped
/// keys of the length that the keys it carries take.
pub open spec fn material_ok(material: KeyingMaterialView, key_len: int) -> bool {
    &&& material.salt.len() == SALT_SIZE
    &&& material.even || material.odd
    &&& material.wrapped_keys.len() == carried_len(material, key_len) + WRAP_OVERHEAD
}

/// The key that wraps the keys of a message: derived from the passphrase and the
/// second half of the message's salt.
pub open spec fn wrapping_key(passphrase: Seq<u8>, salt: Seq<u8>, key_len: int) -> Seq<u8> {
    pbkdf2_hmac_sha1(passphrase, salt.subrange(8, 16), KEY_DERIVATION_ROUNDS as int, key_len)
}

/// The key of the even stream once the message's unwrapped `keys` are taken.
pub open spec fn even_after(
    before: Option<StreamKeyView>,
    material: KeyingMaterialView,
    keys: Seq<u8>,
    key_len: int,
) -> Option<StreamKeyView> {
    if material.even {
        Some(StreamKeyView { key: keys.subrange(0, key_len), salt: material.salt })
    } else {
        before
    }
}

/// The key of the odd stream once the message's unwrapped `keys` are taken: the odd
/// key stands behind the even one where the message carries both.
pub open spec fn odd_after(
    before: Option<StreamKeyView>,
    material: KeyingMaterialView,
    keys: Seq<u8>,
    key_len: int,
) -> Option<StreamKeyView> {
    if material.odd {
        let from = if material.even { key_len } else { 0 };
        Some(StreamKeyView { key: keys.subrange(from, from + key_len), salt: material.salt })
    } else {
        before
    }
}

/// A copy of the bytes from `from` on, `len` of them.
fn copy_bytes(source: &[u8], from: usize, len: usize) -> (r: Vec<u8>)
    requires
        from + len <= source@.len(),
    ensures
        r@ == source@.subrange(from as int, from + len),
{
    let total: usize = source.len();
    let mut out: Vec<u8> = Vec::new();
    let mut i: usize = 0;
    while i < len
        invariant
            i <= len,
            total == source@.len(),
            from + len <= source@.len(),
            out@ == source@.subrange(from as int, from + i),
        decreases len - i,
    {
        out.push(source[from + i]);
        proof {
            assert(out@ =~= source@.subrange(from as int, from + i + 1));
        }
        i += 1;
    }
    out
}

/// Whether two runs of bytes are the same.
fn same_bytes(a: &[u8], b: &[u8]) -> (r: bool)
    ensures
        r == (a@ == b@),
{
    if a.len() != b.len() {
        return false;
    }
    let mut i: usize = 0;
    while i < a.len()
        invariant
            i <= a@.len(),
            a@.len() == b@.len(),
            forall|j: int| 0 <= j < i ==> a@[j] == b@[j],
        decreases a.len() - i,
    {
        if a[i] != b[i] {
            return false;
        }
        i += 1;
    }
    proof {
        assert(a@ =~= b@);
    }
    true
}

/// The counter block that the cipher starts from for the packet numbered `seq`. A salt
/// that is too short counts as filled up with zeros.
pub fn make_iv(salt: &[u8], seq: SeqNumber) -> (iv: Vec<u8>)
    ensures
        iv@ == packet_iv(salt@, seq@),
{
    let raw: u32 = seq.as_raw();
    let mut iv: Vec<u8> = Vec::new();
    let mut i: usize = 0;
    while i < IV_SIZE
        invariant
            i <= 16,
            raw == seq@,
            iv@.len() == i,
            forall|j: int| 0 <= j < i ==> iv@[j] == iv_byte(salt@, seq@, j),
        decreases 16 - i,
    {
        let salted: u8 = if i < salt.len() { salt[i] } else { 0 };
        let byte: u8 = if i >= 14 {
            0
        } else if i == 10 {
            salted ^ ((raw / 0x100_0000) % 0x100) as u8
        } else if i == 11 {
            salted ^ ((raw / 0x1_0000) % 0x100) as u8
        } else if i == 12 {
            salted ^ ((raw / 0x100) % 0x100) as u8
        } else if i == 13 {
            salted ^ (raw % 0x100) as u8
        } else {
            salted
        };
        iv.push(byte);
        i += 1;
    }
    proof {
        assert(iv@ =~= packet_iv(salt@, seq@));
    }
    iv
}

/// The packet with its payload decrypted, or the error for a cipher that gave nothing:
/// `plain` is what the cipher made of the `size` bytes of payload.
pub fn decrypted_packet(
    seq_number: SeqNumber,
    msg_number: u32,
    timestamp: crate::time::TimeStamp,
    dest_socket_id: u32,
    size: usize,
    plain: Option<Vec<u8>>,
) -> (r: Result<(usize, DataPacket), DecryptionError>)
    ensures
        match plain {
            Some(payload) => r.is_ok() && r.unwrap().0 == size && r.unwrap().1 == (DataPacket {
                seq_number,
                msg_number,
                timestamp,
                dest_socket_id,
                encryption: DataEncryption::Plain,
                payload,
            }),
            None => r == Err::<(usize, DataPacket), DecryptionError>(DecryptionError::CipherFailure),
        },
{
    match plain {
        Some(payload) => Ok(
            (
                size,
                DataPacket {
                    seq_number,
                    msg_number,
                    timestamp,
                    dest_socket_id,
                    encryption: DataEncryption::Plain,
                    payload,
                },
            ),
        ),
        None => Err(DecryptionError::CipherFailure),
    }
}

/// The keys of a connection and what is needed to take new ones.
#[derive(Debug)]
pub struct Decryption {
    settings: Option<CipherSettings>,
    even: Option<StreamKey>,
    odd: Option<StreamKey>,
    last_material: Option<KeyingMaterialMessage>,
}

impl Decryption {
    /// The passphrase, where the connection has one.
    pub closed spec fn passphrase(&self) -> Option<Seq<u8>> {
        match self.settings {
            Some(settings) => Some(settings.passphrase@),
            None => None,
        }
    }

    /// The length of the connection's keys; zero without a passphrase.
    pub closed spec fn key_len(&self) -> int {
        match self.settings {
            Some(settings) => settings.key_size.len(),
            None => 0,
        }
    }

    /// The key of the even stream, where one was received.
    pub closed spec fn even_key(&self) -> Option<StreamKeyView> {
        match self.even {
            Some(key) => Some(key@),
            None => None,
        }
    }

    /// The key of the odd stream, where one was received.
    pub closed spec fn odd_key(&self) -> Option<StreamKeyView> {
        match self.odd {
            Some(key) => Some(key@),
            None => None,
        }
    }

    /// The keying material that was taken last.
    pub closed spec fn last_material(&self) -> Option<KeyingMaterialView> {
        match self.last_material {
            Some(material) => Some(material@),
            None => None,
        }
    }

    /// The key that decrypts a packet marked `encryption`.
    pub open spec fn key_for(&self, encryption: DataEncryption) -> Option<StreamKeyView> {
        match encryption {
            DataEncryption::Plain => None,
            DataEncryption::Even => self.even_key(),
            DataEncryption::Odd => self.odd_key(),
        }
    }

    /// Keys are held only with a passphrase, and have the length of the connection's
    /// keys and a salt of full length.
    pub open spec fn wf(&self) -> bool {
        &&& self.passphrase().is_none() ==> self.even_key().is_none() && self.odd_key().is_none()
        &&& self.passphrase().is_some() ==> self.key_len() == 16 || self.key_len() == 24
            || self.key_len() == 32
        &&& self.even_key() matches Some(key) ==> key.key.len() == self.key_len() && key.salt.len()
            == SALT_SIZE
        &&& self.odd_key() matches Some(key) ==> key.key.len() == self.key_len() && key.salt.len()
            == SALT_SIZE
    }

    /// Decryption for a connection with the given settings, before any key arrived.
    pub fn new(cipher: Option<CipherSettings>) -> (r: Decryption)
        ensures
            r.wf(),
            r.passphrase() == match cipher {
                Some(settings) => Some(settings.passphrase@),
                None => None,
            },
            r.key_len() == match cipher {
                Some(settings) => settings.key_size.len(),
                None => 0,
            },
            r.even_key().is_none(),
            r.odd_key().is_none(),
            r.last_material().is_none(),
    {
        Decryption { settings: cipher, even: None, odd: None, last_material: None }
    }

    /// What `decrypt` makes of a packet: the result `r`.
    pub open spec fn decrypted(
        &self,
        packet: DataPacket,
        r: Result<(usize, DataPacket), DecryptionError>,
    ) -> bool {
        &&& packet.encryption == DataEncryption::Plain ==> r.is_ok() && r.unwrap().0 == 0
            && r.unwrap().1 == packet
        &&& packet.encryption != DataEncryption::Plain ==> match self.key_for(packet.encryption) {
            None => r == Err::<(usize, DataPacket), DecryptionError>(
                if self.passphrase().is_none() {
                    DecryptionError::NoCipher
                } else {
                    DecryptionError::MissingKey
                },
            ),
            Some(key) => match aes_ctr(
                key.key,
                packet_iv(key.salt, packet.seq_number@),
                packet.payload@,
            ) {
                Some(plain) => {
                    &&& r.is_ok()
                    &&& r.unwrap().0 == packet.payload@.len()
                    &&& r.unwrap().1.payload@ == plain
                    &&& r.unwrap().1.encryption == DataEncryption::Plain
                    &&& r.unwrap().1.seq_number == packet.seq_number
                    &&& r.unwrap().1.msg_number == packet.msg_number
                    &&& r.unwrap().1.timestamp == packet.timestamp
                    &&& r.unwrap().1.dest_socket_id == packet.dest_socket_id
                },
                None => r == Err::<(usize, DataPacket), DecryptionError>(
                    DecryptionError::CipherFailure,
                ),
            },
        }
    }

    /// Decrypts the payload of a packet, and says how many bytes were decrypted.
    ///
    /// A packet that is not encrypted comes back as it is, with zero bytes decrypted.
    /// An encrypted one needs the key of its stream: without a passphrase, or before the
    /// key arrived, it fails. With the key its payload is run through the cipher, from
    /// the counter block that the key's salt and the packet's sequence number give, and
    /// the packet comes back marked as not encrypted.
    pub fn decrypt(&self, packet: DataPacket) -> (r: Result<(usize, DataPacket), DecryptionError>)
        requires
            self.wf(),
        ensures
            self.decrypted(packet, r),
    {
        let stream: &Option<StreamKey> = match packet.encryption {
            DataEncryption::Plain => {
                return Ok((0, packet));
            },
            DataEncryption::Even => &self.even,
            DataEncryption::Odd => &self.odd,
        };
        let key: &StreamKey = match stream {
            Some(key) => key,
            None => {
                return Err(
                    if self.settings.is_none() {
                        DecryptionError::NoCipher
                    } else {
                        DecryptionError::MissingKey
                    },
                );
            },
        };
        let iv: Vec<u8> = make_iv(key.salt.as_slice(), packet.seq_number);
        let size: usize = packet.payload.len();
        let plain: Option<Vec<u8>> = if key.key.len() == 16 {
            apply_ctr_128(key.key.as_slice(), iv.as_slice(), packet.payload)
        } else if key.key.len() == 24 {
            apply_ctr_192(key.key.as_slice(), iv.as_slice(), packet.payload)
        } else {
            apply_ctr_256(key.key.as_slice(), iv.as_slice(), packet.payload)
        };
        decrypted_packet(
            packet.seq_number,
            packet.msg_number,
            packet.timestamp,
            packet.dest_socket_id,
            size,
            plain,
        )
    }

    /// What `install_keys` makes of the keys `before`: the keys `after` and the result.
    pub open spec fn keys_installed(
        before: Self,
        after: Self,
        material: KeyingMaterialMessage,
        unwrapped: Option<Vec<u8>>,
        r: Result<Option<KeyingMaterialMessage>, KeyMaterialError>,
    ) -> bool {
        let key_len = before.key_len();
        &&& after.wf()
        &&& after.passphrase() == before.passphrase()
        &&& after.key_len() == before.key_len()
        &&& if before.passphrase().is_none() {
            &&& r == Err::<Option<KeyingMaterialMessage>, KeyMaterialError>(
                KeyMaterialError::NoCipher,
            )
            &&& after == before
        } else if !material_ok(material@, key_len) {
            &&& r == Err::<Option<KeyingMaterialMessage>, KeyMaterialError>(
                KeyMaterialError::Malformed,
            )
            &&& after == before
        } else {
            match unwrapped {
                None => {
                    &&& r == Err::<Option<KeyingMaterialMessage>, KeyMaterialError>(
                        KeyMaterialError::Unauthenticated,
                    )
                    &&& after == before
                },
                Some(keys) => if keys@.len() != carried_len(material@, key_len) {
                    &&& r == Err::<Option<KeyingMaterialMessage>, KeyMaterialError>(
                        KeyMaterialError::Malformed,
                    )
                    &&& after == before
                } else {
                    &&& r.is_ok()
                    &&& r.unwrap().is_some()
                    &&& r.unwrap().unwrap()@ == material@
                    &&& after.even_key() == even_after(
                        before.even_key(),
                        material@,
                        keys@,
                        key_len,
                    )
                    &&& after.odd_key() == odd_after(before.odd_key(), material@, keys@, key_len)
                    &&& after.last_material() == Some(material@)
                },
            }
        }
    }

    /// Takes the keys of a message once they are unwrapped: `unwrapped` is what the key
    /// unwrap made of the message's wrapped keys.
    ///
    /// Without a passphrase there is nothing to take them with, and a message whose salt
    /// or wrapped keys have the wrong length is malformed. Where the unwrap gave nothing
    /// the material is not authentic; where it gave bytes that are not the keys that the
    /// message announces, the message is malformed. In all these cases nothing changes.
    /// Otherwise each key that the message carries replaces the key of its stream, the
    /// key of the other stream stays, and the message is handed back to be sent as the
    /// response.
    pub fn install_keys(&mut self, material: KeyingMaterialMessage, unwrapped: Option<Vec<u8>>) -> (r:
        Result<Option<KeyingMaterialMessage>, KeyMaterialError>)
        requires
            old(self).wf(),
        ensures
            Self::keys_installed(*old(self), *final(self), material, unwrapped, r),
    {
        let key_len: usize = match &self.settings {
            Some(settings) => settings.key_size.bytes(),
            None => {
                return Err(KeyMaterialError::NoCipher);
            },
        };
        let carried: usize = (if material.even { key_len } else { 0 }) + (if material.odd {
            key_len
        } else {
            0
        });
        if material.salt.len() != SALT_SIZE || carried == 0 || material.wrapped_keys.len()
            != carried + WRAP_OVERHEAD {
            return Err(KeyMaterialError::Malformed);
        }
        let keys: Vec<u8> = match unwrapped {
            Some(keys) => keys,
            None => {
                return Err(KeyMaterialError::Unauthenticated);
            },
        };
        if keys.len() != carried {
            return Err(KeyMaterialError::Malformed);
        }
        if material.even {
            self.even =
            Some(
                StreamKey {
                    key: copy_bytes(keys.as_slice(), 0, key_len),
                    salt: copy_bytes(material.salt.as_slice(), 0, SALT_SIZE),
                },
            );
        }
        if material.odd {
            let from: usize = if material.even { key_len } else { 0 };
            self.odd =
            Some(
                StreamKey {
                    key: copy_bytes(keys.as_slice(), from, key_len),
                    salt: copy_bytes(material.salt.as_slice(), 0, SALT_SIZE),
                },
            );
        }
        proof {
            assert(material.salt@.subrange(0, 16) =~= material.salt@);
        }
        let response = KeyingMaterialMessage {
            even: material.even,
            odd: material.odd,
            salt: copy_bytes(material.salt.as_slice(), 0, SALT_SIZE),
            wrapped_keys: copy_bytes(
                material.wrapped_keys.as_slice(),
                0,
                material.wrapped_keys.len(),
            ),
        };
        proof {
            assert(material.wrapped_keys@.subrange(0, material.wrapped_keys@.len() as int)
                =~= material.wrapped_keys@);
        }
        self.last_material = Some(material);
        Ok(Some(response))
    }

    /// What `refresh_key_material` makes of the keys `before` for a message: the keys
    /// `after` and the result.
    pub open spec fn material_taken(
        before: Self,
        after: Self,
        material: KeyingMaterialMessage,
        r: Result<Option<KeyingMaterialMessage>, KeyMaterialError>,
    ) -> bool {
        &&& after.wf()
        &&& after.passphrase() == before.passphrase()
        &&& after.key_len() == before.key_len()
        &&& ({
            let key_len = before.key_len();
            if before.passphrase().is_none() {
                &&& r == Err::<Option<KeyingMaterialMessage>, KeyMaterialError>(
                    KeyMaterialError::NoCipher,
                )
                &&& after == before
            } else if !material_ok(material@, key_len) {
                &&& r == Err::<Option<KeyingMaterialMessage>, KeyMaterialError>(
                    KeyMaterialError::Malformed,
                )
                &&& after == before
            } else if before.last_material() == Some(material@) {
                &&& r == Ok::<Option<KeyingMaterialMessage>, KeyMaterialError>(None)
                &&& after == before
            } else {
                match aes_key_unwrap(
                    wrapping_key(before.passphrase().unwrap(), material.salt@, key_len),
                    material.wrapped_keys@,
                    carried_len(material@, key_len),
                ) {
                    None => {
                        &&& r == Err::<Option<KeyingMaterialMessage>, KeyMaterialError>(
                            KeyMaterialError::Unauthenticated,
                        )
                        &&& after.even_key() == before.even_key()
                        &&& after.odd_key() == before.odd_key()
                        &&& after.last_material() == before.last_material()
                    },
                    Some(keys) => {
                        &&& r.is_ok()
                        &&& r.unwrap().is_some()
                        &&& r.unwrap().unwrap()@ == material@
                        &&& after.even_key() == even_after(
                            before.even_key(),
                            material@,
                            keys,
                            key_len,
                        )
                        &&& after.odd_key() == odd_after(
                            before.odd_key(),
                            material@,
                            keys,
                            key_len,
                        )
                        &&& after.last_material() == Some(material@)
                    },
                }
            }
        })
    }

    /// Takes a keying-material message of the peer.
    ///
    /// Without a passphrase there is nothing to take it with. A message whose salt or
    /// wrapped keys have the wrong length is malformed. The message that was taken last
    /// is a duplicate when it comes again, and nothing is handed back for it. Any other
    /// message is unwrapped under the key that the passphrase and the message's salt
    /// give, and its keys are taken as `install_keys` does. But for new keys taken,
    /// nothing changes.
    pub fn refresh_key_material(&mut self, material: KeyingMaterialMessage) -> (r: Result<
        Option<KeyingMaterialMessage>,
        KeyMaterialError,
    >)
        requires
            old(self).wf(),
        ensures
            Self::material_taken(*old(self), *final(self), material, r),
    {
        let key_len: usize = match &self.settings {
            Some(settings) => settings.key_size.bytes(),
            None => {
                return Err(KeyMaterialError::NoCipher);
            },
        };
        let carried: usize = (if material.even { key_len } else { 0 }) + (if material.odd {
            key_len
        } else {
            0
        });
        if material.salt.len() != SALT_SIZE || carried == 0 || material.wrapped_keys.len()
            != carried + WRAP_OVERHEAD {
            return Err(KeyMaterialError::Malformed);
        }
        let duplicate: bool = match &self.last_material {
            Some(last) => last.even == material.even && last.odd == material.odd && same_bytes(
                last.salt.as_slice(),
                material.salt.as_slice(),
            ) && same_bytes(last.wrapped_keys.as_slice(), material.wrapped_keys.as_slice()),
            None => false,
        };
        if duplicate {
            return Ok(None);
        }
        let half: Vec<u8> = copy_bytes(material.salt.as_slice(), 8, 8);
        let kek: Vec<u8> = match &self.settings {
            Some(settings) => derive_key(
                settings.passphrase.as_slice(),
                half.as_slice(),
                KEY_DERIVATION_ROUNDS,
                key_len,
            ),
            None => Vec::new(),
        };
        let unwrapped: Option<Vec<u8>> = if key_len == 16 {
            key_unwrap_128(kek.as_slice(), material.wrapped_keys.as_slice(), carried)
        } else if key_len == 24 {
            key_unwrap_192(kek.as_slice(), material.wrapped_keys.as_slice(), carried)
        } else {
            key_unwrap_256(kek.as_slice(), material.wrapped_keys.as_slice(), carried)
        };
        self.install_keys(material, unwrapped)
    }
}

} // verus!
