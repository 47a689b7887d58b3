//! Slot files: what a save writes and what a load reads back.
//!
//! A slot file holds a JSON document encrypted under a key derived from the
//! manager's passphrase and a fresh salt; see `format` for its layout.
//! Reading and writing the files themselves is left to the caller, who hands
//! the library the bytes read and writes the bytes it returns.
use crate::crypto::{
    MAX_BLOCKS, SALT_LEN, TAG_LEN, random_bytes, random_source_error, random_source_failed,
    within_keystream, chacha20poly1305_seal, decrypt, derive_key, encrypt,
    spec_decrypt, spec_derive_key, wipe_key,
};
use crate::error::{Result, SaveError, SaveErrorView, result_view};
use crate::format::{
    FORMAT_VERSION, HEADER_SIZE, HeaderView, LEN_NONCE, LEN_SALT, encode_slot_file,
    header_bytes, lemma_parse_header_bytes, lemma_slot_file_bytes_len, parse_header, slot_file_bytes, spec_parse_header,
};
use std::path::PathBuf;
use vstd::prelude::*;
use vstd::slice::slice_subrange;
use vstd::std_specs::convert::IntoSpec;
use vstd::string::*;
use vstd::utf8::{decode_utf8, encode_utf8, encode_utf8_decode_utf8, encode_utf8_valid_utf8, valid_utf8};
use crate::text::string_from_utf8;

verus! {

/// `std::path::PathBuf`, carried through the library unopened.
#[verifier::external_type_specification]
#[verifier::external_body]
pub struct ExPathBuf(std::path::PathBuf);

/// Metadata readable from a slot file without decrypting the payload.
#[derive(Debug, Clone, PartialEq, Eq, Structural)]
pub struct SlotMeta {
    /// Slot number.
    pub slot: u32,
    /// Unix timestamp (seconds) of the save that wrote the file.
    pub timestamp: i64,
    /// File format version written by the library that created the file.
    pub version: u32,
}

/// Manages a directory of encrypted slot files, `slot_NNNN.gmsv` each, with
/// one passphrase for all of them.
pub struct SaveManager {
    save_dir: PathBuf,
    passphrase: String,
}

impl SaveManager {
    /// The passphrase that keys every slot of this manager.
    pub closed spec fn passphrase_view(&self) -> Seq<char> {
        self.passphrase@
    }

    /// The passphrase, as the string it is stored in.
    pub closed spec fn passphrase_string(&self) -> String {
        self.passphrase
    }

    /// The directory of this manager's slot files.
    pub closed spec fn save_dir_view(&self) -> PathBuf {
        self.save_dir
    }

    /// Creates a manager for the directory `save_dir` (created on the first
    /// save) and the secret `passphrase`, which must stay the same across game
    /// versions for existing saves to stay readable.
    pub fn new<D: Into<PathBuf>, P: Into<String>>(save_dir: D, passphrase: P) -> (m: Self)
        ensures
            call_ensures(<D as Into<PathBuf>>::into, (save_dir,), m.save_dir_view()),
            call_ensures(<P as Into<String>>::into, (passphrase,), m.passphrase_string()),
            D::obeys_into_spec() ==> m.save_dir_view() == save_dir.into_spec(),
            P::obeys_into_spec() ==> m.passphrase_view() == passphrase.into_spec()@,
    {
        SaveManager::from_parts(save_dir.into(), passphrase.into())
    }

    /// Creates a manager from a directory and a passphrase already converted.
    pub fn from_parts(save_dir: PathBuf, passphrase: String) -> (m: Self)
        ensures
            m.save_dir_view() == save_dir,
            m.passphrase_string() == passphrase,
            m.passphrase_view() == passphrase@,
    {
        SaveManager { save_dir, passphrase }
    }

    /// The directory the slot files live in.
    pub fn save_dir(&self) -> (d: &PathBuf)
        ensures
            *d == self.save_dir_view(),
    {
        &self.save_dir
    }
}

/// The text of a decrypted payload: its characters when it is valid UTF-8.
pub open spec fn payload_text(r: core::result::Result<Seq<u8>, SaveErrorView>) -> core::result::Result<Seq<char>, SaveErrorView> {
    match r {
        Err(e) => Err(e),
        Ok(p) => if valid_utf8(p) {
            Ok(decode_utf8(p))
        } else {
            Err(SaveErrorView::InvalidFormat("payload is not valid UTF-8"@))
        },
    }
}

/// What loading the slot file `data` with `passphrase` gives: the header's
/// error, a version mismatch, a truncated payload, a failed decryption, a
/// payload that is not UTF-8, or the stored text.
pub open spec fn spec_open_slot(passphrase: Seq<char>, data: Seq<u8>) -> core::result::Result<Seq<char>, SaveErrorView> {
    match spec_parse_header(data) {
        Err(e) => Err(e),
        Ok(h) => if h.version != FORMAT_VERSION {
            Err(SaveErrorView::VersionMismatch { expected: FORMAT_VERSION, found: h.version })
        } else if data.len() < HEADER_SIZE + h.payload_len {
            Err(SaveErrorView::InvalidFormat("payload is truncated"@))
        } else {
            payload_text(
                spec_decrypt(
                    spec_derive_key(passphrase, h.salt),
                    h.nonce,
                    data.subrange(HEADER_SIZE as int, HEADER_SIZE + h.payload_len),
                ),
            )
        },
    }
}

/// The slot file that saving `json` with `passphrase`, `salt`, `nonce` and
/// `timestamp` writes.
pub open spec fn spec_sealed_slot(passphrase: Seq<char>, salt: Seq<u8>, nonce: Seq<u8>, timestamp: i64, json: Seq<char>) -> Seq<u8> {
    slot_file_bytes(
        salt,
        nonce,
        timestamp,
        chacha20poly1305_seal(spec_derive_key(passphrase, salt), nonce, encode_utf8(json)),
    )
}

/// The metadata of slot `slot` read from the header at the start of `data`.
pub open spec fn spec_slot_meta(slot: u32, data: Seq<u8>) -> core::result::Result<SlotMeta, SaveErrorView> {
    match spec_parse_header(data) {
        Err(e) => Err(e),
        Ok(h) => Ok(SlotMeta { slot, timestamp: h.timestamp, version: h.version }),
    }
}

/// Loading a slot file reads back exactly the payload it was written with:
/// the result is the decryption of that payload under the key derived from
/// the passphrase and the file's salt, taken as UTF-8 text.
pub proof fn lemma_open_slot_file(passphrase: Seq<char>, salt: Seq<u8>, nonce: Seq<u8>, timestamp: i64, payload: Seq<u8>)
    requires
        salt.len() == LEN_SALT,
        nonce.len() == LEN_NONCE,
        payload.len() < 0x1_0000_0000,
    ensures
        spec_open_slot(passphrase, slot_file_bytes(salt, nonce, timestamp, payload)) == payload_text(
            spec_decrypt(spec_derive_key(passphrase, salt), nonce, payload),
        ),
{
    let h = HeaderView { version: FORMAT_VERSION, salt, nonce, timestamp, payload_len: payload.len() };
    lemma_parse_header_bytes(h, payload);
    let data = slot_file_bytes(salt, nonce, timestamp, payload);
    assert(header_bytes(h).len() == HEADER_SIZE) by {
        crate::bytes_le::lemma_le_bytes_len(h.version as nat, 4);
        crate::bytes_le::lemma_le_bytes_len(crate::bytes_le::i64_bits(h.timestamp), 8);
        crate::bytes_le::lemma_le_bytes_len(h.payload_len, 4);
    }
    assert(data.subrange(HEADER_SIZE as int, HEADER_SIZE + payload.len()) =~= payload);
}

/// The metadata of a slot file is the timestamp and version its header was
/// written with, whatever the payload.
pub proof fn lemma_slot_meta_of_file(slot: u32, salt: Seq<u8>, nonce: Seq<u8>, timestamp: i64, payload: Seq<u8>)
    requires
        salt.len() == LEN_SALT,
        nonce.len() == LEN_NONCE,
    ensures
        spec_slot_meta(slot, slot_file_bytes(salt, nonce, timestamp, payload)) == Ok::<SlotMeta, SaveErrorView>(
            SlotMeta { slot, timestamp, version: FORMAT_VERSION },
        ),
{
    let h = HeaderView { version: FORMAT_VERSION, salt, nonce, timestamp, payload_len: payload.len() % 0x1_0000_0000 };
    crate::bytes_le::lemma_le_bytes_low(payload.len(), 4);
    reveal_with_fuel(crate::bytes_le::pow256, 5);
    assert(header_bytes(h) == header_bytes(HeaderView { payload_len: payload.len(), ..h }));
    lemma_parse_header_bytes(h, payload);
}

/// The metadata of a slot depends on the header alone: the payload is never
/// read.
pub proof fn lemma_slot_meta_header_only(slot: u32, data: Seq<u8>)
    requires
        data.len() >= HEADER_SIZE,
    ensures
        spec_slot_meta(slot, data) == spec_slot_meta(slot, data.subrange(0, HEADER_SIZE as int)),
{
    let h = data.subrange(0, HEADER_SIZE as int);
    assert(h.subrange(0, 4) =~= data.subrange(0, 4));
    assert(h.subrange(4, 8) =~= data.subrange(4, 8));
    assert(h.subrange(8, 24) =~= data.subrange(8, 24));
    assert(h.subrange(24, 36) =~= data.subrange(24, 36));
    assert(h.subrange(36, 44) =~= data.subrange(36, 44));
    assert(h.subrange(44, 48) =~= data.subrange(44, 48));
}

/// Whether `data` starts with the magic bytes `GMSV`.
pub open spec fn starts_with_magic(data: Seq<u8>) -> bool {
    data.len() >= 4 && data[0] == 0x47 && data[1] == 0x4d && data[2] == 0x53 && data[3] == 0x56
}

/// Whether `m` holds the slot `slot`, the little-endian `u32` at bytes 4..8
/// of `data` as its version, and the little-endian two's-complement `i64` at
/// bytes 36..44 as its timestamp.
pub open spec fn header_fields_read(m: SlotMeta, slot: u32, data: Seq<u8>) -> bool {
    let t = data[36] + 256 * data[37] + 65536 * data[38] + 16777216 * data[39] + 4294967296 * (data[40]
        + 256 * data[41] + 65536 * data[42] + 16777216 * data[43]);
    &&& m.slot == slot
    &&& m.version == data[4] + 256 * data[5] + 65536 * data[6] + 16777216 * data[7]
    &&& m.timestamp == (if t < 0x8000_0000_0000_0000 {
        t
    } else {
        t - 0x1_0000_0000_0000_0000int
    })
}

/// The metadata of any header that is long enough and starts with the magic
/// bytes is read as it stands: the slot asked for, the little-endian `u32` at
/// bytes 4..8 as the version (whatever it is: the version is not checked), and
/// the little-endian two's-complement `i64` at bytes 36..44 as the timestamp.
pub proof fn lemma_slot_meta_reads_header(slot: u32, data: Seq<u8>)
    requires
        data.len() >= 48,
        starts_with_magic(data),
    ensures
        spec_slot_meta(slot, data) is Ok,
        header_fields_read(spec_slot_meta(slot, data)->Ok_0, slot, data),
{
    assert(data.subrange(0, 4) =~= crate::format::magic());
    crate::bytes_le::lemma_le_value_4(data.subrange(4, 8));
    crate::bytes_le::lemma_le_value_8(data.subrange(36, 44));
}

/// Encrypts `json` into a slot file under `passphrase` and `salt`, with a
/// fresh random nonce and the save time `unix_secs` (seconds since the Unix
/// epoch).
pub fn seal_slot_with_salt(passphrase: &str, salt: &[u8; SALT_LEN], json: &str, unix_secs: u64) -> (r: Result<Vec<u8>>)
    requires
        within_keystream(json.spec_bytes().len()),
    ensures
        json.spec_bytes().len() / 64 >= MAX_BLOCKS ==> r is Err,
        r matches Err(e) ==> e@ == random_source_failed() || (e@ == SaveErrorView::Crypto("aead::Error"@)
            && json.spec_bytes().len() / 64 >= MAX_BLOCKS),
        r matches Ok(bytes) ==> bytes@.len() == HEADER_SIZE + json.spec_bytes().len() + TAG_LEN,
        r matches Ok(bytes) ==> exists|nonce: Seq<u8>|
            nonce.len() == LEN_NONCE && bytes@ == #[trigger] spec_sealed_slot(
                passphrase@,
                salt@,
                nonce,
                unix_secs as i64,
                json@,
            ),
        r matches Ok(bytes) ==> (json.spec_bytes().len() + TAG_LEN < 0x1_0000_0000 ==> spec_open_slot(
            passphrase@,
            bytes@,
        ) == Ok::<Seq<char>, SaveErrorView>(json@)),
        r matches Ok(bytes) ==> forall|slot: u32| #[trigger] spec_slot_meta(slot, bytes@) == Ok::<SlotMeta, SaveErrorView>(
            SlotMeta { slot, timestamp: unix_secs as i64, version: FORMAT_VERSION },
        ),
{
    let mut key = derive_key(passphrase, salt);
    let result = encrypt(&key, json.as_bytes());
    wipe_key(&mut key);
    match result {
        Err(e) => Err(e),
        Ok((nonce, payload)) => {
            let timestamp = unix_secs as i64;
            let bytes = encode_slot_file(salt, &nonce, timestamp, payload.as_slice());
            proof {
                assert(bytes@ == spec_sealed_slot(passphrase@, salt@, nonce@, timestamp, json@));
                lemma_slot_file_bytes_len(salt@, nonce@, timestamp, payload@);
                if json.spec_bytes().len() + TAG_LEN < 0x1_0000_0000 {
                    lemma_open_slot_file(passphrase@, salt@, nonce@, timestamp, payload@);
                    encode_utf8_valid_utf8(json@);
                    encode_utf8_decode_utf8(json@);
                }
                assert forall|slot: u32| #[trigger] spec_slot_meta(slot, bytes@) == Ok::<SlotMeta, SaveErrorView>(
                    SlotMeta { slot, timestamp, version: FORMAT_VERSION },
                ) by {
                    lemma_slot_meta_of_file(slot, salt@, nonce@, timestamp, payload@);
                }
            }
            Ok(bytes)
        },
    }
}

/// Encrypts `json` into a slot file under `passphrase`, with a fresh random
/// salt and nonce and the save time `unix_secs` (seconds since the Unix epoch).
/// Fails when the text is too long to encrypt, or when the operating system
/// supplies no randomness.
pub fn seal_slot(passphrase: &str, json: &str, unix_secs: u64) -> (r: Result<Vec<u8>>)
    requires
        within_keystream(json.spec_bytes().len()),
    ensures
        json.spec_bytes().len() / 64 >= MAX_BLOCKS ==> r is Err,
        r matches Err(e) ==> e@ == random_source_failed() || (e@ == SaveErrorView::Crypto("aead::Error"@)
            && json.spec_bytes().len() / 64 >= MAX_BLOCKS),
        r matches Ok(bytes) ==> bytes@.len() == HEADER_SIZE + json.spec_bytes().len() + TAG_LEN,
        r matches Ok(bytes) ==> exists|salt: Seq<u8>, nonce: Seq<u8>|
            salt.len() == LEN_SALT && nonce.len() == LEN_NONCE && bytes@ == #[trigger] spec_sealed_slot(
                passphrase@,
                salt,
                nonce,
                unix_secs as i64,
                json@,
            ),
        r matches Ok(bytes) ==> (json.spec_bytes().len() + TAG_LEN < 0x1_0000_0000 ==> spec_open_slot(
            passphrase@,
            bytes@,
        ) == Ok::<Seq<char>, SaveErrorView>(json@)),
        r matches Ok(bytes) ==> forall|slot: u32| #[trigger] spec_slot_meta(slot, bytes@) == Ok::<SlotMeta, SaveErrorView>(
            SlotMeta { slot, timestamp: unix_secs as i64, version: FORMAT_VERSION },
        ),
{
    let salt: [u8; SALT_LEN] = match random_bytes() {
        Some(s) => s,
        None => return Err(random_source_error()),
    };
    seal_slot_with_salt(passphrase, &salt, json, unix_secs)
}

/// Decrypts the slot file `data` with `passphrase` and returns the JSON text.
///
/// Fails with `InvalidFormat` when the file is corrupt or not a slot file,
/// `VersionMismatch` when it has another format version, and `Crypto` when
/// the passphrase is wrong or the file has been tampered with.
pub fn open_slot(passphrase: &str, data: &[u8]) -> (r: Result<String>)
    ensures
        result_view(r, |s: String| s@) == spec_open_slot(passphrase@, data@),
{
    let hdr = match parse_header(data) {
        Ok(h) => h,
        Err(e) => return Err(e),
    };
    if hdr.version != FORMAT_VERSION {
        return Err(SaveError::VersionMismatch { expected: FORMAT_VERSION, found: hdr.version });
    }
    if data.len() - HEADER_SIZE < hdr.payload_len {
        return Err(SaveError::InvalidFormat(String::from_str("payload is truncated")));
    }
    let ciphertext = slice_subrange(data, HEADER_SIZE, HEADER_SIZE + hdr.payload_len);
    proof {
        crate::bytes_le::lemma_le_value_bound(data@.subrange(44, 48));
        reveal_with_fuel(crate::bytes_le::pow256, 5);
    }
    let mut key = derive_key(passphrase, &hdr.salt);
    let result = decrypt(&key, &hdr.nonce, ciphertext);
    wipe_key(&mut key);
    let plaintext = match result {
        Ok(p) => p,
        Err(e) => return Err(e),
    };
    match string_from_utf8(plaintext) {
        Some(s) => Ok(s),
        None => Err(SaveError::InvalidFormat(String::from_str("payload is not valid UTF-8"))),
    }
}

/// Reads the metadata of slot `slot` from the header at the start of
/// `header`, without touching the payload.
pub fn read_slot_meta(slot: u32, header: &[u8]) -> (r: Result<SlotMeta>)
    ensures
        result_view(r, |m: SlotMeta| m) == spec_slot_meta(slot, header@),
        header@.len() < 48 ==> (r matches Err(e) && e@ == SaveErrorView::InvalidFormat("file is too short"@)),
        header@.len() >= 48 && !starts_with_magic(header@) ==> (r matches Err(e) && e@
            == SaveErrorView::InvalidFormat("bad magic bytes"@)),
        header@.len() >= 48 && starts_with_magic(header@) ==> r is Ok,
        r matches Ok(m) ==> header_fields_read(m, slot, header@),
{
    proof {
        if header@.len() >= 48 {
            if starts_with_magic(header@) {
                lemma_slot_meta_reads_header(slot, header@);
            } else {
                assert(header@.subrange(0, 4) != crate::format::magic()) by {
                    if header@.subrange(0, 4) == crate::format::magic() {
                        assert(header@[0] == header@.subrange(0, 4)[0]);
                        assert(header@[1] == header@.subrange(0, 4)[1]);
                        assert(header@[2] == header@.subrange(0, 4)[2]);
                        assert(header@[3] == header@.subrange(0, 4)[3]);
                    }
                }
            }
        }
    }
    match parse_header(header) {
        Ok(h) => Ok(SlotMeta { slot, timestamp: h.timestamp, version: h.version }),
        Err(e) => Err(e),
    }
}

impl SaveManager {
    /// Encrypts `json` into a slot file under this manager's passphrase, with
    /// a fresh random salt and nonce and the save time `unix_secs`.
    pub fn seal(&self, json: &str, unix_secs: u64) -> (r: Result<Vec<u8>>)
        requires
            within_keystream(json.spec_bytes().len()),
        ensures
            json.spec_bytes().len() / 64 >= MAX_BLOCKS ==> r is Err,
            r matches Err(e) ==> e@ == random_source_failed() || (e@ == SaveErrorView::Crypto(
                "aead::Error"@,
            ) && json.spec_bytes().len() / 64 >= MAX_BLOCKS),
            r matches Ok(bytes) ==> bytes@.len() == HEADER_SIZE + json.spec_bytes().len() + TAG_LEN,
            r matches Ok(bytes) ==> exists|salt: Seq<u8>, nonce: Seq<u8>|
                salt.len() == LEN_SALT && nonce.len() == LEN_NONCE && bytes@ == #[trigger] spec_sealed_slot(
                    self.passphrase_view(),
                    salt,
                    nonce,
                    unix_secs as i64,
                    json@,
                ),
            r matches Ok(bytes) ==> (json.spec_bytes().len() + TAG_LEN < 0x1_0000_0000 ==> spec_open_slot(
                self.passphrase_view(),
                bytes@,
            ) == Ok::<Seq<char>, SaveErrorView>(json@)),
            r matches Ok(bytes) ==> forall|slot: u32| #[trigger] spec_slot_meta(slot, bytes@) == Ok::<SlotMeta, SaveErrorView>(
                SlotMeta { slot, timestamp: unix_secs as i64, version: FORMAT_VERSION },
            ),
    {
        seal_slot(self.passphrase.as_str(), json, unix_secs)
    }

    /// Decrypts the slot file `data` with this manager's passphrase.
    pub fn open(&self, data: &[u8]) -> (r: Result<String>)
        ensures
            result_view(r, |s: String| s@) == spec_open_slot(self.passphrase_view(), data@),
    {
        open_slot(self.passphrase.as_str(), data)
    }
}

} // verus!
