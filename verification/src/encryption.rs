//! Encryption of text at rest: AES-256 in ECB mode over PKCS#7 padded text,
//! stored in hexadecimal.
//!
//! The cipher itself is the `crypto` crate's. What is verified here is the
//! padding, the framing into blocks and chunks, and which stored texts are
//! refused.

use crate::encryption_methods::EncryptionMethods;
use crate::hexcode::{
    hex_decode, hex_decoded, hex_encode, hex_encoded, is_hex, lemma_hex_round_trip,
};
use crypto::buffer::{ReadBuffer, WriteBuffer};
use vstd::prelude::*;
use vstd::slice::{slice_subrange, slice_to_vec};
use vstd::string::*;
use vstd::utf8::*;

verus! {

/// Bytes in a block of the cipher.
pub const BLOCK_SIZE: usize = 16;

/// The most bytes that are handed to the cipher at once.
pub const CHUNK_SIZE: usize = 4096;

/// Bytes in a key.
pub const KEY_SIZE: usize = 32;

/// A key of the cipher: 32 bytes.
pub struct EncryptionKey {
    bytes: Vec<u8>,
}

impl View for EncryptionKey {
    type V = Seq<u8>;

    closed spec fn view(&self) -> Seq<u8> {
        self.bytes@
    }
}

impl EncryptionKey {
    #[verifier::type_invariant]
    spec fn has_key_size(self) -> bool {
        self.bytes@.len() == KEY_SIZE
    }

    /// The key made of the bytes of `key`, which must be 32.
    pub fn new(key: &str) -> (made: Option<EncryptionKey>)
        ensures
            made is Some <==> key.spec_bytes().len() == KEY_SIZE,
            made matches Some(k) ==> k@ == key.spec_bytes(),
    {
        EncryptionKey::from_bytes(key.as_bytes())
    }

    /// The key made of `bytes`, which must be 32.
    pub fn from_bytes(bytes: &[u8]) -> (made: Option<EncryptionKey>)
        ensures
            made is Some <==> bytes@.len() == KEY_SIZE,
            made matches Some(k) ==> k@ == bytes@,
    {
        if bytes.len() == KEY_SIZE {
            Some(EncryptionKey { bytes: slice_to_vec(bytes) })
        } else {
            None
        }
    }
}

/// Why a stored text cannot be decrypted.
#[derive(Debug, Clone, Copy, PartialEq, Eq, Structural)]
pub enum DecryptError {
    /// The text is not hexadecimal.
    InvalidHex,
    /// The text does not stand for whole blocks.
    InvalidLength,
    /// The decrypted text ends in a zero byte, which no padding does.
    InvalidPadding,
    /// The decrypted text is not UTF-8.
    InvalidUtf8,
    /// The text is stored under a number that stands for no cipher.
    UnknownMethod,
}

/// `input` padded to whole blocks of `block_size` bytes: between one and
/// `block_size` bytes are added, each of them the number of bytes added.
pub open spec fn pkcs7_padded(input: Seq<u8>, block_size: int) -> Seq<u8> {
    let added = block_size - (input.len() as int) % block_size;
    input + Seq::new(added as nat, |i: int| added as u8)
}

/// `input` without its padding. Where `input` does not end in padding, it is
/// left as it is.
pub open spec fn pkcs7_unpadded(input: Seq<u8>) -> Seq<u8> {
    if input.len() > 0 && input.last() <= input.len() && forall|i: int|
        input.len() - input.last() <= i < input.len() - 1 ==> input[i] == input.last() {
        input.take(input.len() - input.last())
    } else {
        input
    }
}

/// Padding and then removing the padding gives the text back.
pub proof fn lemma_padding_round_trip(input: Seq<u8>, block_size: int)
    requires
        0 < block_size <= 255,
    ensures
        (pkcs7_padded(input, block_size).len() as int) % block_size == 0,
        pkcs7_padded(input, block_size).len() > input.len(),
        pkcs7_padded(input, block_size).last() != 0,
        pkcs7_unpadded(pkcs7_padded(input, block_size)) == input,
{
    let added = block_size - (input.len() as int) % block_size;
    let padded = pkcs7_padded(input, block_size);
    assert(0 < added <= block_size);
    assert(padded.len() == input.len() + added);
    assert((input.len() + (block_size - (input.len() as int) % block_size)) % block_size == 0)
        by (nonlinear_arith)
        requires
            block_size > 0,
    ;
    assert(padded.last() == added as u8);
    assert(padded.take(padded.len() - added) =~= input);
}

/// Pads `input` to whole blocks of `block_size` bytes.
pub fn pkcs7_padding(input: &[u8], block_size: usize) -> (padded: Vec<u8>)
    requires
        0 < block_size <= 255,
    ensures
        padded@ == pkcs7_padded(input@, block_size as int),
{
    let padding_length = block_size - (input.len() % block_size);
    let mut padded = slice_to_vec(input);
    let mut i: usize = 0;
    while i < padding_length
        invariant
            i <= padding_length,
            0 < padding_length <= block_size <= 255,
            padded@ == input@ + Seq::new(i as nat, |k: int| padding_length as u8),
        decreases padding_length - i,
    {
        padded.push(padding_length as u8);
        assert(padded@ =~= input@ + Seq::new((i + 1) as nat, |k: int| padding_length as u8));
        i += 1;
    }
    padded
}

/// Removes the padding from `input`, which must not end in a zero byte.
/// Where `input` does not end in padding, it is returned as it is.
pub fn pkcs7_unpadding(input: &[u8]) -> (unpadded: Vec<u8>)
    requires
        input@.len() > 0 ==> input@.last() != 0,
    ensures
        unpadded@ == pkcs7_unpadded(input@),
{
    let len = input.len();
    if len == 0 {
        return slice_to_vec(input);
    }
    let last_byte = input[len - 1];
    let padding_len = last_byte as usize;
    if padding_len > len {
        return slice_to_vec(input);
    }
    let mut i: usize = len - padding_len;
    while i < len - 1
        invariant
            len == input@.len(),
            0 < padding_len <= len,
            last_byte == input@.last(),
            padding_len == last_byte,
            len - padding_len <= i <= len - 1,
            forall|k: int| len - padding_len <= k < i ==> input@[k] == last_byte,
        decreases len - i,
    {
        if input[i] != last_byte {
            return slice_to_vec(input);
        }
        i += 1;
    }
    slice_to_vec(slice_subrange(input, 0, len - padding_len))
}

/// What AES-256 makes of one block of 16 bytes under a key of 32 bytes.
pub uninterp spec fn aes256_encrypt_block(key: Seq<u8>, block: Seq<u8>) -> Seq<u8>;

/// What AES-256 recovers from one block of 16 bytes under a key of 32 bytes.
pub uninterp spec fn aes256_decrypt_block(key: Seq<u8>, block: Seq<u8>) -> Seq<u8>;

/// The block of `data` that holds byte `j`.
pub open spec fn block_of(data: Seq<u8>, j: int) -> Seq<u8> {
    data.subrange(16 * (j / 16), 16 * (j / 16) + 16)
}

/// `data`, whole blocks, with `cipher` applied to each block by itself.
pub open spec fn blockwise(cipher: spec_fn(Seq<u8>) -> Seq<u8>, data: Seq<u8>) -> Seq<u8> {
    Seq::new(data.len(), |j: int| cipher(block_of(data, j))[j % 16])
}

/// `data`, whole blocks, encrypted block by block.
pub open spec fn ecb_encrypted(key: Seq<u8>, data: Seq<u8>) -> Seq<u8> {
    blockwise(|block: Seq<u8>| aes256_encrypt_block(key, block), data)
}

/// `data`, whole blocks, decrypted block by block.
pub open spec fn ecb_decrypted(key: Seq<u8>, data: Seq<u8>) -> Seq<u8> {
    blockwise(|block: Seq<u8>| aes256_decrypt_block(key, block), data)
}

/// Encrypts up to 4096 bytes, in whole blocks, with `crypto::aes::ecb_encryptor`
/// for AES-256 without padding, in one call of `encrypt`. Each block of
/// the result is AES-256 of the block at the same place in `chunk`.
#[verifier::external_body]
fn aes256_ecb_encrypt_chunk(key: &[u8], chunk: &[u8]) -> (out: Vec<u8>)
    requires
        key@.len() == 32,
        chunk@.len() % 16 == 0,
        chunk@.len() <= 4096,
    ensures
        out@.len() == chunk@.len(),
        forall|j: int|
            0 <= j < chunk@.len() ==> #[trigger] out@[j] == aes256_encrypt_block(
                key@,
                chunk@.subrange(16 * (j / 16), 16 * (j / 16) + 16),
            )[j % 16],
{
    let mut encryptor = crypto::aes::ecb_encryptor(
        crypto::aes::KeySize::KeySize256,
        key,
        crypto::blockmodes::NoPadding,
    );
    let mut space = [0u8; 4096];
    let mut reader = crypto::buffer::RefReadBuffer::new(chunk);
    let mut writer = crypto::buffer::RefWriteBuffer::new(&mut space);
    let _ = encryptor.encrypt(&mut reader, &mut writer, true);
    writer.take_read_buffer().take_remaining().to_vec()
}

/// Decrypts up to 4096 bytes, in whole blocks, with `crypto::aes::ecb_decryptor`
/// for AES-256 without padding, in one call of `decrypt`. Each block of
/// the result is what AES-256 recovers from the block at the same place in
/// `chunk`.
#[verifier::external_body]
fn aes256_ecb_decrypt_chunk(key: &[u8], chunk: &[u8]) -> (out: Vec<u8>)
    requires
        key@.len() == 32,
        chunk@.len() % 16 == 0,
        chunk@.len() <= 4096,
    ensures
        out@.len() == chunk@.len(),
        forall|j: int|
            0 <= j < chunk@.len() ==> #[trigger] out@[j] == aes256_decrypt_block(
                key@,
                chunk@.subrange(16 * (j / 16), 16 * (j / 16) + 16),
            )[j % 16],
{
    let mut decryptor = crypto::aes::ecb_decryptor(
        crypto::aes::KeySize::KeySize256,
        key,
        crypto::blockmodes::NoPadding,
    );
    let mut space = [0u8; 4096];
    let mut reader = crypto::buffer::RefReadBuffer::new(chunk);
    let mut writer = crypto::buffer::RefWriteBuffer::new(&mut space);
    let _ = decryptor.decrypt(&mut reader, &mut writer, true);
    writer.take_read_buffer().take_remaining().to_vec()
}

/// A block of a chunk that starts at a block boundary is a block of the
/// whole.
proof fn lemma_block_of_chunk(data: Seq<u8>, start: int, end: int, j: int)
    requires
        0 <= start <= end <= data.len(),
        start % 16 == 0,
        end % 16 == 0,
        0 <= j < end - start,
    ensures
        data.subrange(start, end).subrange(16 * (j / 16), 16 * (j / 16) + 16) == block_of(
            data,
            start + j,
        ),
        (start + j) % 16 == j % 16,
{
    assert((start + j) / 16 == start / 16 + j / 16);
    assert(16 * (j / 16) + 16 <= end - start);
    assert(data.subrange(start, end).subrange(16 * (j / 16), 16 * (j / 16) + 16) =~= block_of(
        data,
        start + j,
    ));
}

/// Encrypts `data`, whole blocks, chunk by chunk.
fn ecb_encrypt(key: &EncryptionKey, data: &[u8]) -> (out: Vec<u8>)
    requires
        data@.len() % 16 == 0,
    ensures
        out@ == ecb_encrypted(key@, data@),
{
    proof {
        use_type_invariant(key);
    }
    let mut out: Vec<u8> = Vec::new();
    let mut start: usize = 0;
    while start < data.len()
        invariant
            start <= data.len(),
            start % 16 == 0,
            data@.len() % 16 == 0,
            key.bytes@.len() == 32,
            out@.len() == start,
            forall|j: int| 0 <= j < start ==> out@[j] == ecb_encrypted(key@, data@)[j],
        decreases data.len() - start,
    {
        let end = if data.len() - start > CHUNK_SIZE {
            start + CHUNK_SIZE
        } else {
            data.len()
        };
        let chunk = slice_subrange(data, start, end);
        let mut piece = aes256_ecb_encrypt_chunk(key.bytes.as_slice(), chunk);
        proof {
            assert forall|j: int| 0 <= j < end - start implies piece@[j] == ecb_encrypted(
                key@,
                data@,
            )[start + j] by {
                lemma_block_of_chunk(data@, start as int, end as int, j);
            }
        }
        let ghost sofar = out@;
        out.append(&mut piece);
        start = end;
    }
    assert(out@ =~= ecb_encrypted(key@, data@));
    out
}

/// Decrypts `data`, whole blocks, chunk by chunk.
fn ecb_decrypt(key: &EncryptionKey, data: &[u8]) -> (out: Vec<u8>)
    requires
        data@.len() % 16 == 0,
    ensures
        out@ == ecb_decrypted(key@, data@),
{
    proof {
        use_type_invariant(key);
    }
    let mut out: Vec<u8> = Vec::new();
    let mut start: usize = 0;
    while start < data.len()
        invariant
            start <= data.len(),
            start % 16 == 0,
            data@.len() % 16 == 0,
            key.bytes@.len() == 32,
            out@.len() == start,
            forall|j: int| 0 <= j < start ==> out@[j] == ecb_decrypted(key@, data@)[j],
        decreases data.len() - start,
    {
        let end = if data.len() - start > CHUNK_SIZE {
            start + CHUNK_SIZE
        } else {
            data.len()
        };
        let chunk = slice_subrange(data, start, end);
        let mut piece = aes256_ecb_decrypt_chunk(key.bytes.as_slice(), chunk);
        proof {
            assert forall|j: int| 0 <= j < end - start implies piece@[j] == ecb_decrypted(
                key@,
                data@,
            )[start + j] by {
                lemma_block_of_chunk(data@, start as int, end as int, j);
            }
        }
        out.append(&mut piece);
        start = end;
    }
    assert(out@ =~= ecb_decrypted(key@, data@));
    out
}

/// What is stored for `content` under a block cipher: the content padded,
/// enciphered block by block, in hexadecimal.
pub open spec fn written_with(cipher: spec_fn(Seq<u8>) -> Seq<u8>, content: Seq<u8>) -> Seq<char> {
    hex_encoded(blockwise(cipher, pkcs7_padded(content, BLOCK_SIZE as int)))
}

/// What a stored text stands for under a block cipher, or why it stands for
/// nothing: the text must be hexadecimal for whole blocks that, deciphered
/// block by block and stripped of their padding, are UTF-8.
pub open spec fn read_with(cipher: spec_fn(Seq<u8>) -> Seq<u8>, stored: Seq<u8>) -> Result<
    Seq<char>,
    DecryptError,
> {
    if !is_hex(stored) {
        Err(DecryptError::InvalidHex)
    } else if (hex_decoded(stored).len() as int) % (BLOCK_SIZE as int) != 0 {
        Err(DecryptError::InvalidLength)
    } else {
        match unframed(blockwise(cipher, hex_decoded(stored))) {
            Err(e) => Err(e),
            Ok(bytes) => as_text(bytes),
        }
    }
}

/// `plaintext` padded and encrypted.
pub open spec fn encrypted(key: Seq<u8>, plaintext: Seq<u8>) -> Seq<u8> {
    ecb_encrypted(key, pkcs7_padded(plaintext, BLOCK_SIZE as int))
}

/// What is left of decrypted blocks once the padding is removed. Blocks that
/// end in a zero byte are refused.
pub open spec fn unframed(plain: Seq<u8>) -> Result<Seq<u8>, DecryptError> {
    if plain.len() > 0 && plain.last() == 0 {
        Err(DecryptError::InvalidPadding)
    } else {
        Ok(pkcs7_unpadded(plain))
    }
}

/// `ciphertext` decrypted and stripped of its padding, where it is made of
/// whole blocks.
pub open spec fn decrypted(key: Seq<u8>, ciphertext: Seq<u8>) -> Result<Seq<u8>, DecryptError> {
    if (ciphertext.len() as int) % (BLOCK_SIZE as int) != 0 {
        Err(DecryptError::InvalidLength)
    } else {
        unframed(ecb_decrypted(key, ciphertext))
    }
}

/// The text that is stored for `content`: its encryption in hexadecimal.
pub open spec fn encrypted_text(key: Seq<u8>, content: Seq<u8>) -> Seq<char> {
    hex_encoded(encrypted(key, content))
}

/// The text that decrypted bytes stand for, where they are UTF-8.
pub open spec fn as_text(bytes: Seq<u8>) -> Result<Seq<char>, DecryptError> {
    if valid_utf8(bytes) {
        Ok(decode_utf8(bytes))
    } else {
        Err(DecryptError::InvalidUtf8)
    }
}

/// The content that the stored text `stored` stands for, or why it stands
/// for none.
pub open spec fn decrypted_text(key: Seq<u8>, stored: Seq<u8>) -> Result<Seq<char>, DecryptError> {
    if !is_hex(stored) {
        Err(DecryptError::InvalidHex)
    } else {
        match decrypted(key, hex_decoded(stored)) {
            Err(e) => Err(e),
            Ok(bytes) => as_text(bytes),
        }
    }
}

/// `decipher` undoes `encipher` on every block of 16 bytes, and `encipher`
/// makes blocks of 16 bytes of them.
pub open spec fn undoes(
    decipher: spec_fn(Seq<u8>) -> Seq<u8>,
    encipher: spec_fn(Seq<u8>) -> Seq<u8>,
) -> bool {
    forall|block: Seq<u8>|
        block.len() == 16 ==> (#[trigger] encipher(block)).len() == 16 && decipher(encipher(block)) == block
}

/// Deciphering whole blocks that were enciphered gives them back, whatever
/// the block cipher, as long as its deciphering undoes its enciphering.
pub proof fn lemma_blockwise_round_trip(
    encipher: spec_fn(Seq<u8>) -> Seq<u8>,
    decipher: spec_fn(Seq<u8>) -> Seq<u8>,
    data: Seq<u8>,
)
    requires
        undoes(decipher, encipher),
        data.len() % 16 == 0,
    ensures
        blockwise(decipher, blockwise(encipher, data)) == data,
{
    let hidden = blockwise(encipher, data);
    assert forall|j: int| 0 <= j < data.len() implies blockwise(decipher, hidden)[j] == data[j] by {
        let start = 16 * (j / 16);
        let block = data.subrange(start, start + 16);
        let made = encipher(block);
        assert(made.len() == 16);
        assert forall|i: int| 0 <= i < 16 implies block_of(hidden, j)[i] == made[i] by {
            assert((start + i) / 16 == j / 16);
            assert((start + i) % 16 == i);
            assert(block_of(data, start + i) == block);
            assert(hidden[start + i] == made[i]);
        }
        assert(block_of(hidden, j) =~= made);
        assert(block[j % 16] == data[j]);
    }
    assert(blockwise(decipher, hidden) =~= data);
}

/// A text that is written is read back as it was, whatever the block
/// cipher, as long as its deciphering undoes its enciphering: the padding,
/// the blocks and the hexadecimal digits fit together.
pub proof fn lemma_written_text_is_read_back(
    encipher: spec_fn(Seq<u8>) -> Seq<u8>,
    decipher: spec_fn(Seq<u8>) -> Seq<u8>,
    content: Seq<char>,
)
    requires
        undoes(decipher, encipher),
    ensures
        read_with(decipher, encode_utf8(written_with(encipher, encode_utf8(content)))) == Ok::<
            Seq<char>,
            DecryptError,
        >(content),
{
    let bytes = encode_utf8(content);
    let padded = pkcs7_padded(bytes, BLOCK_SIZE as int);
    let hidden = blockwise(encipher, padded);
    lemma_padding_round_trip(bytes, BLOCK_SIZE as int);
    lemma_hex_round_trip(hidden);
    lemma_blockwise_round_trip(encipher, decipher, padded);
    assert(hidden.len() == padded.len());
    encode_utf8_valid_utf8(content);
    encode_utf8_decode_utf8(content);
}

/// What is stored and read under a key is what is written and read under
/// the key's block cipher.
pub proof fn lemma_stored_text_is_written_text(key: Seq<u8>, text: Seq<u8>)
    ensures
        encrypted_text(key, text) == written_with(
            |block: Seq<u8>| aes256_encrypt_block(key, block),
            text,
        ),
        decrypted_text(key, text) == read_with(
            |block: Seq<u8>| aes256_decrypt_block(key, block),
            text,
        ),
{
}

/// Pads and encrypts `plaintext`.
pub fn encrypt(plaintext: &[u8], encryption_method: EncryptionMethods, key: &EncryptionKey) -> (out:
    Vec<u8>)
    ensures
        out@ == encrypted(key@, plaintext@),
{
    match encryption_method {
        EncryptionMethods::AES256 => {
            let padded = pkcs7_padding(plaintext, BLOCK_SIZE);
            proof {
                lemma_padding_round_trip(plaintext@, BLOCK_SIZE as int);
            }
            ecb_encrypt(key, padded.as_slice())
        },
    }
}

/// Removes the padding from decrypted blocks.
pub fn unframe(plain: &[u8]) -> (r: Result<Vec<u8>, DecryptError>)
    ensures
        match r {
            Ok(bytes) => unframed(plain@) == Ok::<Seq<u8>, DecryptError>(bytes@),
            Err(e) => unframed(plain@) == Err::<Seq<u8>, DecryptError>(e),
        },
{
    if plain.len() > 0 && plain[plain.len() - 1] == 0 {
        Err(DecryptError::InvalidPadding)
    } else {
        Ok(pkcs7_unpadding(plain))
    }
}

/// Decrypts `ciphertext` and removes the padding.
pub fn decrypt(ciphertext: &[u8], encryption_method: EncryptionMethods, key: &EncryptionKey) -> (r:
    Result<Vec<u8>, DecryptError>)
    ensures
        match r {
            Ok(bytes) => decrypted(key@, ciphertext@) == Ok::<Seq<u8>, DecryptError>(bytes@),
            Err(e) => decrypted(key@, ciphertext@) == Err::<Seq<u8>, DecryptError>(e),
        },
{
    match encryption_method {
        EncryptionMethods::AES256 => {
            if ciphertext.len() % BLOCK_SIZE != 0 {
                return Err(DecryptError::InvalidLength);
            }
            let plain = ecb_decrypt(key, ciphertext);
            unframe(plain.as_slice())
        },
    }
}

/// The error of `core::str::from_utf8`.
#[verifier::external_type_specification]
#[verifier::external_body]
pub struct ExUtf8Error(core::str::Utf8Error);

/// `core::str::from_utf8`: succeeds where `bytes` are UTF-8, and the text
/// is then made of these bytes.
#[verifier::external_body]
fn utf8_text<'a>(bytes: &'a [u8]) -> (r: Result<&'a str, core::str::Utf8Error>)
    ensures
        r is Ok <==> valid_utf8(bytes@),
        r matches Ok(text) ==> text.spec_bytes() == bytes@,
{
    core::str::from_utf8(bytes)
}

/// Reads decrypted bytes as text.
pub fn text_of(bytes: &[u8]) -> (r: Result<String, DecryptError>)
    ensures
        match r {
            Ok(text) => as_text(bytes@) == Ok::<Seq<char>, DecryptError>(text@),
            Err(e) => as_text(bytes@) == Err::<Seq<char>, DecryptError>(e),
        },
{
    match utf8_text(bytes) {
        Ok(text) => {
            proof {
                encode_utf8_decode_utf8(text@);
            }
            Ok(text.to_owned())
        },
        Err(_) => Err(DecryptError::InvalidUtf8),
    }
}

/// Encrypts `content` and writes the result in hexadecimal.
pub fn encrypt_as_string(
    content: &[u8],
    encryption_method: EncryptionMethods,
    key: &EncryptionKey,
) -> (stored: String)
    ensures
        stored@ == encrypted_text(key@, content@),
{
    let encrypted = encrypt(content, encryption_method, key);
    hex_encode(encrypted.as_slice())
}

/// Reads `content`, a stored text in hexadecimal, decrypts it and reads
/// the result as text.
pub fn decrypt_as_string(
    content: &[u8],
    encryption_method: EncryptionMethods,
    key: &EncryptionKey,
) -> (r: Result<String, DecryptError>)
    ensures
        match r {
            Ok(text) => decrypted_text(key@, content@) == Ok::<Seq<char>, DecryptError>(text@),
            Err(e) => decrypted_text(key@, content@) == Err::<Seq<char>, DecryptError>(e),
        },
{
    let decoded = match hex_decode(content) {
        Ok(decoded) => decoded,
        Err(_) => {
            return Err(DecryptError::InvalidHex);
        },
    };
    match decrypt(decoded.as_slice(), encryption_method, key) {
        Ok(bytes) => text_of(bytes.as_slice()),
        Err(e) => Err(e),
    }
}

/// Encrypts `content` for storage. Returns the text to store and the cipher
/// it is stored under.
pub fn encrypt_string(content: &str, key: &EncryptionKey) -> (r: (String, EncryptionMethods))
    ensures
        r.0@ == encrypted_text(key@, content.spec_bytes()),
        r.1 == EncryptionMethods::AES256,
{
    (
        encrypt_as_string(content.as_bytes(), EncryptionMethods::AES256, key),
        EncryptionMethods::AES256,
    )
}

/// `<[T; N]>::map`: element `i` of the result is what `f` makes of element
/// `i` of the array.
pub assume_specification<T, const N: usize, F, U>[ <[T; N]>::map::<F, U> ](a: [T; N], f: F) -> (r:
    [U; N]) where F: FnMut(T) -> U
    requires
        forall|i: int| 0 <= i < N ==> f.requires((#[trigger] a[i],)),
    ensures
        forall|i: int| 0 <= i < N ==> f.ensures((a[i],), #[trigger] r[i]),
;

/// Encrypts each text of `content` for storage. Returns the texts to store,
/// in the order of `content`, and the cipher they are stored under.
pub fn encrypt_many<const LENGTH: usize>(content: [&str; LENGTH], key: &EncryptionKey) -> (r: (
    [String; LENGTH],
    EncryptionMethods,
))
    ensures
        forall|i: int|
            0 <= i < LENGTH ==> (#[trigger] r.0[i])@ == encrypted_text(
                key@,
                content[i].spec_bytes(),
            ),
        r.1 == EncryptionMethods::AES256,
{
    let store = |text: &str| -> (stored: String)
        ensures
            stored@ == encrypted_text(key@, text.spec_bytes()),
        {
            encrypt_as_string(text.as_bytes(), EncryptionMethods::AES256, key)
        };
    (content.map(store), EncryptionMethods::AES256)
}

/// Encrypts each text of `content` for storage. Returns the texts to store,
/// in the order of `content`, and the cipher they are stored under.
pub fn encrypt_many_vec(content: Vec<&str>, key: &EncryptionKey) -> (r: (
    Vec<String>,
    EncryptionMethods,
))
    ensures
        r.0.len() == content.len(),
        forall|i: int|
            0 <= i < content.len() ==> (#[trigger] r.0[i])@ == encrypted_text(
                key@,
                content[i].spec_bytes(),
            ),
        r.1 == EncryptionMethods::AES256,
{
    let mut stored: Vec<String> = Vec::new();
    let mut i: usize = 0;
    while i < content.len()
        invariant
            i <= content.len(),
            stored.len() == i,
            forall|k: int|
                0 <= k < i ==> (#[trigger] stored[k])@ == encrypted_text(
                    key@,
                    content[k].spec_bytes(),
                ),
        decreases content.len() - i,
    {
        stored.push(encrypt_as_string(content[i].as_bytes(), EncryptionMethods::AES256, key));
        i += 1;
    }
    (stored, EncryptionMethods::AES256)
}

/// Decrypts a stored text.
pub fn decrypt_string(content: &str, encryption_method: EncryptionMethods, key: &EncryptionKey) -> (r:
    Result<String, DecryptError>)
    ensures
        match r {
            Ok(text) => decrypted_text(key@, content.spec_bytes()) == Ok::<
                Seq<char>,
                DecryptError,
            >(text@),
            Err(e) => decrypted_text(key@, content.spec_bytes()) == Err::<Seq<char>, DecryptError>(
                e,
            ),
        },
{
    decrypt_as_string(content.as_bytes(), encryption_method, key)
}

/// Decrypts each stored text of `content`, in their order.
pub fn decrypt_many<const LENGTH: usize>(
    content: [&str; LENGTH],
    encryption_method: EncryptionMethods,
    key: &EncryptionKey,
) -> (texts: [Result<String, DecryptError>; LENGTH])
    ensures
        forall|i: int|
            0 <= i < LENGTH ==> match #[trigger] texts[i] {
                Ok(text) => decrypted_text(key@, content[i].spec_bytes()) == Ok::<
                    Seq<char>,
                    DecryptError,
                >(text@),
                Err(e) => decrypted_text(key@, content[i].spec_bytes()) == Err::<
                    Seq<char>,
                    DecryptError,
                >(e),
            },
{
    let read = |text: &str| -> (r: Result<String, DecryptError>)
        ensures
            match r {
                Ok(read) => decrypted_text(key@, text.spec_bytes()) == Ok::<
                    Seq<char>,
                    DecryptError,
                >(read@),
                Err(e) => decrypted_text(key@, text.spec_bytes()) == Err::<
                    Seq<char>,
                    DecryptError,
                >(e),
            },
        {
            decrypt_as_string(text.as_bytes(), encryption_method, key)
        };
    content.map(read)
}

/// Decrypts a text that is stored under the cipher numbered
/// `encryption_method`.
pub fn decrypt_stored(content: &str, encryption_method: i16, key: &EncryptionKey) -> (r: Result<
    String,
    DecryptError,
>)
    ensures
        match r {
            Ok(text) => EncryptionMethods::coded(encryption_method) is Some && decrypted_text(
                key@,
                content.spec_bytes(),
            ) == Ok::<Seq<char>, DecryptError>(text@),
            Err(e) => if EncryptionMethods::coded(encryption_method) is None {
                e == DecryptError::UnknownMethod
            } else {
                decrypted_text(key@, content.spec_bytes()) == Err::<Seq<char>, DecryptError>(e)
            },
        },
{
    match EncryptionMethods::try_from_code(encryption_method) {
        None => Err(DecryptError::UnknownMethod),
        Some(method) => decrypt_string(content, method, key),
    }
}

/// What is stored for a log entry: the encrypted data and the number of the
/// cipher, or neither where the entry has no data.
pub fn encrypt_log_data(log_data: Option<&str>, key: &EncryptionKey) -> (r: (
    Option<String>,
    Option<i16>,
))
    ensures
        match log_data {
            Some(data) => {
                &&& r.0 matches Some(stored) && stored@ == encrypted_text(key@, data.spec_bytes())
                &&& r.1 == Some(EncryptionMethods::AES256.spec_code())
            },
            None => r.0 is None && r.1 is None,
        },
{
    match log_data {
        Some(data) => {
            let (stored, method) = encrypt_string(data, key);
            (Some(stored), Some(method.code()))
        },
        None => (None, None),
    }
}

} // verus!
