//! AES-256 in CBC mode with block padding.
//!
//! The cipher itself works on whole blocks and comes from the `crypto`
//! crate. Padding is done here: a plaintext is filled up to the next block
//! boundary with `k` bytes of value `k`, `1 <= k <= 16`, so that a plaintext
//! that ends on a boundary gets one whole block more.
use crypto::aes::{cbc_decryptor, cbc_encryptor, KeySize};
use crypto::blockmodes::NoPadding;
use crypto::buffer::{RefReadBuffer, RefWriteBuffer};
use crypto::symmetriccipher::{Decryptor, Encryptor};
use rand::{OsRng, Rng};
use vstd::prelude::*;

verus! {

/// The size of a cipher block, and of an initialisation vector, in bytes.
pub const BLOCK_LEN: usize = 16;

/// The size of a key in bytes.
pub const KEY_LEN: usize = 32;

/// Why a ciphertext could not be decrypted.
#[derive(Debug, Clone, Copy, PartialEq, Eq, Structural)]
pub enum CryptoError {
    /// The ciphertext is not made of whole blocks.
    InvalidLength,
    /// What came out of the cipher does not end in a padding.
    InvalidPadding,
}

/// The number of bytes that fill a plaintext of `n` bytes up.
pub open spec fn pad_len(n: nat) -> nat {
    (16 - n % 16) as nat
}

/// A plaintext with its padding.
pub open spec fn padded(plain: Seq<u8>) -> Seq<u8> {
    plain + Seq::new(pad_len(plain.len()), |i: int| pad_len(plain.len()) as u8)
}

/// `blocks` is made of whole blocks, at least one, and ends in `k` bytes of
/// value `k` with `1 <= k <= 16`.
pub open spec fn ends_in_padding(blocks: Seq<u8>) -> bool {
    &&& blocks.len() > 0
    &&& blocks.len() % 16 == 0
    &&& 1 <= blocks.last() <= 16
    &&& forall|i: int|
        blocks.len() - blocks.last() <= i < blocks.len() ==> blocks[i] == blocks.last()
}

/// The plaintext under a padding, where `blocks` ends in one.
pub open spec fn unpadded(blocks: Seq<u8>) -> Option<Seq<u8>> {
    if ends_in_padding(blocks) {
        Some(blocks.take(blocks.len() - blocks.last()))
    } else {
        None
    }
}

/// Taking the padding off a padded plaintext gives the plaintext.
pub proof fn lemma_unpadded_padded(plain: Seq<u8>)
    ensures
        padded(plain).len() == (plain.len() / 16 + 1) * 16,
        unpadded(padded(plain)) == Some(plain),
{
    let k = pad_len(plain.len());
    let whole = padded(plain);
    assert(whole.last() == k as u8);
    assert(whole.take(whole.len() - k) =~= plain);
}

/// Whatever has a padding taken off is the padded form of what is left.
pub proof fn lemma_padded_unpadded(blocks: Seq<u8>)
    requires
        unpadded(blocks) is Some,
    ensures
        padded(unpadded(blocks).unwrap()) == blocks,
{
    let plain = unpadded(blocks).unwrap();
    assert(padded(plain) =~= blocks);
}

/// Fills a plaintext up to whole blocks.
pub fn pad(plain: &[u8]) -> (blocks: Vec<u8>)
    ensures
        blocks@ == padded(plain@),
        blocks@.len() % 16 == 0,
{
    let k: usize = BLOCK_LEN - plain.len() % BLOCK_LEN;
    let mut blocks = vstd::slice::slice_to_vec(plain);
    let mut i: usize = 0;
    while i < k
        invariant
            i <= k <= 16,
            k == pad_len(plain@.len()),
            blocks@ == plain@ + Seq::new(i as nat, |j: int| k as u8),
        decreases k - i,
    {
        blocks.push(k as u8);
        i += 1;
        assert(blocks@ =~= plain@ + Seq::new(i as nat, |j: int| k as u8));
    }
    proof {
        lemma_unpadded_padded(plain@);
    }
    blocks
}

/// Takes the padding off, or finds that there is none.
pub fn unpad(blocks: Vec<u8>) -> (plain: Option<Vec<u8>>)
    ensures
        match plain {
            Some(p) => unpadded(blocks@) == Some(p@),
            None => unpadded(blocks@) is None,
        },
{
    let n = blocks.len();
    if n == 0 || n % BLOCK_LEN != 0 {
        return None;
    }
    let last = blocks[n - 1];
    if last < 1 || last > 16 {
        return None;
    }
    let k = last as usize;
    let mut i: usize = n - k;
    while i < n
        invariant
            n == blocks@.len(),
            1 <= k <= 16 <= n,
            k == last,
            last == blocks@.last(),
            n - k <= i <= n,
            forall|j: int| n - k <= j < i ==> blocks@[j] == last,
        decreases n - i,
    {
        if blocks[i] != last {
            return None;
        }
        i += 1;
    }
    let mut plain = blocks;
    plain.truncate(n - k);
    Some(plain)
}

/// What AES-256 in CBC mode makes of whole blocks of plaintext under a key
/// of 32 bytes and an initialisation vector of 16.
pub uninterp spec fn aes256_cbc_encrypt(key: Seq<u8>, iv: Seq<u8>, blocks: Seq<u8>) -> Seq<u8>;

/// What AES-256 in CBC mode makes of whole blocks of ciphertext under a key
/// of 32 bytes and an initialisation vector of 16.
pub uninterp spec fn aes256_cbc_decrypt(key: Seq<u8>, iv: Seq<u8>, blocks: Seq<u8>) -> Seq<u8>;

/// `crypto::aes::cbc_encryptor` with `KeySize256` and `NoPadding`, run once
/// over the whole input by `Encryptor::encrypt`.
///
/// Input that is not made of whole blocks is refused. Whole blocks give as
/// many bytes of ciphertext, a function of key, vector and input alone, and
/// the decryptor takes them back to the input.
#[verifier::external_body]
fn cbc_encrypt_blocks(key: &[u8], iv: &[u8], blocks: &[u8]) -> (out: Option<Vec<u8>>)
    requires
        key@.len() == 32,
        iv@.len() == 16,
    ensures
        out is Some <==> blocks@.len() % 16 == 0,
        out matches Some(ct) ==> ct@ == aes256_cbc_encrypt(key@, iv@, blocks@),
        out matches Some(ct) ==> ct@.len() == blocks@.len(),
        out matches Some(ct) ==> aes256_cbc_decrypt(key@, iv@, ct@) == blocks@,
{
    let mut out = vec![0u8; blocks.len()];
    let mut cipher = cbc_encryptor(KeySize::KeySize256, key, iv, NoPadding);
    let mut from = RefReadBuffer::new(blocks);
    match cipher.encrypt(&mut from, &mut RefWriteBuffer::new(&mut out), true) {
        Ok(_) => Some(out),
        Err(_) => None,
    }
}

/// `crypto::aes::cbc_decryptor` with `KeySize256` and `NoPadding`, run once
/// over the whole input by `Decryptor::decrypt`.
///
/// Input that is not made of whole blocks is refused. Whole blocks give as
/// many bytes of plaintext, a function of key, vector and input alone.
#[verifier::external_body]
fn cbc_decrypt_blocks(key: &[u8], iv: &[u8], blocks: &[u8]) -> (out: Option<Vec<u8>>)
    requires
        key@.len() == 32,
        iv@.len() == 16,
    ensures
        out is Some <==> blocks@.len() % 16 == 0,
        out matches Some(pt) ==> pt@ == aes256_cbc_decrypt(key@, iv@, blocks@),
        out matches Some(pt) ==> pt@.len() == blocks@.len(),
{
    let mut out = vec![0u8; blocks.len()];
    let mut cipher = cbc_decryptor(KeySize::KeySize256, key, iv, NoPadding);
    let mut from = RefReadBuffer::new(blocks);
    match cipher.decrypt(&mut from, &mut RefWriteBuffer::new(&mut out), true) {
        Ok(_) => Some(out),
        Err(_) => None,
    }
}

/// `rand::OsRng::new` and `Rng::fill_bytes`: overwrites the buffer with
/// bytes from the operating system's generator, or leaves it alone and says
/// `false` where the generator cannot be had. Which bytes come is not said.
#[verifier::external_body]
fn os_random_fill(buffer: &mut Vec<u8>) -> (filled: bool)
    ensures
        final(buffer)@.len() == old(buffer)@.len(),
        !filled ==> final(buffer)@ == old(buffer)@,
{
    match OsRng::new() {
        Ok(mut source) => {
            source.fill_bytes(buffer.as_mut_slice());
            true
        },
        Err(_) => false,
    }
}

/// The ciphertext of a plaintext: the cipher applied to the padded plaintext.
pub open spec fn encrypted(plain: Seq<u8>, key: Seq<u8>, iv: Seq<u8>) -> Seq<u8> {
    aes256_cbc_encrypt(key, iv, padded(plain))
}

/// The plaintext of a ciphertext, or why there is none.
pub open spec fn decrypted(ct: Seq<u8>, key: Seq<u8>, iv: Seq<u8>) -> Result<Seq<u8>, CryptoError> {
    if ct.len() % 16 != 0 {
        Err(CryptoError::InvalidLength)
    } else {
        match unpadded(aes256_cbc_decrypt(key, iv, ct)) {
            Some(plain) => Ok(plain),
            None => Err(CryptoError::InvalidPadding),
        }
    }
}

/// Encrypts a plaintext. The result is one to sixteen bytes longer than the
/// plaintext, up to the next block boundary, and decrypts to the plaintext
/// under the same key and vector.
pub fn encrypt(data: &[u8], key: &[u8], iv: &[u8]) -> (ct: Vec<u8>)
    requires
        key@.len() == KEY_LEN,
        iv@.len() == BLOCK_LEN,
    ensures
        ct@ == encrypted(data@, key@, iv@),
        ct@.len() == (data@.len() / 16 + 1) * 16,
        decrypted(ct@, key@, iv@) == Ok::<Seq<u8>, CryptoError>(data@),
{
    let blocks = pad(data);
    proof {
        lemma_unpadded_padded(data@);
    }
    match cbc_encrypt_blocks(key, iv, blocks.as_slice()) {
        Some(ct) => ct,
        None => {
            assert(false);
            blocks
        },
    }
}

/// Decrypts a ciphertext, or says why it cannot be one.
pub fn decrypt(data: &[u8], key: &[u8], iv: &[u8]) -> (plain: Result<Vec<u8>, CryptoError>)
    requires
        key@.len() == KEY_LEN,
        iv@.len() == BLOCK_LEN,
    ensures
        match plain {
            Ok(p) => decrypted(data@, key@, iv@) == Ok::<Seq<u8>, CryptoError>(p@),
            Err(e) => decrypted(data@, key@, iv@) == Err::<Seq<u8>, CryptoError>(e),
        },
{
    match cbc_decrypt_blocks(key, iv, data) {
        Some(blocks) => match unpad(blocks) {
            Some(p) => Ok(p),
            None => Err(CryptoError::InvalidPadding),
        },
        None => Err(CryptoError::InvalidLength),
    }
}

/// A fresh initialisation vector from the operating system's generator, or
/// nothing where the generator cannot be had.
pub fn fresh_iv() -> (iv: Option<Vec<u8>>)
    ensures
        iv matches Some(v) ==> v@.len() == BLOCK_LEN,
{
    let mut buffer: Vec<u8> = Vec::new();
    buffer.resize(BLOCK_LEN, 0u8);
    let filled = os_random_fill(&mut buffer);
    vector_if_filled(buffer, filled)
}

/// What a buffer is worth after it was offered to the generator: a vector
/// where the generator filled it, nothing where it did not.
pub fn vector_if_filled(buffer: Vec<u8>, filled: bool) -> (iv: Option<Vec<u8>>)
    ensures
        match iv {
            Some(v) => filled && v@ == buffer@,
            None => !filled,
        },
{
    if filled {
        Some(buffer)
    } else {
        None
    }
}

} // verus!
