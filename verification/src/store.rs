//! The store: a key, and the operations on a vault kept as one encrypted
//! blob.
//!
//! The blob is what the vault file holds: an initialisation vector of 16
//! bytes, then the ciphertext of the encoded vault. A file that does not
//! exist stands for the empty vault. An operation that changes the vault
//! hands back the blob to write in place of the old one, sealed under a
//! fresh vector.
use crate::codec::{decode, decoding, encode, vault_bytes};
use crate::crypter::{
    decrypt, decrypted, encrypt, encrypted, fresh_iv, CryptoError, BLOCK_LEN, KEY_LEN,
};
use crate::domain::{Entry, Record};
use crate::vault::{
    find, found, has_name, insert, list_names, names, remove_named, taken, without,
};
use vstd::prelude::*;

verus! {

/// Why a blob is no vault.
#[derive(Debug, Clone, Copy, PartialEq, Eq, Structural)]
pub enum CorruptVaultError {
    /// The blob is shorter than an initialisation vector.
    Truncated,
    /// The ciphertext does not decrypt under the key.
    Cipher(CryptoError),
    /// The plaintext is not the encoding of a vault.
    Malformed,
}

/// Why an operation on a store failed.
#[derive(Debug, Clone, Copy, PartialEq, Eq, Structural)]
pub enum StoreError {
    /// The blob that was handed in is no vault.
    Corrupt(CorruptVaultError),
    /// No fresh initialisation vector could be had from the operating
    /// system, so nothing was sealed.
    Entropy,
}

/// Where the vault file lies, and the key it is encrypted under.
pub struct Store {
    pub path: String,
    pub key: Vec<u8>,
}

/// What a file holds, as a sequence of bytes where there is a file.
pub open spec fn image(file: Option<Vec<u8>>) -> Option<Seq<u8>> {
    match file {
        Some(bytes) => Some(bytes@),
        None => None,
    }
}

/// The vault that a file holds under a key: the empty vault where there is
/// no file; else what the bytes behind the first sixteen decrypt and decode
/// to, with those sixteen as the vector.
pub open spec fn contents(file: Option<Seq<u8>>, key: Seq<u8>) -> Result<
    Seq<Entry>,
    CorruptVaultError,
> {
    match file {
        None => Ok(Seq::empty()),
        Some(blob) => if blob.len() < 16 {
            Err(CorruptVaultError::Truncated)
        } else {
            match decrypted(blob.skip(16), key, blob.take(16)) {
                Err(e) => Err(CorruptVaultError::Cipher(e)),
                Ok(plain) => match decoding(plain) {
                    None => Err(CorruptVaultError::Malformed),
                    Some(v) => Ok(v),
                },
            }
        },
    }
}

/// The blob of a vault under a key and a vector.
pub open spec fn sealed(v: Seq<Entry>, key: Seq<u8>, iv: Seq<u8>) -> Seq<u8> {
    iv + encrypted(vault_bytes(v), key, iv)
}

/// `blob` is the vault `v` sealed under the key and some vector.
pub open spec fn seals(blob: Seq<u8>, v: Seq<Entry>, key: Seq<u8>) -> bool {
    exists|iv: Seq<u8>| iv.len() == 16 && blob == #[trigger] sealed(v, key, iv)
}

/// Opens what a file holds.
pub fn unseal(file: &Option<Vec<u8>>, key: &[u8]) -> (opened: Result<
    Vec<Record>,
    CorruptVaultError,
>)
    requires
        key@.len() == KEY_LEN,
    ensures
        match contents(image(*file), key@) {
            Ok(v) => opened matches Ok(entries) && entries.deep_view() == v,
            Err(e) => opened matches Err(x) && x == e,
        },
{
    let blob = match file {
        None => {
            let entries: Vec<Record> = Vec::new();
            assert(entries.deep_view() =~= Seq::<Entry>::empty());
            return Ok(entries);
        },
        Some(blob) => blob,
    };
    if blob.len() < BLOCK_LEN {
        return Err(CorruptVaultError::Truncated);
    }
    let (iv, ciphertext) = blob.as_slice().split_at(BLOCK_LEN);
    assert(iv@ =~= blob@.take(16));
    assert(ciphertext@ =~= blob@.skip(16));
    let plain = match decrypt(ciphertext, key, iv) {
        Ok(plain) => plain,
        Err(e) => { return Err(CorruptVaultError::Cipher(e)); },
    };
    match decode(plain.as_slice()) {
        Some(entries) => Ok(entries),
        None => Err(CorruptVaultError::Malformed),
    }
}

/// Seals a vault under a key and a vector. What comes out opens to the same
/// vault under the same key.
pub fn seal(entries: &Vec<Record>, key: &[u8], iv: &[u8]) -> (blob: Vec<u8>)
    requires
        key@.len() == KEY_LEN,
        iv@.len() == BLOCK_LEN,
    ensures
        blob@ == sealed(entries.deep_view(), key@, iv@),
        seals(blob@, entries.deep_view(), key@),
        blob@.len() == 16 + (vault_bytes(entries.deep_view()).len() / 16 + 1) * 16,
        contents(Some(blob@), key@) matches Ok(v) && v == entries.deep_view(),
{
    let plain = encode(entries);
    let mut ciphertext = encrypt(plain.as_slice(), key, iv);
    let ghost ct = ciphertext@;
    let mut blob = vstd::slice::slice_to_vec(iv);
    blob.append(&mut ciphertext);
    proof {
        assert(blob@.take(16) =~= iv@);
        assert(blob@.skip(16) =~= ct);
    }
    blob
}

impl Store {
    /// The key has the size the cipher asks for.
    pub open spec fn wf(&self) -> bool {
        self.key@.len() == KEY_LEN
    }

    /// The vault that a file holds under the key of this store.
    pub open spec fn vault(&self, file: Option<Vec<u8>>) -> Result<Seq<Entry>, CorruptVaultError> {
        contents(image(file), self.key@)
    }

    /// Whether the key has the size the cipher asks for.
    pub fn is_well_formed(&self) -> (ok: bool)
        ensures
            ok == self.wf(),
    {
        self.key.len() == KEY_LEN
    }

    /// The records that the file holds, in order.
    pub fn read_all(&self, file: &Option<Vec<u8>>) -> (opened: Result<
        Vec<Record>,
        CorruptVaultError,
    >)
        requires
            self.wf(),
        ensures
            match self.vault(*file) {
                Ok(v) => opened matches Ok(entries) && entries.deep_view() == v,
                Err(e) => opened matches Err(x) && x == e,
            },
    {
        unseal(file, self.key.as_slice())
    }

    /// The blob of the records under a fresh vector. It opens to the same
    /// records.
    pub fn write_all(&self, entries: &Vec<Record>) -> (written: Result<Vec<u8>, StoreError>)
        requires
            self.wf(),
        ensures
            match written {
                Ok(blob) => seals(blob@, entries.deep_view(), self.key@) && (self.vault(
                    Some(blob),
                ) matches Ok(v) && v == entries.deep_view()),
                Err(e) => e == StoreError::Entropy,
            },
    {
        match fresh_iv() {
            Some(iv) => Ok(seal(entries, self.key.as_slice(), iv.as_slice())),
            None => Err(StoreError::Entropy),
        }
    }

    /// The domains of the credentials, in the order of the vault.
    pub fn list_domains(&self, file: &Option<Vec<u8>>) -> (list: Result<
        Vec<String>,
        CorruptVaultError,
    >)
        requires
            self.wf(),
        ensures
            match self.vault(*file) {
                Ok(v) => list matches Ok(l) && l.deep_view() == names(v, true),
                Err(e) => list matches Err(x) && x == e,
            },
    {
        match self.read_all(file) {
            Ok(entries) => Ok(list_names(&entries, true)),
            Err(e) => Err(e),
        }
    }

    /// The names of the commands, in the order of the vault.
    pub fn list_commands(&self, file: &Option<Vec<u8>>) -> (list: Result<
        Vec<String>,
        CorruptVaultError,
    >)
        requires
            self.wf(),
        ensures
            match self.vault(*file) {
                Ok(v) => list matches Ok(l) && l.deep_view() == names(v, false),
                Err(e) => list matches Err(x) && x == e,
            },
    {
        match self.read_all(file) {
            Ok(entries) => Ok(list_names(&entries, false)),
            Err(e) => Err(e),
        }
    }

    /// Adds a record to the vault. `Ok(None)` says that its slot is taken
    /// and the file stays as it is; `Ok(Some(blob))` hands back the file with
    /// the record added as the last.
    pub fn persist(&self, file: &Option<Vec<u8>>, entry: Record) -> (written: Result<
        Option<Vec<u8>>,
        StoreError,
    >)
        requires
            self.wf(),
        ensures
            match self.vault(*file) {
                Err(e) => written matches Err(x) && x == StoreError::Corrupt(e),
                Ok(v) => if taken(v, entry@) {
                    written matches Ok(None)
                } else {
                    match written {
                        Ok(Some(blob)) => seals(blob@, v.push(entry@), self.key@) && (self.vault(
                            Some(blob),
                        ) matches Ok(w) && w == v.push(entry@)),
                        Ok(None) => false,
                        Err(e) => e == StoreError::Entropy,
                    }
                },
            },
    {
        let mut entries = match self.read_all(file) {
            Ok(entries) => entries,
            Err(e) => { return Err(StoreError::Corrupt(e)); },
        };
        if insert(&mut entries, entry) {
            match self.write_all(&entries) {
                Ok(blob) => Ok(Some(blob)),
                Err(e) => Err(e),
            }
        } else {
            Ok(None)
        }
    }

    /// The credentials stored for a domain: the last such record, if the
    /// vault holds one.
    pub fn read_credentials(&self, file: &Option<Vec<u8>>, domain: String) -> (hit: Result<
        Option<Record>,
        CorruptVaultError,
    >)
        requires
            self.wf(),
        ensures
            match self.vault(*file) {
                Ok(v) => hit matches Ok(h) && h.deep_view() == found(v, true, domain@),
                Err(e) => hit matches Err(x) && x == e,
            },
    {
        match self.read_all(file) {
            Ok(entries) => Ok(find(&entries, true, &domain)),
            Err(e) => Err(e),
        }
    }

    /// The command stored under a name: the last such record, if the vault
    /// holds one.
    pub fn read_cmd(&self, file: &Option<Vec<u8>>, name: String) -> (hit: Result<
        Option<Record>,
        CorruptVaultError,
    >)
        requires
            self.wf(),
        ensures
            match self.vault(*file) {
                Ok(v) => hit matches Ok(h) && h.deep_view() == found(v, false, name@),
                Err(e) => hit matches Err(x) && x == e,
            },
    {
        match self.read_all(file) {
            Ok(entries) => Ok(find(&entries, false, &name)),
            Err(e) => Err(e),
        }
    }

    /// Takes every record with the name, of either kind, out of the vault.
    /// The file is rewritten whether or not there was one; the flag says
    /// whether there was.
    pub fn remove(&self, file: &Option<Vec<u8>>, name: String) -> (written: Result<
        (bool, Vec<u8>),
        StoreError,
    >)
        requires
            self.wf(),
        ensures
            match self.vault(*file) {
                Err(e) => written matches Err(x) && x == StoreError::Corrupt(e),
                Ok(v) => match written {
                    Ok((removed, blob)) => removed == has_name(v, name@) && seals(
                        blob@,
                        without(v, name@),
                        self.key@,
                    ) && (self.vault(Some(blob)) matches Ok(w) && w == without(v, name@)),
                    Err(e) => e == StoreError::Entropy,
                },
            },
    {
        let mut entries = match self.read_all(file) {
            Ok(entries) => entries,
            Err(e) => { return Err(StoreError::Corrupt(e)); },
        };
        let removed = remove_named(&mut entries, &name);
        match self.write_all(&entries) {
            Ok(blob) => Ok((removed, blob)),
            Err(e) => Err(e),
        }
    }

    /// Every record of the vault, in order.
    pub fn export_all_items(&self, file: &Option<Vec<u8>>) -> (all: Result<
        Vec<Record>,
        CorruptVaultError,
    >)
        requires
            self.wf(),
        ensures
            match self.vault(*file) {
                Ok(v) => all matches Ok(entries) && entries.deep_view() == v,
                Err(e) => all matches Err(x) && x == e,
            },
    {
        self.read_all(file)
    }
}

} // verus!
