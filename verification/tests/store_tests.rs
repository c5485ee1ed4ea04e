use mpass::crypter::CryptoError;
use mpass::domain::Record;
use mpass::store::{seal, unseal, CorruptVaultError, Store, StoreError};

fn credentials(domain: &str, username: &str, password: &str) -> Record {
    Record::Credentials {
        domain: domain.to_string(),
        username: username.to_string(),
        password: password.to_string(),
    }
}

fn command(name: &str, command_line: &str) -> Record {
    Record::Command { name: name.to_string(), command_line: command_line.to_string() }
}

fn store() -> Store {
    Store { path: "store.bin".to_string(), key: (0u8..32).collect() }
}

fn added(store: &Store, file: &Option<Vec<u8>>, record: Record) -> Option<Vec<u8>> {
    let blob = store.persist(file, record).expect("a vault and a vector");
    assert!(blob.is_some());
    blob
}

#[test]
fn a_key_of_32_bytes_is_well_formed() {
    assert!(store().is_well_formed());
    assert!(!Store { path: String::new(), key: vec![0; 16] }.is_well_formed());
    assert!(!Store { path: String::new(), key: Vec::new() }.is_well_formed());
}

#[test]
fn a_missing_file_is_the_empty_vault() {
    let s = store();
    assert_eq!(s.export_all_items(&None), Ok(Vec::new()));
    assert_eq!(s.list_domains(&None), Ok(Vec::new()));
    assert_eq!(s.list_commands(&None), Ok(Vec::new()));
    assert_eq!(s.read_credentials(&None, "example.com".to_string()), Ok(None));
    assert_eq!(s.read_cmd(&None, "deploy".to_string()), Ok(None));
}

#[test]
fn second_credentials_for_a_domain_are_refused() {
    let s = store();
    let alice = credentials("example.com", "alice", "p1");
    let bob = credentials("example.com", "bob", "p2");
    let file = added(&s, &None, alice.clone());
    assert_eq!(s.persist(&file, bob), Ok(None));
    assert_eq!(s.read_credentials(&file, "example.com".to_string()), Ok(Some(alice)));
}

#[test]
fn a_removed_command_is_gone() {
    let s = store();
    let file = added(&s, &None, command("deploy", "ssh host deploy.sh"));
    let (removed, after) = s.remove(&file, "deploy".to_string()).expect("a vault and a vector");
    assert!(removed);
    assert_eq!(s.read_cmd(&Some(after), "deploy".to_string()), Ok(None));
}

#[test]
fn what_was_persisted_is_read_back() {
    let s = store();
    let site = credentials("example.com", "alice", "p1");
    let deploy = command("deploy", "ssh host deploy.sh");
    let file = added(&s, &None, site.clone());
    let file = added(&s, &file, deploy.clone());
    assert_eq!(s.read_credentials(&file, "example.com".to_string()), Ok(Some(site.clone())));
    assert_eq!(s.read_cmd(&file, "deploy".to_string()), Ok(Some(deploy.clone())));
    assert_eq!(s.read_cmd(&file, "example.com".to_string()), Ok(None));
    assert_eq!(s.read_credentials(&file, "deploy".to_string()), Ok(None));
    assert_eq!(s.export_all_items(&file), Ok(vec![site, deploy]));
}

#[test]
fn a_name_may_be_shared_across_kinds() {
    let s = store();
    let file = added(&s, &None, credentials("same", "u", "p"));
    let file = added(&s, &file, command("same", "ls"));
    assert_eq!(
        s.export_all_items(&file),
        Ok(vec![credentials("same", "u", "p"), command("same", "ls")])
    );
    assert_eq!(s.persist(&file, command("same", "pwd")), Ok(None));
}

#[test]
fn remove_takes_every_record_of_the_name() {
    let s = store();
    let file = added(&s, &None, credentials("same", "u", "p"));
    let file = added(&s, &file, command("other", "ls"));
    let file = added(&s, &file, command("same", "pwd"));
    let (removed, after) = s.remove(&file, "same".to_string()).expect("a vault and a vector");
    assert!(removed);
    assert_eq!(s.export_all_items(&Some(after)), Ok(vec![command("other", "ls")]));
}

#[test]
fn remove_of_an_absent_name_rewrites_the_same_vault() {
    let s = store();
    let file = added(&s, &None, credentials("a", "u", "p"));
    let (removed, after) = s.remove(&file, "b".to_string()).expect("a vault and a vector");
    assert!(!removed);
    assert_ne!(Some(after.clone()), file);
    assert_eq!(s.export_all_items(&Some(after)), s.export_all_items(&file));
    let (removed, fresh) = s.remove(&None, "b".to_string()).expect("a vault and a vector");
    assert!(!removed);
    assert_eq!(s.export_all_items(&Some(fresh)), Ok(Vec::new()));
}

#[test]
fn listings_keep_insertion_order_and_kind() {
    let s = store();
    let file = added(&s, &None, credentials("z.org", "u", "p"));
    let file = added(&s, &file, command("build", "make"));
    let file = added(&s, &file, credentials("a.org", "u", "p"));
    let file = added(&s, &file, command("apply", "patch"));
    assert_eq!(s.list_domains(&file), Ok(vec!["z.org".to_string(), "a.org".to_string()]));
    assert_eq!(s.list_commands(&file), Ok(vec!["build".to_string(), "apply".to_string()]));
}

#[test]
fn every_write_uses_another_vector() {
    let s = store();
    let entries = vec![credentials("a", "u", "p")];
    let one = s.write_all(&entries).expect("a vector");
    let two = s.write_all(&entries).expect("a vector");
    assert_ne!(one[..16], two[..16]);
    assert_ne!(one, two);
    assert_eq!(s.read_all(&Some(one)), Ok(entries.clone()));
    assert_eq!(s.read_all(&Some(two)), Ok(entries));
}

#[test]
fn a_blob_is_the_vector_then_whole_blocks() {
    let key: Vec<u8> = (0u8..32).collect();
    let iv = vec![0xabu8; 16];
    let blob = seal(&Vec::new(), &key, &iv);
    assert_eq!(blob.len(), 32);
    assert_eq!(&blob[..16], &iv[..]);
    let blob = seal(&vec![command("x", "ls")], &key, &iv);
    assert_eq!(blob.len(), 16 + 32);
    assert_eq!(unseal(&Some(blob), &key), Ok(vec![command("x", "ls")]));
}

#[test]
fn sealing_is_deterministic_in_the_vector() {
    let key: Vec<u8> = (0u8..32).collect();
    let entries = vec![command("x", "ls")];
    assert_eq!(seal(&entries, &key, &[1u8; 16]), seal(&entries, &key, &[1u8; 16]));
    assert_ne!(seal(&entries, &key, &[1u8; 16])[16..], seal(&entries, &key, &[2u8; 16])[16..]);
}

#[test]
fn a_file_shorter_than_a_vector_is_corrupt() {
    let s = store();
    assert_eq!(s.export_all_items(&Some(Vec::new())), Err(CorruptVaultError::Truncated));
    assert_eq!(s.export_all_items(&Some(vec![0; 15])), Err(CorruptVaultError::Truncated));
    assert_eq!(
        s.persist(&Some(vec![0; 15]), command("x", "ls")),
        Err(StoreError::Corrupt(CorruptVaultError::Truncated))
    );
    assert_eq!(
        s.remove(&Some(vec![0; 15]), "x".to_string()),
        Err(StoreError::Corrupt(CorruptVaultError::Truncated))
    );
}

#[test]
fn a_ciphertext_of_partial_blocks_is_corrupt() {
    let s = store();
    let mut blob = s.write_all(&vec![command("x", "ls")]).expect("a vector");
    blob.pop();
    assert_eq!(
        s.read_all(&Some(blob)),
        Err(CorruptVaultError::Cipher(CryptoError::InvalidLength))
    );
}

#[test]
fn a_vector_alone_is_corrupt() {
    let s = store();
    assert_eq!(
        s.read_all(&Some(vec![0; 16])),
        Err(CorruptVaultError::Cipher(CryptoError::InvalidPadding))
    );
}

#[test]
fn a_blob_under_another_key_does_not_open() {
    let s = store();
    let blob = s.write_all(&vec![credentials("a", "u", "p")]).expect("a vector");
    let other = Store { path: String::new(), key: vec![9; 32] };
    assert!(other.read_all(&Some(blob)).is_err());
}

#[test]
fn a_plaintext_that_is_no_vault_is_malformed() {
    let key: Vec<u8> = (0u8..32).collect();
    let iv = vec![3u8; 16];
    let mut blob = iv.clone();
    blob.extend(mpass::crypter::encrypt(b"not a vault", &key, &iv));
    assert_eq!(unseal(&Some(blob), &key), Err(CorruptVaultError::Malformed));
}
