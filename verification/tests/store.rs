use kyuko_bot::store::{backup_file_name, commit_apply, recover, temp_file_name, DiskState};
use std::collections::HashMap;

fn yaml_bytes(value: &HashMap<String, u32>) -> Vec<u8> {
    serde_yaml::to_string(value).unwrap().into_bytes()
}

fn yaml_value(bytes: &[u8]) -> HashMap<String, u32> {
    serde_yaml::from_str(std::str::from_utf8(bytes).unwrap()).unwrap()
}

#[test]
fn commit_open_roundtrip() {
    // write a value, commit, "close", reopen: the same value comes back
    let mut old_value: HashMap<String, u32> = HashMap::new();
    old_value.insert("a".to_string(), 1);
    let mut new_value = old_value.clone();
    new_value.insert("b".to_string(), 2);

    let disk = DiskState { primary: Some(yaml_bytes(&old_value)), backup: None, temp: None };
    let committed = commit_apply(disk, yaml_bytes(&new_value));
    assert!(committed.backup.is_none());
    assert!(committed.temp.is_none());

    let reopened = recover(committed);
    assert_eq!(yaml_value(reopened.primary.as_ref().unwrap()), new_value);
}

#[test]
fn crash_after_checkpoint_recovers_old_snapshot() {
    // the backup was written (checkpoint reached) but the commit never
    // finished: reopening yields the pre-commit value and removes the backup
    let mut old_value: HashMap<String, u32> = HashMap::new();
    old_value.insert("a".to_string(), 1);
    let old_bytes = yaml_bytes(&old_value);

    let crashed = DiskState {
        primary: None,  // the primary was even lost mid-rewrite
        backup: Some(old_bytes.clone()),
        temp: None,
    };
    let reopened = recover(crashed);
    assert!(reopened.backup.is_none());
    assert_eq!(yaml_value(reopened.primary.as_ref().unwrap()), old_value);
}

#[test]
fn torn_primary_never_leaks() {
    // a torn write left garbage in the primary while the backup exists:
    // recovery yields exactly the previous snapshot, never the garbage
    let mut old_value: HashMap<String, u32> = HashMap::new();
    old_value.insert("a".to_string(), 1);
    let old_bytes = yaml_bytes(&old_value);

    let torn = DiskState {
        primary: Some(b"a: 1\nb".to_vec()),
        backup: Some(old_bytes.clone()),
        temp: Some(b"half-copied".to_vec()),
    };
    let reopened = recover(torn);
    assert!(reopened.backup.is_none());
    assert_eq!(reopened.primary, Some(old_bytes));
}

#[test]
fn backup_name_is_hidden_sibling() {
    assert_eq!(&backup_file_name("users.yml"), ".users.yml.bck");
    assert_eq!(&backup_file_name("tweets.yml"), ".tweets.yml.bck");
}

#[test]
fn temp_name_encodes_the_draw() {
    assert_eq!(temp_file_name(0), b".AAAAAAAAAA.tmp".to_vec());
    assert_eq!(temp_file_name(63), b".-AAAAAAAAA.tmp".to_vec());
    assert_eq!(temp_file_name(26), b".aAAAAAAAAA.tmp".to_vec());
    assert_eq!(temp_file_name(52), b".0AAAAAAAAA.tmp".to_vec());
    assert_eq!(temp_file_name(64), b".ABAAAAAAAA.tmp".to_vec());
}
