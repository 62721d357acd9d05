use htdb::Command;

#[test]
fn parse_reads_two_argument_commands() {
    match Command::parse(b"GET users alice") {
        Some(Command::Get { hash_key, tree_key }) => {
            assert_eq!(b"users".to_vec(), hash_key);
            assert_eq!(b"alice".to_vec(), tree_key);
        }
        _ => panic!("expected a get command"),
    }
    match Command::parse(b"CONTAINS users alice") {
        Some(Command::Contains { .. }) => {}
        _ => panic!("expected a contains command"),
    }
    match Command::parse(b"DELETE users alice") {
        Some(Command::Delete { .. }) => {}
        _ => panic!("expected a delete command"),
    }
}

#[test]
fn parse_reads_three_argument_commands() {
    match Command::parse(b"PUT users alice 42") {
        Some(Command::Put { hash_key, tree_key, data }) => {
            assert_eq!(b"users".to_vec(), hash_key);
            assert_eq!(b"alice".to_vec(), tree_key);
            assert_eq!(b"42".to_vec(), data);
        }
        _ => panic!("expected a put command"),
    }
    match Command::parse(b"RANGE users a z") {
        Some(Command::Range { hash_key, tree_start, tree_end }) => {
            assert_eq!(b"users".to_vec(), hash_key);
            assert_eq!(b"a".to_vec(), tree_start);
            assert_eq!(b"z".to_vec(), tree_end);
        }
        _ => panic!("expected a range command"),
    }
}

#[test]
fn parse_reads_bare_commands() {
    assert!(matches!(Command::parse(b"COUNT"), Some(Command::Count {})));
    assert!(matches!(Command::parse(b"SHOW"), Some(Command::Show {})));
    assert!(matches!(Command::parse(b"SAVE"), Some(Command::Save {})));
    assert!(matches!(Command::parse(b"LOAD"), Some(Command::Load {})));
    assert!(matches!(Command::parse(b"EXIT"), Some(Command::Exit {})));
}

#[test]
fn parse_skips_leading_and_extra_whitespace() {
    match Command::parse(b"   GET \t users \t alice") {
        Some(Command::Get { hash_key, tree_key }) => {
            assert_eq!(b"users".to_vec(), hash_key);
            assert_eq!(b"alice".to_vec(), tree_key);
        }
        _ => panic!("expected a get command"),
    }
}

#[test]
fn parse_rejects_incomplete_and_unknown_commands() {
    assert!(Command::parse(b"GET users").is_none());
    assert!(Command::parse(b"PUT users alice").is_none());
    assert!(Command::parse(b"").is_none());
    assert!(Command::parse(b"FETCH users alice").is_none());
    // the shell grammar does not know the successor and predecessor commands
    assert!(Command::parse(b"SUCC users alice").is_none());
    assert!(Command::parse(b"PRED users alice").is_none());
}
