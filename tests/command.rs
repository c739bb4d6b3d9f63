use vclock_peers::command::{parse_command, Command};

#[test]
fn command_words_are_recognised() {
    assert_eq!(parse_command(b"event"), Command::Event);
    assert_eq!(parse_command(b"clock"), Command::Clock);
    assert_eq!(parse_command(b"end"), Command::End);
}

#[test]
fn other_lines_name_a_peer() {
    assert_eq!(parse_command(b"server2"), Command::Send(b"server2".to_vec()));
    assert_eq!(parse_command(b"events"), Command::Send(b"events".to_vec()));
    assert_eq!(parse_command(b"en"), Command::Send(b"en".to_vec()));
    assert_eq!(parse_command(b""), Command::Send(Vec::new()));
}
