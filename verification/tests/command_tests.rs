use jigarpich::callback_query_command::{parse_command, serialize_command, CbQueryCommand};
use jigarpich::digits::u64_to_string;
use jigarpich::room::RoomId;

#[test]
fn commands_serialize_to_their_wire_words() {
    let id = RoomId(12345);
    assert_eq!(
        serialize_command(id, CbQueryCommand::Join { team_index: 3 }),
        "join 12345 3"
    );
    assert_eq!(serialize_command(id, CbQueryCommand::GetTeams), "get_teams 12345");
    assert_eq!(serialize_command(id, CbQueryCommand::Play), "play 12345");
    assert_eq!(serialize_command(id, CbQueryCommand::Start), "start 12345");
    assert_eq!(serialize_command(id, CbQueryCommand::Correct), "correct 12345");
    assert_eq!(serialize_command(id, CbQueryCommand::Skip), "skip 12345");
}

#[test]
fn parsing_undoes_serialization() {
    let cases = [
        (RoomId(10_000), CbQueryCommand::Join { team_index: 0 }),
        (RoomId(99_999), CbQueryCommand::Join { team_index: 6 }),
        (RoomId(1), CbQueryCommand::GetTeams),
        (RoomId(0), CbQueryCommand::Play),
        (RoomId(4_294_967_295), CbQueryCommand::Start),
        (RoomId(7), CbQueryCommand::Correct),
        (RoomId(42), CbQueryCommand::Skip),
        (RoomId(9), CbQueryCommand::Join { team_index: 5_000_000_000 }),
        (RoomId(9), CbQueryCommand::Join { team_index: usize::MAX }),
    ];
    for (id, cmd) in cases {
        let wire = serialize_command(id, cmd);
        let (back_id, back_cmd) = parse_command(wire).expect("wire form parses");
        assert_eq!(back_id, id);
        assert_eq!(back_cmd, cmd);
    }
}

#[test]
fn parsing_concrete_wire_strings() {
    let (id, cmd) = parse_command(String::from("join 12345 2")).unwrap();
    assert_eq!(id, RoomId(12345));
    assert_eq!(cmd, CbQueryCommand::Join { team_index: 2 });

    let (id, cmd) = parse_command(String::from("correct 777")).unwrap();
    assert_eq!(id, RoomId(777));
    assert_eq!(cmd, CbQueryCommand::Correct);

    // A team index may exceed the 32-bit range of a room number.
    let (id, cmd) = parse_command(String::from("join 1 4294967296")).unwrap();
    assert_eq!(id, RoomId(1));
    assert_eq!(cmd, CbQueryCommand::Join { team_index: 4_294_967_296 });
}

#[test]
fn malformed_wire_strings_do_not_parse() {
    for bad in [
        "",
        " ",
        "play",
        "play abc",
        "play 12.5",
        "join 12345",
        "join 12345 x",
        "join x 2",
        "launch 12345",
        "play 4294967296",
    ] {
        assert_eq!(parse_command(String::from(bad)), None, "input: {bad:?}");
    }
}

#[test]
fn trailing_text_is_ignored_except_as_a_join_index() {
    let (id, cmd) = parse_command(String::from("play 12 anything")).unwrap();
    assert_eq!(id, RoomId(12));
    assert_eq!(cmd, CbQueryCommand::Play);
}

#[test]
fn numbers_render_in_decimal() {
    assert_eq!(u64_to_string(0), "0");
    assert_eq!(u64_to_string(7), "7");
    assert_eq!(u64_to_string(1_234_567_890), "1234567890");
    assert_eq!(u64_to_string(u64::MAX), "18446744073709551615");
}
