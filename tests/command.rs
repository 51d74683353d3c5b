use player_index::command::{parse_command, parse_string, parse_u32, remove_outer_quotes, tokens_from_captures, Command};
use player_index::text::chars_of;

fn toks(v: &[&str]) -> Vec<String> {
    v.iter().map(|s| s.to_string()).collect()
}

#[test]
fn line_is_split_into_tokens() {
    assert_eq!(parse_string("player 'Lionel Messi'"), toks(&["player", "Lionel Messi"]));
    assert_eq!(parse_string("  tags great  \"fast\" "), toks(&["tags", "great", "\"fast\""]));
    assert_eq!(parse_string("top10 'ST'"), toks(&["top10", "ST"]));
    assert_eq!(parse_string("a'b c'"), toks(&["a'b", "c'"]));
    assert_eq!(parse_string("   "), Vec::<String>::new());
    assert_eq!(parse_string(""), Vec::<String>::new());
    assert_eq!(parse_string("tags great fast"), toks(&["tags", "great", "fast"]));
}

#[test]
fn captures_give_group_or_whole_match() {
    let caps = vec![(Some("x y".to_string()), "'x y'".to_string()), (None, "z".to_string())];
    assert_eq!(tokens_from_captures(caps), toks(&["x y", "z"]));
}

#[test]
fn outer_quotes_are_removed() {
    assert_eq!(remove_outer_quotes("\"'Messi'\""), "Messi");
    assert_eq!(remove_outer_quotes("Mes'si"), "Mes'si");
    assert_eq!(remove_outer_quotes("''"), "");
    assert_eq!(remove_outer_quotes("plain"), "plain");
}

#[test]
fn numbers_are_read_in_decimal() {
    assert_eq!(parse_u32(&chars_of("42")), Some(42));
    assert_eq!(parse_u32(&chars_of("+7")), Some(7));
    assert_eq!(parse_u32(&chars_of("4294967295")), Some(4294967295));
    assert_eq!(parse_u32(&chars_of("4294967296")), None);
    assert_eq!(parse_u32(&chars_of("")), None);
    assert_eq!(parse_u32(&chars_of("+")), None);
    assert_eq!(parse_u32(&chars_of("12a")), None);
    assert_eq!(parse_u32(&chars_of("-1")), None);
}

#[test]
fn verbs_are_read() {
    match parse_command(&toks(&["PLAYER", "'Lionel", "Messi'"])) {
        Command::Player(p) => assert_eq!(p, "Lionel Messi"),
        other => panic!("{:?}", other),
    }
    assert!(matches!(parse_command(&toks(&["user", "'12'"])), Command::User(12)));
    assert!(matches!(parse_command(&toks(&["user", "x12"])), Command::InvalidUserId));
    match parse_command(&toks(&["tags", "\"great\"", "fast"])) {
        Command::Tags(t) => assert_eq!(t, toks(&["great", "fast"])),
        other => panic!("{:?}", other),
    }
    match parse_command(&toks(&["Top5", "'ST'"])) {
        Command::Top(n, pos) => {
            assert_eq!(n, 5);
            assert_eq!(pos, "ST");
        }
        other => panic!("{:?}", other),
    }
    assert!(matches!(parse_command(&toks(&["topx", "ST"])), Command::InvalidTop));
    assert!(matches!(parse_command(&toks(&["hello", "x"])), Command::Invalid));
    assert!(matches!(parse_command(&toks(&["player"])), Command::Insufficient));
    assert!(matches!(parse_command(&toks(&[])), Command::Insufficient));
}
