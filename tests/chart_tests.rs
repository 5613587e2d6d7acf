use bms_keysounds::bms::as_id;
use bms_keysounds::chart::{BMSFile, DeclarationError, Keysound};
use bms_keysounds::bms::DecodeError;
use bms_keysounds::line::Line;
use bms_keysounds::command::{is_yes, split_fields, Command};

fn lines(text: &[&str]) -> Vec<String> {
    text.iter().map(|s| s.to_string()).collect()
}

fn sample() -> BMSFile {
    BMSFile::from_lines(&lines(&[
        "#PLAYER 1",
        "#TITLE demo  ",
        "#WAV01 kick.wav",
        "#WAV02 snare.wav",
        "#WAV03 unused.ogg",
        "",
        "#00111:0102",
        "#00101:0200",
        "#00208:01",
    ]))
    .unwrap()
}

#[test]
fn parse_splits_head_declarations_and_tail() {
    let bms = sample();
    assert_eq!(bms.head.len(), 2);
    assert_eq!(bms.keysounds().len(), 3);
    assert_eq!(bms.tail.len(), 4);
    assert_eq!(bms.keysounds()[1].keysound_id, 2);
    assert_eq!(bms.keysounds()[1].keysound_file, "snare.wav");
    assert!(matches!(bms.tail[0], Line::Generic(_)));
    assert!(matches!(bms.tail[1], Line::Note(_)));
}

#[test]
fn declaration_after_the_block_goes_to_the_tail() {
    let bms = BMSFile::from_lines(&lines(&["#WAV01 a.wav", "#BPM 120", "#WAV02 b.wav"])).unwrap();
    assert_eq!(bms.head.len(), 0);
    assert_eq!(bms.keysounds().len(), 1);
    assert_eq!(bms.tail.len(), 2);
    assert!(!bms.has_keysound(2));
}

#[test]
fn chart_without_declarations_is_all_head() {
    let bms = BMSFile::from_lines(&lines(&["#TITLE x", "#00111:01"])).unwrap();
    assert_eq!(bms.head.len(), 2);
    assert!(bms.keysounds().is_empty());
    assert!(bms.tail.is_empty());
}

#[test]
fn malformed_declaration_fails_the_parse() {
    let bad_id = BMSFile::from_lines(&lines(&["#TITLE x", "#WAV!! a.wav"]));
    assert!(matches!(
        bad_id,
        Err(DeclarationError::InvalidId(DecodeError::InvalidDigit))
    ));
    let short = BMSFile::from_lines(&lines(&["#WAV01 a.wav", "#WAV0"]));
    assert!(matches!(short, Err(DeclarationError::Truncated)));
    assert!(matches!(
        Keysound::from_line("#WAVZZ x"),
        Ok(Keysound { keysound_id: 1295, .. })
    ));
}

#[test]
fn serialisation_writes_regions_in_order() {
    let bms = sample();
    let expected = "#PLAYER 1\n#TITLE demo\n#WAV01 kick.wav\n#WAV02 snare.wav\n#WAV03 unused.ogg\n\n#00111:0102\n#00101:0200\n#00208:01";
    assert_eq!(bms.to_lines().join("\n"), expected);
    assert_eq!(bms.to_bytes(), expected.as_bytes().to_vec());
}

#[test]
fn unused_keysounds_are_those_no_note_uses() {
    let bms = sample();
    let unused = bms.get_unused_keysounds();
    assert_eq!(unused.len(), 1);
    assert_eq!(unused[0].keysound_id, 3);
    assert_eq!(unused[0].keysound_file, "unused.ogg");
    assert_eq!(unused[0].to_string(), "#WAV03 unused.ogg");
}

#[test]
fn usage_needs_a_declaration() {
    let bms = BMSFile::from_lines(&lines(&["#WAV01 a.wav", "#00111:0102"])).unwrap();
    assert!(bms.uses_keysound(1));
    assert!(!bms.uses_keysound(2));
    assert!(bms.has_keysound(1));
    assert!(!bms.has_keysound(2));
}

#[test]
fn later_declaration_wins_lookup() {
    let mut bms =
        BMSFile::from_lines(&lines(&["#WAV01 first.wav", "#WAV01 second.wav"])).unwrap();
    assert_eq!(bms.get_keysound(1).unwrap().keysound_file, "second.wav");
    assert!(bms.get_keysound(2).is_none());
    bms.get_keysound_mut(1).unwrap().keysound_file = "third.wav".to_string();
    assert_eq!(bms.keysounds()[0].keysound_file, "first.wav");
    assert_eq!(bms.keysounds()[1].keysound_file, "third.wav");
}

#[test]
fn rewrite_replaces_on_eligible_channels_only() {
    let mut bms = sample();
    bms.rewrite(2, 1);
    assert!(!bms.has_keysound(2));
    assert_eq!(bms.keysounds().len(), 2);
    let text = bms.to_lines();
    assert_eq!(text[4], "");
    assert_eq!(text[5], "#00111:0101");
    assert_eq!(text[6], "#00101:0100");
    assert_eq!(text[7], "#00208:01");
}

#[test]
fn rewrite_removes_declaration_even_when_refused() {
    let mut bms = BMSFile::from_lines(&lines(&["#WAV0A a.wav", "#WAV0B b.wav", "#00103:0A"])).unwrap();
    bms.rewrite(10, 11);
    assert!(!bms.has_keysound(10));
    assert_eq!(bms.to_lines()[1], "#00103:0A");
}

#[test]
fn remove_keysound_drops_every_declaration_of_the_id() {
    let mut bms =
        BMSFile::from_lines(&lines(&["#WAV01 a.wav", "#WAV02 b.wav", "#WAV01 c.wav"])).unwrap();
    bms.remove_keysound(1);
    assert_eq!(bms.keysounds().len(), 1);
    assert_eq!(bms.keysounds()[0].keysound_id, 2);
}

#[test]
fn commands_from_input() {
    assert_eq!(Command::from_input(""), Command::Empty);
    assert_eq!(Command::from_input("r"), Command::Replace);
    assert_eq!(Command::from_input("merge"), Command::Merge);
    assert_eq!(Command::from_input("u"), Command::RemoveUnusedKeysounds);
    assert_eq!(Command::from_input("a"), Command::RemoveUnusedFiles);
    assert_eq!(Command::from_input("q"), Command::Quit);
    assert_eq!(Command::from_input("x"), Command::Unknown('x'));
}

#[test]
fn yes_answers() {
    assert!(is_yes("y"));
    assert!(is_yes("Yes\n"));
    assert!(!is_yes("no"));
    assert!(!is_yes(""));
}

#[test]
fn split_fields_keeps_empty_pieces() {
    assert_eq!(split_fields("0B,0C,0D", ','), vec!["0B", "0C", "0D"]);
    assert_eq!(split_fields("", ','), vec![""]);
    assert_eq!(split_fields(",a,", ','), vec!["", "a", ""]);
    assert_eq!(as_id(&split_fields("0B,0C", ',')[1]), Ok(12));
}

#[test]
fn lines_are_read_without_trailing_white_space() {
    let bms = BMSFile::from_lines(&lines(&["#WAV0A a.wav  ", "#00111:0A \r"])).unwrap();
    assert_eq!(bms.keysounds()[0].keysound_file, "a.wav");
    assert!(matches!(bms.tail[0], Line::Note(_)));
    assert!(bms.uses_keysound(10));
    assert!(bms.get_unused_keysounds().is_empty());
}

#[test]
fn canonical_chart_round_trips() {
    let text = "#TITLE \u{e9}t\u{e9}\n#WAV01 kick.wav\n#WAV0Z snare.wav\n#00111:010Z\n#BPM 120";
    let source: Vec<&str> = text.split('\n').collect();
    let bms = BMSFile::from_lines(&lines(&source)).unwrap();
    assert_eq!(bms.to_bytes(), text.as_bytes().to_vec());
}

#[test]
fn missing_keysound_lookup_changes_nothing() {
    let mut bms = sample();
    assert!(bms.get_keysound_mut(9).is_none());
    assert_eq!(bms.keysounds().len(), 3);
    bms.remove_keysound(9);
    assert_eq!(bms.keysounds().len(), 3);
}
