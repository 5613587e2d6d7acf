use bms_keysounds::bms::as_id;
use bms_keysounds::line::{GenericLine, Line, Note, NoteGrammar};

#[test]
fn test_get_keysounds() {
    let line = Line::new("#09501:S2S3S4S5S2S3S4S5S2S3S4S5S2S3S4S5");

    let keysound_ids = ["S2", "S3", "S4", "S5"]
        .map(|keysound_str| {
            let error_msg = format!("Unable to convert keysound {} to an id.", keysound_str);

            as_id(keysound_str).expect(&error_msg)
        })
        .into_iter()
        .collect::<Vec<u64>>();

    let note = line.as_note().expect("Failed to get note");

    let keysounds = note.keysounds_used();

    assert_eq!(keysounds.len(), 4, "The line should have 5 keysounds.");

    for id in keysound_ids {
        assert!(note.uses_keysound(id));
    }

    assert!(!note.uses_keysound(as_id("S1").unwrap()));
    assert!(!note.uses_keysound(as_id("S6").unwrap()));
}

#[test]
fn test_note_serialisation() {
    let note = Note {
        measure: 50,
        channel: as_id("14").unwrap() as u32,
        keysounds: [
            "7H", "7I", "7P", "7H", "7I", "7P", "7K", "7I", "7P", "7H", "7I", "7P", "7H", "7I",
            "7P", "7H",
        ]
        .map(|s| as_id(s).expect("Failed to create ID from strings."))
        .to_vec(),
    };

    assert_eq!(note.to_string(), "#05014:7H7I7P7H7I7P7K7I7P7H7I7P7H7I7P7H");
}

#[test]
fn test_note_ser_deser() {
    let line = "#05014:7H7I7P7H7I7P7K7I7P7H7I7P7H7I7P7H";

    assert_eq!(
        Note::new(line)
            .expect("Failed to initialise note from line.")
            .to_string(),
        line
    );
}

#[test]
fn test_replace_keysounds() {
    let mut note = Note {
        measure: 1,
        channel: as_id("11").unwrap() as u32,
        keysounds: vec![18, 19, 20],
    };

    assert!(note.replace_keysounds(18, 19).is_some());

    assert_eq!(note.keysounds, vec![19, 19, 20]);
}

#[test]
fn test_replace_keysounds_2() {
    let mut note = Note::new("#05201:0000SU0000SV0000").unwrap();

    note.replace_keysounds(as_id("SU").unwrap(), as_id("SV").unwrap());

    assert_eq!(note.to_string(), "#05201:0000SV0000SV0000");
}

#[test]
fn note_fields_are_parsed() {
    let note = Note::new("#05014:7H7I7P7H7I7P7K7I7P7H7I7P7H7I7P7H").unwrap();
    assert_eq!(note.measure, 50);
    assert_eq!(note.channel(), 40);
    assert_eq!(note.keysounds().len(), 16);
    assert_eq!(note.keysounds()[0], as_id("7H").unwrap());
    assert_eq!(note.keysounds()[6], as_id("7K").unwrap());
}

#[test]
fn note_channel_is_base36() {
    let note = Note::new("#0011A:01").unwrap();
    assert_eq!(note.channel(), 46);
    assert_eq!(note.to_string(), "#0011A:01");
}

#[test]
fn note_with_empty_body() {
    let note = Note::new("#99911:").unwrap();
    assert_eq!(note.measure, 999);
    assert!(note.keysounds().is_empty());
    assert_eq!(note.to_string(), "#99911:");
}

#[test]
fn lower_case_tokens_are_written_upper_case() {
    let note = Note::new("#0021a:0az9").unwrap();
    assert_eq!(note.to_string(), "#0021A:0AZ9");
}

#[test]
fn keysounds_used_is_sorted_and_distinct() {
    let note = Note::new("#09501:S2S3S4S5S2S3S4S5S2S3S4S5S2S3S4S5").unwrap();
    let expected: Vec<u64> = ["S2", "S3", "S4", "S5"]
        .iter()
        .map(|s| as_id(s).unwrap())
        .collect();
    assert_eq!(note.keysounds_used(), expected);

    let note = Note::new("#00111:0500030500010000").unwrap();
    assert_eq!(note.keysounds_used(), vec![0, 1, 3, 5]);
}

#[test]
fn replace_on_first_player_lane_of_low_group() {
    let mut note = Note::new("#00101:0A0B0A").unwrap();
    assert_eq!(note.replace_keysounds(10, 12), Some(()));
    assert_eq!(note.to_string(), "#00101:0C0B0C");
}

#[test]
fn replace_on_any_high_channel() {
    let mut note = Note::new("#00112:0A0B0A").unwrap();
    assert_eq!(note.channel(), 38);
    assert_eq!(note.replace_keysounds(10, 11), Some(()));
    assert_eq!(note.to_string(), "#00112:0B0B0B");
}

#[test]
fn replace_on_protected_channel_is_refused() {
    let mut note = Note::new("#05202:0000SU0000SV0000").unwrap();
    let result = note.replace_keysounds(as_id("SU").unwrap(), as_id("SV").unwrap());
    assert_eq!(result, None);
    assert_eq!(note.to_string(), "#05202:0000SU0000SV0000");

    let mut bpm = Note::new("#00103:0A").unwrap();
    assert_eq!(bpm.replace_keysounds(10, 11), None);
    assert_eq!(bpm.keysounds, vec![10]);
}

#[test]
fn malformed_measure_is_generic() {
    let line = Line::new("#ABCDE:");
    assert!(matches!(line, Line::Generic(_)));
    assert!(line.as_note().is_none());
    assert_eq!(line.to_string(), "#ABCDE:");
}

#[test]
fn odd_body_is_generic() {
    let line = Line::new("#00111:0A0");
    assert!(matches!(line, Line::Generic(_)));
    assert_eq!(line.to_string(), "#00111:0A0");
}

#[test]
fn bad_slot_token_is_generic() {
    let line = Line::new("#00111:0A!!");
    assert!(matches!(line, Line::Generic(_)));
    assert_eq!(line.to_string(), "#00111:0A!!");
}

#[test]
fn header_must_start_the_line() {
    let line = Line::new(" #00111:0A");
    assert!(matches!(line, Line::Generic(_)));
    assert!(!Note::line_is_note(" #00111:0A"));
    assert!(Note::line_is_note("#ABCDE:"));
    assert!(!Note::line_is_note("#ABCD:"));
}

#[test]
fn generic_line_loses_trailing_white_space() {
    let line = Line::new("#TITLE song \t \r");
    assert_eq!(line.to_string(), "#TITLE song");
    let blank = Line::new("   ");
    assert_eq!(blank.to_string(), "");
}

#[test]
fn note_line_is_rewritten_from_fields() {
    let line = Line::new("#00211:0a0B");
    assert!(matches!(line, Line::Note(_)));
    assert_eq!(line.to_string(), "#00211:0A0B");
}

#[test]
fn generic_line_accessors() {
    let mut generic = GenericLine::new("#00111:zz ".to_string());
    assert_eq!(generic.get_channel(), "11");
    assert_eq!(generic.line(), "#00111:zz ");
    assert_eq!(generic.len(), 10);
    assert!(!generic.is_empty());
    assert!(GenericLine::new(String::new()).is_empty());
    generic.line_mut().push('x');
    assert_eq!(generic.line(), "#00111:zz x");
}

#[test]
fn one_grammar_classifies_many_lines() {
    let grammar = NoteGrammar::new();
    assert!(grammar.matches("#00111:"));
    assert!(!grammar.matches("#WAV01 a.wav"));
    let note = Note::parse(&grammar, "#00111:0A").unwrap();
    assert_eq!(note.keysounds, vec![10]);
    assert!(Note::parse(&grammar, "#0x111:0A").is_none());
    assert!(matches!(Line::classify(&grammar, "#00111:0A"), Line::Note(_)));
    assert!(matches!(Line::classify(&grammar, "#BPM 150"), Line::Generic(_)));
}

#[test]
fn get_channel_counts_bytes() {
    let generic = GenericLine::new("#\u{e9}12345".to_string());
    assert_eq!(generic.get_channel(), "23");
    let ascii = GenericLine::new("#00111".to_string());
    assert_eq!(ascii.get_channel(), "11");
}

#[test]
fn generic_line_ending_in_non_ascii_is_kept() {
    let line = Line::new("#TITLE \u{e9}");
    assert_eq!(line.to_string(), "#TITLE \u{e9}");
    let spaced = Line::new("#TITLE x\u{3000}\u{a0}");
    assert_eq!(spaced.to_string(), "#TITLE x");
}
