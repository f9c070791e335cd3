use companion_memory::text::{char_is_whitespace, chars_of, find_char, join_words, trim_bounds};
use companion_memory::time::Timestamp;
use companion_memory::decimal::Decimal;
use companion_memory::types::{
    clone_transcript, AssistantMessage, Emotion, EmotionError, MemoryQuant, UserMessage,
};

#[test]
fn white_space_is_what_unicode_says_it_is() {
    for c in ['\t', '\n', '\u{0B}', '\u{0C}', '\r', ' ', '\u{85}', '\u{A0}', '\u{1680}',
        '\u{2000}', '\u{2005}', '\u{200A}', '\u{2028}', '\u{2029}', '\u{202F}', '\u{205F}',
        '\u{3000}']
    {
        assert!(char_is_whitespace(c));
    }
    for c in ['a', '0', '#', ',', '\u{08}', '\u{0E}', '\u{1F}', '\u{200B}', '\u{2060}', '\u{FEFF}']
    {
        assert!(!char_is_whitespace(c));
    }
    let mut c = '\0';
    loop {
        assert_eq!(char_is_whitespace(c), c.is_whitespace());
        if c == '\u{4000}' {
            break;
        }
        c = char::from_u32(c as u32 + 1).unwrap();
    }
}

#[test]
fn chars_of_lists_every_character() {
    assert_eq!(chars_of("a\u{e9}\u{1F600}z"), vec!['a', '\u{e9}', '\u{1F600}', 'z']);
    assert_eq!(chars_of(""), Vec::<char>::new());
}

#[test]
fn find_char_gives_the_first_place_or_the_end() {
    let chars = chars_of("a,b,c");
    assert_eq!(find_char(&chars, 0, 5, ','), 1);
    assert_eq!(find_char(&chars, 2, 5, ','), 3);
    assert_eq!(find_char(&chars, 4, 5, ','), 5);
    assert_eq!(find_char(&chars, 0, 1, ','), 1);
    assert_eq!(find_char(&chars, 0, 5, 'x'), 5);
    assert_eq!(find_char(&chars, 3, 3, ','), 3);
}

#[test]
fn trim_bounds_drop_white_space_at_both_ends() {
    let chars = chars_of("  ab c \n");
    assert_eq!(trim_bounds(&chars, 0, chars.len()), (2, 6));
    assert_eq!(trim_bounds(&chars, 3, 5), (3, 4));
    assert_eq!(trim_bounds(&chars, 0, 2), (2, 2));
    let blank = chars_of(" \t ");
    assert_eq!(trim_bounds(&blank, 0, 3), (3, 3));
    assert_eq!(trim_bounds(&blank, 1, 1), (1, 1));
}

#[test]
fn words_are_joined_with_single_spaces() {
    let words: Vec<String> = vec!["a".to_string(), "".to_string(), "b c".to_string()];
    assert_eq!(join_words(&words), "a  b c");
    assert_eq!(join_words(&vec!["one".to_string()]), "one");
    assert_eq!(join_words(&Vec::new()), "");
}

#[test]
fn timestamps_are_ordered_by_seconds_then_nanoseconds() {
    let a = Timestamp::new(5, 10);
    let b = Timestamp::new(5, 11);
    let c = Timestamp::new(6, 0);
    let d = Timestamp::new(-1, 999_999_999);
    assert!(a.is_earlier_than(&b));
    assert!(b.is_earlier_than(&c));
    assert!(a.is_earlier_than(&c));
    assert!(d.is_earlier_than(&a));
    assert!(!b.is_earlier_than(&a));
    assert!(!a.is_earlier_than(&a));
    assert!(!c.is_earlier_than(&d));
    assert_eq!(a, Timestamp { secs: 5, nanos: 10 });
}

#[test]
fn an_emotion_takes_a_level_from_zero_to_one() {
    let e = Emotion::new("Joy".to_string(), Decimal { micros: 900_000 }).unwrap();
    assert_eq!(e.emotion, "Joy");
    assert_eq!(e.level, Decimal { micros: 900_000 });
    assert!(Emotion::new("Joy".to_string(), Decimal::zero()).is_ok());
    assert!(Emotion::new("Joy".to_string(), Decimal::one()).is_ok());
}

#[test]
fn an_emotion_refuses_a_level_out_of_range() {
    assert_eq!(
        Emotion::new("Joy".to_string(), Decimal { micros: 1_000_001 }).unwrap_err(),
        EmotionError::LevelOutOfRange
    );
    assert_eq!(
        Emotion::new("Joy".to_string(), Decimal { micros: -1 }).unwrap_err(),
        EmotionError::LevelOutOfRange
    );
    assert_eq!(
        Emotion::new("Joy".to_string(), Decimal { micros: 90_000_000 }).unwrap_err(),
        EmotionError::LevelOutOfRange
    );
}

#[test]
fn decimals_know_the_unit_interval() {
    assert!(Decimal::zero().in_unit_interval());
    assert!(Decimal::one().in_unit_interval());
    assert!(Decimal::from_micros(500_000).in_unit_interval());
    assert!(!Decimal::from_micros(-1).in_unit_interval());
    assert!(!Decimal::from_micros(1_000_001).in_unit_interval());
    assert!(Decimal::from_micros(2).exceeds(&Decimal::from_micros(1)));
    assert!(!Decimal::from_micros(1).exceeds(&Decimal::from_micros(1)));
    assert!(!Decimal::from_micros(-5).exceeds(&Decimal::from_micros(1)));
}

#[test]
fn entries_are_copied_whole() {
    let entry = MemoryQuant::Assistant(AssistantMessage {
        content: "Hello".to_string(),
        emotion: Emotion { emotion: "Joy".to_string(), level: Decimal { micros: 900_000 } },
        time: Timestamp { secs: 2, nanos: 1 },
    });
    assert_eq!(format!("{:?}", entry.clone()), format!("{:?}", entry));
    assert_eq!(entry.time(), Timestamp { secs: 2, nanos: 1 });
    let transcript = vec![
        MemoryQuant::User(UserMessage { content: "Hi".to_string(), time: Timestamp::new(1, 0) }),
        entry,
    ];
    assert_eq!(format!("{:?}", clone_transcript(&transcript)), format!("{:?}", transcript));
}
