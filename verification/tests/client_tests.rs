use companion_memory::client::{
    answer_prompt, emotion_prompt, get_answer, memory_quant_to_openai_message, parse_emotion,
    Completion, EmotionParseError, Role, TokensUsage, MAX_REPLY_TOKENS,
};
use companion_memory::decimal::Decimal;
use companion_memory::time::Timestamp;
use companion_memory::types::{
    AssistantMessage, Emotion, LongTermMemory, MemoryQuant, SystemMessage, UserMessage,
};

fn at(secs: i64) -> Timestamp {
    Timestamp { secs, nanos: 0 }
}

fn transcript() -> Vec<MemoryQuant> {
    vec![
        MemoryQuant::LongTermMemory(LongTermMemory {
            summary: "seed".to_string(),
            emotion: Emotion { emotion: "Sense of existence".to_string(), level: Decimal::one() },
            time: at(0),
        }),
        MemoryQuant::User(UserMessage { content: "Hi".to_string(), time: at(1) }),
        MemoryQuant::Assistant(AssistantMessage {
            content: "Hello".to_string(),
            emotion: Emotion { emotion: "Joy".to_string(), level: Decimal { micros: 900_000 } },
            time: at(2),
        }),
        MemoryQuant::System(SystemMessage { content: "note".to_string(), time: at(3) }),
    ]
}

fn completion(reason: Option<&str>) -> Completion {
    Completion {
        text: "Hello there".to_string(),
        finish_reason: reason.map(|r| r.to_string()),
        total_tokens: 42,
    }
}

#[test]
fn each_kind_of_entry_speaks_under_its_role() {
    let messages: Vec<_> = transcript().into_iter().map(memory_quant_to_openai_message).collect();
    assert_eq!(messages[0].role, Role::System);
    assert_eq!(messages[0].content, "seed");
    assert_eq!(messages[1].role, Role::User);
    assert_eq!(messages[1].content, "Hi");
    assert_eq!(messages[2].role, Role::Assistant);
    assert_eq!(messages[2].content, "Hello");
    assert_eq!(messages[3].role, Role::System);
    assert_eq!(messages[3].content, "note");
}

#[test]
fn the_answer_prompt_is_the_transcript() {
    let prompt = answer_prompt(transcript());
    let shown: Vec<(Role, &str)> = prompt.iter().map(|m| (m.role, m.content.as_str())).collect();
    assert_eq!(
        shown,
        vec![
            (Role::System, "seed"),
            (Role::User, "Hi"),
            (Role::Assistant, "Hello"),
            (Role::System, "note"),
        ]
    );
    assert!(answer_prompt(Vec::new()).is_empty());
}

#[test]
fn the_emotion_prompt_ends_with_the_instruction() {
    let prompt = emotion_prompt(transcript());
    assert_eq!(prompt.len(), 5);
    assert_eq!(prompt[1].content, "Hi");
    assert_eq!(prompt[4].role, Role::System);
    assert_eq!(
        prompt[4].content,
        "Tell in one word your emotion and level from 0 to 100 (Example: \"Neutral, 4\")"
    );
    let prompt = emotion_prompt(Vec::new());
    assert_eq!(prompt.len(), 1);
    assert_eq!(prompt[0].role, Role::System);
}

#[test]
fn replies_may_take_a_hundred_tokens() {
    assert_eq!(MAX_REPLY_TOKENS, 100);
}

#[test]
fn an_emotion_reply_gives_label_and_level() {
    let emotion = parse_emotion("Neutral, 4").unwrap();
    assert_eq!(emotion.emotion, "Neutral");
    assert_eq!(emotion.level, Decimal { micros: 40_000 });
    let emotion = parse_emotion("Joy,87.5").unwrap();
    assert_eq!(emotion.emotion, "Joy");
    assert_eq!(emotion.level, Decimal { micros: 875_000 });
    let emotion = parse_emotion("Calm, 0").unwrap();
    assert_eq!(emotion.level, Decimal::zero());
    let emotion = parse_emotion("Ecstatic, 100").unwrap();
    assert_eq!(emotion.level, Decimal::one());
    let emotion = parse_emotion("Tiny, 0.0001").unwrap();
    assert_eq!(emotion.level, Decimal { micros: 1 });
    let emotion = parse_emotion("Tinier, 0.00009").unwrap();
    assert_eq!(emotion.level, Decimal { micros: 0 });
}

#[test]
fn white_space_around_label_and_level_is_dropped() {
    let emotion = parse_emotion("  Very happy \t,\n 55 \r\n").unwrap();
    assert_eq!(emotion.emotion, "Very happy");
    assert_eq!(emotion.level, Decimal { micros: 550_000 });
    let emotion = parse_emotion(", 5").unwrap();
    assert_eq!(emotion.emotion, "");
    assert_eq!(emotion.level, Decimal { micros: 50_000 });
}

#[test]
fn a_reply_without_a_comma_is_refused() {
    assert_eq!(parse_emotion("Neutral 4").unwrap_err(), EmotionParseError::MissingComma);
    assert_eq!(parse_emotion("").unwrap_err(), EmotionParseError::MissingComma);
    assert_eq!(parse_emotion("   ").unwrap_err(), EmotionParseError::MissingComma);
}

#[test]
fn a_level_that_is_no_number_is_refused() {
    assert_eq!(parse_emotion("Neutral, four").unwrap_err(), EmotionParseError::LevelNotANumber);
    assert_eq!(parse_emotion("Neutral,").unwrap_err(), EmotionParseError::LevelNotANumber);
    assert_eq!(parse_emotion("Neutral, ").unwrap_err(), EmotionParseError::LevelNotANumber);
    assert_eq!(parse_emotion("Neutral, 4%").unwrap_err(), EmotionParseError::LevelNotANumber);
}

#[test]
fn the_reply_is_split_at_its_first_comma() {
    assert_eq!(parse_emotion("a, 4, x").unwrap_err(), EmotionParseError::LevelNotANumber);
    assert_eq!(parse_emotion("a,b, 4").unwrap_err(), EmotionParseError::LevelNotANumber);
}

#[test]
fn a_level_out_of_range_is_refused_not_clamped() {
    assert_eq!(parse_emotion("Joy, 150").unwrap_err(), EmotionParseError::LevelOutOfRange);
    assert_eq!(parse_emotion("Joy, 100.5").unwrap_err(), EmotionParseError::LevelOutOfRange);
    assert_eq!(parse_emotion("Joy, -3").unwrap_err(), EmotionParseError::LevelOutOfRange);
    assert_eq!(parse_emotion("Joy, -0.000001").unwrap_err(), EmotionParseError::LevelOutOfRange);
    assert_eq!(
        parse_emotion("Joy, 99999999999999999999999").unwrap_err(),
        EmotionParseError::LevelOutOfRange
    );
    assert_eq!(parse_emotion("Joy, -0").unwrap().level, Decimal::zero());
}

#[test]
fn an_answer_carries_text_emotion_time_and_tokens() {
    let now = Timestamp { secs: 77, nanos: 5 };
    let answer = get_answer(completion(Some("stop")), "Happy, 80", now).unwrap();
    assert_eq!(answer.message.content, "Hello there");
    assert_eq!(answer.message.emotion.emotion, "Happy");
    assert_eq!(answer.message.emotion.level, Decimal { micros: 800_000 });
    assert_eq!(answer.message.time, now);
    assert_eq!(answer.tokens_usage, TokensUsage(42));
    assert!(!answer.unfinished);
}

#[test]
fn a_reply_that_did_not_stop_by_itself_is_marked() {
    let now = at(1);
    assert!(get_answer(completion(Some("length")), "Happy, 80", now).unwrap().unfinished);
    assert!(get_answer(completion(Some("")), "Happy, 80", now).unwrap().unfinished);
    assert!(get_answer(completion(Some("Stop")), "Happy, 80", now).unwrap().unfinished);
    assert!(get_answer(completion(None), "Happy, 80", now).unwrap().unfinished);
    assert!(!get_answer(completion(Some("stop")), "Happy, 80", now).unwrap().unfinished);
}

#[test]
fn there_is_no_answer_without_an_emotion() {
    let now = at(1);
    assert_eq!(
        get_answer(completion(Some("stop")), "no idea", now).unwrap_err(),
        EmotionParseError::MissingComma
    );
    assert_eq!(
        get_answer(completion(Some("stop")), "Happy, very", now).unwrap_err(),
        EmotionParseError::LevelNotANumber
    );
    assert_eq!(
        get_answer(completion(Some("stop")), "Happy, 101", now).unwrap_err(),
        EmotionParseError::LevelOutOfRange
    );
}
