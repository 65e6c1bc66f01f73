use langwords::codec::{decode_users, encode_users};
use langwords::lang::Lang;
use langwords::storage::{Storage, Translate, User, Word};

fn word(text: &str, lang: &str) -> Word {
    Word {
        word: text.to_string(),
        lang: Lang {
            lang: lang.to_string(),
        },
    }
}

fn sample_users() -> Vec<User> {
    vec![
        User {
            id: -42,
            langs: vec!["en".parse().unwrap(), "ru".parse().unwrap()],
            translates: vec![
                Translate {
                    word: word("word", "en"),
                    translates: vec![word("слово", "ru"), word("сөз", "kk")],
                    last_seen: 17,
                },
                Translate {
                    word: word("do\"or\\x", "en"),
                    translates: vec![],
                    last_seen: -3,
                },
            ],
        },
        User {
            id: 9000,
            langs: vec![],
            translates: vec![],
        },
    ]
}

// Round trip: decoding what was saved yields the records that were saved.
#[test]
fn round_trip() {
    let users = sample_users();
    let text = encode_users(&users);
    let got = decode_users(text.as_str()).expect("decoding an encoded store");
    assert_eq!(got, users);
}

#[test]
fn round_trip_empty() {
    let users: Vec<User> = vec![];
    let text = encode_users(&users);
    assert_eq!(text, "[]");
    let got = decode_users(text.as_str()).unwrap();
    assert_eq!(got, users);
}

// The layout is the JSON shape of the records.
#[test]
fn encode_shape() {
    let users = vec![User {
        id: 1,
        langs: vec!["en".parse().unwrap()],
        translates: vec![Translate {
            word: word("cat", "en"),
            translates: vec![word("кот", "ru")],
            last_seen: 0,
        }],
    }];
    let text = encode_users(&users);
    assert_eq!(
        text,
        "[{\"id\":1,\"langs\":[{\"lang\":\"en\"}],\"translates\":[{\"word\":{\"word\":\"cat\",\"lang\":{\"lang\":\"en\"}},\"translates\":[{\"word\":\"кот\",\"lang\":{\"lang\":\"ru\"}}],\"last_seen\":0}]}]"
    );
}

// An empty or whitespace-only backing file yields an empty store; garbage
// is a store error.
#[test]
fn storage_new_handles_content() {
    let empty = Storage::new("").unwrap();
    assert!(empty.get(1).is_none());
    let blank = Storage::new(" \n\t ").unwrap();
    assert!(blank.get(1).is_none());
    let bad = Storage::new("{not a store}");
    assert_eq!(
        bad.err().unwrap().description,
        "Can't decode the word store".to_string()
    );
    let truncated = Storage::new("[{\"id\":1");
    assert!(truncated.is_err());
}

// A saved store loads back record by record, and whitespace around the
// payload is tolerated.
#[test]
fn storage_save_load() {
    let users = sample_users();
    let stor = Storage::from_users(users);
    let text = stor.save();
    let padded = format!("  {}\n", text);
    let again = Storage::new(padded.as_str()).unwrap();
    let u = again.get(-42).unwrap();
    assert_eq!(u.id, -42);
    assert_eq!(u.langs.len(), 2);
    assert_eq!(u.translates[0].word, word("word", "en"));
    assert_eq!(u.translates[0].last_seen, 17);
    assert_eq!(u.translates[1].word.word, "do\"or\\x".to_string());
    assert_eq!(u.translates[1].last_seen, -3);
    assert!(again.get(9000).is_some());
    assert_eq!(again.save(), text);
}

// Extreme ids survive the trip through their decimal rendering.
#[test]
fn round_trip_extreme_numbers() {
    let users = vec![User {
        id: i64::MIN,
        langs: vec![],
        translates: vec![Translate {
            word: word("w", "en"),
            translates: vec![],
            last_seen: i64::MAX,
        }],
    }];
    let text = encode_users(&users);
    let got = decode_users(text.as_str()).unwrap();
    assert_eq!(got, users);
}

// The decoder consumes the whole file: trailing garbage is rejected.
#[test]
fn decode_rejects_trailing_garbage() {
    assert!(decode_users("[]x").is_none());
    assert!(decode_users("").is_none());
    assert!(decode_users("[],").is_none());
}
