use langwords::lang::Lang;
use langwords::messages::{Answer, Chat, Message, Update, User as Sender};
use langwords::messages::message_of;
use langwords::storage::{Storage, Translate, User, Word};
use langwords::updates::{list_langs_answer, list_words_answer, process_message};
use langwords::user::{Translate as TranslateCap, TranslateError, UserWords};

fn word(text: &str, lang: &str) -> Word {
    Word {
        word: text.to_string(),
        lang: Lang {
            lang: lang.to_string(),
        },
    }
}

fn msg(chat: i64, text: &str) -> Message {
    Message {
        message_id: 77,
        text: text.to_string(),
        from: Sender {
            id: 5,
            username: "someone".to_string(),
        },
        chat: Chat { id: chat },
    }
}

struct FixedTranslator {
    text: String,
}

impl TranslateCap for FixedTranslator {
    fn translate(&self, _word: &Word, _to: &Lang) -> Result<Vec<String>, TranslateError> {
        Ok(vec![self.text.clone()])
    }

    fn translate_to_langs(
        &self,
        _word: &Word,
        langs: Vec<Lang>,
    ) -> Result<Vec<Word>, TranslateError> {
        Ok(langs
            .into_iter()
            .map(|lang| Word {
                word: self.text.clone(),
                lang,
            })
            .collect())
    }
}

fn empty_words() -> UserWords {
    UserWords::new(Storage::from_users(vec![]))
}

fn fixed(text: &str) -> FixedTranslator {
    FixedTranslator {
        text: text.to_string(),
    }
}

// With zero stored words, a quiz request replies with the placeholder and
// changes nothing.
#[test]
fn random_words_on_empty_store() {
    let mut uw = empty_words();
    let before = uw.save();
    let (ans, changed) = process_message(&mut uw, &msg(1, "/r 3"), &fixed("x"), 10);
    assert_eq!(ans.text, "No words".to_string());
    assert_eq!(ans.chat_id, 1);
    assert_eq!(ans.reply_to_message_id, 77);
    assert!(!changed);
    assert_eq!(uw.save(), before);
}

// A quiz over a single stored word must show that word and move its marker.
#[test]
fn random_words_single_entry() {
    let users = vec![User {
        id: 1,
        langs: vec![],
        translates: vec![Translate {
            word: word("cat", "en"),
            translates: vec![word("кот", "ru")],
            last_seen: 0,
        }],
    }];
    let mut uw = UserWords::new(Storage::from_users(users));
    let (ans, changed) = process_message(&mut uw, &msg(1, "/r 1"), &fixed("x"), 55);
    assert_eq!(ans.text, "EN\tcat\nRU\tкот\n\n".to_string());
    assert!(changed);
    assert_eq!(uw.list_words(1, "")[0].last_seen, 55);
}

// A parse failure is reported back, nothing changes.
#[test]
fn dispatch_parse_failure() {
    let mut uw = empty_words();
    let (ans, changed) = process_message(&mut uw, &msg(1, "nonsense"), &fixed("x"), 0);
    assert_eq!(ans.text, "Can't parse command: Unknown command".to_string());
    assert!(!changed);
}

// Language commands reply with the updated language list.
#[test]
fn dispatch_lang_commands() {
    let mut uw = empty_words();
    let (ans, changed) = process_message(&mut uw, &msg(1, "/l en"), &fixed("x"), 0);
    assert_eq!(ans.text, " en ".to_string());
    assert!(changed);
    let (ans2, _) = process_message(&mut uw, &msg(1, "/l ru"), &fixed("x"), 0);
    assert_eq!(ans2.text, " en  ru ".to_string());
    let (ans3, changed3) = process_message(&mut uw, &msg(1, "/dl en"), &fixed("x"), 0);
    assert_eq!(ans3.text, " ru ".to_string());
    assert!(changed3);
    let (ans4, changed4) = process_message(&mut uw, &msg(1, "/ll"), &fixed("x"), 0);
    assert_eq!(ans4.text, " ru ".to_string());
    assert!(!changed4);
    let (ans5, _) = process_message(&mut uw, &msg(2, "/ll"), &fixed("x"), 0);
    assert_eq!(ans5.text, "No langs".to_string());
}

// Adding a word replies with the freshly merged entry, rendered.
#[test]
fn dispatch_add_word() {
    let mut uw = empty_words();
    process_message(&mut uw, &msg(1, "/l en"), &fixed("x"), 0);
    process_message(&mut uw, &msg(1, "/l ru"), &fixed("x"), 0);
    let (ans, changed) = process_message(&mut uw, &msg(1, "/w word en"), &fixed("слово"), 0);
    assert_eq!(ans.text, "EN\tword\nRU\tслово\n\n".to_string());
    assert!(changed);
}

// A word addition without another language is reported as unprocessable.
#[test]
fn dispatch_add_word_no_langs() {
    let mut uw = empty_words();
    let (ans, changed) = process_message(&mut uw, &msg(1, "/w word en"), &fixed("x"), 0);
    assert_eq!(ans.text, "Can't process command: No added langs".to_string());
    assert!(!changed);
}

// Deleting a word acknowledges and removes it.
#[test]
fn dispatch_delete_word() {
    let mut uw = empty_words();
    process_message(&mut uw, &msg(1, "/l en"), &fixed("x"), 0);
    process_message(&mut uw, &msg(1, "/l ru"), &fixed("x"), 0);
    process_message(&mut uw, &msg(1, "/w word en"), &fixed("слово"), 0);
    let (ans, changed) = process_message(&mut uw, &msg(1, "/dw word"), &fixed("x"), 0);
    assert_eq!(ans.text, "Word deleted".to_string());
    assert!(changed);
    let (ans2, _) = process_message(&mut uw, &msg(1, "/lw"), &fixed("x"), 0);
    assert_eq!(ans2.text, "No words".to_string());
}

// Listing words renders each entry as LANG, tab, text, one line per target.
#[test]
fn dispatch_list_words() {
    let mut uw = empty_words();
    process_message(&mut uw, &msg(1, "/l en"), &fixed("x"), 0);
    process_message(&mut uw, &msg(1, "/l ru"), &fixed("x"), 0);
    process_message(&mut uw, &msg(1, "/w cat en"), &fixed("кот"), 0);
    process_message(&mut uw, &msg(1, "/w dog en"), &fixed("пёс"), 0);
    let ans = list_words_answer(&uw, &msg(1, "/lw"), "");
    assert_eq!(
        ans.text,
        "EN\tcat\nRU\tкот\n\nEN\tdog\nRU\tпёс\n\n".to_string()
    );
    let filtered = list_words_answer(&uw, &msg(1, "/lw ca"), "ca");
    assert_eq!(filtered.text, "EN\tcat\nRU\tкот\n\n".to_string());
    let empty = list_langs_answer(&empty_words(), &msg(9, "/ll"));
    assert_eq!(empty.text, "No langs".to_string());
}

// The help command prints one line per command.
#[test]
fn dispatch_help() {
    let mut uw = empty_words();
    let (ans, changed) = process_message(&mut uw, &msg(1, "/help"), &fixed("x"), 0);
    assert!(ans.text.contains("Add new word. Example: /w word en"));
    assert!(ans.text.contains("List random words. Example: /r 5"));
    assert!(!changed);
}

// An update hands out its primary message, an edit falls back, and an
// update carrying neither is skipped.
#[test]
fn message_extraction() {
    let primary = Update {
        update_id: 1,
        message: Some(msg(1, "a")),
        edited_message: Some(msg(1, "b")),
    };
    assert_eq!(message_of(&primary).unwrap().text, "a".to_string());
    let edited = Update {
        update_id: 2,
        message: None,
        edited_message: Some(msg(1, "b")),
    };
    assert_eq!(message_of(&edited).unwrap().text, "b".to_string());
    let neither = Update {
        update_id: 3,
        message: None,
        edited_message: None,
    };
    assert!(message_of(&neither).is_none());
}

// Replies carry the chat and message they answer.
#[test]
fn answer_addresses_message() {
    let m = msg(123, "hello");
    let a = Answer::from_message("text", &m);
    assert_eq!(a.chat_id, 123);
    assert_eq!(a.reply_to_message_id, 77);
    assert_eq!(a.text, "text".to_string());
}
