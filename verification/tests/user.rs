use langwords::lang::Lang;
use langwords::storage::{Storage, Translate, User, Word};
use langwords::user::{Translate as TranslateCap, TranslateError, UserErrorKind, UserWords};

fn word(text: &str, lang: &str) -> Word {
    Word {
        word: text.to_string(),
        lang: Lang {
            lang: lang.to_string(),
        },
    }
}

/// A canned translation capability: every requested language gets the same
/// fixed text back.
struct FixedTranslator {
    text: String,
}

impl TranslateCap for FixedTranslator {
    fn translate(&self, _word: &Word, _to: &Lang) -> Result<Vec<String>, TranslateError> {
        Ok(vec![self.text.clone()])
    }

    fn translate_to_langs(
        &self,
        _word: &Word,
        langs: Vec<Lang>,
    ) -> Result<Vec<Word>, TranslateError> {
        Ok(langs
            .into_iter()
            .map(|lang| Word {
                word: self.text.clone(),
                lang,
            })
            .collect())
    }
}

/// A capability that always fails.
struct BrokenTranslator;

impl TranslateCap for BrokenTranslator {
    fn translate(&self, _word: &Word, _to: &Lang) -> Result<Vec<String>, TranslateError> {
        Err(TranslateError {
            description: "translation backend down".to_string(),
        })
    }

    fn translate_to_langs(
        &self,
        _word: &Word,
        _langs: Vec<Lang>,
    ) -> Result<Vec<Word>, TranslateError> {
        Err(TranslateError {
            description: "translation backend down".to_string(),
        })
    }
}

fn empty_words() -> UserWords {
    UserWords::new(Storage::from_users(vec![]))
}

// A user with no registered languages cannot add a word.
#[test]
fn add_word_without_langs_fails() {
    let mut uw = empty_words();
    let tr = FixedTranslator {
        text: "слово".to_string(),
    };
    let got = uw.add_word(1, &word("word", "en"), &tr);
    let err = got.err().unwrap();
    assert_eq!(err.kind, UserErrorKind::NoLang);
    assert_eq!(err.description, "No added langs".to_string());
    assert!(uw.get(1).is_none());
}

// The word's own language does not count as a target.
#[test]
fn add_word_needs_another_language() {
    let mut uw = empty_words();
    uw.add_lang(1, &"en".parse().unwrap());
    let tr = FixedTranslator {
        text: "слово".to_string(),
    };
    let got = uw.add_word(1, &word("word", "en"), &tr);
    assert_eq!(got.err().unwrap().kind, UserErrorKind::NoLang);
}

// With languages en and ru, adding an English word stores one entry whose
// target list is the Russian rendering.
#[test]
fn add_word_stores_translations() {
    let mut uw = empty_words();
    uw.add_lang(1, &"en".parse().unwrap());
    uw.add_lang(1, &"ru".parse().unwrap());
    let tr = FixedTranslator {
        text: "слово".to_string(),
    };
    uw.add_word(1, &word("word", "en"), &tr).unwrap();
    let listed = uw.list_words(1, "");
    assert_eq!(
        listed,
        vec![Translate {
            word: word("word", "en"),
            translates: vec![word("слово", "ru")],
            last_seen: 0,
        }]
    );
}

// A failing translation capability leaves the store untouched.
#[test]
fn add_word_translation_failure() {
    let mut uw = empty_words();
    uw.add_lang(1, &"en".parse().unwrap());
    uw.add_lang(1, &"ru".parse().unwrap());
    let got = uw.add_word(1, &word("word", "en"), &BrokenTranslator);
    let err = got.err().unwrap();
    assert_eq!(err.kind, UserErrorKind::Translate);
    assert_eq!(err.description, "translation backend down".to_string());
    assert_eq!(uw.list_words(1, ""), vec![]);
}

// Deleting a word then listing that text yields nothing; other entries stay
// in order.
#[test]
fn delete_word_then_list() {
    let mut uw = empty_words();
    uw.add_lang(1, &"en".parse().unwrap());
    uw.add_lang(1, &"ru".parse().unwrap());
    let tr = FixedTranslator {
        text: "слово".to_string(),
    };
    uw.add_word(1, &word("word", "en"), &tr).unwrap();
    uw.add_word(1, &word("door", "en"), &tr).unwrap();
    uw.delete_word(1, "word");
    assert_eq!(uw.list_words(1, "word"), vec![]);
    let rest = uw.list_words(1, "");
    assert_eq!(rest.len(), 1);
    assert_eq!(rest[0].word, word("door", "en"));
}

// The list filter matches case-insensitively on the pattern and keeps
// insertion order; unknown users list nothing.
#[test]
fn list_words_filters() {
    let mut uw = empty_words();
    uw.add_lang(1, &"en".parse().unwrap());
    uw.add_lang(1, &"ru".parse().unwrap());
    let tr = FixedTranslator {
        text: "слово".to_string(),
    };
    uw.add_word(1, &word("cat", "en"), &tr).unwrap();
    uw.add_word(1, &word("scatter", "en"), &tr).unwrap();
    uw.add_word(1, &word("dog", "en"), &tr).unwrap();
    let cats = uw.list_words(1, "CAT");
    assert_eq!(cats.len(), 2);
    assert_eq!(cats[0].word, word("cat", "en"));
    assert_eq!(cats[1].word, word("scatter", "en"));
    assert_eq!(uw.list_words(2, ""), vec![]);
    assert_eq!(uw.list_langs(2), vec![]);
}

// Languages list in insertion order; re-adding and deleting behave as
// no-ops where they should.
#[test]
fn lang_lifecycle() {
    let mut uw = empty_words();
    let en: Lang = "en".parse().unwrap();
    let ru: Lang = "ru".parse().unwrap();
    uw.add_lang(1, &en);
    uw.add_lang(1, &ru);
    uw.add_lang(1, &en);
    assert_eq!(uw.list_langs(1), vec![en.clone(), ru.clone()]);
    uw.delete_lang(1, &en);
    uw.delete_lang(1, &en);
    assert_eq!(uw.list_langs(1), vec![ru]);
}

// Saving and reloading through the orchestrator preserves the records.
#[test]
fn save_reload() {
    let mut uw = empty_words();
    uw.add_lang(1, &"en".parse().unwrap());
    uw.add_lang(1, &"ru".parse().unwrap());
    let tr = FixedTranslator {
        text: "кот".to_string(),
    };
    uw.add_word(1, &word("cat", "en"), &tr).unwrap();
    let text = uw.save();
    let reloaded = UserWords::new(Storage::new(text.as_str()).unwrap());
    assert_eq!(reloaded.list_words(1, ""), uw.list_words(1, ""));
    assert_eq!(reloaded.list_langs(1), uw.list_langs(1));
}

// The quiz marker moves through the orchestrator as well.
#[test]
fn update_last_seen_moves_marker() {
    let users = vec![User {
        id: 1,
        langs: vec![],
        translates: vec![Translate {
            word: word("cat", "en"),
            translates: vec![],
            last_seen: 0,
        }],
    }];
    let mut uw = UserWords::new(Storage::from_users(users));
    uw.update_last_seen(1, vec![word("cat", "en")], 99);
    assert_eq!(uw.list_words(1, "")[0].last_seen, 99);
}
