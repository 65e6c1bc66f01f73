use langwords::lang::Lang;
use langwords::storage::{Storage, Translate, User, Word};
use langwords::strategy::UserUpdateStrategy;

#[test]
fn add_lang() {
    let strat = UserUpdateStrategy::AddLang { lang: "en".parse().unwrap() };
    let mut test_u: Vec<User> = vec![];
    let mut expect_u: Vec<User> = vec![];
    let id = 1;
    {
        let u_test = User::new(id);
        test_u.push(u_test);

        let mut u_expect = User::new(id);
        u_expect.langs.push("en".parse().unwrap());
        expect_u.push(u_expect)
    }
    {
        let mut u_test = User::new(id);
        u_test.langs.push("en".parse().unwrap());
        test_u.push(u_test);

        let mut u_expect = User::new(id);
        u_expect.langs.push("en".parse().unwrap());
        expect_u.push(u_expect)
    }
    {
        let mut u_test = User::new(id);
        u_test.langs.push("ru".parse().unwrap());
        test_u.push(u_test);

        let mut u_expect = User::new(id);
        u_expect.langs.push("ru".parse().unwrap());
        u_expect.langs.push("en".parse().unwrap());
        expect_u.push(u_expect)
    }
    for (i, tst) in test_u.iter().enumerate() {
        assert_eq!(expect_u[i], strat.apply(tst))
    }
}

#[test]
fn del_lang() {
    let strat = UserUpdateStrategy::DeleteLang { lang: "en".parse().unwrap() };
    let mut test_u: Vec<User> = vec![];
    let mut expect_u: Vec<User> = vec![];
    let id = 1;
    {
        let u_test = User::new(id);
        test_u.push(u_test);

        let u_expect = User::new(id);
        expect_u.push(u_expect)
    }
    {
        let mut u_test = User::new(id);
        u_test.langs.push("en".parse().unwrap());
        test_u.push(u_test);

        let u_expect = User::new(id);
        expect_u.push(u_expect)
    }
    {
        let mut u_test = User::new(id);
        u_test.langs.push("ru".parse().unwrap());
        u_test.langs.push("en".parse().unwrap());
        test_u.push(u_test);

        let mut u_expect = User::new(id);
        u_expect.langs.push("ru".parse().unwrap());
        expect_u.push(u_expect)
    }
    for (i, tst) in test_u.iter().enumerate() {
        assert_eq!(expect_u[i], strat.apply(tst), "Failed test: {}", i)
    }
}

#[test]
fn del_word() {
    let strat = UserUpdateStrategy::DeleteWord { word: "word".to_string() };
    let mut test_u: Vec<User> = vec![];
    let mut expect_u: Vec<User> = vec![];
    let id = 1;
    {
        let u_test = User::new(id);
        test_u.push(u_test);

        let u_expect = User::new(id);
        expect_u.push(u_expect)
    }
    {
        let mut u_test = User::new(id);
        u_test.translates.push(Translate {
            word: Word {
                word: "word".to_string(),
                lang: "en".parse().unwrap(),
            },
            translates: vec![Word {
                word: "слово".to_string(),
                lang: "ru".parse().unwrap(),
            }],
            last_seen: 0,
        });
        test_u.push(u_test);

        let u_expect = User::new(id);
        expect_u.push(u_expect)
    }
    {
        let mut u_test = User::new(id);
        u_test.translates.push(Translate {
            word: Word {
                word: "word".to_string(),
                lang: "en".parse().unwrap(),
            },
            translates: vec![Word {
                word: "слово".to_string(),
                lang: "ru".parse().unwrap(),
            }],
            last_seen: 0,
        });
        u_test.translates.push(Translate {
            word: Word {
                word: "door".to_string(),
                lang: "en".parse().unwrap(),
            },
            translates: vec![Word {
                word: "дверь".to_string(),
                lang: "ru".parse().unwrap(),
            }],
            last_seen: 0,
        });
        test_u.push(u_test);

        let mut u_expect = User::new(id);
        u_expect.translates.push(Translate {
            word: Word {
                word: "door".to_string(),
                lang: "en".parse().unwrap(),
            },
            translates: vec![Word {
                word: "дверь".to_string(),
                lang: "ru".parse().unwrap(),
            }],
            last_seen: 0,
        });
        expect_u.push(u_expect)
    }

    for (i, tst) in test_u.iter().enumerate() {
        assert_eq!(expect_u[i], strat.apply(tst), "Failed test: {}", i)
    }
}

#[test]
fn add_translate() {
    let strat = UserUpdateStrategy::AddTranslate {
        tran: Translate {
            word: Word {
                word: "word".to_string(),
                lang: "en".parse().unwrap(),
            },
            translates: vec![Word {
                word: "слово".to_string(),
                lang: "ru".parse().unwrap(),
            }],
            last_seen: 0,
        },
    };
    let mut test_u: Vec<User> = vec![];
    let mut expect_u: Vec<User> = vec![];
    let id = 1;
    {
        let u_test = User::new(id);
        test_u.push(u_test);

        let mut u_expect = User::new(id);
        u_expect.translates.push(Translate {
            word: Word {
                word: "word".to_string(),
                lang: "en".parse().unwrap(),
            },
            translates: vec![Word {
                word: "слово".to_string(),
                lang: "ru".parse().unwrap(),
            }],
            last_seen: 0,
        });
        expect_u.push(u_expect)
    }
    {
        let mut u_test = User::new(id);
        u_test.translates.push(Translate {
            word: Word {
                word: "word".to_string(),
                lang: "en".parse().unwrap(),
            },
            translates: vec![Word {
                word: "слово".to_string(),
                lang: "ru".parse().unwrap(),
            }],
            last_seen: 0,
        });
        test_u.push(u_test);

        let mut u_expect = User::new(id);
        u_expect.translates.push(Translate {
            word: Word {
                word: "word".to_string(),
                lang: "en".parse().unwrap(),
            },
            translates: vec![Word {
                word: "слово".to_string(),
                lang: "ru".parse().unwrap(),
            }],
            last_seen: 0,
        });
        expect_u.push(u_expect)
    }
    {
        let mut u_test = User::new(id);
        u_test.translates.push(Translate {
            word: Word {
                word: "word".to_string(),
                lang: "en".parse().unwrap(),
            },
            translates: vec![Word {
                word: "сөз".to_string(),
                lang: "kk".parse().unwrap(),
            }],
            last_seen: 0,
        });
        test_u.push(u_test);

        let mut u_expect = User::new(id);
        u_expect.translates.push(Translate {
            word: Word {
                word: "word".to_string(),
                lang: "en".parse().unwrap(),
            },
            translates: vec![
                Word {
                    word: "сөз".to_string(),
                    lang: "kk".parse().unwrap(),
                },
                Word {
                    word: "слово".to_string(),
                    lang: "ru".parse().unwrap(),
                },
            ],
            last_seen: 0,
        });
        expect_u.push(u_expect)
    }

    for (i, tst) in test_u.iter().enumerate() {
        assert_eq!(expect_u[i], strat.apply(tst), "Failed test: {}", i)
    }
}

fn word(text: &str, lang: &str) -> Word {
    Word {
        word: text.to_string(),
        lang: Lang {
            lang: lang.to_string(),
        },
    }
}

// Applying the same entry twice yields the same record as applying it once.
#[test]
fn add_translate_twice_is_once() {
    let tran = Translate {
        word: word("word", "en"),
        translates: vec![word("слово", "ru"), word("сөз", "kk")],
        last_seen: 0,
    };
    let strat = UserUpdateStrategy::AddTranslate { tran };
    let base = User::new(7);
    let once = strat.apply(&base);
    let twice = strat.apply(&once);
    assert_eq!(once, twice);
}

// Merging skips targets already present, including duplicates in the batch.
#[test]
fn add_translate_dedups_targets() {
    let tran = Translate {
        word: word("word", "en"),
        translates: vec![word("слово", "ru"), word("слово", "ru")],
        last_seen: 0,
    };
    let strat = UserUpdateStrategy::AddTranslate { tran };
    let got = strat.apply(&User::new(7));
    assert_eq!(got.translates.len(), 1);
    assert_eq!(got.translates[0].translates, vec![word("слово", "ru")]);
}

// Adding a present language and deleting an absent one are no-ops.
#[test]
fn lang_strategies_idempotent() {
    let add = UserUpdateStrategy::AddLang { lang: "en".parse().unwrap() };
    let del = UserUpdateStrategy::DeleteLang { lang: "ru".parse().unwrap() };
    let mut u = User::new(2);
    u.langs.push("en".parse().unwrap());
    assert_eq!(add.apply(&u), u);
    assert_eq!(del.apply(&u), u);
    let twice_del = UserUpdateStrategy::DeleteLang { lang: "en".parse().unwrap() };
    let once = twice_del.apply(&u);
    assert_eq!(twice_del.apply(&once), once);
}

// The recency marker moves only for the named source words.
#[test]
fn update_last_seen_touches_named_words() {
    let mut u = User::new(3);
    u.translates.push(Translate {
        word: word("word", "en"),
        translates: vec![word("слово", "ru")],
        last_seen: 0,
    });
    u.translates.push(Translate {
        word: word("door", "en"),
        translates: vec![word("дверь", "ru")],
        last_seen: 0,
    });
    let strat = UserUpdateStrategy::UpdateLastSeen {
        words: vec![word("door", "en")],
        now: 42,
    };
    let got = strat.apply(&u);
    assert_eq!(got.translates[0].last_seen, 0);
    assert_eq!(got.translates[1].last_seen, 42);
    assert_eq!(got.translates[1].word, word("door", "en"));
}

// An upsert on an unseen id synthesizes the record first; a second upsert
// finds it again.
#[test]
fn upsert_creates_then_updates() {
    let mut stor = Storage::from_users(vec![]);
    stor.upsert(5, UserUpdateStrategy::AddLang { lang: "en".parse().unwrap() });
    stor.upsert(5, UserUpdateStrategy::AddLang { lang: "ru".parse().unwrap() });
    stor.upsert(9, UserUpdateStrategy::AddLang { lang: "kk".parse().unwrap() });
    let five = stor.get(5).unwrap();
    assert_eq!(five.langs, vec!["en".parse().unwrap(), "ru".parse().unwrap()]);
    let nine = stor.get(9).unwrap();
    assert_eq!(nine.langs, vec!["kk".parse().unwrap()]);
    assert!(stor.get(6).is_none());
}
