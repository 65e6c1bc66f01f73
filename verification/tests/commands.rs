use std::collections::HashMap;
use langwords::commands::{Command, CommandParseError};
use langwords::lang::{Lang, LangParseError};
use langwords::storage::Word;

#[test]
fn parse_command() {
    let mut table: HashMap<String, Result<Command, CommandParseError>> = HashMap::new();
    table.insert(
        "some text".to_string(),
        Err(CommandParseError {
            description: "Unknown command".to_string(),
        }),
    );
    table.insert(
        "/w word en".to_string(),
        Ok(Command::AddWord(Word {
            word: "word".to_string(),
            lang: Lang {
                lang: "en".to_string(),
            },
        })),
    );
    table.insert(
        "/w word en ru".to_string(),
        Ok(Command::AddWord(Word {
            word: "word".to_string(),
            lang: Lang {
                lang: "en".to_string(),
            },
        })),
    );
    table.insert(
        "/w word enn".to_string(),
        Err(CommandParseError {
            description: "Unsupported language".to_string(),
        }),
    );
    table.insert(
        "/w word".to_string(),
        Err(CommandParseError {
            description: "Not enough data to add new word".to_string(),
        }),
    );
    table.insert(
        "/dw word".to_string(),
        Ok(Command::DeleteWord("word".to_string())),
    );
    table.insert(
        "/dw word word1".to_string(),
        Ok(Command::DeleteWord("word".to_string())),
    );
    table.insert(
        "/dw".to_string(),
        Err(CommandParseError {
            description: "No word".to_string(),
        }),
    );
    table.insert("/lw".to_string(), Ok(Command::ListWords("".to_string())));
    table.insert(
        "/lw wo".to_string(),
        Ok(Command::ListWords("wo".to_string())),
    );
    table.insert(
        "/lw wo w".to_string(),
        Ok(Command::ListWords("wo".to_string())),
    );
    table.insert(
        "/l en".to_string(),
        Ok(Command::AddLang(Lang {
            lang: "en".to_string(),
        })),
    );
    table.insert(
        "/l enn".to_string(),
        Err(CommandParseError {
            description: "Unsupported language".to_string(),
        }),
    );
    table.insert(
        "/dl en".to_string(),
        Ok(Command::DeleteLang(Lang {
            lang: "en".to_string(),
        })),
    );
    table.insert(
        "/dl enn".to_string(),
        Err(CommandParseError {
            description: "Unsupported language".to_string(),
        }),
    );
    table.insert("/r".to_string(), Ok(Command::ListRandomWords(3)));
    table.insert("/r 5".to_string(), Ok(Command::ListRandomWords(5)));
    table.insert("/r  5   ".to_string(), Ok(Command::ListRandomWords(5)));
    table.insert(
        "/r 1f".to_string(),
        Err(CommandParseError {
            description: "Can't parse number of words".to_string(),
        }),
    );
    table.insert("/ll".to_string(), Ok(Command::ListLangs));
    for (command, expect) in table.iter() {
        let v: Result<Command, CommandParseError> = command.parse();
        assert_eq!(expect, &v, "Command: {}", command)
    }
}

// Runs of whitespace collapse: padded and plain spellings parse identically.
#[test]
fn whitespace_collapsing() {
    let padded: Result<Command, CommandParseError> = "  add-word   cat   en  ".parse();
    let plain: Result<Command, CommandParseError> = "add-word cat en".parse();
    assert_eq!(padded, plain);
    assert_eq!(
        plain,
        Ok(Command::AddWord(Word {
            word: "cat".to_string(),
            lang: Lang {
                lang: "en".to_string(),
            },
        }))
    );
    let padded_short: Result<Command, CommandParseError> = " \t /w \n cat\u{a0}en ".parse();
    assert_eq!(padded_short, plain);
}

// The whole message is lowercased before it is interpreted.
#[test]
fn parse_lowercases_message() {
    let got: Result<Command, CommandParseError> = "/W WORD EN".parse();
    assert_eq!(
        got,
        Ok(Command::AddWord(Word {
            word: "word".to_string(),
            lang: Lang {
                lang: "en".to_string(),
            },
        }))
    );
    let spelled: Result<Command, CommandParseError> = "LIST-LANGS".parse();
    assert_eq!(spelled, Ok(Command::ListLangs));
}

// Language parsing trims, lowercases, and admits only the supported set.
#[test]
fn lang_parse_normalizes() {
    assert_eq!(
        Lang::parse("  EN "),
        Ok(Lang {
            lang: "en".to_string()
        })
    );
    assert_eq!(
        Lang::parse("ru"),
        Ok(Lang {
            lang: "ru".to_string()
        })
    );
    assert_eq!(
        Lang::parse("de"),
        Err(LangParseError {
            description: "Unsupported language".to_string()
        })
    );
    assert_eq!(
        Lang::parse(""),
        Err(LangParseError {
            description: "Unsupported language".to_string()
        })
    );
    for code in ["ru", "en", "kk"] {
        let l = Lang {
            lang: code.to_string(),
        };
        let normalized = l.lang.to_lowercase();
        assert_eq!(Lang::parse(normalized.trim()), Ok(l));
    }
}

// The random-count argument is a signed byte: its bounds hold exactly.
#[test]
fn random_count_bounds() {
    let ok: Result<Command, CommandParseError> = "/r 127".parse();
    assert_eq!(ok, Ok(Command::ListRandomWords(127)));
    let neg: Result<Command, CommandParseError> = "/r -128".parse();
    assert_eq!(neg, Ok(Command::ListRandomWords(-128)));
    let over: Result<Command, CommandParseError> = "/r 128".parse();
    assert_eq!(
        over,
        Err(CommandParseError {
            description: "Can't parse number of words".to_string()
        })
    );
    let empty_sign: Result<Command, CommandParseError> = "/r -".parse();
    assert_eq!(
        empty_sign,
        Err(CommandParseError {
            description: "Can't parse number of words".to_string()
        })
    );
}

// The spelled-out keywords parse like the short ones.
#[test]
fn long_keywords() {
    let a: Result<Command, CommandParseError> = "delete-word cat".parse();
    assert_eq!(a, Ok(Command::DeleteWord("cat".to_string())));
    let b: Result<Command, CommandParseError> = "list-random-words 2".parse();
    assert_eq!(b, Ok(Command::ListRandomWords(2)));
    let c: Result<Command, CommandParseError> = "help".parse();
    assert_eq!(c, Ok(Command::Help));
    let d: Result<Command, CommandParseError> = "add-lang kk".parse();
    assert_eq!(
        d,
        Ok(Command::AddLang(Lang {
            lang: "kk".to_string()
        }))
    );
}

// An empty message is no command.
#[test]
fn empty_message() {
    let got: Result<Command, CommandParseError> = "   ".parse();
    assert_eq!(
        got,
        Err(CommandParseError {
            description: "Unknown command".to_string()
        })
    );
}

#[test]
fn help_lines() {
    assert_eq!(Command::ListLangs.help(), "List all supported languages");
    assert_eq!(
        Command::DeleteWord("x".to_string()).help(),
        "Delete word. Example: /dw word"
    );
    assert_eq!(Command::ListRandomWords(5).help(), "List random words. Example: /r 5");
}
