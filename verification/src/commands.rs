//! The command interpreter: free chat text in, a typed command out.
//! A message is lowercased, split at whitespace runs, and matched against a
//! fixed keyword table; each keyword has a short and a spelled-out form.
use vstd::prelude::*;
use crate::lang::Lang;
use crate::storage::{Word, WordV};
use crate::text;

verus! {

/// A parsed chat command.
#[derive(PartialEq, Eq, Debug)]
pub enum Command {
    ListLangs,
    AddLang(Lang),
    DeleteLang(Lang),
    ListWords(String),
    ListRandomWords(i8),
    AddWord(Word),
    DeleteWord(String),
    Help,
}

/// Mathematical image of a `Command`.
#[verifier::ext_equal]
pub ghost enum CommandV {
    ListLangs,
    AddLang(Seq<char>),
    DeleteLang(Seq<char>),
    ListWords(Seq<char>),
    ListRandomWords(int),
    AddWord(WordV),
    DeleteWord(Seq<char>),
    Help,
}

impl View for Command {
    type V = CommandV;

    open spec fn view(&self) -> CommandV {
        match self {
            Command::ListLangs => CommandV::ListLangs,
            Command::AddLang(l) => CommandV::AddLang(l@),
            Command::DeleteLang(l) => CommandV::DeleteLang(l@),
            Command::ListWords(p) => CommandV::ListWords(p@),
            Command::ListRandomWords(n) => CommandV::ListRandomWords(*n as int),
            Command::AddWord(w) => CommandV::AddWord(w@),
            Command::DeleteWord(w) => CommandV::DeleteWord(w@),
            Command::Help => CommandV::Help,
        }
    }
}

/// Why a message failed to parse as a command.
#[derive(PartialEq, Eq, Debug)]
pub struct CommandParseError {
    pub description: String,
}

impl Clone for CommandParseError {
    fn clone(&self) -> (res: Self)
        ensures
            res == self,
    {
        CommandParseError { description: self.description.clone() }
    }
}

/// Decimal magnitude of a signed byte, folded left with a cap just above the
/// largest representable magnitude; a non-digit or an excessive value fails.
pub open spec fn spec_parse_mag(s: Seq<char>, acc: int) -> Option<int>
    decreases s.len(),
{
    if s.len() == 0 {
        Some(acc)
    } else if !('0' <= s[0] && s[0] <= '9') {
        None
    } else {
        let a2 = acc * 10 + (s[0] as int - '0' as int);
        if a2 > 128 {
            None
        } else {
            spec_parse_mag(s.skip(1), a2)
        }
    }
}

/// The digits of a count token: what remains after an optional sign.
pub open spec fn spec_i8_body(s: Seq<char>) -> Seq<char> {
    if s.len() > 0 && (s[0] == '-' || s[0] == '+') {
        s.skip(1)
    } else {
        s
    }
}

/// What parsing a token as a signed byte count yields: an optional sign,
/// then decimal digits, within the type's range.
pub open spec fn spec_parse_i8(s: Seq<char>) -> Option<i8> {
    if s.len() == 0 {
        None
    } else {
        let neg = s[0] == '-';
        let body = spec_i8_body(s);
        if body.len() == 0 {
            None
        } else {
            match spec_parse_mag(body, 0) {
                None => None,
                Some(m) => if neg {
                    Some((-m) as i8)
                } else if m <= 127 {
                    Some(m as i8)
                } else {
                    None
                },
            }
        }
    }
}

/// Parses a decimal count token as the random-words argument.
pub fn parse_i8_token(s: &str) -> (r: Option<i8>)
    ensures
        r == spec_parse_i8(s@),
{
    let n = s.unicode_len();
    if n == 0 {
        return None;
    }
    let c0 = s.get_char(0);
    let neg = c0 == '-';
    let k0: usize = if c0 == '-' || c0 == '+' {
        1
    } else {
        0
    };
    let ghost body = spec_i8_body(s@);
    proof {
        assert(body =~= s@.skip(k0 as int));
        assert(body.len() == n - k0);
        assert(body.skip(0int) =~= body);
    }
    if k0 == n {
        return None;
    }
    let mut k: usize = k0;
    let mut acc: i32 = 0;
    while k < n
        invariant
            n == s@.len(),
            k0 <= k <= n,
            k0 < n,
            body == spec_i8_body(s@),
            neg == (s@[0] == '-'),
            body.len() == n - k0,
            forall|j: int| 0 <= j < body.len() ==> body[j] == s@[k0 + j],
            0 <= acc <= 128,
            spec_parse_mag(body, 0) == spec_parse_mag(body.skip(k - k0), acc as int),
        decreases n - k,
    {
        let c = s.get_char(k);
        let u = c as u32;
        proof {
            assert(body.skip(k - k0).len() == n - k);
            assert(body.skip(k - k0)[0] == s@[k as int]);
        }
        if u < 48 || u > 57 {
            proof {
                assert(!('0' <= s@[k as int] && s@[k as int] <= '9'));
                assert(spec_parse_mag(body.skip(k - k0), acc as int) is None);
                assert(spec_parse_mag(body, 0) is None);
            }
            return None;
        }
        proof {
            assert('0' <= s@[k as int] && s@[k as int] <= '9');
        }
        let d: i32 = (u - 48) as i32;
        let a2: i32 = acc * 10 + d;
        proof {
            assert(a2 as int == (acc as int) * 10 + (s@[k as int] as int - '0' as int));
            assert(body.skip(k - k0).skip(1) =~= body.skip(k + 1 - k0));
        }
        if a2 > 128 {
            proof {
                assert(spec_parse_mag(body.skip(k - k0), acc as int) is None);
            }
            return None;
        }
        acc = a2;
        k = k + 1;
    }
    proof {
        assert(body.skip(body.len() as int) =~= Seq::<char>::empty());
        assert(spec_parse_mag(body, 0) == Some(acc as int));
    }
    if neg {
        if acc == 128 {
            let v: i8 = -128;
            Some(v)
        } else {
            Some(-(acc as i8))
        }
    } else {
        if acc > 127 {
            None
        } else {
            Some(acc as i8)
        }
    }
}

/// What interpreting an already-lowercased message yields: either a typed
/// command or the text of the complaint sent back to the user. The first
/// token picks the command; extra trailing tokens are ignored.
pub open spec fn spec_parse_command(low: Seq<char>) -> Result<CommandV, Seq<char>> {
    let toks = text::spec_tokens(low);
    if toks.len() == 0 {
        Err("Unknown command"@)
    } else if toks[0] == "/w"@ || toks[0] == "add-word"@ {
        if toks.len() < 3 {
            Err("Not enough data to add new word"@)
        } else if crate::lang::supported_code(toks[2]) {
            Ok(CommandV::AddWord(WordV { word: toks[1], lang: toks[2] }))
        } else {
            Err("Unsupported language"@)
        }
    } else if toks[0] == "/dw"@ || toks[0] == "delete-word"@ {
        if toks.len() == 1 {
            Err("No word"@)
        } else {
            Ok(CommandV::DeleteWord(toks[1]))
        }
    } else if toks[0] == "/lw"@ || toks[0] == "list-words"@ {
        Ok(CommandV::ListWords(if toks.len() > 1 {
            toks[1]
        } else {
            Seq::empty()
        }))
    } else if toks[0] == "/l"@ || toks[0] == "add-lang"@ {
        let l = if toks.len() > 1 {
            toks[1]
        } else {
            Seq::empty()
        };
        if crate::lang::supported_code(l) {
            Ok(CommandV::AddLang(l))
        } else {
            Err("Unsupported language"@)
        }
    } else if toks[0] == "/ll"@ || toks[0] == "list-langs"@ {
        Ok(CommandV::ListLangs)
    } else if toks[0] == "/dl"@ || toks[0] == "delete-lang"@ {
        let l = if toks.len() > 1 {
            toks[1]
        } else {
            Seq::empty()
        };
        if crate::lang::supported_code(l) {
            Ok(CommandV::DeleteLang(l))
        } else {
            Err("Unsupported language"@)
        }
    } else if toks[0] == "/r"@ || toks[0] == "list-random-words"@ {
        if toks.len() > 1 {
            match spec_parse_i8(toks[1]) {
                Some(m) => Ok(CommandV::ListRandomWords(m as int)),
                None => Err("Can't parse number of words"@),
            }
        } else {
            Ok(CommandV::ListRandomWords(3))
        }
    } else if toks[0] == "/help"@ || toks[0] == "help"@ {
        Ok(CommandV::Help)
    } else {
        Err("Unknown command"@)
    }
}

impl Command {
    /// Interprets a raw chat message: lowercases it, splits it into tokens
    /// and matches the keyword table.
    pub fn parse(s: &str) -> (r: Result<Command, CommandParseError>)
        ensures
            ({
                let sp = spec_parse_command(text::lower_of(s@));
                match r {
                    Ok(c) => sp matches Ok(cv) && c@ == cv,
                    Err(e) => sp matches Err(d) && e.description@ == d,
                }
            }),
    {
        let low = text::to_lower(s);
        let toks = text::tokenize(low.as_str());
        let ghost tv = text::spec_tokens(text::lower_of(s@));
        proof {
            assert(toks.deep_view() == tv);
            assert(forall|j: int| 0 <= j < toks.len() ==> toks[j]@ == tv[j]);
        }
        if toks.len() == 0 {
            return Err(CommandParseError { description: "Unknown command".to_owned() });
        }
        let t0 = toks[0].as_str();
        if text::str_eq(t0, "/w") || text::str_eq(t0, "add-word") {
            if toks.len() < 3 {
                return Err(
                    CommandParseError { description: "Not enough data to add new word".to_owned() },
                );
            }
            if crate::lang::is_supported_code(toks[2].as_str()) {
                let w = Word {
                    word: toks[1].clone(),
                    lang: Lang { lang: toks[2].clone() },
                };
                Ok(Command::AddWord(w))
            } else {
                Err(CommandParseError { description: "Unsupported language".to_owned() })
            }
        } else if text::str_eq(t0, "/dw") || text::str_eq(t0, "delete-word") {
            if toks.len() == 1 {
                return Err(CommandParseError { description: "No word".to_owned() });
            }
            Ok(Command::DeleteWord(toks[1].clone()))
        } else if text::str_eq(t0, "/lw") || text::str_eq(t0, "list-words") {
            if toks.len() > 1 {
                Ok(Command::ListWords(toks[1].clone()))
            } else {
                Ok(Command::ListWords(String::new()))
            }
        } else if text::str_eq(t0, "/l") || text::str_eq(t0, "add-lang") {
            let l = if toks.len() > 1 {
                toks[1].clone()
            } else {
                String::new()
            };
            if crate::lang::is_supported_code(l.as_str()) {
                Ok(Command::AddLang(Lang { lang: l }))
            } else {
                Err(CommandParseError { description: "Unsupported language".to_owned() })
            }
        } else if text::str_eq(t0, "/ll") || text::str_eq(t0, "list-langs") {
            Ok(Command::ListLangs)
        } else if text::str_eq(t0, "/dl") || text::str_eq(t0, "delete-lang") {
            let l = if toks.len() > 1 {
                toks[1].clone()
            } else {
                String::new()
            };
            if crate::lang::is_supported_code(l.as_str()) {
                Ok(Command::DeleteLang(Lang { lang: l }))
            } else {
                Err(CommandParseError { description: "Unsupported language".to_owned() })
            }
        } else if text::str_eq(t0, "/r") || text::str_eq(t0, "list-random-words") {
            if toks.len() > 1 {
                match parse_i8_token(toks[1].as_str()) {
                    Some(m) => Ok(Command::ListRandomWords(m)),
                    None => Err(
                        CommandParseError { description: "Can't parse number of words".to_owned() },
                    ),
                }
            } else {
                Ok(Command::ListRandomWords(3))
            }
        } else if text::str_eq(t0, "/help") || text::str_eq(t0, "help") {
            Ok(Command::Help)
        } else {
            Err(CommandParseError { description: "Unknown command".to_owned() })
        }
    }

    /// One line of usage help for this command's keyword.
    pub fn help(&self) -> (r: String)
        ensures
            r@ == spec_help(self@),
    {
        match self {
            Command::ListLangs => "List all supported languages".to_owned(),
            Command::AddLang(_) => "Add new language. Example: /l en".to_owned(),
            Command::DeleteLang(_) => "Delete language. Example: /dl en".to_owned(),
            Command::ListWords(_) => "List all words. Example: /lw word".to_owned(),
            Command::ListRandomWords(_) => "List random words. Example: /r 5".to_owned(),
            Command::AddWord(_) => "Add new word. Example: /w word en".to_owned(),
            Command::DeleteWord(_) => "Delete word. Example: /dw word".to_owned(),
            Command::Help => "Print help. Example /help".to_owned(),
        }
    }
}

/// The help line belonging to each command.
pub open spec fn spec_help(c: CommandV) -> Seq<char> {
    match c {
        CommandV::ListLangs => "List all supported languages"@,
        CommandV::AddLang(_) => "Add new language. Example: /l en"@,
        CommandV::DeleteLang(_) => "Delete language. Example: /dl en"@,
        CommandV::ListWords(_) => "List all words. Example: /lw word"@,
        CommandV::ListRandomWords(_) => "List random words. Example: /r 5"@,
        CommandV::AddWord(_) => "Add new word. Example: /w word en"@,
        CommandV::DeleteWord(_) => "Delete word. Example: /dw word"@,
        CommandV::Help => "Print help. Example /help"@,
    }
}

impl core::str::FromStr for Command {
    type Err = CommandParseError;

    fn from_str(s: &str) -> Result<Self, Self::Err> {
        Command::parse(s)
    }
}

} // verus!
