//! The validated language code: a lowercase member of the supported set.
use vstd::prelude::*;
use crate::text;

verus! {

/// A language a user can learn or translate into. The only way to obtain one
/// from free text is `Lang::parse`, which admits exactly the supported codes.
#[derive(PartialEq, Eq, Debug, Hash)]
pub struct Lang {
    pub lang: String,
}

impl View for Lang {
    type V = Seq<char>;

    open spec fn view(&self) -> Seq<char> {
        self.lang@
    }
}

impl DeepView for Lang {
    type V = Seq<char>;

    open spec fn deep_view(&self) -> Seq<char> {
        self@
    }
}

impl Clone for Lang {
    fn clone(&self) -> (res: Self)
        ensures
            res == self,
    {
        Lang { lang: self.lang.clone() }
    }
}

#[derive(PartialEq, Eq, Debug)]
pub struct LangParseError {
    pub description: String,
}

impl Clone for LangParseError {
    fn clone(&self) -> (res: Self)
        ensures
            res == self,
    {
        LangParseError { description: self.description.clone() }
    }
}

/// The supported set: a code may be constructed exactly when it is one of
/// these. Kept in one place so the set can be changed without touching the
/// parser or the stores.
pub open spec fn supported_code(s: Seq<char>) -> bool {
    s == seq!['r', 'u'] || s == seq!['e', 'n'] || s == seq!['k', 'k']
}

/// Decides membership in the supported set.
pub fn is_supported_code(s: &str) -> (r: bool)
    ensures
        r == supported_code(s@),
{
    proof {
        reveal_strlit("ru");
        reveal_strlit("en");
        reveal_strlit("kk");
        assert("ru"@ =~= seq!['r', 'u']);
        assert("en"@ =~= seq!['e', 'n']);
        assert("kk"@ =~= seq!['k', 'k']);
    }
    text::str_eq(s, "ru") || text::str_eq(s, "en") || text::str_eq(s, "kk")
}

/// What parsing an already-lowercased string as a language yields: the
/// trimmed code when it is supported, nothing otherwise.
pub open spec fn spec_lang_of(low: Seq<char>) -> Option<Seq<char>> {
    if supported_code(text::spec_trim(low)) {
        Some(text::spec_trim(low))
    } else {
        None
    }
}

impl Lang {
    /// Lowercases and trims `s`, then accepts it only if it is a supported
    /// code; any other string is rejected as an unsupported language.
    pub fn parse(s: &str) -> (r: Result<Lang, LangParseError>)
        ensures
            match spec_lang_of(text::lower_of(s@)) {
                Some(code) => r matches Ok(l) && l@ == code,
                None => r matches Err(e) && e.description@ == "Unsupported language"@,
            },
    {
        let low = text::to_lower(s);
        let t = text::trim(low.as_str());
        if is_supported_code(t) {
            Ok(Lang { lang: t.to_owned() })
        } else {
            Err(LangParseError { description: "Unsupported language".to_owned() })
        }
    }
}

/// Normalizing a valid language is idempotent: a code already in the
/// supported set parses back to exactly itself (trimming changes nothing on
/// it), and conversely any lowered string whose trimmed form is outside the
/// supported set is rejected.
pub proof fn lemma_lang_parse_roundtrip(l: Lang)
    requires
        supported_code(l@),
    ensures
        spec_lang_of(l@) == Some(l@),
{
    lemma_supported_trim(l@);
}

/// Parsing any lowered string outside the supported set fails.
pub proof fn lemma_lang_parse_rejects(s: Seq<char>)
    requires
        !supported_code(text::spec_trim(s)),
    ensures
        spec_lang_of(s) is None,
{
}

/// A supported code holds no whitespace, so trimming leaves it unchanged.
proof fn lemma_supported_trim(s: Seq<char>)
    requires
        supported_code(s),
    ensures
        text::spec_trim(s) == s,
{
    assert(s.len() == 2);
    assert(!text::is_ws_char(s[0]));
    assert(!text::is_ws_char(s[1]));
    assert(text::ws_prefix_len(s) == 0) by {
        assert(s.len() > 0 && !text::is_ws_char(s[0]));
    }
    assert(text::ws_suffix_len(s) == 0) by {
        assert(s.last() == s[1]);
    }
    assert(text::spec_trim(s) =~= s);
}

impl core::str::FromStr for Lang {
    type Err = LangParseError;

    fn from_str(s: &str) -> Result<Self, Self::Err> {
        Lang::parse(s)
    }
}

} // verus!
