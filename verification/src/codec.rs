//! The persisted layout of the store: a JSON-shaped rendering of the user
//! records, written as one array. The encoder and the decoder are both
//! specified over `Seq<char>`, and decoding an encoded collection yields the
//! collection back.
use vstd::prelude::*;
use vstd::string::StrSliceExecFns;
use crate::lang::Lang;
use crate::storage::{Translate, TranslateV, User, UserV, Word, WordV};

verus! {

// ---------------------------------------------------------------------------
// Encoding, specified.
// ---------------------------------------------------------------------------
/// A string character as it appears between quotes: quotes and backslashes
/// carry a backslash escape, everything else stands for itself.
pub open spec fn esc_char(c: char) -> Seq<char> {
    if c == '"' || c == '\\' {
        seq!['\\', c]
    } else {
        seq![c]
    }
}

/// The escaped body of a string.
pub open spec fn spec_esc(s: Seq<char>) -> Seq<char>
    decreases s.len(),
{
    if s.len() == 0 {
        Seq::empty()
    } else {
        esc_char(s[0]) + spec_esc(s.skip(1))
    }
}

/// A quoted, escaped string.
pub open spec fn spec_enc_str(s: Seq<char>) -> Seq<char> {
    seq!['"'] + spec_esc(s) + seq!['"']
}

/// The character for one decimal digit.
pub open spec fn digit_char(d: int) -> char {
    ((48 + d) as u8) as char
}

/// Decimal digits of a non-negative number, most significant first.
pub open spec fn spec_enc_u64(n: int) -> Seq<char>
    decreases n,
{
    if n < 10 {
        seq![digit_char(n)]
    } else {
        spec_enc_u64(n / 10) + seq![digit_char(n % 10)]
    }
}

/// A possibly negative decimal number.
pub open spec fn spec_enc_i64(n: int) -> Seq<char> {
    if n < 0 {
        seq!['-'] + spec_enc_u64(-n)
    } else {
        spec_enc_u64(n)
    }
}

/// A language as an object holding its code.
pub open spec fn spec_enc_lang(l: Seq<char>) -> Seq<char> {
    "{\"lang\":"@ + spec_enc_str(l) + "}"@
}

/// A word as an object holding its text and its language.
pub open spec fn spec_enc_word(w: WordV) -> Seq<char> {
    "{\"word\":"@ + spec_enc_str(w.word) + ",\"lang\":"@ + spec_enc_lang(w.lang) + "}"@
}

/// The comma-separated items of a word array.
pub open spec fn spec_enc_word_items(ws: Seq<WordV>) -> Seq<char>
    decreases ws.len(),
{
    if ws.len() == 0 {
        Seq::empty()
    } else if ws.len() == 1 {
        spec_enc_word(ws[0])
    } else {
        spec_enc_word(ws[0]) + ","@ + spec_enc_word_items(ws.skip(1))
    }
}

/// A word array.
pub open spec fn spec_enc_words(ws: Seq<WordV>) -> Seq<char> {
    "["@ + spec_enc_word_items(ws) + "]"@
}

/// A translation entry: source word, target words, recency marker.
pub open spec fn spec_enc_translate(t: TranslateV) -> Seq<char> {
    "{\"word\":"@ + spec_enc_word(t.word) + ",\"translates\":"@ + spec_enc_words(t.translates)
        + ",\"last_seen\":"@ + spec_enc_i64(t.last_seen) + "}"@
}

/// The comma-separated items of a translation-entry array.
pub open spec fn spec_enc_translate_items(ts: Seq<TranslateV>) -> Seq<char>
    decreases ts.len(),
{
    if ts.len() == 0 {
        Seq::empty()
    } else if ts.len() == 1 {
        spec_enc_translate(ts[0])
    } else {
        spec_enc_translate(ts[0]) + ","@ + spec_enc_translate_items(ts.skip(1))
    }
}

/// A translation-entry array.
pub open spec fn spec_enc_translates(ts: Seq<TranslateV>) -> Seq<char> {
    "["@ + spec_enc_translate_items(ts) + "]"@
}

/// The comma-separated items of a language array.
pub open spec fn spec_enc_lang_items(ls: Seq<Seq<char>>) -> Seq<char>
    decreases ls.len(),
{
    if ls.len() == 0 {
        Seq::empty()
    } else if ls.len() == 1 {
        spec_enc_lang(ls[0])
    } else {
        spec_enc_lang(ls[0]) + ","@ + spec_enc_lang_items(ls.skip(1))
    }
}

/// A language array.
pub open spec fn spec_enc_langs(ls: Seq<Seq<char>>) -> Seq<char> {
    "["@ + spec_enc_lang_items(ls) + "]"@
}

/// One user record: id, languages, translation entries.
pub open spec fn spec_enc_user(u: UserV) -> Seq<char> {
    "{\"id\":"@ + spec_enc_i64(u.id) + ",\"langs\":"@ + spec_enc_langs(u.langs)
        + ",\"translates\":"@ + spec_enc_translates(u.translates) + "}"@
}

/// The comma-separated items of the user array.
pub open spec fn spec_enc_user_items(us: Seq<UserV>) -> Seq<char>
    decreases us.len(),
{
    if us.len() == 0 {
        Seq::empty()
    } else if us.len() == 1 {
        spec_enc_user(us[0])
    } else {
        spec_enc_user(us[0]) + ","@ + spec_enc_user_items(us.skip(1))
    }
}

/// The whole persisted store: an array of user records.
pub open spec fn spec_enc_users(us: Seq<UserV>) -> Seq<char> {
    "["@ + spec_enc_user_items(us) + "]"@
}

// ---------------------------------------------------------------------------
// Encoding, executed.
// ---------------------------------------------------------------------------
/// Relies on `String::from_iter` over `char`: collects the characters in
/// order into an owned string.
#[verifier::external_body]
pub fn string_from_chars(v: &Vec<char>) -> (r: String)
    ensures
        r@ == v@,
{
    v.iter().collect()
}

/// Appends every character of a string piece.
pub fn append_lit(out: &mut Vec<char>, lit: &str)
    ensures
        final(out)@ == old(out)@ + lit@,
{
    let n = lit.unicode_len();
    let mut i: usize = 0;
    while i < n
        invariant
            n == lit@.len(),
            i <= n,
            out@ == old(out)@ + lit@.take(i as int),
        decreases n - i,
    {
        out.push(lit.get_char(i));
        proof {
            assert(out@ =~= old(out)@ + lit@.take(i + 1));
        }
        i = i + 1;
    }
    proof {
        assert(out@ =~= old(out)@ + lit@);
    }
}

proof fn lemma_esc_snoc(s: Seq<char>, c: char)
    ensures
        spec_esc(s.push(c)) == spec_esc(s) + esc_char(c),
    decreases s.len(),
{
    if s.len() == 0 {
        assert(s.push(c)[0] == c);
        assert(s.push(c).len() == 1);
        assert(s.push(c).skip(1) =~= Seq::<char>::empty());
        assert(spec_esc(s.push(c)) == esc_char(s.push(c)[0]) + spec_esc(s.push(c).skip(1)));
        assert(spec_esc(s.push(c).skip(1)) == Seq::<char>::empty());
        assert(spec_esc(s) == Seq::<char>::empty());
        assert(spec_esc(s.push(c)) =~= spec_esc(s) + esc_char(c));
    } else {
        assert(s.push(c)[0] == s[0]);
        assert(s.push(c).skip(1) =~= s.skip(1).push(c));
        lemma_esc_snoc(s.skip(1), c);
        assert(spec_esc(s.push(c)) =~= spec_esc(s) + esc_char(c));
    }
}

/// Appends a quoted, escaped string.
fn enc_str(out: &mut Vec<char>, s: &str)
    ensures
        final(out)@ == old(out)@ + spec_enc_str(s@),
{
    out.push('"');
    let n = s.unicode_len();
    let mut i: usize = 0;
    while i < n
        invariant
            n == s@.len(),
            i <= n,
            out@ == old(out)@ + seq!['"'] + spec_esc(s@.take(i as int)),
        decreases n - i,
    {
        let c = s.get_char(i);
        let ghost pre = out@;
        if c == '"' || c == '\\' {
            out.push('\\');
            out.push(c);
        } else {
            out.push(c);
        }
        proof {
            assert(out@ =~= pre + esc_char(s@[i as int]));
            assert(s@.take(i + 1).drop_last() =~= s@.take(i as int));
            assert(s@.take(i + 1) =~= s@.take(i as int).push(s@[i as int]));
            lemma_esc_snoc(s@.take(i as int), s@[i as int]);
            assert(out@ =~= old(out)@ + seq!['"'] + spec_esc(s@.take(i + 1)));
        }
        i = i + 1;
    }
    out.push('"');
    proof {
        assert(s@.take(n as int) =~= s@);
        assert(out@ =~= old(out)@ + spec_enc_str(s@));
    }
}

/// Appends the decimal digits of `n`.
fn enc_u64(out: &mut Vec<char>, n: u64)
    ensures
        final(out)@ == old(out)@ + spec_enc_u64(n as int),
    decreases n,
{
    if n < 10 {
        let d: u8 = (48 + n as u8) as u8;
        out.push(d as char);
        proof {
            assert(out@ =~= old(out)@ + spec_enc_u64(n as int));
        }
    } else {
        enc_u64(out, n / 10);
        let d: u8 = (48 + (n % 10) as u8) as u8;
        out.push(d as char);
        proof {
            assert(out@ =~= old(out)@ + spec_enc_u64(n as int));
        }
    }
}

/// Appends a decimal number with its sign.
fn enc_i64(out: &mut Vec<char>, n: i64)
    ensures
        final(out)@ == old(out)@ + spec_enc_i64(n as int),
{
    if n < 0 {
        out.push('-');
        let mag: u64 = if n == -9223372036854775808i64 {
            9223372036854775808u64
        } else {
            (-n) as u64
        };
        proof {
            assert(mag as int == -(n as int));
        }
        enc_u64(out, mag);
        proof {
            assert(out@ =~= old(out)@ + spec_enc_i64(n as int));
        }
    } else {
        enc_u64(out, n as u64);
    }
}

/// Appends a language object.
fn enc_lang(out: &mut Vec<char>, l: &Lang)
    ensures
        final(out)@ == old(out)@ + spec_enc_lang(l@),
{
    append_lit(out, "{\"lang\":");
    enc_str(out, l.lang.as_str());
    append_lit(out, "}");
    proof {
        assert(out@ =~= old(out)@ + spec_enc_lang(l@));
    }
}

/// Appends a word object.
fn enc_word(out: &mut Vec<char>, w: &Word)
    ensures
        final(out)@ == old(out)@ + spec_enc_word(w@),
{
    append_lit(out, "{\"word\":");
    enc_str(out, w.word.as_str());
    append_lit(out, ",\"lang\":");
    enc_lang(out, &w.lang);
    append_lit(out, "}");
    proof {
        assert(out@ =~= old(out)@ + spec_enc_word(w@));
    }
}

/// Appends the items of a word array, from `idx` on.
fn enc_word_items(out: &mut Vec<char>, ws: &Vec<Word>, idx: usize)
    requires
        idx <= ws.len(),
    ensures
        final(out)@ == old(out)@ + spec_enc_word_items(ws.deep_view().skip(idx as int)),
    decreases ws.len() - idx,
{
    let ghost tail = ws.deep_view().skip(idx as int);
    if idx < ws.len() {
        proof {
            assert(tail[0] == ws.deep_view()[idx as int]);
        }
        enc_word(out, &ws[idx]);
        if idx + 1 < ws.len() {
            append_lit(out, ",");
            enc_word_items(out, ws, idx + 1);
            proof {
                assert(ws.deep_view().skip(idx + 1) =~= tail.skip(1));
                assert(out@ =~= old(out)@ + spec_enc_word_items(tail));
            }
        } else {
            proof {
                assert(tail.len() == 1);
                assert(out@ =~= old(out)@ + spec_enc_word_items(tail));
            }
        }
    } else {
        proof {
            assert(tail.len() == 0);
            assert(out@ =~= old(out)@ + spec_enc_word_items(tail));
        }
    }
}

/// Appends a word array.
fn enc_words(out: &mut Vec<char>, ws: &Vec<Word>)
    ensures
        final(out)@ == old(out)@ + spec_enc_words(ws.deep_view()),
{
    append_lit(out, "[");
    enc_word_items(out, ws, 0);
    append_lit(out, "]");
    proof {
        assert(ws.deep_view().skip(0int) =~= ws.deep_view());
        assert(out@ =~= old(out)@ + spec_enc_words(ws.deep_view()));
    }
}

/// Appends a translation entry.
fn enc_translate(out: &mut Vec<char>, t: &Translate)
    ensures
        final(out)@ == old(out)@ + spec_enc_translate(t@),
{
    append_lit(out, "{\"word\":");
    enc_word(out, &t.word);
    append_lit(out, ",\"translates\":");
    enc_words(out, &t.translates);
    append_lit(out, ",\"last_seen\":");
    enc_i64(out, t.last_seen);
    append_lit(out, "}");
    proof {
        assert(out@ =~= old(out)@ + spec_enc_translate(t@));
    }
}

/// Appends the items of a translation-entry array, from `idx` on.
fn enc_translate_items(out: &mut Vec<char>, ts: &Vec<Translate>, idx: usize)
    requires
        idx <= ts.len(),
    ensures
        final(out)@ == old(out)@ + spec_enc_translate_items(ts.deep_view().skip(idx as int)),
    decreases ts.len() - idx,
{
    let ghost tail = ts.deep_view().skip(idx as int);
    if idx < ts.len() {
        proof {
            assert(tail[0] == ts.deep_view()[idx as int]);
        }
        enc_translate(out, &ts[idx]);
        if idx + 1 < ts.len() {
            append_lit(out, ",");
            enc_translate_items(out, ts, idx + 1);
            proof {
                assert(ts.deep_view().skip(idx + 1) =~= tail.skip(1));
                assert(out@ =~= old(out)@ + spec_enc_translate_items(tail));
            }
        } else {
            proof {
                assert(tail.len() == 1);
                assert(out@ =~= old(out)@ + spec_enc_translate_items(tail));
            }
        }
    } else {
        proof {
            assert(tail.len() == 0);
            assert(out@ =~= old(out)@ + spec_enc_translate_items(tail));
        }
    }
}

/// Appends a translation-entry array.
fn enc_translates(out: &mut Vec<char>, ts: &Vec<Translate>)
    ensures
        final(out)@ == old(out)@ + spec_enc_translates(ts.deep_view()),
{
    append_lit(out, "[");
    enc_translate_items(out, ts, 0);
    append_lit(out, "]");
    proof {
        assert(ts.deep_view().skip(0int) =~= ts.deep_view());
        assert(out@ =~= old(out)@ + spec_enc_translates(ts.deep_view()));
    }
}

/// Appends the items of a language array, from `idx` on.
fn enc_lang_items(out: &mut Vec<char>, ls: &Vec<Lang>, idx: usize)
    requires
        idx <= ls.len(),
    ensures
        final(out)@ == old(out)@ + spec_enc_lang_items(ls.deep_view().skip(idx as int)),
    decreases ls.len() - idx,
{
    let ghost tail = ls.deep_view().skip(idx as int);
    if idx < ls.len() {
        proof {
            assert(tail[0] == ls.deep_view()[idx as int]);
        }
        enc_lang(out, &ls[idx]);
        if idx + 1 < ls.len() {
            append_lit(out, ",");
            enc_lang_items(out, ls, idx + 1);
            proof {
                assert(ls.deep_view().skip(idx + 1) =~= tail.skip(1));
                assert(out@ =~= old(out)@ + spec_enc_lang_items(tail));
            }
        } else {
            proof {
                assert(tail.len() == 1);
                assert(out@ =~= old(out)@ + spec_enc_lang_items(tail));
            }
        }
    } else {
        proof {
            assert(tail.len() == 0);
            assert(out@ =~= old(out)@ + spec_enc_lang_items(tail));
        }
    }
}

/// Appends a language array.
fn enc_langs(out: &mut Vec<char>, ls: &Vec<Lang>)
    ensures
        final(out)@ == old(out)@ + spec_enc_langs(ls.deep_view()),
{
    append_lit(out, "[");
    enc_lang_items(out, ls, 0);
    append_lit(out, "]");
    proof {
        assert(ls.deep_view().skip(0int) =~= ls.deep_view());
        assert(out@ =~= old(out)@ + spec_enc_langs(ls.deep_view()));
    }
}

/// Appends one user record.
fn enc_user(out: &mut Vec<char>, u: &User)
    ensures
        final(out)@ == old(out)@ + spec_enc_user(u@),
{
    append_lit(out, "{\"id\":");
    enc_i64(out, u.id);
    append_lit(out, ",\"langs\":");
    enc_langs(out, &u.langs);
    append_lit(out, ",\"translates\":");
    enc_translates(out, &u.translates);
    append_lit(out, "}");
    proof {
        assert(out@ =~= old(out)@ + spec_enc_user(u@));
    }
}

/// Appends the items of the user array, from `idx` on.
fn enc_user_items(out: &mut Vec<char>, us: &Vec<User>, idx: usize)
    requires
        idx <= us.len(),
    ensures
        final(out)@ == old(out)@ + spec_enc_user_items(us.deep_view().skip(idx as int)),
    decreases us.len() - idx,
{
    let ghost tail = us.deep_view().skip(idx as int);
    if idx < us.len() {
        proof {
            assert(tail[0] == us.deep_view()[idx as int]);
        }
        enc_user(out, &us[idx]);
        if idx + 1 < us.len() {
            append_lit(out, ",");
            enc_user_items(out, us, idx + 1);
            proof {
                assert(us.deep_view().skip(idx + 1) =~= tail.skip(1));
                assert(out@ =~= old(out)@ + spec_enc_user_items(tail));
            }
        } else {
            proof {
                assert(tail.len() == 1);
                assert(out@ =~= old(out)@ + spec_enc_user_items(tail));
            }
        }
    } else {
        proof {
            assert(tail.len() == 0);
            assert(out@ =~= old(out)@ + spec_enc_user_items(tail));
        }
    }
}

// ---------------------------------------------------------------------------
// Decoding, specified: a strict recursive-descent parser of the layout above.
// ---------------------------------------------------------------------------
/// `t` occurs in `s` starting at `i`.
pub open spec fn matches_at(s: Seq<char>, i: int, t: Seq<char>) -> bool {
    0 <= i && i + t.len() <= s.len() && s.subrange(i, i + t.len()) == t
}

/// Consumes the fixed text `t`, or fails.
pub open spec fn parse_lit(s: Seq<char>, i: int, t: Seq<char>) -> Option<int> {
    if matches_at(s, i, t) {
        Some(i + t.len())
    } else {
        None
    }
}

/// Consumes the remainder of a quoted string up to and including its closing
/// quote, undoing the escapes the encoder writes.
pub open spec fn parse_str_body(s: Seq<char>, i: int) -> Option<(Seq<char>, int)>
    decreases s.len() - i,
{
    if i < 0 || i >= s.len() {
        None
    } else if s[i] == '"' {
        Some((Seq::empty(), i + 1))
    } else if s[i] == '\\' {
        if i + 1 < s.len() && (s[i + 1] == '"' || s[i + 1] == '\\') {
            match parse_str_body(s, i + 2) {
                None => None,
                Some((t, j)) => Some((seq![s[i + 1]] + t, j)),
            }
        } else {
            None
        }
    } else {
        match parse_str_body(s, i + 1) {
            None => None,
            Some((t, j)) => Some((seq![s[i]] + t, j)),
        }
    }
}

/// Consumes a quoted string.
pub open spec fn parse_string(s: Seq<char>, i: int) -> Option<(Seq<char>, int)> {
    if 0 <= i && i < s.len() && s[i] == '"' {
        parse_str_body(s, i + 1)
    } else {
        None
    }
}

/// Consumes decimal digits greedily, folding them into `acc`; a value beyond
/// the largest unsigned machine word fails.
pub open spec fn parse_digits(s: Seq<char>, i: int, acc: int) -> Option<(int, int)>
    decreases s.len() - i,
{
    if i < 0 || i >= s.len() || !('0' <= s[i] && s[i] <= '9') {
        Some((acc, i))
    } else {
        let a2 = acc * 10 + (s[i] as int - 48);
        if a2 > 0xffff_ffff_ffff_ffff {
            None
        } else {
            parse_digits(s, i + 1, a2)
        }
    }
}

/// Consumes an unsigned decimal number of at least one digit.
pub open spec fn parse_u64(s: Seq<char>, i: int) -> Option<(int, int)> {
    if 0 <= i && i < s.len() && '0' <= s[i] && s[i] <= '9' {
        parse_digits(s, i, 0)
    } else {
        None
    }
}

/// Consumes a decimal number with an optional leading minus, within the
/// signed machine-word range.
pub open spec fn parse_i64(s: Seq<char>, i: int) -> Option<(int, int)> {
    if 0 <= i && i < s.len() && s[i] == '-' {
        match parse_u64(s, i + 1) {
            None => None,
            Some((m, j)) => if m <= 0x8000_0000_0000_0000 {
                Some((-m, j))
            } else {
                None
            },
        }
    } else {
        match parse_u64(s, i) {
            None => None,
            Some((m, j)) => if m <= 0x7fff_ffff_ffff_ffff {
                Some((m, j))
            } else {
                None
            },
        }
    }
}

/// Consumes a language object.
pub open spec fn parse_lang_obj(s: Seq<char>, i: int) -> Option<(Seq<char>, int)> {
    match parse_lit(s, i, "{\"lang\":"@) {
        None => None,
        Some(j) => match parse_string(s, j) {
            None => None,
            Some((l, k)) => match parse_lit(s, k, "}"@) {
                None => None,
                Some(m) => Some((l, m)),
            },
        },
    }
}

/// Consumes a word object.
pub open spec fn parse_word_obj(s: Seq<char>, i: int) -> Option<(WordV, int)> {
    match parse_lit(s, i, "{\"word\":"@) {
        None => None,
        Some(j) => match parse_string(s, j) {
            None => None,
            Some((w, k)) => match parse_lit(s, k, ",\"lang\":"@) {
                None => None,
                Some(m) => match parse_lang_obj(s, m) {
                    None => None,
                    Some((l, p)) => match parse_lit(s, p, "}"@) {
                        None => None,
                        Some(q) => Some((WordV { word: w, lang: l }, q)),
                    },
                },
            },
        },
    }
}

/// Consumes the items of a non-empty word array together with the closing
/// bracket.
pub open spec fn parse_word_items(s: Seq<char>, i: int) -> Option<(Seq<WordV>, int)>
    decreases s.len() - i,
{
    if i < 0 || i > s.len() {
        None
    } else {
        match parse_word_obj(s, i) {
            None => None,
            Some((w, j)) => if j <= i || j > s.len() {
                None
            } else if j < s.len() && s[j] == ',' {
                match parse_word_items(s, j + 1) {
                    None => None,
                    Some((ws, k)) => Some((seq![w] + ws, k)),
                }
            } else if j < s.len() && s[j] == ']' {
                Some((seq![w], j + 1))
            } else {
                None
            },
        }
    }
}

/// Consumes a word array.
pub open spec fn parse_words(s: Seq<char>, i: int) -> Option<(Seq<WordV>, int)> {
    match parse_lit(s, i, "["@) {
        None => None,
        Some(j) => if j < s.len() && s[j] == ']' {
            Some((Seq::empty(), j + 1))
        } else {
            parse_word_items(s, j)
        },
    }
}

/// Consumes a translation entry.
pub open spec fn parse_translate(s: Seq<char>, i: int) -> Option<(TranslateV, int)> {
    match parse_lit(s, i, "{\"word\":"@) {
        None => None,
        Some(j) => match parse_word_obj(s, j) {
            None => None,
            Some((w, k)) => match parse_lit(s, k, ",\"translates\":"@) {
                None => None,
                Some(m) => match parse_words(s, m) {
                    None => None,
                    Some((ws, p)) => match parse_lit(s, p, ",\"last_seen\":"@) {
                        None => None,
                        Some(q) => match parse_i64(s, q) {
                            None => None,
                            Some((n, x)) => match parse_lit(s, x, "}"@) {
                                None => None,
                                Some(y) => Some(
                                    (TranslateV { word: w, translates: ws, last_seen: n }, y),
                                ),
                            },
                        },
                    },
                },
            },
        },
    }
}

/// Consumes the items of a non-empty translation-entry array together with
/// the closing bracket.
pub open spec fn parse_translate_items(s: Seq<char>, i: int) -> Option<(Seq<TranslateV>, int)>
    decreases s.len() - i,
{
    if i < 0 || i > s.len() {
        None
    } else {
        match parse_translate(s, i) {
            None => None,
            Some((t, j)) => if j <= i || j > s.len() {
                None
            } else if j < s.len() && s[j] == ',' {
                match parse_translate_items(s, j + 1) {
                    None => None,
                    Some((ts, k)) => Some((seq![t] + ts, k)),
                }
            } else if j < s.len() && s[j] == ']' {
                Some((seq![t], j + 1))
            } else {
                None
            },
        }
    }
}

/// Consumes a translation-entry array.
pub open spec fn parse_translates(s: Seq<char>, i: int) -> Option<(Seq<TranslateV>, int)> {
    match parse_lit(s, i, "["@) {
        None => None,
        Some(j) => if j < s.len() && s[j] == ']' {
            Some((Seq::empty(), j + 1))
        } else {
            parse_translate_items(s, j)
        },
    }
}

/// Consumes the items of a non-empty language array together with the
/// closing bracket.
pub open spec fn parse_lang_items(s: Seq<char>, i: int) -> Option<(Seq<Seq<char>>, int)>
    decreases s.len() - i,
{
    if i < 0 || i > s.len() {
        None
    } else {
        match parse_lang_obj(s, i) {
            None => None,
            Some((l, j)) => if j <= i || j > s.len() {
                None
            } else if j < s.len() && s[j] == ',' {
                match parse_lang_items(s, j + 1) {
                    None => None,
                    Some((ls, k)) => Some((seq![l] + ls, k)),
                }
            } else if j < s.len() && s[j] == ']' {
                Some((seq![l], j + 1))
            } else {
                None
            },
        }
    }
}

/// Consumes a language array.
pub open spec fn parse_langs(s: Seq<char>, i: int) -> Option<(Seq<Seq<char>>, int)> {
    match parse_lit(s, i, "["@) {
        None => None,
        Some(j) => if j < s.len() && s[j] == ']' {
            Some((Seq::empty(), j + 1))
        } else {
            parse_lang_items(s, j)
        },
    }
}

/// Consumes one user record.
pub open spec fn parse_user(s: Seq<char>, i: int) -> Option<(UserV, int)> {
    match parse_lit(s, i, "{\"id\":"@) {
        None => None,
        Some(j) => match parse_i64(s, j) {
            None => None,
            Some((id, k)) => match parse_lit(s, k, ",\"langs\":"@) {
                None => None,
                Some(m) => match parse_langs(s, m) {
                    None => None,
                    Some((ls, p)) => match parse_lit(s, p, ",\"translates\":"@) {
                        None => None,
                        Some(q) => match parse_translates(s, q) {
                            None => None,
                            Some((ts, x)) => match parse_lit(s, x, "}"@) {
                                None => None,
                                Some(y) => Some(
                                    (UserV { id: id, langs: ls, translates: ts }, y),
                                ),
                            },
                        },
                    },
                },
            },
        },
    }
}

/// Consumes the items of a non-empty user array together with the closing
/// bracket.
pub open spec fn parse_user_items(s: Seq<char>, i: int) -> Option<(Seq<UserV>, int)>
    decreases s.len() - i,
{
    if i < 0 || i > s.len() {
        None
    } else {
        match parse_user(s, i) {
            None => None,
            Some((u, j)) => if j <= i || j > s.len() {
                None
            } else if j < s.len() && s[j] == ',' {
                match parse_user_items(s, j + 1) {
                    None => None,
                    Some((us, k)) => Some((seq![u] + us, k)),
                }
            } else if j < s.len() && s[j] == ']' {
                Some((seq![u], j + 1))
            } else {
                None
            },
        }
    }
}

/// Consumes the user array.
pub open spec fn parse_users(s: Seq<char>, i: int) -> Option<(Seq<UserV>, int)> {
    match parse_lit(s, i, "["@) {
        None => None,
        Some(j) => if j < s.len() && s[j] == ']' {
            Some((Seq::empty(), j + 1))
        } else {
            parse_user_items(s, j)
        },
    }
}

/// What decoding a whole file body yields: the user records, provided the
/// array parse consumes every character.
pub open spec fn spec_decode_users(s: Seq<char>) -> Option<Seq<UserV>> {
    match parse_users(s, 0) {
        None => None,
        Some((us, j)) => if j == s.len() {
            Some(us)
        } else {
            None
        },
    }
}

// ---------------------------------------------------------------------------
// Decoding, executed: each function mirrors its specification parser.
// ---------------------------------------------------------------------------
/// Prepends an element, at the level of deep views.
fn cons<T: DeepView>(x: T, v: Vec<T>) -> (r: Vec<T>)
    ensures
        r.deep_view() == seq![x.deep_view()] + v.deep_view(),
{
    let ghost xv = x.deep_view();
    let ghost vv = v.deep_view();
    let mut r: Vec<T> = Vec::new();
    r.push(x);
    let mut rest = v;
    r.append(&mut rest);
    proof {
        assert forall|k: int| 0 <= k < r.deep_view().len() implies r.deep_view()[k] == (seq![xv]
            + vv)[k] by {
            if k > 0 {
                assert(r@[k] == v@[k - 1]);
            }
        }
        assert(r.deep_view() =~= seq![xv] + vv);
    }
    r
}

/// Consumes the fixed text `t` at `i`, yielding the next position.
fn p_lit(s: &str, i: usize, lit: &str) -> (r: Option<usize>)
    ensures
        match r {
            Some(j) => parse_lit(s@, i as int, lit@) == Some(j as int),
            None => parse_lit(s@, i as int, lit@) is None,
        },
{
    let n = s.unicode_len();
    let m = lit.unicode_len();
    if m > n || i > n - m {
        proof {
            assert(!matches_at(s@, i as int, lit@));
        }
        return None;
    }
    let mut k: usize = 0;
    while k < m
        invariant
            n == s@.len(),
            m == lit@.len(),
            m <= n,
            i <= n - m,
            k <= m,
            forall|x: int| 0 <= x < k ==> s@[i + x] == lit@[x],
        decreases m - k,
    {
        if s.get_char(i + k) != lit.get_char(k) {
            proof {
                assert(s@.subrange(i as int, i + lit@.len()) != lit@) by {
                    assert(s@.subrange(i as int, i + lit@.len())[k as int] == s@[i + k]);
                }
            }
            return None;
        }
        k = k + 1;
    }
    proof {
        assert(s@.subrange(i as int, i + lit@.len()) =~= lit@);
    }
    Some(i + m)
}

/// Consumes a string body up to its closing quote.
fn p_str_body(s: &str, i: usize) -> (r: Option<(Vec<char>, usize)>)
    ensures
        match r {
            Some(p) => parse_str_body(s@, i as int) == Some((p.0@, p.1 as int)),
            None => parse_str_body(s@, i as int) is None,
        },
    decreases s@.len() - i,
{
    let n = s.unicode_len();
    if i >= n {
        return None;
    }
    let c = s.get_char(i);
    if c == '"' {
        let v: Vec<char> = Vec::new();
        proof {
            assert(v@ =~= Seq::<char>::empty());
        }
        return Some((v, i + 1));
    }
    if c == '\\' {
        if i + 1 < n {
            let c2 = s.get_char(i + 1);
            if c2 == '"' || c2 == '\\' {
                match p_str_body(s, i + 2) {
                    None => return None,
                    Some((t, j)) => {
                        let ghost tv = t@;
                        let mut t2 = t;
                        t2.insert(0, c2);
                        proof {
                            assert(t2@ =~= seq![s@[i + 1]] + tv);
                        }
                        return Some((t2, j));
                    },
                }
            }
        }
        return None;
    }
    match p_str_body(s, i + 1) {
        None => None,
        Some((t, j)) => {
            let ghost tv = t@;
            let mut t2 = t;
            t2.insert(0, c);
            proof {
                assert(t2@ =~= seq![s@[i as int]] + tv);
            }
            Some((t2, j))
        },
    }
}

/// Consumes a quoted string.
fn p_string(s: &str, i: usize) -> (r: Option<(String, usize)>)
    ensures
        match r {
            Some(p) => parse_string(s@, i as int) == Some((p.0@, p.1 as int)),
            None => parse_string(s@, i as int) is None,
        },
{
    let n = s.unicode_len();
    if i < n && s.get_char(i) == '"' {
        match p_str_body(s, i + 1) {
            None => None,
            Some((t, j)) => Some((string_from_chars(&t), j)),
        }
    } else {
        None
    }
}

/// Consumes digits into an accumulator.
fn p_digits(s: &str, i: usize, acc: u64) -> (r: Option<(u64, usize)>)
    ensures
        match r {
            Some(p) => parse_digits(s@, i as int, acc as int) == Some((p.0 as int, p.1 as int)),
            None => parse_digits(s@, i as int, acc as int) is None,
        },
    decreases s@.len() - i,
{
    let n = s.unicode_len();
    if i >= n {
        return Some((acc, i));
    }
    let u = s.get_char(i) as u32;
    if u < 48 || u > 57 {
        proof {
            assert(!('0' <= s@[i as int] && s@[i as int] <= '9'));
        }
        return Some((acc, i));
    }
    proof {
        assert('0' <= s@[i as int] && s@[i as int] <= '9');
    }
    let d = (u - 48) as u64;
    let m = match acc.checked_mul(10) {
        Some(m) => m,
        None => {
            proof {
                assert((acc as int) * 10 + (s@[i as int] as int - 48) > 0xffff_ffff_ffff_ffff);
            }
            return None;
        },
    };
    let a2 = match m.checked_add(d) {
        Some(a) => a,
        None => {
            proof {
                assert((acc as int) * 10 + (s@[i as int] as int - 48) > 0xffff_ffff_ffff_ffff);
            }
            return None;
        },
    };
    proof {
        assert(a2 as int == (acc as int) * 10 + (s@[i as int] as int - 48));
    }
    p_digits(s, i + 1, a2)
}

/// Consumes an unsigned decimal number.
fn p_u64(s: &str, i: usize) -> (r: Option<(u64, usize)>)
    ensures
        match r {
            Some(p) => parse_u64(s@, i as int) == Some((p.0 as int, p.1 as int)),
            None => parse_u64(s@, i as int) is None,
        },
{
    let n = s.unicode_len();
    if i >= n {
        return None;
    }
    let u = s.get_char(i) as u32;
    if u < 48 || u > 57 {
        proof {
            assert(!('0' <= s@[i as int] && s@[i as int] <= '9'));
        }
        return None;
    }
    proof {
        assert('0' <= s@[i as int] && s@[i as int] <= '9');
    }
    p_digits(s, i, 0)
}

/// Consumes a signed decimal number.
fn p_i64(s: &str, i: usize) -> (r: Option<(i64, usize)>)
    ensures
        match r {
            Some(p) => parse_i64(s@, i as int) == Some((p.0 as int, p.1 as int)),
            None => parse_i64(s@, i as int) is None,
        },
{
    let n = s.unicode_len();
    if i < n && s.get_char(i) == '-' {
        match p_u64(s, i + 1) {
            None => None,
            Some((m, j)) => {
                if m <= 9223372036854775808u64 {
                    let v: i64 = if m == 9223372036854775808u64 {
                        -9223372036854775808i64
                    } else {
                        -(m as i64)
                    };
                    proof {
                        assert(v as int == -(m as int));
                    }
                    Some((v, j))
                } else {
                    None
                }
            },
        }
    } else {
        match p_u64(s, i) {
            None => None,
            Some((m, j)) => {
                if m <= 9223372036854775807u64 {
                    Some((m as i64, j))
                } else {
                    None
                }
            },
        }
    }
}

/// Consumes a language object.
fn p_lang_obj(s: &str, i: usize) -> (r: Option<(Lang, usize)>)
    ensures
        match r {
            Some(p) => parse_lang_obj(s@, i as int) == Some((p.0@, p.1 as int)),
            None => parse_lang_obj(s@, i as int) is None,
        },
{
    match p_lit(s, i, "{\"lang\":") {
        None => None,
        Some(j) => match p_string(s, j) {
            None => None,
            Some((l, k)) => match p_lit(s, k, "}") {
                None => None,
                Some(m) => Some((Lang { lang: l }, m)),
            },
        },
    }
}

/// Consumes a word object.
fn p_word_obj(s: &str, i: usize) -> (r: Option<(Word, usize)>)
    ensures
        match r {
            Some(p) => parse_word_obj(s@, i as int) == Some((p.0@, p.1 as int)),
            None => parse_word_obj(s@, i as int) is None,
        },
{
    match p_lit(s, i, "{\"word\":") {
        None => None,
        Some(j) => match p_string(s, j) {
            None => None,
            Some((w, k)) => match p_lit(s, k, ",\"lang\":") {
                None => None,
                Some(m) => match p_lang_obj(s, m) {
                    None => None,
                    Some((l, p)) => match p_lit(s, p, "}") {
                        None => None,
                        Some(q) => Some((Word { word: w, lang: l }, q)),
                    },
                },
            },
        },
    }
}

/// Consumes the items of a non-empty word array.
fn p_word_items(s: &str, i: usize) -> (r: Option<(Vec<Word>, usize)>)
    ensures
        match r {
            Some(p) => parse_word_items(s@, i as int) == Some((p.0.deep_view(), p.1 as int)),
            None => parse_word_items(s@, i as int) is None,
        },
    decreases s@.len() - i,
{
    let n = s.unicode_len();
    if i > n {
        return None;
    }
    match p_word_obj(s, i) {
        None => None,
        Some((w, j)) => {
            if j <= i || j > n {
                return None;
            }
            if j < n && s.get_char(j) == ',' {
                match p_word_items(s, j + 1) {
                    None => None,
                    Some((ws, k)) => Some((cons(w, ws), k)),
                }
            } else if j < n && s.get_char(j) == ']' {
                let ws: Vec<Word> = Vec::new();
                let r = cons(w, ws);
                proof {
                    assert(r.deep_view() =~= seq![w@]);
                }
                Some((r, j + 1))
            } else {
                None
            }
        },
    }
}

/// Consumes a word array.
fn p_words(s: &str, i: usize) -> (r: Option<(Vec<Word>, usize)>)
    ensures
        match r {
            Some(p) => parse_words(s@, i as int) == Some((p.0.deep_view(), p.1 as int)),
            None => parse_words(s@, i as int) is None,
        },
{
    let n = s.unicode_len();
    match p_lit(s, i, "[") {
        None => None,
        Some(j) => {
            if j < n && s.get_char(j) == ']' {
                let ws: Vec<Word> = Vec::new();
                proof {
                    assert(ws.deep_view() =~= Seq::<WordV>::empty());
                }
                Some((ws, j + 1))
            } else {
                p_word_items(s, j)
            }
        },
    }
}

/// Consumes a translation entry.
fn p_translate(s: &str, i: usize) -> (r: Option<(Translate, usize)>)
    ensures
        match r {
            Some(p) => parse_translate(s@, i as int) == Some((p.0@, p.1 as int)),
            None => parse_translate(s@, i as int) is None,
        },
{
    match p_lit(s, i, "{\"word\":") {
        None => None,
        Some(j) => match p_word_obj(s, j) {
            None => None,
            Some((w, k)) => match p_lit(s, k, ",\"translates\":") {
                None => None,
                Some(m) => match p_words(s, m) {
                    None => None,
                    Some((ws, p)) => match p_lit(s, p, ",\"last_seen\":") {
                        None => None,
                        Some(q) => match p_i64(s, q) {
                            None => None,
                            Some((ls, x)) => match p_lit(s, x, "}") {
                                None => None,
                                Some(y) => {
                                    let t = Translate {
                                        translates: ws,
                                        word: w,
                                        last_seen: ls,
                                    };
                                    Some((t, y))
                                },
                            },
                        },
                    },
                },
            },
        },
    }
}

/// Consumes the items of a non-empty translation-entry array.
fn p_translate_items(s: &str, i: usize) -> (r: Option<(Vec<Translate>, usize)>)
    ensures
        match r {
            Some(p) => parse_translate_items(s@, i as int) == Some((p.0.deep_view(), p.1 as int)),
            None => parse_translate_items(s@, i as int) is None,
        },
    decreases s@.len() - i,
{
    let n = s.unicode_len();
    if i > n {
        return None;
    }
    match p_translate(s, i) {
        None => None,
        Some((t, j)) => {
            if j <= i || j > n {
                return None;
            }
            if j < n && s.get_char(j) == ',' {
                match p_translate_items(s, j + 1) {
                    None => None,
                    Some((ts, k)) => Some((cons(t, ts), k)),
                }
            } else if j < n && s.get_char(j) == ']' {
                let ts: Vec<Translate> = Vec::new();
                let r = cons(t, ts);
                proof {
                    assert(r.deep_view() =~= seq![t@]);
                }
                Some((r, j + 1))
            } else {
                None
            }
        },
    }
}

/// Consumes a translation-entry array.
fn p_translates(s: &str, i: usize) -> (r: Option<(Vec<Translate>, usize)>)
    ensures
        match r {
            Some(p) => parse_translates(s@, i as int) == Some((p.0.deep_view(), p.1 as int)),
            None => parse_translates(s@, i as int) is None,
        },
{
    let n = s.unicode_len();
    match p_lit(s, i, "[") {
        None => None,
        Some(j) => {
            if j < n && s.get_char(j) == ']' {
                let ts: Vec<Translate> = Vec::new();
                proof {
                    assert(ts.deep_view() =~= Seq::<TranslateV>::empty());
                }
                Some((ts, j + 1))
            } else {
                p_translate_items(s, j)
            }
        },
    }
}

/// Consumes the items of a non-empty language array.
fn p_lang_items(s: &str, i: usize) -> (r: Option<(Vec<Lang>, usize)>)
    ensures
        match r {
            Some(p) => parse_lang_items(s@, i as int) == Some((p.0.deep_view(), p.1 as int)),
            None => parse_lang_items(s@, i as int) is None,
        },
    decreases s@.len() - i,
{
    let n = s.unicode_len();
    if i > n {
        return None;
    }
    match p_lang_obj(s, i) {
        None => None,
        Some((l, j)) => {
            if j <= i || j > n {
                return None;
            }
            if j < n && s.get_char(j) == ',' {
                match p_lang_items(s, j + 1) {
                    None => None,
                    Some((ls, k)) => Some((cons(l, ls), k)),
                }
            } else if j < n && s.get_char(j) == ']' {
                let ls: Vec<Lang> = Vec::new();
                let r = cons(l, ls);
                proof {
                    assert(r.deep_view() =~= seq![l@]);
                }
                Some((r, j + 1))
            } else {
                None
            }
        },
    }
}

/// Consumes a language array.
fn p_langs(s: &str, i: usize) -> (r: Option<(Vec<Lang>, usize)>)
    ensures
        match r {
            Some(p) => parse_langs(s@, i as int) == Some((p.0.deep_view(), p.1 as int)),
            None => parse_langs(s@, i as int) is None,
        },
{
    let n = s.unicode_len();
    match p_lit(s, i, "[") {
        None => None,
        Some(j) => {
            if j < n && s.get_char(j) == ']' {
                let ls: Vec<Lang> = Vec::new();
                proof {
                    assert(ls.deep_view() =~= Seq::<Seq<char>>::empty());
                }
                Some((ls, j + 1))
            } else {
                p_lang_items(s, j)
            }
        },
    }
}

/// Consumes one user record.
fn p_user(s: &str, i: usize) -> (r: Option<(User, usize)>)
    ensures
        match r {
            Some(p) => parse_user(s@, i as int) == Some((p.0@, p.1 as int)),
            None => parse_user(s@, i as int) is None,
        },
{
    match p_lit(s, i, "{\"id\":") {
        None => None,
        Some(j) => match p_i64(s, j) {
            None => None,
            Some((id, k)) => match p_lit(s, k, ",\"langs\":") {
                None => None,
                Some(m) => match p_langs(s, m) {
                    None => None,
                    Some((ls, p)) => match p_lit(s, p, ",\"translates\":") {
                        None => None,
                        Some(q) => match p_translates(s, q) {
                            None => None,
                            Some((ts, x)) => match p_lit(s, x, "}") {
                                None => None,
                                Some(y) => {
                                    let u = User { translates: ts, langs: ls, id: id };
                                    Some((u, y))
                                },
                            },
                        },
                    },
                },
            },
        },
    }
}

/// Consumes the items of a non-empty user array.
fn p_user_items(s: &str, i: usize) -> (r: Option<(Vec<User>, usize)>)
    ensures
        match r {
            Some(p) => parse_user_items(s@, i as int) == Some((p.0.deep_view(), p.1 as int)),
            None => parse_user_items(s@, i as int) is None,
        },
    decreases s@.len() - i,
{
    let n = s.unicode_len();
    if i > n {
        return None;
    }
    match p_user(s, i) {
        None => None,
        Some((u, j)) => {
            if j <= i || j > n {
                return None;
            }
            if j < n && s.get_char(j) == ',' {
                match p_user_items(s, j + 1) {
                    None => None,
                    Some((us, k)) => Some((cons(u, us), k)),
                }
            } else if j < n && s.get_char(j) == ']' {
                let us: Vec<User> = Vec::new();
                let r = cons(u, us);
                proof {
                    assert(r.deep_view() =~= seq![u@]);
                }
                Some((r, j + 1))
            } else {
                None
            }
        },
    }
}

/// Consumes the user array.
fn p_users(s: &str, i: usize) -> (r: Option<(Vec<User>, usize)>)
    ensures
        match r {
            Some(p) => parse_users(s@, i as int) == Some((p.0.deep_view(), p.1 as int)),
            None => parse_users(s@, i as int) is None,
        },
{
    let n = s.unicode_len();
    match p_lit(s, i, "[") {
        None => None,
        Some(j) => {
            if j < n && s.get_char(j) == ']' {
                let us: Vec<User> = Vec::new();
                proof {
                    assert(us.deep_view() =~= Seq::<UserV>::empty());
                }
                Some((us, j + 1))
            } else {
                p_user_items(s, j)
            }
        },
    }
}

/// Decodes a whole file body as the collection of user records; anything the
/// strict grammar does not accept yields nothing.
pub fn decode_users(s: &str) -> (r: Option<Vec<User>>)
    ensures
        match r {
            Some(v) => spec_decode_users(s@) == Some(v.deep_view()),
            None => spec_decode_users(s@) is None,
        },
{
    let n = s.unicode_len();
    match p_users(s, 0) {
        None => None,
        Some((us, j)) => {
            if j == n {
                Some(us)
            } else {
                None
            }
        },
    }
}

// ---------------------------------------------------------------------------
// The round trip: decoding an encoded collection yields the collection.
// ---------------------------------------------------------------------------
proof fn lemma_matches_concat(s: Seq<char>, i: int, a: Seq<char>, b: Seq<char>)
    requires
        matches_at(s, i, a + b),
    ensures
        matches_at(s, i, a),
        matches_at(s, i + a.len(), b),
{
    assert forall|k: int| 0 <= k < a.len() + b.len() implies s[i + k] == (a + b)[k] by {
        assert(s.subrange(i, i + (a + b).len())[k] == s[i + k]);
    }
    assert(s.subrange(i, i + a.len()) =~= a);
    assert forall|k: int| 0 <= k < b.len() implies s.subrange(
        i + a.len(),
        i + a.len() + b.len(),
    )[k] == b[k] by {
        assert(s.subrange(i, i + (a + b).len())[a.len() + k] == s[i + a.len() + k]);
        assert((a + b)[a.len() + k] == b[k]);
    }
    assert(s.subrange(i + a.len(), i + a.len() + b.len()) =~= b);
}

proof fn lemma_matches_char(s: Seq<char>, i: int, t: Seq<char>, k: int)
    requires
        matches_at(s, i, t),
        0 <= k < t.len(),
    ensures
        s[i + k] == t[k],
{
    assert(s.subrange(i, i + t.len())[k] == s[i + k]);
}

proof fn lemma_parse_str_body_rt(s: Seq<char>, i: int, t: Seq<char>)
    requires
        matches_at(s, i, spec_esc(t) + seq!['"']),
    ensures
        parse_str_body(s, i) == Some((t, i + spec_esc(t).len() + 1)),
    decreases t.len(),
{
    if t.len() == 0 {
        assert(spec_esc(t) =~= Seq::<char>::empty());
        lemma_matches_char(s, i, spec_esc(t) + seq!['"'], 0);
        assert(s[i] == '"');
        assert(t =~= Seq::<char>::empty());
    } else {
        let c = t[0];
        let rest = t.skip(1);
        assert(spec_esc(t) == esc_char(c) + spec_esc(rest));
        assert((spec_esc(t) + seq!['"']) =~= esc_char(c) + (spec_esc(rest) + seq!['"']));
        lemma_matches_concat(s, i, esc_char(c), spec_esc(rest) + seq!['"']);
        if c == '"' || c == '\\' {
            lemma_matches_char(s, i, esc_char(c), 0);
            lemma_matches_char(s, i, esc_char(c), 1);
            assert(s[i] == '\\');
            assert(s[i + 1] == c);
            lemma_parse_str_body_rt(s, i + 2, rest);
            assert(seq![s[i + 1]] + rest =~= t);
        } else {
            lemma_matches_char(s, i, esc_char(c), 0);
            assert(s[i] == c);
            lemma_parse_str_body_rt(s, i + 1, rest);
            assert(seq![s[i]] + rest =~= t);
        }
    }
}

proof fn lemma_parse_string_rt(s: Seq<char>, i: int, t: Seq<char>)
    requires
        matches_at(s, i, spec_enc_str(t)),
    ensures
        parse_string(s, i) == Some((t, i + spec_enc_str(t).len())),
{
    assert(spec_enc_str(t) =~= seq!['"'] + (spec_esc(t) + seq!['"']));
    lemma_matches_concat(s, i, seq!['"'], spec_esc(t) + seq!['"']);
    lemma_matches_char(s, i, seq!['"'], 0);
    assert(s[i] == '"');
    lemma_parse_str_body_rt(s, i + 1, t);
}

/// Powers of ten.
pub open spec fn pow10(k: nat) -> int
    decreases k,
{
    if k == 0 {
        1
    } else {
        10 * pow10((k - 1) as nat)
    }
}

proof fn lemma_digit_char(d: int)
    requires
        0 <= d <= 9,
    ensures
        '0' <= digit_char(d) <= '9',
        digit_char(d) as int == 48 + d,
{
}

proof fn lemma_enc_u64_shape(n: int)
    requires
        n >= 0,
    ensures
        spec_enc_u64(n).len() >= 1,
        forall|k: int|
            0 <= k < spec_enc_u64(n).len() ==> '0' <= #[trigger] spec_enc_u64(n)[k] <= '9',
        pow10(spec_enc_u64(n).len() as nat) > n,
    decreases n,
{
    if n < 10 {
        lemma_digit_char(n);
        assert(pow10(0) == 1);
        assert(pow10(1) == 10);
    } else {
        lemma_enc_u64_shape(n / 10);
        lemma_digit_char(n % 10);
        let pre = spec_enc_u64(n / 10);
        assert forall|k: int| 0 <= k < spec_enc_u64(n).len() implies '0'
            <= #[trigger] spec_enc_u64(n)[k] <= '9' by {
            if k < pre.len() {
                assert(spec_enc_u64(n)[k] == pre[k]);
            } else {
                assert(spec_enc_u64(n)[k] == digit_char(n % 10));
            }
        }
        assert(pow10(spec_enc_u64(n).len() as nat) == 10 * pow10(pre.len() as nat));
        assert(10 * pow10(pre.len() as nat) >= 10 * (n / 10 + 1)) by (nonlinear_arith)
            requires
                pow10(pre.len() as nat) > n / 10,
        ;
        assert(10 * (n / 10) + n % 10 == n);
    }
}

proof fn lemma_parse_digits_chain(s: Seq<char>, i: int, n: int, acc: int)
    requires
        matches_at(s, i, spec_enc_u64(n)),
        0 <= n,
        0 <= acc,
        acc * pow10(spec_enc_u64(n).len() as nat) + n <= 0xffff_ffff_ffff_ffff,
    ensures
        parse_digits(s, i, acc) == parse_digits(
            s,
            i + spec_enc_u64(n).len(),
            acc * pow10(spec_enc_u64(n).len() as nat) + n,
        ),
    decreases n,
{
    lemma_enc_u64_shape(n);
    if n < 10 {
        lemma_digit_char(n);
        assert(pow10(0) == 1);
        assert(pow10(1) == 10);
        lemma_matches_char(s, i, spec_enc_u64(n), 0);
        assert(s[i] == digit_char(n));
        let a2 = acc * 10 + (s[i] as int - 48);
        assert(a2 == acc * pow10(1) + n);
        assert(a2 <= 0xffff_ffff_ffff_ffff);
    } else {
        let h = n / 10;
        let d = n % 10;
        let pre = spec_enc_u64(h);
        let lh = pre.len();
        let l = spec_enc_u64(n).len();
        assert(l == lh + 1);
        lemma_matches_concat(s, i, pre, seq![digit_char(d)]);
        let acc2 = acc * pow10(lh as nat) + h;
        assert(acc2 * 10 + d == acc * pow10(l as nat) + n) by (nonlinear_arith)
            requires
                acc2 == acc * pow10(lh as nat) + h,
                pow10(l as nat) == 10 * pow10(lh as nat),
                h == n / 10,
                d == n % 10,
                10 * (n / 10) + n % 10 == n,
        ;
        lemma_pow10_pos(lh as nat);
        assert(acc2 >= 0) by (nonlinear_arith)
            requires
                acc >= 0,
                h >= 0,
                pow10(lh as nat) >= 1,
                acc2 == acc * pow10(lh as nat) + h,
        ;
        assert(pow10(0) == 1);
        assert(pow10(1) == 10);
        assert(acc2 * pow10(1) + d <= 0xffff_ffff_ffff_ffff);
        lemma_parse_digits_chain(s, i, h, acc);
        lemma_digit_char(d);
        lemma_matches_char(s, i + lh, seq![digit_char(d)], 0);
        assert(s[i + lh] == digit_char(d));
        let a2 = acc2 * 10 + (s[i + lh] as int - 48);
        assert(a2 == acc * pow10(l as nat) + n);
    }
}

proof fn lemma_pow10_pos(k: nat)
    ensures
        pow10(k) >= 1,
    decreases k,
{
    if k > 0 {
        lemma_pow10_pos((k - 1) as nat);
    }
}

proof fn lemma_parse_u64_rt(s: Seq<char>, i: int, n: int)
    requires
        matches_at(s, i, spec_enc_u64(n)),
        0 <= n <= 0xffff_ffff_ffff_ffff,
        i + spec_enc_u64(n).len() == s.len() || !('0' <= s[i + spec_enc_u64(n).len()] && s[i
            + spec_enc_u64(n).len()] <= '9'),
    ensures
        parse_u64(s, i) == Some((n, i + spec_enc_u64(n).len())),
{
    lemma_enc_u64_shape(n);
    lemma_matches_char(s, i, spec_enc_u64(n), 0);
    assert('0' <= s[i] && s[i] <= '9');
    lemma_pow10_pos(spec_enc_u64(n).len() as nat);
    lemma_parse_digits_chain(s, i, n, 0);
}

proof fn lemma_parse_i64_rt(s: Seq<char>, i: int, n: int)
    requires
        matches_at(s, i, spec_enc_i64(n)),
        -0x8000_0000_0000_0000 <= n <= 0x7fff_ffff_ffff_ffff,
        i + spec_enc_i64(n).len() == s.len() || !('0' <= s[i + spec_enc_i64(n).len()] && s[i
            + spec_enc_i64(n).len()] <= '9'),
    ensures
        parse_i64(s, i) == Some((n, i + spec_enc_i64(n).len())),
{
    if n < 0 {
        assert(spec_enc_i64(n) == seq!['-'] + spec_enc_u64(-n));
        lemma_matches_concat(s, i, seq!['-'], spec_enc_u64(-n));
        lemma_matches_char(s, i, seq!['-'], 0);
        assert(s[i] == '-');
        lemma_parse_u64_rt(s, i + 1, -n);
    } else {
        lemma_enc_u64_shape(n);
        lemma_matches_char(s, i, spec_enc_u64(n), 0);
        assert(s[i] != '-');
        lemma_parse_u64_rt(s, i, n);
    }
}

proof fn lemma_parse_lang_rt(s: Seq<char>, i: int, l: Seq<char>)
    requires
        matches_at(s, i, spec_enc_lang(l)),
    ensures
        parse_lang_obj(s, i) == Some((l, i + spec_enc_lang(l).len())),
{
    let a = "{\"lang\":"@;
    let b = spec_enc_str(l);
    let c = "}"@;
    assert(spec_enc_lang(l) =~= a + (b + c));
    lemma_matches_concat(s, i, a, b + c);
    lemma_matches_concat(s, i + a.len(), b, c);
    lemma_parse_string_rt(s, i + a.len(), l);
}

proof fn lemma_parse_word_rt(s: Seq<char>, i: int, w: WordV)
    requires
        matches_at(s, i, spec_enc_word(w)),
    ensures
        parse_word_obj(s, i) == Some((w, i + spec_enc_word(w).len())),
{
    let a = "{\"word\":"@;
    let b = spec_enc_str(w.word);
    let c = ",\"lang\":"@;
    let d = spec_enc_lang(w.lang);
    let e = "}"@;
    assert(spec_enc_word(w) =~= a + (b + (c + (d + e))));
    lemma_matches_concat(s, i, a, b + (c + (d + e)));
    lemma_matches_concat(s, i + a.len(), b, c + (d + e));
    lemma_matches_concat(s, i + a.len() + b.len(), c, d + e);
    lemma_matches_concat(s, i + a.len() + b.len() + c.len(), d, e);
    lemma_parse_string_rt(s, i + a.len(), w.word);
    lemma_parse_lang_rt(s, i + a.len() + b.len() + c.len(), w.lang);
}

proof fn lemma_enc_word_starts(w: WordV)
    ensures
        spec_enc_word(w).len() >= 1,
        spec_enc_word(w)[0] == '{',
{
    reveal_strlit("{\"word\":");
    assert(spec_enc_word(w)[0] == "{\"word\":"@[0]);
}

proof fn lemma_parse_word_items_rt(s: Seq<char>, i: int, ws: Seq<WordV>)
    requires
        ws.len() >= 1,
        matches_at(s, i, spec_enc_word_items(ws) + seq![']']),
    ensures
        parse_word_items(s, i) == Some((ws, i + spec_enc_word_items(ws).len() + 1)),
    decreases ws.len(),
{
    let w0 = ws[0];
    let e0 = spec_enc_word(w0);
    lemma_enc_word_starts(w0);
    if ws.len() == 1 {
        assert(spec_enc_word_items(ws) + seq![']'] =~= e0 + seq![']']);
        lemma_matches_concat(s, i, e0, seq![']']);
        lemma_parse_word_rt(s, i, w0);
        lemma_matches_char(s, i + e0.len(), seq![']'], 0);
        assert(s[i + e0.len()] == ']');
        assert(seq![w0] =~= ws);
    } else {
        let rest = ws.skip(1);
        assert(spec_enc_word_items(ws) + seq![']'] =~= e0 + (","@ + (spec_enc_word_items(rest)
            + seq![']'])));
        lemma_matches_concat(s, i, e0, ","@ + (spec_enc_word_items(rest) + seq![']']));
        lemma_matches_concat(s, i + e0.len(), ","@, spec_enc_word_items(rest) + seq![']']);
        lemma_parse_word_rt(s, i, w0);
        reveal_strlit(",");
        lemma_matches_char(s, i + e0.len(), ","@, 0);
        assert(s[i + e0.len()] == ',');
        lemma_parse_word_items_rt(s, i + e0.len() + 1, rest);
        assert(seq![w0] + rest =~= ws);
    }
}

proof fn lemma_parse_words_rt(s: Seq<char>, i: int, ws: Seq<WordV>)
    requires
        matches_at(s, i, spec_enc_words(ws)),
    ensures
        parse_words(s, i) == Some((ws, i + spec_enc_words(ws).len())),
{
    reveal_strlit("[");
    reveal_strlit("]");
    let items = spec_enc_word_items(ws);
    assert(spec_enc_words(ws) =~= "["@ + (items + "]"@));
    lemma_matches_concat(s, i, "["@, items + "]"@);
    if ws.len() == 0 {
        assert(items =~= Seq::<char>::empty());
        lemma_matches_char(s, i + 1, items + "]"@, 0);
        assert(s[i + 1] == ']');
        assert(ws =~= Seq::<WordV>::empty());
    } else {
        lemma_enc_word_starts(ws[0]);
        assert(items[0] == spec_enc_word(ws[0])[0]);
        lemma_matches_char(s, i + 1, items + "]"@, 0);
        assert(s[i + 1] == '{');
        assert(items + "]"@ =~= items + seq![']']);
        lemma_parse_word_items_rt(s, i + 1, ws);
    }
}

#[verifier::rlimit(60)]
proof fn lemma_parse_translate_rt(s: Seq<char>, i: int, t: TranslateV)
    requires
        matches_at(s, i, spec_enc_translate(t)),
        -0x8000_0000_0000_0000 <= t.last_seen <= 0x7fff_ffff_ffff_ffff,
    ensures
        parse_translate(s, i) == Some((t, i + spec_enc_translate(t).len())),
{
    let a = "{\"word\":"@;
    let b = spec_enc_word(t.word);
    let c = ",\"translates\":"@;
    let d = spec_enc_words(t.translates);
    let e = ",\"last_seen\":"@;
    let f = spec_enc_i64(t.last_seen);
    let g = "}"@;
    assert(spec_enc_translate(t) =~= a + (b + (c + (d + (e + (f + g))))));
    lemma_matches_concat(s, i, a, b + (c + (d + (e + (f + g)))));
    let i1 = i + a.len();
    lemma_matches_concat(s, i1, b, c + (d + (e + (f + g))));
    let i2 = i1 + b.len();
    lemma_matches_concat(s, i2, c, d + (e + (f + g)));
    let i3 = i2 + c.len();
    lemma_matches_concat(s, i3, d, e + (f + g));
    let i4 = i3 + d.len();
    lemma_matches_concat(s, i4, e, f + g);
    let i5 = i4 + e.len();
    lemma_matches_concat(s, i5, f, g);
    let i6 = i5 + f.len();
    lemma_parse_word_rt(s, i1, t.word);
    lemma_parse_words_rt(s, i3, t.translates);
    reveal_strlit("}");
    lemma_matches_char(s, i6, g, 0);
    assert(s[i6] == '}');
    lemma_parse_i64_rt(s, i5, t.last_seen);
}

proof fn lemma_enc_translate_starts(t: TranslateV)
    ensures
        spec_enc_translate(t).len() >= 1,
        spec_enc_translate(t)[0] == '{',
{
    reveal_strlit("{\"word\":");
    assert(spec_enc_translate(t)[0] == "{\"word\":"@[0]);
}

/// Every recency marker in range of the machine representation.
pub open spec fn translates_in_range(ts: Seq<TranslateV>) -> bool {
    forall|k: int|
        0 <= k < ts.len() ==> -0x8000_0000_0000_0000 <= (#[trigger] ts[k]).last_seen
            <= 0x7fff_ffff_ffff_ffff
}

#[verifier::rlimit(60)]
proof fn lemma_parse_translate_items_rt(s: Seq<char>, i: int, ts: Seq<TranslateV>)
    requires
        ts.len() >= 1,
        translates_in_range(ts),
        matches_at(s, i, spec_enc_translate_items(ts) + seq![']']),
    ensures
        parse_translate_items(s, i) == Some((ts, i + spec_enc_translate_items(ts).len() + 1)),
    decreases ts.len(),
{
    let t0 = ts[0];
    let e0 = spec_enc_translate(t0);
    lemma_enc_translate_starts(t0);
    if ts.len() == 1 {
        assert(spec_enc_translate_items(ts) + seq![']'] =~= e0 + seq![']']);
        lemma_matches_concat(s, i, e0, seq![']']);
        lemma_parse_translate_rt(s, i, t0);
        lemma_matches_char(s, i + e0.len(), seq![']'], 0);
        assert(s[i + e0.len()] == ']');
        assert(seq![t0] =~= ts);
    } else {
        let rest = ts.skip(1);
        assert(translates_in_range(rest)) by {
            assert(forall|k: int| 0 <= k < rest.len() ==> rest[k] == ts[k + 1]);
        }
        assert(spec_enc_translate_items(ts) + seq![']'] =~= e0 + (","@ + (
        spec_enc_translate_items(rest) + seq![']'])));
        lemma_matches_concat(s, i, e0, ","@ + (spec_enc_translate_items(rest) + seq![']']));
        lemma_matches_concat(s, i + e0.len(), ","@, spec_enc_translate_items(rest) + seq![']']);
        lemma_parse_translate_rt(s, i, t0);
        reveal_strlit(",");
        lemma_matches_char(s, i + e0.len(), ","@, 0);
        assert(s[i + e0.len()] == ',');
        lemma_parse_translate_items_rt(s, i + e0.len() + 1, rest);
        assert(seq![t0] + rest =~= ts);
    }
}

proof fn lemma_parse_translates_rt(s: Seq<char>, i: int, ts: Seq<TranslateV>)
    requires
        translates_in_range(ts),
        matches_at(s, i, spec_enc_translates(ts)),
    ensures
        parse_translates(s, i) == Some((ts, i + spec_enc_translates(ts).len())),
{
    reveal_strlit("[");
    reveal_strlit("]");
    let items = spec_enc_translate_items(ts);
    assert(spec_enc_translates(ts) =~= "["@ + (items + "]"@));
    lemma_matches_concat(s, i, "["@, items + "]"@);
    if ts.len() == 0 {
        assert(items =~= Seq::<char>::empty());
        lemma_matches_char(s, i + 1, items + "]"@, 0);
        assert(s[i + 1] == ']');
        assert(ts =~= Seq::<TranslateV>::empty());
    } else {
        lemma_enc_translate_starts(ts[0]);
        assert(items[0] == spec_enc_translate(ts[0])[0]);
        lemma_matches_char(s, i + 1, items + "]"@, 0);
        assert(s[i + 1] == '{');
        assert(items + "]"@ =~= items + seq![']']);
        lemma_parse_translate_items_rt(s, i + 1, ts);
    }
}

proof fn lemma_enc_lang_starts(l: Seq<char>)
    ensures
        spec_enc_lang(l).len() >= 1,
        spec_enc_lang(l)[0] == '{',
{
    reveal_strlit("{\"lang\":");
    assert(spec_enc_lang(l)[0] == "{\"lang\":"@[0]);
}

proof fn lemma_parse_lang_items_rt(s: Seq<char>, i: int, ls: Seq<Seq<char>>)
    requires
        ls.len() >= 1,
        matches_at(s, i, spec_enc_lang_items(ls) + seq![']']),
    ensures
        parse_lang_items(s, i) == Some((ls, i + spec_enc_lang_items(ls).len() + 1)),
    decreases ls.len(),
{
    let l0 = ls[0];
    let e0 = spec_enc_lang(l0);
    lemma_enc_lang_starts(l0);
    if ls.len() == 1 {
        assert(spec_enc_lang_items(ls) + seq![']'] =~= e0 + seq![']']);
        lemma_matches_concat(s, i, e0, seq![']']);
        lemma_parse_lang_rt(s, i, l0);
        lemma_matches_char(s, i + e0.len(), seq![']'], 0);
        assert(s[i + e0.len()] == ']');
        assert(seq![l0] =~= ls);
    } else {
        let rest = ls.skip(1);
        assert(spec_enc_lang_items(ls) + seq![']'] =~= e0 + (","@ + (spec_enc_lang_items(rest)
            + seq![']'])));
        lemma_matches_concat(s, i, e0, ","@ + (spec_enc_lang_items(rest) + seq![']']));
        lemma_matches_concat(s, i + e0.len(), ","@, spec_enc_lang_items(rest) + seq![']']);
        lemma_parse_lang_rt(s, i, l0);
        reveal_strlit(",");
        lemma_matches_char(s, i + e0.len(), ","@, 0);
        assert(s[i + e0.len()] == ',');
        lemma_parse_lang_items_rt(s, i + e0.len() + 1, rest);
        assert(seq![l0] + rest =~= ls);
    }
}

proof fn lemma_parse_langs_rt(s: Seq<char>, i: int, ls: Seq<Seq<char>>)
    requires
        matches_at(s, i, spec_enc_langs(ls)),
    ensures
        parse_langs(s, i) == Some((ls, i + spec_enc_langs(ls).len())),
{
    reveal_strlit("[");
    reveal_strlit("]");
    let items = spec_enc_lang_items(ls);
    assert(spec_enc_langs(ls) =~= "["@ + (items + "]"@));
    lemma_matches_concat(s, i, "["@, items + "]"@);
    if ls.len() == 0 {
        assert(items =~= Seq::<char>::empty());
        lemma_matches_char(s, i + 1, items + "]"@, 0);
        assert(s[i + 1] == ']');
        assert(ls =~= Seq::<Seq<char>>::empty());
    } else {
        lemma_enc_lang_starts(ls[0]);
        assert(items[0] == spec_enc_lang(ls[0])[0]);
        lemma_matches_char(s, i + 1, items + "]"@, 0);
        assert(s[i + 1] == '{');
        assert(items + "]"@ =~= items + seq![']']);
        lemma_parse_lang_items_rt(s, i + 1, ls);
    }
}

/// A record whose numbers fit the machine representation.
pub open spec fn user_in_range(u: UserV) -> bool {
    -0x8000_0000_0000_0000 <= u.id <= 0x7fff_ffff_ffff_ffff && translates_in_range(u.translates)
}

#[verifier::rlimit(60)]
proof fn lemma_parse_user_rt(s: Seq<char>, i: int, u: UserV)
    requires
        matches_at(s, i, spec_enc_user(u)),
        user_in_range(u),
    ensures
        parse_user(s, i) == Some((u, i + spec_enc_user(u).len())),
{
    let a = "{\"id\":"@;
    let b = spec_enc_i64(u.id);
    let c = ",\"langs\":"@;
    let d = spec_enc_langs(u.langs);
    let e = ",\"translates\":"@;
    let f = spec_enc_translates(u.translates);
    let g = "}"@;
    assert(spec_enc_user(u) =~= a + (b + (c + (d + (e + (f + g))))));
    lemma_matches_concat(s, i, a, b + (c + (d + (e + (f + g)))));
    let i1 = i + a.len();
    lemma_matches_concat(s, i1, b, c + (d + (e + (f + g))));
    let i2 = i1 + b.len();
    lemma_matches_concat(s, i2, c, d + (e + (f + g)));
    let i3 = i2 + c.len();
    lemma_matches_concat(s, i3, d, e + (f + g));
    let i4 = i3 + d.len();
    lemma_matches_concat(s, i4, e, f + g);
    let i5 = i4 + e.len();
    lemma_matches_concat(s, i5, f, g);
    reveal_strlit(",\"langs\":");
    lemma_matches_char(s, i2, c, 0);
    assert(s[i2] == ',');
    lemma_parse_i64_rt(s, i1, u.id);
    lemma_parse_langs_rt(s, i3, u.langs);
    lemma_parse_translates_rt(s, i5, u.translates);
}

proof fn lemma_enc_user_starts(u: UserV)
    ensures
        spec_enc_user(u).len() >= 1,
        spec_enc_user(u)[0] == '{',
{
    reveal_strlit("{\"id\":");
    assert(spec_enc_user(u)[0] == "{\"id\":"@[0]);
}

/// A collection whose numbers all fit the machine representation; every
/// collection built from actual records satisfies it.
pub open spec fn users_in_range(us: Seq<UserV>) -> bool {
    forall|k: int| 0 <= k < us.len() ==> user_in_range(#[trigger] us[k])
}

#[verifier::rlimit(100)]
#[verifier::spinoff_prover]
proof fn lemma_parse_user_items_rt(s: Seq<char>, i: int, us: Seq<UserV>)
    requires
        us.len() >= 1,
        users_in_range(us),
        matches_at(s, i, spec_enc_user_items(us) + seq![']']),
    ensures
        parse_user_items(s, i) == Some((us, i + spec_enc_user_items(us).len() + 1)),
    decreases us.len(),
{
    let u0 = us[0];
    let e0 = spec_enc_user(u0);
    lemma_enc_user_starts(u0);
    if us.len() == 1 {
        assert(spec_enc_user_items(us) + seq![']'] =~= e0 + seq![']']);
        lemma_matches_concat(s, i, e0, seq![']']);
        lemma_parse_user_rt(s, i, u0);
        lemma_matches_char(s, i + e0.len(), seq![']'], 0);
        assert(s[i + e0.len()] == ']');
        assert(seq![u0] =~= us);
    } else {
        let rest = us.skip(1);
        assert(users_in_range(rest)) by {
            assert(forall|k: int| 0 <= k < rest.len() ==> rest[k] == us[k + 1]);
        }
        assert(spec_enc_user_items(us) + seq![']'] =~= e0 + (","@ + (spec_enc_user_items(rest)
            + seq![']'])));
        lemma_matches_concat(s, i, e0, ","@ + (spec_enc_user_items(rest) + seq![']']));
        lemma_matches_concat(s, i + e0.len(), ","@, spec_enc_user_items(rest) + seq![']']);
        lemma_parse_user_rt(s, i, u0);
        reveal_strlit(",");
        lemma_matches_char(s, i + e0.len(), ","@, 0);
        assert(s[i + e0.len()] == ',');
        lemma_parse_user_items_rt(s, i + e0.len() + 1, rest);
        assert(seq![u0] + rest =~= us);
    }
}

/// The round trip of the persisted store: decoding what the encoder wrote
/// yields exactly the records that were written, for any collection of
/// records.
#[verifier::rlimit(60)]
pub proof fn lemma_store_round_trip(us: Seq<UserV>)
    requires
        users_in_range(us),
    ensures
        spec_decode_users(spec_enc_users(us)) == Some(us),
{
    let s = spec_enc_users(us);
    reveal_strlit("[");
    reveal_strlit("]");
    let items = spec_enc_user_items(us);
    assert(s =~= "["@ + (items + "]"@));
    assert(matches_at(s, 0, s)) by {
        assert(s.subrange(0, s.len() as int) =~= s);
    }
    lemma_matches_concat(s, 0, "["@, items + "]"@);
    lemma_matches_char(s, 0, "["@, 0);
    assert(s[0] == '[');
    if us.len() == 0 {
        assert(items =~= Seq::<char>::empty());
        lemma_matches_char(s, 1, items + "]"@, 0);
        assert(s[1] == ']');
        assert(us =~= Seq::<UserV>::empty());
    } else {
        lemma_enc_user_starts(us[0]);
        assert(items[0] == spec_enc_user(us[0])[0]);
        lemma_matches_char(s, 1, items + "]"@, 0);
        assert(s[1] == '{');
        assert(items + "]"@ =~= items + seq![']']);
        lemma_parse_user_items_rt(s, 1, us);
    }
}

/// Renders the whole collection of user records as one array.
pub fn encode_users(us: &Vec<User>) -> (r: String)
    ensures
        r@ == spec_enc_users(us.deep_view()),
{
    let mut out: Vec<char> = Vec::new();
    append_lit(&mut out, "[");
    enc_user_items(&mut out, us, 0);
    append_lit(&mut out, "]");
    proof {
        assert(us.deep_view().skip(0int) =~= us.deep_view());
        assert(out@ =~= spec_enc_users(us.deep_view()));
    }
    string_from_chars(&out)
}

} // verus!
