//! Dispatching one inbound message: interpret it, run the operation against
//! the store, and shape the reply. The surrounding loop — fetching updates,
//! sending replies, persisting the store, backing off on wire errors — is
//! the caller's; every decision in between is made here.
use vstd::prelude::*;
use vstd::multiset::Multiset;
use vstd::string::StrSliceExecFns;
use vstd::string::StringExecFns;
use crate::codec::{append_lit, string_from_chars};
use crate::commands::{Command, CommandV, spec_parse_command};
use crate::lang::Lang;
use crate::messages::{Answer, Message};
use crate::storage::{Translate, TranslateV, UserV, Word, WordV, find_user};
use crate::strategy::StrategyV;
use crate::text;
use crate::user::{Translate as TranslateCap, UserWords};
use crate::user::{spec_list_langs, spec_list_words, spec_target_langs};
use crate::storage::spec_upsert;

verus! {

/// An ASCII letter raised to upper case; anything else stands for itself.
pub open spec fn spec_upper_char(c: char) -> char {
    if 'a' <= c && c <= 'z' {
        ((c as u8) - 32) as char
    } else {
        c
    }
}

/// A string with its ASCII letters raised to upper case, as language codes
/// are rendered.
pub open spec fn spec_upper(s: Seq<char>) -> Seq<char> {
    s.map_values(|c: char| spec_upper_char(c))
}

/// Appends `s` in upper case.
fn append_upper(out: &mut Vec<char>, s: &str)
    ensures
        final(out)@ == old(out)@ + spec_upper(s@),
{
    let n = s.unicode_len();
    let mut i: usize = 0;
    while i < n
        invariant
            n == s@.len(),
            i <= n,
            out@ == old(out)@ + spec_upper(s@).take(i as int),
        decreases n - i,
    {
        let c = s.get_char(i);
        let u = c as u32;
        let up: char = if 97 <= u && u <= 122 {
            (((c as u8) - 32) as u8) as char
        } else {
            c
        };
        proof {
            assert(up == spec_upper_char(s@[i as int]));
            assert(spec_upper(s@)[i as int] == spec_upper_char(s@[i as int]));
        }
        out.push(up);
        proof {
            assert(out@ =~= old(out)@ + spec_upper(s@).take(i + 1));
        }
        i = i + 1;
    }
    proof {
        assert(spec_upper(s@).take(n as int) =~= spec_upper(s@));
    }
}

/// One rendered target word: its language in upper case, a tab, its text.
pub open spec fn spec_render_words(ws: Seq<WordV>) -> Seq<char>
    decreases ws.len(),
{
    if ws.len() == 0 {
        Seq::empty()
    } else {
        spec_upper(ws[0].lang) + seq!['\t'] + ws[0].word + seq!['\n'] + spec_render_words(
            ws.skip(1),
        )
    }
}

/// One rendered translation entry: the source line, then one line per
/// target word.
pub open spec fn spec_render_translate(t: TranslateV) -> Seq<char> {
    spec_upper(t.word.lang) + seq!['\t'] + t.word.word + seq!['\n'] + spec_render_words(
        t.translates,
    )
}

/// Rendered entries, one blank-line-separated block each.
pub open spec fn spec_words_lines(ts: Seq<TranslateV>) -> Seq<char>
    decreases ts.len(),
{
    if ts.len() == 0 {
        Seq::empty()
    } else {
        spec_render_translate(ts[0]) + seq!['\n'] + spec_words_lines(ts.skip(1))
    }
}

/// The text of a word-list reply: the rendered entries, or a placeholder
/// when there are none.
pub open spec fn spec_words_text(ts: Seq<TranslateV>) -> Seq<char> {
    if ts.len() == 0 {
        "No words"@
    } else {
        spec_words_lines(ts)
    }
}

/// The text of a language-list reply: the codes each padded with spaces, or
/// a placeholder when there are none.
pub open spec fn spec_langs_line(ls: Seq<Seq<char>>) -> Seq<char>
    decreases ls.len(),
{
    if ls.len() == 0 {
        Seq::empty()
    } else {
        seq![' '] + ls[0] + seq![' '] + spec_langs_line(ls.skip(1))
    }
}

pub open spec fn spec_langs_text(ls: Seq<Seq<char>>) -> Seq<char> {
    if ls.len() == 0 {
        "No langs"@
    } else {
        spec_langs_line(ls)
    }
}

/// Appends the rendered target words, from `idx` on.
fn render_words_into(out: &mut Vec<char>, ws: &Vec<Word>, idx: usize)
    requires
        idx <= ws.len(),
    ensures
        final(out)@ == old(out)@ + spec_render_words(ws.deep_view().skip(idx as int)),
    decreases ws.len() - idx,
{
    let ghost tail = ws.deep_view().skip(idx as int);
    if idx < ws.len() {
        proof {
            assert(tail[0] == ws.deep_view()[idx as int]);
        }
        append_upper(out, ws[idx].lang.lang.as_str());
        out.push('\t');
        append_lit(out, ws[idx].word.as_str());
        out.push('\n');
        render_words_into(out, ws, idx + 1);
        proof {
            assert(ws.deep_view().skip(idx + 1) =~= tail.skip(1));
            assert(out@ =~= old(out)@ + spec_render_words(tail));
        }
    } else {
        proof {
            assert(tail.len() == 0);
            assert(out@ =~= old(out)@ + spec_render_words(tail));
        }
    }
}

/// Appends one rendered entry.
fn render_translate_into(out: &mut Vec<char>, t: &Translate)
    ensures
        final(out)@ == old(out)@ + spec_render_translate(t@),
{
    append_upper(out, t.word.lang.lang.as_str());
    out.push('\t');
    append_lit(out, t.word.word.as_str());
    out.push('\n');
    render_words_into(out, &t.translates, 0);
    proof {
        assert(t@.translates.skip(0int) =~= t@.translates);
        assert(out@ =~= old(out)@ + spec_render_translate(t@));
    }
}

/// Appends the rendered entries, from `idx` on.
fn render_entries_into(out: &mut Vec<char>, ts: &Vec<Translate>, idx: usize)
    requires
        idx <= ts.len(),
    ensures
        final(out)@ == old(out)@ + spec_words_lines(ts.deep_view().skip(idx as int)),
    decreases ts.len() - idx,
{
    let ghost tail = ts.deep_view().skip(idx as int);
    if idx < ts.len() {
        proof {
            assert(tail[0] == ts.deep_view()[idx as int]);
        }
        render_translate_into(out, &ts[idx]);
        out.push('\n');
        render_entries_into(out, ts, idx + 1);
        proof {
            assert(ts.deep_view().skip(idx + 1) =~= tail.skip(1));
            assert(out@ =~= old(out)@ + spec_words_lines(tail));
        }
    } else {
        proof {
            assert(tail.len() == 0);
            assert(out@ =~= old(out)@ + spec_words_lines(tail));
        }
    }
}

/// The reply to a word-list query: the entries whose source text contains
/// the pattern, rendered one block per entry.
pub fn list_words_answer(user_words: &UserWords, message: &Message, pattern: &str) -> (r: Answer)
    ensures
        r.chat_id == message.chat.id,
        r.reply_to_message_id == message.message_id,
        r.text@ == spec_words_text(
            spec_list_words(user_words@, message.chat.id as int, text::lower_of(pattern@)),
        ),
{
    let trs = user_words.list_words(message.chat.id, pattern);
    if trs.len() == 0 {
        proof {
            assert(trs.deep_view().len() == 0);
        }
        return Answer::from_message("No words", message);
    }
    proof {
        crate::storage::lemma_deep_view_index::<Translate>(trs, 0);
    }
    let mut out: Vec<char> = Vec::new();
    render_entries_into(&mut out, &trs, 0);
    proof {
        assert(trs.deep_view().skip(0int) =~= trs.deep_view());
        assert(out@ =~= spec_words_lines(trs.deep_view()));
    }
    let s = string_from_chars(&out);
    Answer::from_message(s.as_str(), message)
}

/// The reply to a language-list query: the codes space-padded and joined.
pub fn list_langs_answer(user_words: &UserWords, message: &Message) -> (r: Answer)
    ensures
        r.chat_id == message.chat.id,
        r.reply_to_message_id == message.message_id,
        r.text@ == spec_langs_text(spec_list_langs(user_words@, message.chat.id as int)),
{
    let langs = user_words.list_langs(message.chat.id);
    if langs.len() == 0 {
        proof {
            assert(langs.deep_view().len() == 0);
        }
        return Answer::from_message("No langs", message);
    }
    proof {
        crate::storage::lemma_deep_view_index::<Lang>(langs, 0);
    }
    let mut out: Vec<char> = Vec::new();
    let mut i: usize = 0;
    while i < langs.len()
        invariant
            i <= langs.len(),
            out@ == spec_langs_line(langs.deep_view().take(i as int)),
        decreases langs.len() - i,
    {
        let ghost tail = langs.deep_view().skip(i as int);
        proof {
            crate::storage::lemma_deep_view_index::<Lang>(langs, i as int);
            assert(tail[0] == langs.deep_view()[i as int]);
        }
        out.push(' ');
        append_lit(&mut out, langs[i].lang.as_str());
        out.push(' ');
        proof {
            assert(langs.deep_view().skip(i + 1) =~= tail.skip(1));
            assert(langs.deep_view().take(i + 1) =~= langs.deep_view().take(i as int).push(
                langs.deep_view()[i as int],
            ));
            lemma_langs_line_snoc(langs.deep_view().take(i as int), langs.deep_view()[i as int]);
            assert(out@ =~= spec_langs_line(langs.deep_view().take(i + 1)));
        }
        i = i + 1;
    }
    proof {
        assert(langs.deep_view().take(langs.deep_view().len() as int) =~= langs.deep_view());
        assert(out@ == spec_langs_line(langs.deep_view()));
    }
    let s = string_from_chars(&out);
    Answer::from_message(s.as_str(), message)
}

proof fn lemma_langs_line_snoc(ls: Seq<Seq<char>>, l: Seq<char>)
    ensures
        spec_langs_line(ls.push(l)) == spec_langs_line(ls) + (seq![' '] + l + seq![' ']),
    decreases ls.len(),
{
    if ls.len() == 0 {
        assert(ls.push(l)[0] == l);
        assert(ls.push(l).len() == 1);
        assert(ls.push(l).skip(1) =~= Seq::<Seq<char>>::empty());
        assert(spec_langs_line(ls.push(l)) == seq![' '] + l + seq![' '] + spec_langs_line(
            ls.push(l).skip(1),
        ));
        assert(spec_langs_line(ls.push(l).skip(1)) == Seq::<char>::empty());
        assert(spec_langs_line(ls) == Seq::<char>::empty());
        assert(spec_langs_line(ls.push(l)) =~= spec_langs_line(ls) + (seq![' '] + l
            + seq![' ']));
    } else {
        assert(ls.push(l)[0] == ls[0]);
        assert(ls.push(l).skip(1) =~= ls.skip(1).push(l));
        lemma_langs_line_snoc(ls.skip(1), l);
        assert(spec_langs_line(ls.push(l)) =~= spec_langs_line(ls) + (seq![' '] + l
            + seq![' ']));
    }
}

/// Relies on `rand::Rng::gen_range` over `0..bound`: the draw is some index
/// below the bound; nothing more is assumed of it.
#[verifier::external_body]
fn rand_below(bound: usize) -> (r: usize)
    requires
        bound > 0,
    ensures
        r < bound,
{
    rand::Rng::gen_range(&mut rand::thread_rng(), 0..bound)
}

/// The entries ordered by their recency marker, least recently seen first.
fn sorted_by_seen(v: Vec<Translate>) -> (r: Vec<Translate>)
    ensures
        r.deep_view().to_multiset() == v.deep_view().to_multiset(),
        r.deep_view().len() == v.deep_view().len(),
        forall|a: int, b: int|
            0 <= a < b < r.deep_view().len() ==> (#[trigger] r.deep_view()[a]).last_seen
                <= (#[trigger] r.deep_view()[b]).last_seen,
{
    broadcast use vstd::seq_lib::group_to_multiset_ensures;

    let ghost orig = v.deep_view();
    let mut rest = v;
    let mut out: Vec<Translate> = Vec::new();
    proof {
        assert(out.deep_view() =~= Seq::<TranslateV>::empty());
        assert(out.deep_view().to_multiset().add(rest.deep_view().to_multiset())
            =~= orig.to_multiset());
    }
    while rest.len() > 0
        invariant
            out.deep_view().to_multiset().add(rest.deep_view().to_multiset())
                == orig.to_multiset(),
            out.deep_view().len() + rest.deep_view().len() == orig.len(),
            rest.deep_view().len() == rest@.len(),
            out.deep_view().len() == out@.len(),
            forall|a: int, b: int|
                0 <= a < b < out.deep_view().len() ==> (#[trigger] out.deep_view()[a]).last_seen
                    <= (#[trigger] out.deep_view()[b]).last_seen,
            forall|a: int, b: int|
                0 <= a < out.deep_view().len() && 0 <= b < rest.deep_view().len() ==> (
                #[trigger] out.deep_view()[a]).last_seen <= (
                #[trigger] rest.deep_view()[b]).last_seen,
        decreases rest.len(),
    {
        let mut m: usize = 0;
        let mut k: usize = 1;
        while k < rest.len()
            invariant
                m < k <= rest.len() || (k <= rest.len() && m == 0),
                m < rest.len(),
                rest.deep_view().len() == rest@.len(),
                forall|j: int|
                    0 <= j < k && j < rest@.len() ==> (
                    #[trigger] rest.deep_view()[m as int]).last_seen <= (
                    rest.deep_view()[j]).last_seen,
            decreases rest.len() - k,
        {
            proof {
                crate::storage::lemma_deep_view_index::<Translate>(rest, m as int);
                crate::storage::lemma_deep_view_index::<Translate>(rest, k as int);
            }
            if rest[k].last_seen < rest[m].last_seen {
                m = k;
            }
            k = k + 1;
        }
        let ghost restd = rest.deep_view();
        let ghost prevv = rest@;
        let ghost outd = out.deep_view();
        proof {
            assert forall|j: int| 0 <= j < prevv.len() implies #[trigger] prevv[j].deep_view()
                == restd[j] by {
                crate::storage::lemma_deep_view_index::<Translate>(rest, j);
            }
        }
        let x = rest.remove(m);
        proof {
            assert(rest@ == prevv.remove(m as int));
            assert forall|j: int| 0 <= j < rest.deep_view().len() implies rest.deep_view()[j]
                == restd.remove(m as int)[j] by {
                crate::storage::lemma_deep_view_index::<Translate>(rest, j);
                assert(rest.deep_view()[j] == rest@[j].deep_view());
                if j < m {
                    assert(rest@[j] == prevv[j]);
                    assert(restd.remove(m as int)[j] == restd[j]);
                } else {
                    assert(rest@[j] == prevv[j + 1]);
                    assert(restd.remove(m as int)[j] == restd[j + 1]);
                }
            }
            assert(rest.deep_view() =~= restd.remove(m as int));
            assert(x.deep_view() == restd[m as int]);
        }
        let ghost xv = x@;
        out.push(x);
        proof {
            assert forall|j: int| 0 <= j < out.deep_view().len() implies out.deep_view()[j] == (
            outd.push(xv))[j] by {
                crate::storage::lemma_deep_view_index::<Translate>(out, j);
                if j < outd.len() {
                    assert(out@[j].deep_view() == outd[j]);
                }
            }
            assert(out.deep_view() =~= outd.push(xv));
            restd.to_multiset_ensures();
            outd.to_multiset_ensures();
            assert(restd.remove(m as int).to_multiset() =~= restd.to_multiset().remove(xv));
            assert(outd.push(xv).to_multiset() =~= outd.to_multiset().insert(xv));
            assert(out.deep_view().to_multiset().add(rest.deep_view().to_multiset())
                =~= orig.to_multiset());
        }
    }
    proof {
        assert(rest.deep_view().len() == 0);
        assert(rest.deep_view().to_multiset() =~= Multiset::<TranslateV>::empty());
        assert(out.deep_view().to_multiset() =~= orig.to_multiset());
        assert(out.deep_view().len() == orig.len()) by {
            assert(out.deep_view().to_multiset().len() == out.deep_view().len());
            assert(orig.to_multiset().len() == orig.len());
        }
    }
    out
}

/// The window the quiz samples from: the least-recently-seen half of the
/// entries, widened to the requested count and clamped to the total. The
/// skew towards long-unseen words is intended.
pub open spec fn spec_window(total: int, n: int) -> int {
    let half = total / 2;
    let w0 = if half < n {
        n
    } else {
        half
    };
    if w0 > total {
        total
    } else {
        w0
    }
}

/// How many entries the quiz draws: the requested count, bounded by the
/// window.
pub open spec fn spec_sample_count(total: int, n: int) -> int {
    if n < spec_window(total, n) {
        n
    } else {
        spec_window(total, n)
    }
}

/// What holds of a quiz reply, whatever the random draws were: with no
/// stored words (or a non-positive count) the reply is the placeholder and
/// nothing changes; otherwise some distinct entries from the
/// least-recently-seen window were rendered and their recency markers moved
/// to `now`.
pub open spec fn spec_random_outcome(
    old_db: Seq<UserV>,
    new_db: Seq<UserV>,
    chat: int,
    n: int,
    now: int,
    reply: Seq<char>,
    changed: bool,
) -> bool {
    let i = find_user(old_db, chat);
    let ts = if i < 0 {
        Seq::<TranslateV>::empty()
    } else {
        old_db[i].translates
    };
    if n <= 0 || ts.len() == 0 {
        reply == "No words"@ && new_db == old_db && !changed
    } else {
        changed && exists|sorted: Seq<TranslateV>, picked: Seq<TranslateV>|
            {
                &&& #[trigger] sorted.to_multiset() == ts.to_multiset()
                &&& sorted.len() == ts.len()
                &&& (forall|a: int, b: int|
                    0 <= a < b < sorted.len() ==> (#[trigger] sorted[a]).last_seen <= (
                    #[trigger] sorted[b]).last_seen)
                &&& #[trigger] picked.len() == spec_sample_count(ts.len() as int, n)
                &&& (forall|x: int|
                    0 <= x < picked.len() ==> sorted.take(spec_window(ts.len() as int, n)).contains(
                        #[trigger] picked[x],
                    ))
                &&& reply == spec_words_lines(picked)
                &&& new_db == spec_upsert(
                    old_db,
                    chat,
                    StrategyV::UpdateLastSeen(
                        picked.map_values(|t: TranslateV| t.word),
                        now,
                    ),
                )
            }
    }
}

/// The quiz reply: some of the user's least-recently-seen entries, drawn at
/// random without repetition, rendered like a word list; the drawn entries'
/// recency markers move to `now`.
pub fn random_words_answer(
    user_words: &mut UserWords,
    message: &Message,
    n: i8,
    now: i64,
) -> (r: (Answer, bool))
    ensures
        r.0.chat_id == message.chat.id,
        r.0.reply_to_message_id == message.message_id,
        spec_random_outcome(
            old(user_words)@,
            final(user_words)@,
            message.chat.id as int,
            n as int,
            now as int,
            r.0.text@,
            r.1,
        ),
{
    let got = user_words.get(message.chat.id);
    match got {
        None => (Answer::from_message("No words", message), false),
        Some(user) => {
            let total = user.translates.len();
            if n <= 0 || total == 0 {
                return (Answer::from_message("No words", message), false);
            }
            let ghost ts = user@.translates;
            let sorted = sorted_by_seen(user.translates);
            proof {
                assert(sorted.deep_view().len() == ts.len());
            }
            let nn: usize = n as usize;
            let half: usize = total / 2;
            let w0: usize = if half < nn {
                nn
            } else {
                half
            };
            let window: usize = if w0 > total {
                total
            } else {
                w0
            };
            let k: usize = if nn < window {
                nn
            } else {
                window
            };
            proof {
                assert(window as int == spec_window(ts.len() as int, n as int));
                assert(k as int == spec_sample_count(ts.len() as int, n as int));
                assert(1 <= k <= window <= total);
            }
            let mut avail: Vec<usize> = Vec::new();
            let mut x: usize = 0;
            while x < window
                invariant
                    x <= window,
                    avail@.len() == x,
                    forall|j: int| 0 <= j < x ==> #[trigger] avail@[j] < window,
                decreases window - x,
            {
                avail.push(x);
                x = x + 1;
            }
            let mut picked: Vec<Translate> = Vec::new();
            let mut words: Vec<Word> = Vec::new();
            while picked.len() < k
                invariant
                    k <= window <= total,
                    sorted.deep_view().len() == total,
                    picked@.len() <= k,
                    avail@.len() + picked@.len() == window,
                    picked.deep_view().len() == picked@.len(),
                    words.deep_view().len() == picked@.len(),
                    forall|j: int| 0 <= j < avail@.len() ==> #[trigger] avail@[j] < window,
                    forall|y: int|
                        0 <= y < picked.deep_view().len() ==> sorted.deep_view().take(
                            window as int,
                        ).contains(#[trigger] picked.deep_view()[y]),
                    forall|y: int|
                        0 <= y < picked.deep_view().len()
                            ==> #[trigger] words.deep_view()[y] == picked.deep_view()[y].word,
                decreases k - picked.len(),
            {
                let d = rand_below(avail.len());
                let idx = avail.remove(d);
                proof {
                    crate::storage::lemma_deep_view_index::<Translate>(sorted, idx as int);
                }
                let ghost pickedd = picked.deep_view();
                let ghost wordsd = words.deep_view();
                let entry = sorted[idx].clone();
                let ghost ev = entry@;
                let w = entry.word.clone();
                picked.push(entry);
                words.push(w);
                proof {
                    assert(sorted.deep_view().take(window as int)[idx as int] == sorted.deep_view()[idx as int]);
                    assert(sorted.deep_view().take(window as int).contains(ev));
                    assert forall|y: int| 0 <= y < picked.deep_view().len() implies sorted.deep_view().take(
                        window as int,
                    ).contains(#[trigger] picked.deep_view()[y]) by {
                        crate::storage::lemma_deep_view_index::<Translate>(picked, y);
                        if y < pickedd.len() {
                            assert(picked@[y].deep_view() == pickedd[y]);
                        } else {
                            assert(picked@[y].deep_view() == ev);
                        }
                    }
                    assert forall|y: int| 0 <= y < picked.deep_view().len() implies #[trigger] words.deep_view()[y]
                        == picked.deep_view()[y].word by {
                        crate::storage::lemma_deep_view_index::<Translate>(picked, y);
                        crate::storage::lemma_deep_view_index::<Word>(words, y);
                        if y < pickedd.len() {
                            assert(picked@[y].deep_view() == pickedd[y]);
                            assert(words@[y].deep_view() == wordsd[y]);
                        } else {
                            assert(picked@[y].deep_view() == ev);
                            assert(words@[y].deep_view() == ev.word);
                        }
                    }
                }
            }
            let ghost pickedd = picked.deep_view();
            let ghost wordsd = words.deep_view();
            proof {
                assert(wordsd =~= pickedd.map_values(|t: TranslateV| t.word));
            }
            user_words.update_last_seen(message.chat.id, words, now);
            let mut out: Vec<char> = Vec::new();
            render_entries_into(&mut out, &picked, 0);
            proof {
                assert(picked.deep_view().skip(0int) =~= picked.deep_view());
            }
            let s = string_from_chars(&out);
            let ans = Answer::from_message(s.as_str(), message);
            proof {
                let sortedd = sorted.deep_view();
                assert(spec_random_outcome(
                    old(user_words)@,
                    user_words@,
                    message.chat.id as int,
                    n as int,
                    now as int,
                    ans.text@,
                    true,
                )) by {
                    assert(sortedd.to_multiset() == ts.to_multiset());
                    assert(sortedd.len() == ts.len());
                    assert(pickedd.len() == spec_sample_count(ts.len() as int, n as int));
                    assert(forall|y: int|
                        0 <= y < pickedd.len() ==> sortedd.take(
                            spec_window(ts.len() as int, n as int),
                        ).contains(#[trigger] pickedd[y]));
                    assert(ans.text@ == spec_words_lines(pickedd));
                    assert(user_words@ == spec_upsert(
                        old(user_words)@,
                        message.chat.id as int,
                        StrategyV::UpdateLastSeen(
                            pickedd.map_values(|t: TranslateV| t.word),
                            now as int,
                        ),
                    ));
                    assert({
                        &&& sortedd.to_multiset() == ts.to_multiset()
                        &&& sortedd.len() == ts.len()
                        &&& (forall|a: int, b: int|
                            0 <= a < b < sortedd.len() ==> (#[trigger] sortedd[a]).last_seen <= (
                            #[trigger] sortedd[b]).last_seen)
                        &&& pickedd.len() == spec_sample_count(ts.len() as int, n as int)
                        &&& (forall|y: int|
                            0 <= y < pickedd.len() ==> sortedd.take(
                                spec_window(ts.len() as int, n as int),
                            ).contains(#[trigger] pickedd[y]))
                        &&& ans.text@ == spec_words_lines(pickedd)
                        &&& user_words@ == spec_upsert(
                            old(user_words)@,
                            message.chat.id as int,
                            StrategyV::UpdateLastSeen(
                                pickedd.map_values(|t: TranslateV| t.word),
                                now as int,
                            ),
                        )
                    });
                }
            }
            (ans, true)
        },
    }
}

/// The full help text, one line per command.
pub open spec fn spec_help_text() -> Seq<char> {
    "List all supported languages\nAdd new language. Example: /l en\nDelete language. Example: /dl en\nList all words. Example: /lw word\nList random words. Example: /r 5\nAdd new word. Example: /w word en\nDelete word. Example: /dw word\nPrint help. Example /help"@
}

fn help_text() -> (r: String)
    ensures
        r@ == spec_help_text(),
{
    "List all supported languages\nAdd new language. Example: /l en\nDelete language. Example: /dl en\nList all words. Example: /lw word\nList random words. Example: /r 5\nAdd new word. Example: /w word en\nDelete word. Example: /dw word\nPrint help. Example /help".to_owned()
}

/// What holds after a word was added, whatever the translation calls
/// returned: either the merged entry (with targets among the user's other
/// languages) is in the store and the reply lists the matching words, or
/// nothing changed and the reply reports the cause.
pub open spec fn spec_add_word_outcome(
    old_db: Seq<UserV>,
    new_db: Seq<UserV>,
    chat: int,
    w: WordV,
    reply: Seq<char>,
    changed: bool,
) -> bool {
    let targets = spec_target_langs(old_db, chat, w.lang);
    if targets.len() == 0 {
        reply == "Can't process command: "@ + "No added langs"@ && new_db == old_db && !changed
    } else {
        (changed && exists|ws: Seq<WordV>|
            {
                &&& (forall|k: int|
                    0 <= k < ws.len() ==> targets.contains((#[trigger] ws[k]).lang))
                &&& new_db == spec_upsert(
                    old_db,
                    chat,
                    StrategyV::AddTranslate(
                        TranslateV { word: w, translates: ws, last_seen: 0 },
                    ),
                )
                &&& reply == spec_words_text(
                    spec_list_words(new_db, chat, text::lower_of(w.word)),
                )
            }) || (!changed && new_db == old_db && exists|d: Seq<char>|
            reply == "Can't process command: "@ + d)
    }
}

/// Interprets one inbound message and runs it against the store. The reply
/// is always addressed to the message; the flag says whether the store
/// changed and must be persisted.
pub fn process_message<T: TranslateCap>(
    user_words: &mut UserWords,
    message: &Message,
    translator: &T,
    now: i64,
) -> (r: (Answer, bool))
    ensures
        r.0.chat_id == message.chat.id,
        r.0.reply_to_message_id == message.message_id,
        ({
            let chat = message.chat.id as int;
            match spec_parse_command(text::lower_of(message.text@)) {
                Err(d) => r.0.text@ == "Can't parse command: "@ + d && final(user_words)@ == old(
                    user_words,
                )@ && !r.1,
                Ok(cmd) => match cmd {
                    CommandV::ListLangs => r.0.text@ == spec_langs_text(
                        spec_list_langs(old(user_words)@, chat),
                    ) && final(user_words)@ == old(user_words)@ && !r.1,
                    CommandV::AddLang(l) => final(user_words)@ == spec_upsert(
                        old(user_words)@,
                        chat,
                        StrategyV::AddLang(l),
                    ) && r.0.text@ == spec_langs_text(spec_list_langs(final(user_words)@, chat))
                        && r.1,
                    CommandV::DeleteLang(l) => final(user_words)@ == spec_upsert(
                        old(user_words)@,
                        chat,
                        StrategyV::DeleteLang(l),
                    ) && r.0.text@ == spec_langs_text(spec_list_langs(final(user_words)@, chat))
                        && r.1,
                    CommandV::ListWords(p) => r.0.text@ == spec_words_text(
                        spec_list_words(old(user_words)@, chat, text::lower_of(p)),
                    ) && final(user_words)@ == old(user_words)@ && !r.1,
                    CommandV::DeleteWord(w) => final(user_words)@ == spec_upsert(
                        old(user_words)@,
                        chat,
                        StrategyV::DeleteWord(w),
                    ) && r.0.text@ == "Word deleted"@ && r.1,
                    CommandV::AddWord(w) => spec_add_word_outcome(
                        old(user_words)@,
                        final(user_words)@,
                        chat,
                        w,
                        r.0.text@,
                        r.1,
                    ),
                    CommandV::ListRandomWords(n) => spec_random_outcome(
                        old(user_words)@,
                        final(user_words)@,
                        chat,
                        n,
                        now as int,
                        r.0.text@,
                        r.1,
                    ),
                    CommandV::Help => r.0.text@ == spec_help_text() && final(user_words)@ == old(
                        user_words,
                    )@ && !r.1,
                },
            }
        }),
{
    match Command::parse(message.text.as_str()) {
        Err(e) => {
            let mut t = String::new();
            t.append("Can't parse command: ");
            t.append(e.description.as_str());
            (Answer::from_message(t.as_str(), message), false)
        },
        Ok(cmd) => match cmd {
            Command::ListLangs => (list_langs_answer(user_words, message), false),
            Command::AddLang(l) => {
                user_words.add_lang(message.chat.id, &l);
                (list_langs_answer(user_words, message), true)
            },
            Command::DeleteLang(l) => {
                user_words.delete_lang(message.chat.id, &l);
                (list_langs_answer(user_words, message), true)
            },
            Command::ListWords(p) => (list_words_answer(user_words, message, p.as_str()), false),
            Command::DeleteWord(w) => {
                user_words.delete_word(message.chat.id, w.as_str());
                (Answer::from_message("Word deleted", message), true)
            },
            Command::AddWord(w) => {
                match user_words.add_word(message.chat.id, &w, translator) {
                    Ok(_) => {
                        let ans = list_words_answer(user_words, message, w.word.as_str());
                        (ans, true)
                    },
                    Err(e) => {
                        let mut t = String::new();
                        t.append("Can't process command: ");
                        t.append(e.description.as_str());
                        (Answer::from_message(t.as_str(), message), false)
                    },
                }
            },
            Command::ListRandomWords(n) => random_words_answer(user_words, message, n, now),
            Command::Help => (Answer::from_message(help_text().as_str(), message), false),
        },
    }
}

} // verus!
