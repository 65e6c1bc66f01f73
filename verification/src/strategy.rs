//! Mutation strategies: the closed set of record transformations the store
//! can apply. Each is a pure function from one user record to the next.
use vstd::prelude::*;
use crate::lang::Lang;
use crate::storage::{Translate, TranslateV, User, UserV, Word, WordV};
use crate::storage::word_eq;

verus! {

/// Mathematical image of a strategy.
#[verifier::ext_equal]
pub ghost enum StrategyV {
    AddTranslate(TranslateV),
    DeleteWord(Seq<char>),
    AddLang(Seq<char>),
    DeleteLang(Seq<char>),
    UpdateLastSeen(Seq<WordV>, int),
}

/// A record transformation, applied through `Storage::upsert`.
pub enum UserUpdateStrategy {
    /// Merge one translation entry into the record.
    AddTranslate { tran: Translate },
    /// Remove every entry whose source text equals the given text.
    DeleteWord { word: String },
    /// Register a language unless it is already present.
    AddLang { lang: Lang },
    /// Unregister a language if it is present.
    DeleteLang { lang: Lang },
    /// Move the quiz-recency marker of the entries for the given source
    /// words to the given ordinal.
    UpdateLastSeen { words: Vec<Word>, now: i64 },
}

impl View for UserUpdateStrategy {
    type V = StrategyV;

    open spec fn view(&self) -> StrategyV {
        match self {
            UserUpdateStrategy::AddTranslate { tran } => StrategyV::AddTranslate(tran@),
            UserUpdateStrategy::DeleteWord { word } => StrategyV::DeleteWord(word@),
            UserUpdateStrategy::AddLang { lang } => StrategyV::AddLang(lang@),
            UserUpdateStrategy::DeleteLang { lang } => StrategyV::DeleteLang(lang@),
            UserUpdateStrategy::UpdateLastSeen { words, now } => StrategyV::UpdateLastSeen(
                words.deep_view(),
                *now as int,
            ),
        }
    }
}

/// Folds `inc` into `cur` from the left, appending each word not already
/// present; the result keeps `cur`'s order and never holds a word twice
/// unless `cur` already did.
pub open spec fn add_targets(cur: Seq<WordV>, inc: Seq<WordV>) -> Seq<WordV>
    decreases inc.len(),
{
    if inc.len() == 0 {
        cur
    } else {
        let p = add_targets(cur, inc.drop_last());
        if p.contains(inc.last()) {
            p
        } else {
            p.push(inc.last())
        }
    }
}

/// Index of the first entry whose source word is `w`, or `-1`.
pub open spec fn find_entry(trs: Seq<TranslateV>, w: WordV) -> int
    decreases trs.len(),
{
    if trs.len() == 0 {
        -1
    } else if trs[0].word == w {
        0
    } else {
        let r = find_entry(trs.skip(1), w);
        if r < 0 {
            -1
        } else {
            r + 1
        }
    }
}

pub broadcast proof fn lemma_find_entry(trs: Seq<TranslateV>, w: WordV)
    ensures
        -1 <= #[trigger] find_entry(trs, w) < trs.len(),
        find_entry(trs, w) >= 0 ==> trs[find_entry(trs, w)].word == w,
        find_entry(trs, w) >= 0 ==> forall|j: int|
            0 <= j < find_entry(trs, w) ==> trs[j].word != w,
        find_entry(trs, w) < 0 ==> forall|j: int| 0 <= j < trs.len() ==> trs[j].word != w,
    decreases trs.len(),
{
    if trs.len() > 0 && trs[0].word != w {
        lemma_find_entry(trs.skip(1), w);
        if find_entry(trs, w) >= 0 {
            assert forall|j: int| 0 <= j < find_entry(trs, w) implies #[trigger] trs[j].word
                != w by {
                if j > 0 {
                    assert(trs.skip(1)[j - 1] == trs[j]);
                }
            }
        } else {
            assert forall|j: int| 0 <= j < trs.len() implies #[trigger] trs[j].word != w by {
                if j > 0 {
                    assert(trs.skip(1)[j - 1] == trs[j]);
                }
            }
        }
    }
}

/// Characterizes `find_entry` by its bounding indices.
pub proof fn lemma_find_entry_is(trs: Seq<TranslateV>, w: WordV, k: int)
    requires
        0 <= k < trs.len(),
        trs[k].word == w,
        forall|j: int| 0 <= j < k ==> trs[j].word != w,
    ensures
        find_entry(trs, w) == k,
    decreases trs.len(),
{
    if trs.len() > 0 && trs[0].word != w {
        assert(forall|j: int| 0 <= j < trs.skip(1).len() ==> trs.skip(1)[j] == trs[j + 1]);
        assert(trs.skip(1)[k - 1].word == w);
        lemma_find_entry_is(trs.skip(1), w, k - 1);
    }
}

/// Merging `t` into `u`: the first entry with the same source word absorbs
/// `t`'s targets (skipping those already present); absent a match, `t` is
/// appended with its targets deduplicated.
pub open spec fn spec_add_translate(u: UserV, t: TranslateV) -> UserV {
    let i = find_entry(u.translates, t.word);
    if i < 0 {
        UserV {
            translates: u.translates.push(
                TranslateV {
                    word: t.word,
                    translates: add_targets(Seq::empty(), t.translates),
                    last_seen: t.last_seen,
                },
            ),
            ..u
        }
    } else {
        let e = u.translates[i];
        UserV {
            translates: u.translates.update(
                i,
                TranslateV {
                    word: e.word,
                    translates: add_targets(e.translates, t.translates),
                    last_seen: e.last_seen,
                },
            ),
            ..u
        }
    }
}

/// The predicate keeping entries whose source text is not `w`.
pub open spec fn keeps_word(w: Seq<char>) -> spec_fn(TranslateV) -> bool {
    |t: TranslateV| t.word.word != w
}

/// The predicate keeping language codes other than `l`.
pub open spec fn keeps_lang(l: Seq<char>) -> spec_fn(Seq<char>) -> bool {
    |x: Seq<char>| x != l
}

/// Removing a word: every entry whose source text equals `w` disappears;
/// the rest keep their order.
pub open spec fn spec_delete_word(u: UserV, w: Seq<char>) -> UserV {
    UserV { translates: u.translates.filter(keeps_word(w)), ..u }
}

/// Registering a language: appended unless already present.
pub open spec fn spec_add_lang(u: UserV, l: Seq<char>) -> UserV {
    if u.langs.contains(l) {
        u
    } else {
        UserV { langs: u.langs.push(l), ..u }
    }
}

/// Unregistering a language: removed where present, order kept.
pub open spec fn spec_delete_lang(u: UserV, l: Seq<char>) -> UserV {
    UserV { langs: u.langs.filter(keeps_lang(l)), ..u }
}

/// Touching the recency marker: every entry whose source word is among `ws`
/// moves to ordinal `now`; everything else is untouched.
pub open spec fn spec_update_last_seen(u: UserV, ws: Seq<WordV>, now: int) -> UserV {
    UserV {
        translates: u.translates.map_values(
            |t: TranslateV| if ws.contains(t.word) {
                TranslateV { word: t.word, translates: t.translates, last_seen: now }
            } else {
                t
            },
        ),
        ..u
    }
}

/// What applying a strategy to a record yields.
pub open spec fn spec_apply(s: StrategyV, u: UserV) -> UserV {
    match s {
        StrategyV::AddTranslate(t) => spec_add_translate(u, t),
        StrategyV::DeleteWord(w) => spec_delete_word(u, w),
        StrategyV::AddLang(l) => spec_add_lang(u, l),
        StrategyV::DeleteLang(l) => spec_delete_lang(u, l),
        StrategyV::UpdateLastSeen(ws, now) => spec_update_last_seen(u, ws, now),
    }
}

/// Whatever was merged in stays present: `add_targets` keeps everything it
/// had and contains every incoming word.
pub proof fn lemma_add_targets_contains(cur: Seq<WordV>, inc: Seq<WordV>)
    ensures
        forall|w: WordV| cur.contains(w) ==> #[trigger] add_targets(cur, inc).contains(w),
        forall|w: WordV| inc.contains(w) ==> #[trigger] add_targets(cur, inc).contains(w),
    decreases inc.len(),
{
    if inc.len() > 0 {
        lemma_add_targets_contains(cur, inc.drop_last());
        let p = add_targets(cur, inc.drop_last());
        let r = add_targets(cur, inc);
        assert forall|w: WordV| p.contains(w) implies #[trigger] r.contains(w) by {
            if !p.contains(inc.last()) {
                let j = choose|j: int| 0 <= j < p.len() && p[j] == w;
                assert(p.push(inc.last())[j] == w);
            }
        }
        assert(r.contains(inc.last())) by {
            if p.contains(inc.last()) {
            } else {
                assert(p.push(inc.last())[p.len() as int] == inc.last());
            }
        }
        assert forall|w: WordV| inc.contains(w) implies #[trigger] r.contains(w) by {
            let j = choose|j: int| 0 <= j < inc.len() && inc[j] == w;
            if j < inc.len() - 1 {
                assert(inc.drop_last()[j] == w);
            } else {
                assert(w == inc.last());
            }
        }
    }
}

/// Merging words that are all already present changes nothing.
pub proof fn lemma_add_targets_noop(cur: Seq<WordV>, inc: Seq<WordV>)
    requires
        forall|w: WordV| inc.contains(w) ==> cur.contains(w),
    ensures
        add_targets(cur, inc) == cur,
    decreases inc.len(),
{
    if inc.len() > 0 {
        assert(forall|j: int|
            0 <= j < inc.drop_last().len() ==> inc.contains(#[trigger] inc.drop_last()[j]));
        lemma_add_targets_noop(cur, inc.drop_last());
        assert(inc.contains(inc.last()));
    }
}

/// Merging one and the same translation entry twice leaves the record as
/// one merge leaves it: `AddTranslate` is idempotent.
pub proof fn lemma_add_translate_idempotent(u: UserV, t: TranslateV)
    ensures
        spec_add_translate(spec_add_translate(u, t), t) == spec_add_translate(u, t),
{
    lemma_find_entry(u.translates, t.word);
    let u1 = spec_add_translate(u, t);
    let i = find_entry(u.translates, t.word);
    if i < 0 {
        let e = TranslateV {
            word: t.word,
            translates: add_targets(Seq::empty(), t.translates),
            last_seen: t.last_seen,
        };
        assert(u1.translates == u.translates.push(e));
        assert(u1.translates[u.translates.len() as int] == e);
        assert(forall|j: int|
            0 <= j < u.translates.len() ==> u1.translates[j] == #[trigger] u.translates[j]);
        lemma_find_entry_is(u1.translates, t.word, u.translates.len() as int);
        lemma_add_targets_contains(Seq::empty(), t.translates);
        lemma_add_targets_noop(e.translates, t.translates);
        let e2 = TranslateV {
            word: e.word,
            translates: add_targets(e.translates, t.translates),
            last_seen: e.last_seen,
        };
        assert(e2 == e);
        assert(spec_add_translate(u1, t).translates =~= u1.translates);
        assert(spec_add_translate(u1, t) =~= u1);
    } else {
        let e = u.translates[i];
        let e1 = TranslateV {
            word: e.word,
            translates: add_targets(e.translates, t.translates),
            last_seen: e.last_seen,
        };
        assert(u1.translates == u.translates.update(i, e1));
        assert(u1.translates[i] == e1);
        assert(forall|j: int|
            0 <= j < u.translates.len() && j != i ==> u1.translates[j] == #[trigger] u.translates[j]);
        lemma_find_entry_is(u1.translates, t.word, i);
        lemma_add_targets_contains(e.translates, t.translates);
        lemma_add_targets_noop(e1.translates, t.translates);
        let e2 = TranslateV {
            word: e1.word,
            translates: add_targets(e1.translates, t.translates),
            last_seen: e1.last_seen,
        };
        assert(e2 == e1);
        assert(spec_add_translate(u1, t).translates =~= u1.translates);
        assert(spec_add_translate(u1, t) =~= u1);
    }
}

/// Registering a language twice is registering it once, and registering an
/// already-present language is a no-op.
pub proof fn lemma_add_lang_idempotent(u: UserV, l: Seq<char>)
    ensures
        spec_add_lang(spec_add_lang(u, l), l) == spec_add_lang(u, l),
        u.langs.contains(l) ==> spec_add_lang(u, l) == u,
{
    if !u.langs.contains(l) {
        assert(u.langs.push(l)[u.langs.len() as int] == l);
        assert(spec_add_lang(u, l).langs.contains(l));
    }
}

/// A sequence whose members all satisfy the predicate filters to itself.
proof fn lemma_filter_all<A>(s: Seq<A>, pred: spec_fn(A) -> bool)
    requires
        forall|j: int| 0 <= j < s.len() ==> pred(#[trigger] s[j]),
    ensures
        s.filter(pred) == s,
    decreases s.len(),
{
    reveal(Seq::filter);
    if s.len() > 0 {
        assert(forall|j: int|
            0 <= j < s.drop_last().len() ==> pred(#[trigger] s.drop_last()[j]));
        lemma_filter_all(s.drop_last(), pred);
        assert(s.filter(pred) =~= s);
    }
}

/// Unregistering a language twice is unregistering it once, and
/// unregistering an absent language is a no-op.
pub proof fn lemma_delete_lang_idempotent(u: UserV, l: Seq<char>)
    ensures
        spec_delete_lang(spec_delete_lang(u, l), l) == spec_delete_lang(u, l),
        !u.langs.contains(l) ==> spec_delete_lang(u, l) == u,
{
    let pred = keeps_lang(l);
    let f = u.langs.filter(pred);
    assert forall|j: int| 0 <= j < f.len() implies pred(#[trigger] f[j]) by {
        u.langs.lemma_filter_pred(pred, j);
    }
    lemma_filter_all(f, pred);
    assert(spec_delete_lang(spec_delete_lang(u, l), l) =~= spec_delete_lang(u, l));
    if !u.langs.contains(l) {
        assert forall|j: int| 0 <= j < u.langs.len() implies pred(#[trigger] u.langs[j]) by {}
        lemma_filter_all(u.langs, pred);
        assert(spec_delete_lang(u, l) =~= u);
    }
}

/// Deleting a word twice is deleting it once.
pub proof fn lemma_delete_word_idempotent(u: UserV, w: Seq<char>)
    ensures
        spec_delete_word(spec_delete_word(u, w), w) == spec_delete_word(u, w),
{
    let pred = keeps_word(w);
    let f = u.translates.filter(pred);
    assert forall|j: int| 0 <= j < f.len() implies pred(#[trigger] f[j]) by {
        u.translates.lemma_filter_pred(pred, j);
    }
    lemma_filter_all(f, pred);
    assert(spec_delete_word(spec_delete_word(u, w), w) =~= spec_delete_word(u, w));
}

/// Does `v` hold a word denoting `w`?
pub fn contains_word(v: &Vec<Word>, w: &Word) -> (r: bool)
    ensures
        r == v.deep_view().contains(w@),
{
    let mut i: usize = 0;
    while i < v.len()
        invariant
            i <= v.len(),
            forall|j: int| 0 <= j < i ==> v.deep_view()[j] != w@,
        decreases v.len() - i,
    {
        if word_eq(&v[i], w) {
            proof {
                assert(v.deep_view()[i as int] == w@);
            }
            return true;
        }
        i = i + 1;
    }
    proof {
        assert(forall|j: int| 0 <= j < v.deep_view().len() ==> v.deep_view()[j] != w@);
        if v.deep_view().contains(w@) {
            let j = choose|j: int| 0 <= j < v.deep_view().len() && v.deep_view()[j] == w@;
        }
    }
    false
}

/// Appends to `dst` each word of `inc` that `dst` does not already hold.
pub fn push_missing_targets(dst: &mut Vec<Word>, inc: &Vec<Word>)
    ensures
        final(dst).deep_view() == add_targets(old(dst).deep_view(), inc.deep_view()),
{
    let mut k: usize = 0;
    while k < inc.len()
        invariant
            k <= inc.len(),
            dst.deep_view() == add_targets(old(dst).deep_view(), inc.deep_view().take(k as int)),
        decreases inc.len() - k,
    {
        let ghost pre = dst.deep_view();
        let ghost taken = inc.deep_view().take(k as int);
        if !contains_word(dst, &inc[k]) {
            dst.push(inc[k].clone());
        }
        proof {
            let taken1 = inc.deep_view().take(k + 1);
            assert(taken1.drop_last() =~= taken);
            assert(taken1.last() == inc.deep_view()[k as int]);
            assert(dst.deep_view() =~= add_targets(old(dst).deep_view(), taken1));
        }
        k = k + 1;
    }
    proof {
        assert(inc.deep_view().take(inc.deep_view().len() as int) =~= inc.deep_view());
    }
}

/// Does `v` hold a language with code `l`?
pub fn contains_lang(v: &Vec<Lang>, l: &Lang) -> (r: bool)
    ensures
        r == v.deep_view().contains(l@),
{
    let mut i: usize = 0;
    while i < v.len()
        invariant
            i <= v.len(),
            forall|j: int| 0 <= j < i ==> v.deep_view()[j] != l@,
        decreases v.len() - i,
    {
        if crate::text::str_eq(v[i].lang.as_str(), l.lang.as_str()) {
            proof {
                assert(v.deep_view()[i as int] == l@);
            }
            return true;
        }
        i = i + 1;
    }
    proof {
        if v.deep_view().contains(l@) {
            let j = choose|j: int| 0 <= j < v.deep_view().len() && v.deep_view()[j] == l@;
        }
    }
    false
}

impl UserUpdateStrategy {
    /// Applies this strategy to a record, yielding the next record.
    pub fn apply(&self, user: &User) -> (r: User)
        ensures
            r@ == spec_apply(self@, user@),
    {
        match self {
            UserUpdateStrategy::AddTranslate { tran } => apply_add_translate(user, tran),
            UserUpdateStrategy::DeleteWord { word } => apply_delete_word(user, word),
            UserUpdateStrategy::AddLang { lang } => apply_add_lang(user, lang),
            UserUpdateStrategy::DeleteLang { lang } => apply_delete_lang(user, lang),
            UserUpdateStrategy::UpdateLastSeen { words, now } => apply_update_last_seen(
                user,
                words,
                *now,
            ),
        }
    }
}

fn apply_update_last_seen(user: &User, words: &Vec<Word>, now: i64) -> (r: User)
    ensures
        r@ == spec_update_last_seen(user@, words.deep_view(), now as int),
{
    let ghost f = |t: TranslateV| if words.deep_view().contains(t.word) {
        TranslateV { word: t.word, translates: t.translates, last_seen: now as int }
    } else {
        t
    };
    let mut touched: Vec<Translate> = Vec::new();
    let mut i: usize = 0;
    while i < user.translates.len()
        invariant
            i <= user.translates.len(),
            f == (|t: TranslateV| if words.deep_view().contains(t.word) {
                TranslateV { word: t.word, translates: t.translates, last_seen: now as int }
            } else {
                t
            }),
            touched.deep_view() == user@.translates.take(i as int).map_values(f),
        decreases user.translates.len() - i,
    {
        let mut entry = user.translates[i].clone();
        let ghost t = user@.translates[i as int];
        if contains_word(words, &entry.word) {
            entry.last_seen = now;
            proof {
                assert(entry@ =~= f(t));
            }
        } else {
            proof {
                assert(entry@ =~= f(t));
            }
        }
        let ghost pre = touched@;
        let ghost pred = touched.deep_view();
        let ghost ev = entry@;
        proof {
            assert forall|k: int| 0 <= k < pre.len() implies pred[k] == #[trigger] pre[k].deep_view() by {
                crate::storage::lemma_deep_view_index::<Translate>(touched, k);
            }
            crate::storage::lemma_deep_view_index::<Translate>(touched, 0);
            assert(pred.len() == pre.len());
        }
        touched.push(entry);
        proof {
            crate::storage::lemma_deep_view_index::<Translate>(touched, 0);
            assert(user@.translates.take(i + 1)[i as int] == t);
            assert forall|k: int| 0 <= k < i + 1 implies touched.deep_view()[k]
                == user@.translates.take(i + 1).map_values(f)[k] by {
                crate::storage::lemma_deep_view_index::<Translate>(touched, k);
                if k < i {
                    assert(touched@[k] == pre[k]);
                    assert(pre[k].deep_view() == pred[k]);
                    assert(user@.translates.take(i as int)[k] == user@.translates[k]);
                    assert(user@.translates.take(i + 1)[k] == user@.translates[k]);
                } else {
                    assert(touched@[k].deep_view() == ev);
                }
            }
            assert(touched.deep_view() =~= user@.translates.take(i + 1).map_values(f));
        }
        i = i + 1;
    }
    let mut u = user.clone();
    u.translates = touched;
    proof {
        assert(user@.translates.take(user@.translates.len() as int) =~= user@.translates);
        assert(u@ =~= spec_update_last_seen(user@, words.deep_view(), now as int));
    }
    u
}

fn apply_add_translate(user: &User, tran: &Translate) -> (r: User)
    ensures
        r@ == spec_add_translate(user@, tran@),
{
    let mut u = user.clone();
    proof {
        lemma_find_entry(user@.translates, tran@.word);
    }
    let mut i: usize = 0;
    while i < u.translates.len()
        invariant
            i <= u.translates.len(),
            u@ == user@,
            forall|j: int| 0 <= j < i ==> user@.translates[j].word != tran@.word,
        decreases u.translates.len() - i,
    {
        if word_eq(&u.translates[i].word, &tran.word) {
            proof {
                assert(user@.translates[i as int].word == tran@.word);
                lemma_find_entry_is(user@.translates, tran@.word, i as int);
            }
            let mut entry = u.translates[i].clone();
            push_missing_targets(&mut entry.translates, &tran.translates);
            u.translates.remove(i);
            u.translates.insert(i, entry);
            proof {
                assert(u@.translates =~= user@.translates.update(
                    i as int,
                    TranslateV {
                        word: user@.translates[i as int].word,
                        translates: add_targets(
                            user@.translates[i as int].translates,
                            tran@.translates,
                        ),
                        last_seen: user@.translates[i as int].last_seen,
                    },
                ));
                assert(u@ =~= spec_add_translate(user@, tran@));
            }
            return u;
        }
        i = i + 1;
    }
    let mut targets: Vec<Word> = Vec::new();
    proof {
        assert(targets.deep_view() =~= Seq::<WordV>::empty());
    }
    push_missing_targets(&mut targets, &tran.translates);
    u.translates.push(
        Translate { translates: targets, word: tran.word.clone(), last_seen: tran.last_seen },
    );
    proof {
        assert(u@ =~= spec_add_translate(user@, tran@));
    }
    u
}

fn apply_delete_word(user: &User, word: &String) -> (r: User)
    ensures
        r@ == spec_delete_word(user@, word@),
{
    let mut u = user.clone();
    let mut saved: Vec<Translate> = Vec::new();
    let ghost pred = keeps_word(word@);
    proof {
        reveal(Seq::filter);
        assert(user@.translates.take(0int).filter(pred) =~= saved.deep_view());
    }
    let mut i: usize = 0;
    while i < u.translates.len()
        invariant
            i <= u.translates.len(),
            u@ == user@,
            pred == keeps_word(word@),
            saved.deep_view() == user@.translates.take(i as int).filter(pred),
        decreases u.translates.len() - i,
    {
        let ghost presaved = saved.deep_view();
        if !crate::text::str_eq(u.translates[i].word.word.as_str(), word.as_str()) {
            saved.push(u.translates[i].clone());
        }
        proof {
            reveal(Seq::filter);
            let t1 = user@.translates.take(i + 1);
            assert(t1.drop_last() =~= user@.translates.take(i as int));
            assert(t1.last() == user@.translates[i as int]);
            assert(saved.deep_view() =~= t1.filter(pred));
        }
        i = i + 1;
    }
    proof {
        assert(user@.translates.take(user@.translates.len() as int) =~= user@.translates);
    }
    u.translates = saved;
    proof {
        assert(u@ =~= spec_delete_word(user@, word@));
    }
    u
}

fn apply_add_lang(user: &User, lang: &Lang) -> (r: User)
    ensures
        r@ == spec_add_lang(user@, lang@),
{
    let mut u = user.clone();
    if contains_lang(&u.langs, lang) {
        proof {
            assert(u@ =~= spec_add_lang(user@, lang@));
        }
        return u;
    }
    u.langs.push(lang.clone());
    proof {
        assert(u@.langs =~= user@.langs.push(lang@));
        assert(u@ =~= spec_add_lang(user@, lang@));
    }
    u
}

fn apply_delete_lang(user: &User, lang: &Lang) -> (r: User)
    ensures
        r@ == spec_delete_lang(user@, lang@),
{
    let mut u = user.clone();
    let mut saved: Vec<Lang> = Vec::new();
    let ghost pred = keeps_lang(lang@);
    proof {
        reveal(Seq::filter);
        assert(user@.langs.take(0int).filter(pred) =~= saved.deep_view());
    }
    let mut i: usize = 0;
    while i < u.langs.len()
        invariant
            i <= u.langs.len(),
            u@ == user@,
            pred == keeps_lang(lang@),
            saved.deep_view() == user@.langs.take(i as int).filter(pred),
        decreases u.langs.len() - i,
    {
        if !crate::text::str_eq(u.langs[i].lang.as_str(), lang.lang.as_str()) {
            saved.push(u.langs[i].clone());
        }
        proof {
            reveal(Seq::filter);
            let t1 = user@.langs.take(i + 1);
            assert(t1.drop_last() =~= user@.langs.take(i as int));
            assert(t1.last() == user@.langs[i as int]);
            assert(saved.deep_view() =~= t1.filter(pred));
        }
        i = i + 1;
    }
    proof {
        assert(user@.langs.take(user@.langs.len() as int) =~= user@.langs);
    }
    u.langs = saved;
    proof {
        assert(u@ =~= spec_delete_lang(user@, lang@));
    }
    u
}

/// Every member of a filtered sequence is a member of the original.
pub proof fn lemma_filter_sub<A>(s: Seq<A>, pred: spec_fn(A) -> bool, j: int)
    requires
        0 <= j < s.filter(pred).len(),
    ensures
        s.contains(s.filter(pred)[j]),
    decreases s.len(),
{
    reveal(Seq::filter);
    if s.len() > 0 {
        let sub = s.drop_last().filter(pred);
        if j < sub.len() {
            lemma_filter_sub(s.drop_last(), pred, j);
            let k = choose|k: int| 0 <= k < s.drop_last().len() && s.drop_last()[k] == sub[j];
            assert(s[k] == s.filter(pred)[j]);
        } else {
            assert(s.filter(pred)[j] == s.last());
        }
    }
}

/// A sequence with no two members sharing a projection.
pub open spec fn distinct_by<A, B>(s: Seq<A>, f: spec_fn(A) -> B) -> bool {
    forall|a: int, b: int| 0 <= a < b < s.len() ==> f(#[trigger] s[a]) != f(#[trigger] s[b])
}

/// Filtering keeps members pairwise distinct under any projection.
proof fn lemma_filter_distinct<A, B>(s: Seq<A>, pred: spec_fn(A) -> bool, f: spec_fn(A) -> B)
    requires
        distinct_by(s, f),
    ensures
        distinct_by(s.filter(pred), f),
    decreases s.len(),
{
    reveal(Seq::filter);
    if s.len() > 0 {
        assert(forall|a: int, b: int|
            0 <= a < b < s.drop_last().len() ==> f(#[trigger] s.drop_last()[a]) != f(
                #[trigger] s.drop_last()[b],
            ));
        lemma_filter_distinct(s.drop_last(), pred, f);
        let sub = s.drop_last().filter(pred);
        if pred(s.last()) {
            let r = sub.push(s.last());
            assert forall|a: int, b: int| 0 <= a < b < r.len() implies f(#[trigger] r[a]) != f(
                #[trigger] r[b],
            ) by {
                if b == r.len() - 1 {
                    lemma_filter_sub(s.drop_last(), pred, a);
                    let k = choose|k: int|
                        0 <= k < s.drop_last().len() && s.drop_last()[k] == sub[a];
                    assert(s[k] == r[a]);
                    assert(s.last() == s[s.len() - 1]);
                }
            }
        }
    }
}

/// The identity projection, for distinctness of plain values.
pub open spec fn same<A>() -> spec_fn(A) -> A {
    |x: A| x
}

/// The source word of an entry, the projection user records are keyed by.
pub open spec fn source_of() -> spec_fn(TranslateV) -> WordV {
    |t: TranslateV| t.word
}

/// A well-formed record: no language registered twice, no two entries with
/// the same source word, no target word listed twice within an entry.
pub open spec fn user_wf(u: UserV) -> bool {
    &&& distinct_by(u.langs, same::<Seq<char>>())
    &&& distinct_by(u.translates, source_of())
    &&& forall|j: int|
        0 <= j < u.translates.len() ==> distinct_by(
            (#[trigger] u.translates[j]).translates,
            same::<WordV>(),
        )
}

/// Merging never introduces a duplicate target.
proof fn lemma_add_targets_distinct(cur: Seq<WordV>, inc: Seq<WordV>)
    requires
        distinct_by(cur, same::<WordV>()),
    ensures
        distinct_by(add_targets(cur, inc), same::<WordV>()),
    decreases inc.len(),
{
    if inc.len() > 0 {
        lemma_add_targets_distinct(cur, inc.drop_last());
        let p = add_targets(cur, inc.drop_last());
        if !p.contains(inc.last()) {
            let r = p.push(inc.last());
            assert forall|a: int, b: int| 0 <= a < b < r.len() implies same::<WordV>()(
                #[trigger] r[a],
            ) != same::<WordV>()(#[trigger] r[b]) by {
                if b == r.len() - 1 {
                    if r[a] == inc.last() {
                        assert(p[a] == inc.last());
                    }
                }
            }
        }
    }
}

/// Every strategy preserves the record invariant: languages stay free of
/// duplicates, source words stay unique, and no entry's target list ever
/// holds the same word twice.
pub proof fn lemma_apply_preserves_wf(s: StrategyV, u: UserV)
    requires
        user_wf(u),
    ensures
        user_wf(spec_apply(s, u)),
{
    match s {
        StrategyV::AddTranslate(t) => {
            lemma_find_entry(u.translates, t.word);
            let i = find_entry(u.translates, t.word);
            let r = spec_add_translate(u, t);
            if i < 0 {
                let e = TranslateV {
                    word: t.word,
                    translates: add_targets(Seq::empty(), t.translates),
                    last_seen: t.last_seen,
                };
                assert(distinct_by(Seq::<WordV>::empty(), same::<WordV>()));
                lemma_add_targets_distinct(Seq::empty(), t.translates);
                assert forall|a: int, b: int| 0 <= a < b < r.translates.len() implies source_of()(
                    #[trigger] r.translates[a],
                ) != source_of()(#[trigger] r.translates[b]) by {
                    if b < u.translates.len() {
                        assert(r.translates[a] == u.translates[a]);
                        assert(r.translates[b] == u.translates[b]);
                    } else {
                        assert(r.translates[b] == e);
                        assert(r.translates[a] == u.translates[a]);
                    }
                }
                assert forall|j: int| 0 <= j < r.translates.len() implies distinct_by(
                    (#[trigger] r.translates[j]).translates,
                    same::<WordV>(),
                ) by {
                    if j < u.translates.len() {
                        assert(r.translates[j] == u.translates[j]);
                    } else {
                        assert(r.translates[j] == e);
                    }
                }
            } else {
                let e = u.translates[i];
                let e1 = TranslateV {
                    word: e.word,
                    translates: add_targets(e.translates, t.translates),
                    last_seen: e.last_seen,
                };
                lemma_add_targets_distinct(e.translates, t.translates);
                assert forall|a: int, b: int| 0 <= a < b < r.translates.len() implies source_of()(
                    #[trigger] r.translates[a],
                ) != source_of()(#[trigger] r.translates[b]) by {
                    assert(r.translates[a].word == u.translates[a].word);
                    assert(r.translates[b].word == u.translates[b].word);
                }
                assert forall|j: int| 0 <= j < r.translates.len() implies distinct_by(
                    (#[trigger] r.translates[j]).translates,
                    same::<WordV>(),
                ) by {
                    if j != i {
                        assert(r.translates[j] == u.translates[j]);
                    } else {
                        assert(r.translates[j] == e1);
                    }
                }
            }
        },
        StrategyV::DeleteWord(w) => {
            lemma_filter_distinct(u.translates, keeps_word(w), source_of());
            let r = spec_delete_word(u, w);
            assert forall|j: int| 0 <= j < r.translates.len() implies distinct_by(
                (#[trigger] r.translates[j]).translates,
                same::<WordV>(),
            ) by {
                lemma_filter_sub(u.translates, keeps_word(w), j);
                let k = choose|k: int|
                    0 <= k < u.translates.len() && u.translates[k] == r.translates[j];
            }
        },
        StrategyV::AddLang(l) => {
            if !u.langs.contains(l) {
                let r = spec_add_lang(u, l);
                assert forall|a: int, b: int| 0 <= a < b < r.langs.len() implies same::<
                    Seq<char>,
                >()(#[trigger] r.langs[a]) != same::<Seq<char>>()(#[trigger] r.langs[b]) by {
                    if b == r.langs.len() - 1 {
                        if r.langs[a] == l {
                            assert(u.langs[a] == l);
                        }
                    }
                }
            }
        },
        StrategyV::DeleteLang(l) => {
            lemma_filter_distinct(u.langs, keeps_lang(l), same::<Seq<char>>());
        },
        StrategyV::UpdateLastSeen(ws, now) => {
            let r = spec_update_last_seen(u, ws, now);
            assert(r.translates.len() == u.translates.len());
            assert(forall|j: int|
                0 <= j < u.translates.len() ==> (#[trigger] r.translates[j]).word
                    == u.translates[j].word && r.translates[j].translates
                    == u.translates[j].translates);
        },
    }
}

} // verus!
