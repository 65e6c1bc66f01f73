//! The orchestrator: word and language lifecycle operations over the store,
//! bound to a translation capability. A word may only be added when the user
//! has at least one other registered language to translate into.
use vstd::prelude::*;
use crate::lang::Lang;
use crate::storage::{Storage, TranslateV, User, UserV, Word, WordV};
use crate::storage::{clone_langs, find_user, spec_upsert};
use crate::strategy::{StrategyV, UserUpdateStrategy, lemma_filter_sub};

verus! {

/// Why a word could not be translated: the capability's own report.
#[derive(PartialEq, Eq, Debug)]
pub struct TranslateError {
    pub description: String,
}

impl Clone for TranslateError {
    fn clone(&self) -> (res: Self)
        ensures
            res == self,
    {
        TranslateError { description: self.description.clone() }
    }
}

/// The translation capability: one remote lookup per target language. An
/// implementation returns, on success, words whose languages all come from
/// the requested set.
pub trait Translate {
    /// Raw translations of one word into one language.
    fn translate(&self, word: &Word, to: &Lang) -> Result<Vec<String>, TranslateError>;

    /// One batch: the word rendered into every requested language.
    fn translate_to_langs(&self, word: &Word, langs: Vec<Lang>) -> (r: Result<
        Vec<Word>,
        TranslateError,
    >)
        ensures
            r matches Ok(ws) ==> forall|k: int|
                0 <= k < ws.deep_view().len() ==> langs.deep_view().contains(
                    (#[trigger] ws.deep_view()[k]).lang,
                ),
    ;
}

/// What failed while processing a user's word operation.
#[derive(PartialEq, Eq, Debug, Clone, Copy)]
pub enum UserErrorKind {
    /// The user has no other registered language to translate into.
    NoLang,
    /// The translation capability failed.
    Translate,
}

#[derive(PartialEq, Eq, Debug)]
pub struct UserError {
    pub kind: UserErrorKind,
    pub description: String,
}

impl Clone for UserError {
    fn clone(&self) -> (res: Self)
        ensures
            res == self,
    {
        UserError { kind: self.kind, description: self.description.clone() }
    }
}

/// The predicate keeping language codes other than `lang`.
pub open spec fn other_than(lang: Seq<char>) -> spec_fn(Seq<char>) -> bool {
    |l: Seq<char>| l != lang
}

/// The languages a word for `lang` would be translated into: the record's
/// languages except `lang` itself; an unknown id has none.
pub open spec fn spec_target_langs(db: Seq<UserV>, id: int, lang: Seq<char>) -> Seq<Seq<char>> {
    let i = find_user(db, id);
    if i < 0 {
        Seq::empty()
    } else {
        db[i].langs.filter(other_than(lang))
    }
}

/// The predicate keeping entries whose source text contains `pat`.
pub open spec fn matches_pat(pat: Seq<char>) -> spec_fn(TranslateV) -> bool {
    |t: TranslateV| crate::text::contains_sub(t.word.word, pat)
}

/// The record's translation entries whose source text contains `pat`; an
/// unknown id has none, an empty pattern keeps everything.
pub open spec fn spec_list_words(db: Seq<UserV>, id: int, pat: Seq<char>) -> Seq<TranslateV> {
    let i = find_user(db, id);
    if i < 0 {
        Seq::empty()
    } else {
        db[i].translates.filter(matches_pat(pat))
    }
}

/// The record's languages; an unknown id has none.
pub open spec fn spec_list_langs(db: Seq<UserV>, id: int) -> Seq<Seq<char>> {
    let i = find_user(db, id);
    if i < 0 {
        Seq::empty()
    } else {
        db[i].langs
    }
}

/// The store together with the translation capability's contract: every
/// word and language operation goes through here.
pub struct UserWords {
    storage: Storage,
}

impl View for UserWords {
    type V = Seq<UserV>;

    closed spec fn view(&self) -> Seq<UserV> {
        self.storage@
    }
}

impl UserWords {
    /// Wraps a loaded store.
    pub fn new(stor: Storage) -> (r: UserWords)
        ensures
            r@ == stor@,
    {
        UserWords { storage: stor }
    }

    /// Renders the collection for the backing file.
    pub fn save(&self) -> (r: String)
        ensures
            r@ == crate::codec::spec_enc_users(self@),
    {
        self.storage.save()
    }

    /// Looks a record up, copied out.
    pub fn get(&self, user_id: i64) -> (r: Option<User>)
        ensures
            ({
                let i = find_user(self@, user_id as int);
                if i >= 0 {
                    r matches Some(u) && u@ == self@[i]
                } else {
                    r is None
                }
            }),
    {
        self.storage.get(user_id)
    }

    /// Translates `word` into every other language the user has registered
    /// and merges the resulting entry into the record. Fails without
    /// touching the store when the user has no other language, or when the
    /// translation capability fails.
    pub fn add_word<T: Translate>(
        &mut self,
        user_id: i64,
        word: &Word,
        translator: &T,
    ) -> (r: Result<(), UserError>)
        ensures
            ({
                let targets = spec_target_langs(old(self)@, user_id as int, word@.lang);
                if targets.len() == 0 {
                    r matches Err(e) && e.kind == UserErrorKind::NoLang && e.description@
                        == "No added langs"@ && final(self)@ == old(self)@
                } else {
                    match r {
                        Ok(_) => exists|ws: Seq<WordV>|
                            (forall|k: int|
                                0 <= k < ws.len() ==> targets.contains(
                                    (#[trigger] ws[k]).lang,
                                )) && final(self)@ == spec_upsert(
                                old(self)@,
                                user_id as int,
                                StrategyV::AddTranslate(
                                    TranslateV { word: word@, translates: ws, last_seen: 0 },
                                ),
                            ),
                        Err(e) => e.kind == UserErrorKind::Translate && final(self)@ == old(
                            self,
                        )@,
                    }
                }
            }),
    {
        let ghost pred = other_than(word@.lang);
        let mut langs: Vec<Lang> = Vec::new();
        match self.storage.get(user_id) {
            None => {
                proof {
                    assert(spec_target_langs(self@, user_id as int, word@.lang) =~= Seq::<
                        Seq<char>,
                    >::empty());
                }
            },
            Some(user) => {
                proof {
                    reveal(Seq::filter);
                    assert(user@.langs.take(0int).filter(pred) =~= langs.deep_view());
                }
                let mut i: usize = 0;
                while i < user.langs.len()
                    invariant
                        i <= user.langs.len(),
                        pred == other_than(word@.lang),
                        langs.deep_view() == user@.langs.take(i as int).filter(pred),
                    decreases user.langs.len() - i,
                {
                    if !crate::text::str_eq(user.langs[i].lang.as_str(), word.lang.lang.as_str()) {
                        langs.push(user.langs[i].clone());
                    }
                    proof {
                        reveal(Seq::filter);
                        let t1 = user@.langs.take(i + 1);
                        assert(t1.drop_last() =~= user@.langs.take(i as int));
                        assert(t1.last() == user@.langs[i as int]);
                        assert(langs.deep_view() =~= t1.filter(pred));
                    }
                    i = i + 1;
                }
                proof {
                    assert(user@.langs.take(user@.langs.len() as int) =~= user@.langs);
                    assert(langs.deep_view() == user@.langs.filter(pred));
                    crate::storage::lemma_find_user(self@, user_id as int);
                    assert(user@ == self@[find_user(self@, user_id as int)]);
                    assert(langs.deep_view() == spec_target_langs(
                        self@,
                        user_id as int,
                        word@.lang,
                    ));
                }
            },
        }
        if langs.is_empty() {
            return Err(
                UserError {
                    kind: UserErrorKind::NoLang,
                    description: "No added langs".to_owned(),
                },
            );
        }
        let ghost targets = langs.deep_view();
        match translator.translate_to_langs(word, langs) {
            Err(e) => Err(
                UserError { kind: UserErrorKind::Translate, description: e.description },
            ),
            Ok(ws) => {
                let ghost wsv = ws.deep_view();
                let tran = crate::storage::Translate { translates: ws, word: word.clone(), last_seen: 0 };
                proof {
                    assert(tran@ =~= (TranslateV {
                        word: word@,
                        translates: wsv,
                        last_seen: 0,
                    }));
                }
                self.storage.upsert(user_id, UserUpdateStrategy::AddTranslate { tran });
                Ok(())
            },
        }
    }

    /// Removes every entry whose source text equals `word`.
    pub fn delete_word(&mut self, user_id: i64, word: &str)
        ensures
            final(self)@ == spec_upsert(
                old(self)@,
                user_id as int,
                StrategyV::DeleteWord(word@),
            ),
    {
        self.storage.upsert(
            user_id,
            UserUpdateStrategy::DeleteWord { word: word.to_owned() },
        );
    }

    /// The record's entries whose source text contains the lowercased
    /// pattern; insertion order kept, unknown ids yield nothing.
    pub fn list_words(&self, user_id: i64, pattern: &str) -> (r: Vec<crate::storage::Translate>)
        ensures
            r.deep_view() == spec_list_words(
                self@,
                user_id as int,
                crate::text::lower_of(pattern@),
            ),
    {
        let low = crate::text::to_lower(pattern);
        let ghost pat = crate::text::lower_of(pattern@);
        let ghost pred = matches_pat(pat);
        let mut out: Vec<crate::storage::Translate> = Vec::new();
        match self.storage.get(user_id) {
            None => {
                proof {
                    assert(out.deep_view() =~= spec_list_words(self@, user_id as int, pat));
                }
                out
            },
            Some(user) => {
                proof {
                    reveal(Seq::filter);
                    assert(user@.translates.take(0int).filter(pred) =~= out.deep_view());
                }
                let mut i: usize = 0;
                while i < user.translates.len()
                    invariant
                        i <= user.translates.len(),
                        pat == crate::text::lower_of(pattern@),
                        pred == matches_pat(pat),
                        low@ == pat,
                        out.deep_view() == user@.translates.take(i as int).filter(pred),
                    decreases user.translates.len() - i,
                {
                    if crate::text::str_contains(
                        user.translates[i].word.word.as_str(),
                        low.as_str(),
                    ) {
                        out.push(user.translates[i].clone());
                    }
                    proof {
                        reveal(Seq::filter);
                        let t1 = user@.translates.take(i + 1);
                        assert(t1.drop_last() =~= user@.translates.take(i as int));
                        assert(t1.last() == user@.translates[i as int]);
                        assert(out.deep_view() =~= t1.filter(pred));
                    }
                    i = i + 1;
                }
                proof {
                    assert(user@.translates.take(user@.translates.len() as int)
                        =~= user@.translates);
                }
                out
            },
        }
    }

    /// Registers a language for the user; already-present codes are a no-op.
    pub fn add_lang(&mut self, user_id: i64, lang: &Lang)
        ensures
            final(self)@ == spec_upsert(
                old(self)@,
                user_id as int,
                StrategyV::AddLang(lang@),
            ),
    {
        self.storage.upsert(user_id, UserUpdateStrategy::AddLang { lang: lang.clone() });
    }

    /// Unregisters a language; absent codes are a no-op.
    pub fn delete_lang(&mut self, user_id: i64, lang: &Lang)
        ensures
            final(self)@ == spec_upsert(
                old(self)@,
                user_id as int,
                StrategyV::DeleteLang(lang@),
            ),
    {
        self.storage.upsert(user_id, UserUpdateStrategy::DeleteLang { lang: lang.clone() });
    }

    /// The languages the user has registered, in insertion order.
    pub fn list_langs(&self, user_id: i64) -> (r: Vec<Lang>)
        ensures
            r.deep_view() == spec_list_langs(self@, user_id as int),
    {
        match self.storage.get(user_id) {
            None => {
                let out: Vec<Lang> = Vec::new();
                proof {
                    assert(out.deep_view() =~= spec_list_langs(self@, user_id as int));
                }
                out
            },
            Some(user) => clone_langs(&user.langs),
        }
    }

    /// Moves the quiz-recency marker of the entries for the given source
    /// words to `now`; used by the quiz flow alone.
    pub fn update_last_seen(&mut self, user_id: i64, words: Vec<Word>, now: i64)
        ensures
            final(self)@ == spec_upsert(
                old(self)@,
                user_id as int,
                StrategyV::UpdateLastSeen(words.deep_view(), now as int),
            ),
    {
        self.storage.upsert(user_id, UserUpdateStrategy::UpdateLastSeen { words, now });
    }
}


/// Deleting a word then listing words for that very text yields nothing,
/// provided no other stored word merely contains the text as a fragment;
/// the surviving entries are exactly the old ones with another source text,
/// in their old order.
pub proof fn lemma_delete_word_then_list(db: Seq<UserV>, id: int, w: Seq<char>)
    requires
        ({
            let i = find_user(db, id);
            i >= 0 ==> forall|j: int|
                0 <= j < db[i].translates.len() ==> (crate::text::contains_sub(
                    (#[trigger] db[i].translates[j]).word.word,
                    w,
                ) ==> db[i].translates[j].word.word == w)
        }),
    ensures
        spec_list_words(spec_upsert(db, id, StrategyV::DeleteWord(w)), id, w) == Seq::<
            TranslateV,
        >::empty(),
        ({
            let i = find_user(db, id);
            let ndb = spec_upsert(db, id, StrategyV::DeleteWord(w));
            let ni = find_user(ndb, id);
            ni >= 0 && (i >= 0 ==> ndb[ni].translates == db[i].translates.filter(
                crate::strategy::keeps_word(w),
            ))
        }),
{
    crate::storage::lemma_find_user(db, id);
    let i = find_user(db, id);
    let ndb = spec_upsert(db, id, StrategyV::DeleteWord(w));
    if i >= 0 {
        let u1 = crate::strategy::spec_delete_word(db[i], w);
        assert(ndb == db.update(i, u1));
        assert(u1.id == id);
        assert(forall|j: int| 0 <= j < i ==> ndb[j].id == #[trigger] db[j].id);
        crate::storage::lemma_find_user_is(ndb, id, i);
        let kept = db[i].translates.filter(crate::strategy::keeps_word(w));
        assert(ndb[i].translates == kept);
        let r = kept.filter(matches_pat(w));
        if r.len() > 0 {
            kept.lemma_filter_pred(matches_pat(w), 0);
            lemma_filter_sub(kept, matches_pat(w), 0);
            let e = r[0];
            let a = choose|a: int| 0 <= a < kept.len() && kept[a] == e;
            db[i].translates.lemma_filter_pred(crate::strategy::keeps_word(w), a);
            lemma_filter_sub(db[i].translates, crate::strategy::keeps_word(w), a);
            let b = choose|b: int|
                0 <= b < db[i].translates.len() && db[i].translates[b] == kept[a];
            assert(crate::text::contains_sub(db[i].translates[b].word.word, w));
            assert(db[i].translates[b].word.word == w);
            assert(false);
        }
        assert(r =~= Seq::<TranslateV>::empty());
    } else {
        let u1 = crate::strategy::spec_delete_word(crate::storage::empty_user(id), w);
        assert(ndb == db.push(u1));
        reveal(Seq::filter);
        assert(crate::storage::empty_user(id).translates.filter(crate::strategy::keeps_word(w))
            =~= Seq::<TranslateV>::empty());
        assert(u1.id == id);
        assert(ndb[db.len() as int] == u1);
        assert(forall|j: int| 0 <= j < db.len() ==> ndb[j] == #[trigger] db[j]);
        crate::storage::lemma_find_user_is(ndb, id, db.len() as int);
        assert(u1.translates.filter(matches_pat(w)) =~= Seq::<TranslateV>::empty());
    }
}

} // verus!
