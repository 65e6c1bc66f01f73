//! The record store: words, translation entries and per-user records, held
//! in memory as one collection and mirrored to a backing file by the caller.
use vstd::prelude::*;
use crate::lang::Lang;

verus! {

/// A piece of text in a given language.
#[derive(PartialEq, Eq, Debug, Hash)]
pub struct Word {
    pub word: String,
    pub lang: Lang,
}

/// Mathematical image of a `Word`.
#[verifier::ext_equal]
pub ghost struct WordV {
    pub word: Seq<char>,
    pub lang: Seq<char>,
}

impl View for Word {
    type V = WordV;

    open spec fn view(&self) -> WordV {
        WordV { word: self.word@, lang: self.lang@ }
    }
}

impl DeepView for Word {
    type V = WordV;

    open spec fn deep_view(&self) -> WordV {
        self@
    }
}

impl Clone for Word {
    fn clone(&self) -> (res: Self)
        ensures
            res == self,
    {
        Word { word: self.word.clone(), lang: self.lang.clone() }
    }
}

/// One translation entry: a source word, the words it translates to, and the
/// quiz-recency marker.
#[derive(PartialEq, Eq, Debug)]
pub struct Translate {
    pub translates: Vec<Word>,
    pub word: Word,
    pub last_seen: i64,
}

/// Mathematical image of a `Translate`.
#[verifier::ext_equal]
pub ghost struct TranslateV {
    pub word: WordV,
    pub translates: Seq<WordV>,
    pub last_seen: int,
}

impl View for Translate {
    type V = TranslateV;

    open spec fn view(&self) -> TranslateV {
        TranslateV {
            word: self.word@,
            translates: self.translates.deep_view(),
            last_seen: self.last_seen as int,
        }
    }
}

impl DeepView for Translate {
    type V = TranslateV;

    open spec fn deep_view(&self) -> TranslateV {
        self@
    }
}

/// One person's record: their registered languages and translation entries.
#[derive(PartialEq, Eq, Debug)]
pub struct User {
    pub translates: Vec<Translate>,
    pub langs: Vec<Lang>,
    pub id: i64,
}

/// Mathematical image of a `User`.
#[verifier::ext_equal]
pub ghost struct UserV {
    pub id: int,
    pub langs: Seq<Seq<char>>,
    pub translates: Seq<TranslateV>,
}

impl View for User {
    type V = UserV;

    open spec fn view(&self) -> UserV {
        UserV {
            id: self.id as int,
            langs: self.langs.deep_view(),
            translates: self.translates.deep_view(),
        }
    }
}

impl DeepView for User {
    type V = UserV;

    open spec fn deep_view(&self) -> UserV {
        self@
    }
}

/// The deep view of a vector, described elementwise.
pub broadcast proof fn lemma_deep_view_index<T: DeepView>(v: Vec<T>, k: int)
    ensures
        v.deep_view().len() == v@.len(),
        0 <= k < v@.len() ==> #[trigger] v.deep_view()[k] == v@[k].deep_view(),
{
}

/// The record a previously unseen user id starts from.
pub open spec fn empty_user(id: int) -> UserV {
    UserV { id: id, langs: Seq::empty(), translates: Seq::empty() }
}

impl User {
    /// A record with no languages and no translations.
    pub fn new(id: i64) -> (r: User)
        ensures
            r@ == empty_user(id as int),
    {
        let r = User { id: id, translates: Vec::new(), langs: Vec::new() };
        proof {
            assert(r@ =~= empty_user(id as int));
        }
        r
    }
}

/// Copies a vector of words; the copy denotes the same sequence.
pub fn clone_words(v: &Vec<Word>) -> (r: Vec<Word>)
    ensures
        r@ == v@,
{
    let mut r: Vec<Word> = Vec::new();
    let mut i: usize = 0;
    while i < v.len()
        invariant
            i <= v.len(),
            r@ =~= v@.subrange(0, i as int),
        decreases v.len() - i,
    {
        r.push(v[i].clone());
        i = i + 1;
    }
    proof {
        assert(r@ =~= v@);
    }
    r
}

impl Clone for Translate {
    fn clone(&self) -> (res: Self)
        ensures
            res@ == self@,
    {
        let res = Translate {
            translates: clone_words(&self.translates),
            word: self.word.clone(),
            last_seen: self.last_seen,
        };
        proof {
            assert(res@ =~= self@);
        }
        res
    }
}

/// Copies a vector of translation entries; the copy denotes the same
/// sequence of entries.
pub fn clone_translates(v: &Vec<Translate>) -> (r: Vec<Translate>)
    ensures
        r.deep_view() == v.deep_view(),
{
    let mut r: Vec<Translate> = Vec::new();
    let mut i: usize = 0;
    while i < v.len()
        invariant
            i <= v.len(),
            r.deep_view() =~= v.deep_view().subrange(0, i as int),
        decreases v.len() - i,
    {
        let ghost pre = r.deep_view();
        r.push(v[i].clone());
        proof {
            assert forall|j: int| 0 <= j < pre.len() + 1 implies r.deep_view()[j]
                == v.deep_view().subrange(0, i + 1)[j] by {
                if j < pre.len() {
                    assert(r.deep_view()[j] == pre[j]);
                    assert(pre[j] == v.deep_view().subrange(0, i as int)[j]);
                }
            }
            assert(r.deep_view() =~= v.deep_view().subrange(0, i + 1));
        }
        i = i + 1;
    }
    proof {
        assert(r.deep_view() =~= v.deep_view());
    }
    r
}

/// Copies a vector of languages.
pub fn clone_langs(v: &Vec<Lang>) -> (r: Vec<Lang>)
    ensures
        r@ == v@,
{
    let mut r: Vec<Lang> = Vec::new();
    let mut i: usize = 0;
    while i < v.len()
        invariant
            i <= v.len(),
            r@ =~= v@.subrange(0, i as int),
        decreases v.len() - i,
    {
        r.push(v[i].clone());
        i = i + 1;
    }
    proof {
        assert(r@ =~= v@);
    }
    r
}

impl Clone for User {
    fn clone(&self) -> (res: Self)
        ensures
            res@ == self@,
    {
        let res = User {
            translates: clone_translates(&self.translates),
            langs: clone_langs(&self.langs),
            id: self.id,
        };
        proof {
            assert(res@ =~= self@);
        }
        res
    }
}

/// Equality of two words, decided by both fields.
pub fn word_eq(a: &Word, b: &Word) -> (r: bool)
    ensures
        r == (a@ == b@),
{
    let r = crate::text::str_eq(a.word.as_str(), b.word.as_str()) && crate::text::str_eq(
        a.lang.lang.as_str(),
        b.lang.lang.as_str(),
    );
    proof {
        if a.word@ == b.word@ && a.lang@ == b.lang@ {
            assert(a@ =~= b@);
        }
    }
    r
}

/// Index of the first record with the given id, or `-1` when there is none.
pub open spec fn find_user(db: Seq<UserV>, id: int) -> int
    decreases db.len(),
{
    if db.len() == 0 {
        -1
    } else if db[0].id == id {
        0
    } else {
        let r = find_user(db.skip(1), id);
        if r < 0 {
            -1
        } else {
            r + 1
        }
    }
}

pub broadcast proof fn lemma_find_user(db: Seq<UserV>, id: int)
    ensures
        -1 <= #[trigger] find_user(db, id) < db.len(),
        find_user(db, id) >= 0 ==> db[find_user(db, id)].id == id,
        find_user(db, id) >= 0 ==> forall|j: int| 0 <= j < find_user(db, id) ==> db[j].id != id,
        find_user(db, id) < 0 ==> forall|j: int| 0 <= j < db.len() ==> db[j].id != id,
    decreases db.len(),
{
    if db.len() > 0 && db[0].id != id {
        lemma_find_user(db.skip(1), id);
        if find_user(db, id) >= 0 {
            assert forall|j: int| 0 <= j < find_user(db, id) implies #[trigger] db[j].id != id by {
                if j > 0 {
                    assert(db.skip(1)[j - 1] == db[j]);
                }
            }
        } else {
            assert forall|j: int| 0 <= j < db.len() implies #[trigger] db[j].id != id by {
                if j > 0 {
                    assert(db.skip(1)[j - 1] == db[j]);
                }
            }
        }
    }
}

/// Why the backing file's content could not be turned into a store.
#[derive(PartialEq, Eq, Debug)]
pub struct StoreError {
    pub description: String,
}

impl Clone for StoreError {
    fn clone(&self) -> (res: Self)
        ensures
            res == self,
    {
        StoreError { description: self.description.clone() }
    }
}

/// The full collection of user records, one per external user id.
pub struct Storage {
    db: Vec<User>,
}

impl View for Storage {
    type V = Seq<UserV>;

    closed spec fn view(&self) -> Seq<UserV> {
        self.db.deep_view()
    }
}

impl Storage {
    /// A store over the given records.
    pub fn from_users(db: Vec<User>) -> (r: Storage)
        ensures
            r@ == db.deep_view(),
    {
        Storage { db }
    }

    /// Builds the store from the backing file's content: an empty or
    /// whitespace-only file yields an empty collection, anything else must
    /// decode as the persisted layout. Reading the file is the caller's.
    pub fn new(content: &str) -> (r: Result<Storage, StoreError>)
        ensures
            ({
                let t = crate::text::spec_trim(content@);
                if t.len() == 0 {
                    r matches Ok(st) && st@ == Seq::<UserV>::empty()
                } else {
                    match crate::codec::spec_decode_users(t) {
                        Some(us) => r matches Ok(st) && st@ == us,
                        None => r matches Err(e) && e.description@
                            == "Can't decode the word store"@,
                    }
                }
            }),
    {
        let t = crate::text::trim(content);
        if t.unicode_len() == 0 {
            let st = Storage { db: Vec::new() };
            proof {
                assert(st@ =~= Seq::<UserV>::empty());
            }
            return Ok(st);
        }
        match crate::codec::decode_users(t) {
            Some(us) => Ok(Storage { db: us }),
            None => Err(StoreError { description: "Can't decode the word store".to_owned() }),
        }
    }

    /// Renders the whole collection for the backing file; the caller writes
    /// it back after every mutation.
    pub fn save(&self) -> (r: String)
        ensures
            r@ == crate::codec::spec_enc_users(self@),
    {
        crate::codec::encode_users(&self.db)
    }

    /// The record for `user_id`, copied out; absent ids yield nothing.
    pub fn get(&self, user_id: i64) -> (r: Option<User>)
        ensures
            ({
                let i = find_user(self@, user_id as int);
                if i >= 0 {
                    r matches Some(u) && u@ == self@[i]
                } else {
                    r is None
                }
            }),
{
        proof {
            lemma_find_user(self@, user_id as int);
        }
        let mut i: usize = 0;
        while i < self.db.len()
            invariant
                i <= self.db.len(),
                self@.len() == self.db.len(),
                forall|j: int| 0 <= j < i ==> self@[j].id != user_id as int,
            decreases self.db.len() - i,
        {
            proof {
                assert(self@[i as int] == self.db[i as int].deep_view());
            }
            if self.db[i].id == user_id {
                proof {
                    lemma_find_user_is(self@, user_id as int, i as int);
                }
                return Some(self.db[i].clone());
            }
            i = i + 1;
        }
        None
    }
}

/// What `upsert` does to the collection: the record for `id` (synthesized
/// empty when absent) is replaced by the strategy's image of it; an absent
/// id appends its new record at the end.
pub open spec fn spec_upsert(db: Seq<UserV>, id: int, s: crate::strategy::StrategyV) -> Seq<
    UserV,
> {
    let i = find_user(db, id);
    if i < 0 {
        db.push(crate::strategy::spec_apply(s, empty_user(id)))
    } else {
        db.update(i, crate::strategy::spec_apply(s, db[i]))
    }
}

impl Storage {
    /// Applies `strat` to the record for `user_id`, creating the record from
    /// an empty one when the id is new. The caller persists the collection
    /// (`save`) afterwards.
    pub fn upsert(&mut self, user_id: i64, strat: crate::strategy::UserUpdateStrategy)
        ensures
            final(self)@ == spec_upsert(old(self)@, user_id as int, strat@),
    {
        proof {
            lemma_find_user(old(self)@, user_id as int);
        }
        let mut i: usize = 0;
        while i < self.db.len()
            invariant
                i <= self.db.len(),
                self@ == old(self)@,
                self@.len() == self.db.len(),
                forall|j: int| 0 <= j < i ==> self@[j].id != user_id as int,
            decreases self.db.len() - i,
        {
            proof {
                assert(self@[i as int] == self.db[i as int].deep_view());
            }
            if self.db[i].id == user_id {
                proof {
                    lemma_find_user_is(self@, user_id as int, i as int);
                }
                let next = strat.apply(&self.db[i]);
                self.db.remove(i);
                self.db.insert(i, next);
                proof {
                    assert(self@ =~= spec_upsert(old(self)@, user_id as int, strat@));
                }
                return ;
            }
            i = i + 1;
        }
        let user = User::new(user_id);
        let next = strat.apply(&user);
        self.db.push(next);
        proof {
            assert(self@ =~= spec_upsert(old(self)@, user_id as int, strat@));
        }
    }
}

/// Characterizes `find_user` by its bounding indices.
pub proof fn lemma_find_user_is(db: Seq<UserV>, id: int, k: int)
    requires
        0 <= k < db.len(),
        db[k].id == id,
        forall|j: int| 0 <= j < k ==> db[j].id != id,
    ensures
        find_user(db, id) == k,
    decreases db.len(),
{
    if db.len() > 0 && db[0].id != id {
        assert(forall|j: int| 0 <= j < db.skip(1).len() ==> db.skip(1)[j] == db[j + 1]);
        assert(db.skip(1)[k - 1].id == id);
        lemma_find_user_is(db.skip(1), id, k - 1);
    }
}

/// A well-formed store: one record per user id, each record well-formed.
pub open spec fn store_wf(db: Seq<UserV>) -> bool {
    &&& forall|a: int, b: int|
        0 <= a < b < db.len() ==> (#[trigger] db[a]).id != (#[trigger] db[b]).id
    &&& forall|j: int| 0 <= j < db.len() ==> crate::strategy::user_wf(#[trigger] db[j])
}

/// Every upsert preserves the store invariant: ids stay unique and every
/// record keeps its own invariant, whichever strategy was applied.
pub proof fn lemma_upsert_preserves_wf(db: Seq<UserV>, id: int, s: crate::strategy::StrategyV)
    requires
        store_wf(db),
    ensures
        store_wf(spec_upsert(db, id, s)),
{
    lemma_find_user(db, id);
    let i = find_user(db, id);
    let r = spec_upsert(db, id, s);
    if i < 0 {
        let base = empty_user(id);
        assert(crate::strategy::user_wf(base));
        crate::strategy::lemma_apply_preserves_wf(s, base);
        let fresh = crate::strategy::spec_apply(s, base);
        assert(fresh.id == id) by {
            match s {
                crate::strategy::StrategyV::AddTranslate(_) => {},
                crate::strategy::StrategyV::DeleteWord(_) => {},
                crate::strategy::StrategyV::AddLang(_) => {},
                crate::strategy::StrategyV::DeleteLang(_) => {},
                crate::strategy::StrategyV::UpdateLastSeen(_, _) => {},
            }
        }
        assert forall|a: int, b: int| 0 <= a < b < r.len() implies (#[trigger] r[a]).id != (
        #[trigger] r[b]).id by {
            if b < db.len() {
                assert(r[a] == db[a] && r[b] == db[b]);
            } else {
                assert(r[a] == db[a] && r[b] == fresh);
            }
        }
        assert forall|j: int| 0 <= j < r.len() implies crate::strategy::user_wf(
            #[trigger] r[j],
        ) by {
            if j < db.len() {
                assert(r[j] == db[j]);
            } else {
                assert(r[j] == fresh);
            }
        }
    } else {
        crate::strategy::lemma_apply_preserves_wf(s, db[i]);
        let next = crate::strategy::spec_apply(s, db[i]);
        assert(next.id == db[i].id) by {
            match s {
                crate::strategy::StrategyV::AddTranslate(_) => {},
                crate::strategy::StrategyV::DeleteWord(_) => {},
                crate::strategy::StrategyV::AddLang(_) => {},
                crate::strategy::StrategyV::DeleteLang(_) => {},
                crate::strategy::StrategyV::UpdateLastSeen(_, _) => {},
            }
        }
        assert forall|a: int, b: int| 0 <= a < b < r.len() implies (#[trigger] r[a]).id != (
        #[trigger] r[b]).id by {
            assert(r[a].id == db[a].id && r[b].id == db[b].id);
        }
        assert forall|j: int| 0 <= j < r.len() implies crate::strategy::user_wf(
            #[trigger] r[j],
        ) by {
            if j != i {
                assert(r[j] == db[j]);
            } else {
                assert(r[j] == next);
            }
        }
    }
}

} // verus!
