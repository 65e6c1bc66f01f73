//! Character and string helpers shared by the command interpreter and the
//! storage codec: whitespace classification, equality, trimming, tokenizing
//! and substring search, all specified over `Seq<char>` views.
use vstd::prelude::*;
use vstd::string::StrSliceExecFns;

verus! {

/// The characters treated as whitespace when a chat message is split into
/// tokens (the Unicode `White_Space` set).
pub open spec fn is_ws_char(c: char) -> bool {
    (0x9 <= c as int && c as int <= 0xd) || c as int == 0x20 || c as int == 0x85
        || c as int == 0xa0 || c as int == 0x1680 || (0x2000 <= c as int && c as int <= 0x200a)
        || c as int == 0x2028 || c as int == 0x2029 || c as int == 0x202f || c as int == 0x205f
        || c as int == 0x3000
}

pub fn is_ws(c: char) -> (r: bool)
    ensures
        r == is_ws_char(c),
{
    let u = c as u32;
    (0x9 <= u && u <= 0xd) || u == 0x20 || u == 0x85 || u == 0xa0 || u == 0x1680 || (0x2000 <= u
        && u <= 0x200a) || u == 0x2028 || u == 0x2029 || u == 0x202f || u == 0x205f || u == 0x3000
}

/// Equality of two string slices, decided character by character.
pub fn str_eq(a: &str, b: &str) -> (r: bool)
    ensures
        r == (a@ == b@),
{
    let n = a.unicode_len();
    let m = b.unicode_len();
    if n != m {
        return false;
    }
    let mut i: usize = 0;
    while i < n
        invariant
            n == a@.len(),
            n == b@.len(),
            i <= n,
            forall|j: int| 0 <= j < i ==> a@[j] == b@[j],
        decreases n - i,
    {
        if a.get_char(i) != b.get_char(i) {
            return false;
        }
        i = i + 1;
    }
    proof {
        assert(a@ =~= b@);
    }
    true
}

/// What the result of lowercasing a string is; left abstract because Unicode
/// case mapping is not restated here.
pub uninterp spec fn lower_of(s: Seq<char>) -> Seq<char>;

/// Relies on `str::to_lowercase` from std: the result depends on the
/// characters of `s` alone.
#[verifier::external_body]
pub fn to_lower(s: &str) -> (r: String)
    ensures
        r@ == lower_of(s@),
{
    s.to_lowercase()
}

/// Number of whitespace characters at the front of `s`.
pub open spec fn ws_prefix_len(s: Seq<char>) -> nat
    decreases s.len(),
{
    if s.len() > 0 && is_ws_char(s[0]) {
        1 + ws_prefix_len(s.skip(1))
    } else {
        0
    }
}

/// Number of whitespace characters at the back of `s`.
pub open spec fn ws_suffix_len(s: Seq<char>) -> nat
    decreases s.len(),
{
    if s.len() > 0 && is_ws_char(s.last()) {
        1 + ws_suffix_len(s.take(s.len() - 1))
    } else {
        0
    }
}

/// `s` with leading and trailing whitespace removed.
pub open spec fn spec_trim(s: Seq<char>) -> Seq<char> {
    if ws_prefix_len(s) == s.len() {
        Seq::empty()
    } else {
        s.subrange(ws_prefix_len(s) as int, s.len() - ws_suffix_len(s))
    }
}

proof fn lemma_ws_prefix_len(s: Seq<char>)
    ensures
        ws_prefix_len(s) <= s.len(),
        forall|j: int| 0 <= j < ws_prefix_len(s) ==> is_ws_char(s[j]),
        ws_prefix_len(s) < s.len() ==> !is_ws_char(s[ws_prefix_len(s) as int]),
    decreases s.len(),
{
    if s.len() > 0 && is_ws_char(s[0]) {
        lemma_ws_prefix_len(s.skip(1));
        assert(forall|j: int|
            0 <= j < ws_prefix_len(s) ==> is_ws_char(#[trigger] s[j])) by {
            assert forall|j: int| 0 <= j < ws_prefix_len(s) implies is_ws_char(#[trigger] s[j]) by {
                if j > 0 {
                    assert(s.skip(1)[j - 1] == s[j]);
                }
            }
        }
        if ws_prefix_len(s) < s.len() {
            assert(s.skip(1)[ws_prefix_len(s) - 1] == s[ws_prefix_len(s) as int]);
        }
    }
}

proof fn lemma_ws_suffix_len(s: Seq<char>)
    ensures
        ws_suffix_len(s) <= s.len(),
        forall|j: int| s.len() - ws_suffix_len(s) <= j < s.len() ==> is_ws_char(s[j]),
        ws_suffix_len(s) < s.len() ==> !is_ws_char(s[s.len() - ws_suffix_len(s) - 1]),
    decreases s.len(),
{
    if s.len() > 0 && is_ws_char(s.last()) {
        lemma_ws_suffix_len(s.take(s.len() - 1));
        assert forall|j: int| s.len() - ws_suffix_len(s) <= j < s.len() implies is_ws_char(
            #[trigger] s[j],
        ) by {
            if j < s.len() - 1 {
                assert(s.take(s.len() - 1)[j] == s[j]);
            }
        }
        if ws_suffix_len(s) < s.len() {
            assert(s.take(s.len() - 1)[s.len() - ws_suffix_len(s) - 1] == s[s.len() - ws_suffix_len(
                s,
            ) - 1]);
        }
    }
}

/// Characterizes `ws_prefix_len` by its bounding indices, so that a scanning
/// loop can establish it.
proof fn lemma_ws_prefix_len_is(s: Seq<char>, k: int)
    requires
        0 <= k <= s.len(),
        forall|j: int| 0 <= j < k ==> is_ws_char(s[j]),
        k < s.len() ==> !is_ws_char(s[k]),
    ensures
        ws_prefix_len(s) == k,
    decreases s.len(),
{
    if s.len() > 0 && is_ws_char(s[0]) {
        assert forall|j: int| 0 <= j < k - 1 implies is_ws_char(#[trigger] s.skip(1)[j]) by {
            assert(s.skip(1)[j] == s[j + 1]);
        }
        if k - 1 < s.len() - 1 {
            assert(s.skip(1)[k - 1] == s[k]);
        }
        lemma_ws_prefix_len_is(s.skip(1), k - 1);
    }
}

proof fn lemma_ws_suffix_len_is(s: Seq<char>, k: int)
    requires
        0 <= k <= s.len(),
        forall|j: int| s.len() - k <= j < s.len() ==> is_ws_char(s[j]),
        k < s.len() ==> !is_ws_char(s[s.len() - k - 1]),
    ensures
        ws_suffix_len(s) == k,
    decreases s.len(),
{
    if s.len() > 0 && is_ws_char(s.last()) {
        let t = s.take(s.len() - 1);
        assert forall|j: int| t.len() - (k - 1) <= j < t.len() implies is_ws_char(
            #[trigger] t[j],
        ) by {
            assert(t[j] == s[j]);
        }
        if k - 1 < t.len() {
            assert(t[t.len() - (k - 1) - 1] == s[s.len() - k - 1]);
        }
        lemma_ws_suffix_len_is(t, k - 1);
    }
}

/// `s` with leading and trailing whitespace removed.
pub fn trim(s: &str) -> (r: &str)
    ensures
        r@ == spec_trim(s@),
{
    let n = s.unicode_len();
    let mut a: usize = 0;
    while a < n && is_ws(s.get_char(a))
        invariant
            n == s@.len(),
            a <= n,
            forall|j: int| 0 <= j < a ==> is_ws_char(s@[j]),
        decreases n - a,
    {
        a = a + 1;
    }
    proof {
        lemma_ws_prefix_len_is(s@, a as int);
    }
    if a == n {
        let r = s.substring_char(0, 0);
        proof {
            assert(r@ =~= spec_trim(s@));
        }
        return r;
    }
    let mut b: usize = n;
    while b > a && is_ws(s.get_char(b - 1))
        invariant
            n == s@.len(),
            a <= b <= n,
            a < n,
            !is_ws_char(s@[a as int]),
            forall|j: int| b <= j < n ==> is_ws_char(s@[j]),
        decreases b,
    {
        b = b - 1;
    }
    proof {
        lemma_ws_suffix_len_is(s@, n - b);
    }
    let r = s.substring_char(a, b);
    proof {
        assert(r@ =~= spec_trim(s@));
    }
    r
}

/// End of the token that starts at `i`: the first position at or after `i`
/// holding whitespace, or the end of `s`.
pub open spec fn token_end(s: Seq<char>, i: int) -> int
    decreases s.len() - i,
{
    if i < 0 || i >= s.len() || is_ws_char(s[i]) {
        i
    } else {
        token_end(s, i + 1)
    }
}

proof fn lemma_token_end(s: Seq<char>, i: int)
    requires
        0 <= i <= s.len(),
    ensures
        i <= token_end(s, i) <= s.len(),
        forall|j: int| i <= j < token_end(s, i) ==> !is_ws_char(s[j]),
        token_end(s, i) < s.len() ==> is_ws_char(s[token_end(s, i)]),
    decreases s.len() - i,
{
    if i < s.len() && !is_ws_char(s[i]) {
        lemma_token_end(s, i + 1);
    }
}

/// The whitespace-separated tokens of `s`, from position `i` on.
pub open spec fn spec_tokens_at(s: Seq<char>, i: int) -> Seq<Seq<char>>
    decreases s.len() - i, 1int,
{
    if i < 0 || i >= s.len() {
        Seq::empty()
    } else if is_ws_char(s[i]) {
        spec_tokens_at(s, i + 1)
    } else {
        let j = token_end(s, i);
        if i < j <= s.len() {
            seq![s.subrange(i, j)] + spec_tokens_at(s, j)
        } else {
            Seq::empty()
        }
    }
}

/// The whitespace-separated tokens of `s`: what remains of a command line
/// after lowercasing, trimming and collapsing whitespace runs.
pub open spec fn spec_tokens(s: Seq<char>) -> Seq<Seq<char>> {
    spec_tokens_at(s, 0)
}

/// Splits `s` at whitespace runs into its non-empty tokens.
pub fn tokenize(s: &str) -> (r: Vec<String>)
    ensures
        r.deep_view() == spec_tokens(s@),
{
    let n = s.unicode_len();
    let mut r: Vec<String> = Vec::new();
    let mut i: usize = 0;
    while i < n
        invariant
            n == s@.len(),
            i <= n,
            spec_tokens(s@) == r.deep_view() + spec_tokens_at(s@, i as int),
        decreases n - i,
    {
        if is_ws(s.get_char(i)) {
            i = i + 1;
        } else {
            let mut j: usize = i + 1;
            while j < n && !is_ws(s.get_char(j))
                invariant
                    n == s@.len(),
                    i < j <= n,
                    forall|k: int| i <= k < j ==> !is_ws_char(s@[k]),
                decreases n - j,
            {
                j = j + 1;
            }
            proof {
                lemma_token_end(s@, i as int);
                assert(token_end(s@, i as int) == j) by {
                    let e = token_end(s@, i as int);
                    if e < j {
                        assert(is_ws_char(s@[e]) || e == s@.len());
                    }
                    if e > j {
                        assert(!is_ws_char(s@[j as int]));
                    }
                }
            }
            let tok = s.substring_char(i, j);
            let ghost prev = r.deep_view();
            r.push(tok.to_owned());
            proof {
                assert(r.deep_view() =~= prev + seq![s@.subrange(i as int, j as int)]);
                assert(r.deep_view() + spec_tokens_at(s@, j as int) =~= prev + spec_tokens_at(
                    s@,
                    i as int,
                ));
            }
            i = j;
        }
    }
    proof {
        assert(spec_tokens(s@) =~= r.deep_view());
    }
    r
}

/// `p` occurs in `s` as a contiguous run; an empty `p` occurs in every `s`.
pub open spec fn contains_sub(s: Seq<char>, p: Seq<char>) -> bool {
    exists|i: int| 0 <= i <= s.len() - p.len() && #[trigger] s.subrange(i, i + p.len()) == p
}

/// Substring search: does `p` occur contiguously in `s`?
pub fn str_contains(s: &str, p: &str) -> (r: bool)
    ensures
        r == contains_sub(s@, p@),
{
    let n = s.unicode_len();
    let m = p.unicode_len();
    if m > n {
        return false;
    }
    let mut i: usize = 0;
    while i <= n - m
        invariant
            n == s@.len(),
            m == p@.len(),
            m <= n,
            i <= n - m + 1,
            forall|x: int| 0 <= x < i ==> #[trigger] s@.subrange(x, x + p@.len()) != p@,
        decreases n - i,
    {
        let mut j: usize = 0;
        let mut ok = true;
        while j < m
            invariant
                n == s@.len(),
                m == p@.len(),
                i + m <= n,
                j <= m,
                ok <==> forall|y: int| 0 <= y < j ==> s@[i + y] == p@[y],
            decreases m - j,
        {
            if s.get_char(i + j) != p.get_char(j) {
                ok = false;
                j = m;
            } else {
                proof {
                    assert(s@[i + j] == p@[j as int]);
                }
                j = j + 1;
            }
        }
        if ok {
            proof {
                assert(s@.subrange(i as int, i + p@.len()) =~= p@);
            }
            return true;
        }
        proof {
            assert(s@.subrange(i as int, i + p@.len()) != p@) by {
                let x = choose|y: int| 0 <= y < m && s@[i + y] != p@[y];
                assert(s@.subrange(i as int, i + p@.len())[x] == s@[i + x]);
            }
        }
        i = i + 1;
    }
    false
}

} // verus!
