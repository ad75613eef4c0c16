//! API-key settings: what is stored, the in-memory cache in front of the
//! settings store, which key is in effect, and how a key is shown.

use vstd::prelude::*;

use crate::errors::CaptionError;
use crate::text::{all_ws, chars_of, copy_range, is_blank, push_all, string_from_chars, trim, trim_chars};

verus! {

/// File of the settings store.
pub const STORE_FILE: &'static str = "settings.json";

/// Key under which the Groq API key is stored.
pub const GROQ_API_KEY_STORE_KEY: &'static str = "groq_api_key";

/// Environment variable that holds an API key.
pub const GROQ_API_KEY_ENV: &'static str = "GROQ_API_KEY";

/// Application settings.
#[derive(Debug, Clone)]
pub struct Settings {
    /// Groq API key for AI cleaning.
    pub groq_api_key: Option<String>,
}

impl Default for Settings {
    fn default() -> (r: Self)
        ensures
            r.groq_api_key is None,
    {
        Settings { groq_api_key: None }
    }
}

/// The in-memory copy of the stored API key, kept so that the settings
/// store is read at most once while a key is known.
#[derive(Debug)]
pub struct ApiKeyCache {
    /// The key last saved or read from the store, if any.
    pub key: Option<String>,
}

/// The cache holds `key`.
pub open spec fn holds_key(cache: ApiKeyCache, key: Seq<char>) -> bool {
    cache.key matches Some(k) && k@ == key
}

impl ApiKeyCache {
    /// An empty cache.
    pub fn new() -> (r: Self)
        ensures
            r.key is None,
    {
        ApiKeyCache { key: None }
    }

    /// Records a key that was just saved to the store.
    pub fn remember(&mut self, key: &str)
        ensures
            holds_key(*final(self), key@),
    {
        self.key = Some(key.to_owned());
    }

    /// Records that the stored key was just removed.
    pub fn forget(&mut self)
        ensures
            final(self).key is None,
    {
        self.key = None;
    }
}

/// The cached key, if any: a read that needs nothing but the cache.
pub fn cached_api_key(cache: &ApiKeyCache) -> (r: Option<String>)
    ensures
        r == cache.key,
{
    match &cache.key {
        Some(k) => Some(k.clone()),
        None => None,
    }
}

/// What a read of the stored key gives and leaves in the cache: a cached key
/// is returned as it is and the store is not read; otherwise the answer is
/// what `load_stored` returns, and it is cached.
pub open spec fn read_outcome<F: FnOnce() -> Option<String>>(
    before: ApiKeyCache,
    load_stored: F,
    r: Option<String>,
    after: ApiKeyCache,
) -> bool {
    if before.key is Some {
        r == before.key && after.key == before.key
    } else {
        call_ensures(load_stored, (), r) && after.key == r
    }
}

/// What saving a key gives and leaves in the cache: the outcome is that of
/// `persist`; on success the key is cached, on failure the cache is unchanged.
pub open spec fn save_outcome<F: FnOnce(&str) -> Result<(), CaptionError>>(
    before: ApiKeyCache,
    api_key: &str,
    persist: F,
    r: Result<(), CaptionError>,
    after: ApiKeyCache,
) -> bool {
    &&& call_ensures(persist, (api_key,), r)
    &&& r is Ok ==> holds_key(after, api_key@)
    &&& r is Err ==> after.key == before.key
}

/// What removing the key gives and leaves in the cache: the outcome is that of
/// `delete`; on success the cache is emptied, on failure it is unchanged.
pub open spec fn remove_outcome<F: FnOnce() -> Result<(), CaptionError>>(
    before: ApiKeyCache,
    delete: F,
    r: Result<(), CaptionError>,
    after: ApiKeyCache,
) -> bool {
    &&& call_ensures(delete, (), r)
    &&& r is Ok ==> after.key is None
    &&& r is Err ==> after.key == before.key
}

/// The stored API key: the cached one when there is one; otherwise the one
/// `load_stored` reads from the settings store, which is then cached.
pub fn get_api_key<F: FnOnce() -> Option<String>>(cache: &mut ApiKeyCache, load_stored: F) -> (r:
    Option<String>)
    requires
        call_requires(load_stored, ()),
    ensures
        read_outcome(*old(cache), load_stored, r, *final(cache)),
{
    match &cache.key {
        Some(k) => {
            let found = k.clone();
            Some(found)
        },
        None => {
            let loaded = load_stored();
            match &loaded {
                Some(k) => {
                    cache.key = Some(k.clone());
                },
                None => {},
            }
            loaded
        },
    }
}

/// Saves `api_key` with `persist` (which writes it to the settings store)
/// and, once that succeeded, caches it; a failure is returned as it is and
/// leaves the cache alone.
pub fn save_api_key<F: FnOnce(&str) -> Result<(), CaptionError>>(
    cache: &mut ApiKeyCache,
    api_key: &str,
    persist: F,
) -> (r: Result<(), CaptionError>)
    requires
        call_requires(persist, (api_key,)),
    ensures
        save_outcome(*old(cache), api_key, persist, r, *final(cache)),
{
    let outcome = persist(api_key);
    if outcome.is_ok() {
        cache.remember(api_key);
    }
    outcome
}

/// Removes the stored key with `delete` (which removes it from the settings
/// store) and, once that succeeded, empties the cache; a failure is returned
/// as it is and leaves the cache alone.
pub fn remove_api_key<F: FnOnce() -> Result<(), CaptionError>>(
    cache: &mut ApiKeyCache,
    delete: F,
) -> (r: Result<(), CaptionError>)
    requires
        call_requires(delete, ()),
    ensures
        remove_outcome(*old(cache), delete, r, *final(cache)),
{
    let outcome = delete();
    if outcome.is_ok() {
        cache.forget();
    }
    outcome
}

/// A read after a successful save gives back the saved key, from the cache:
/// whatever the store would answer, and with the cache left as it was.
pub proof fn lemma_read_after_save<P, L>(
    c0: ApiKeyCache,
    api_key: &str,
    persist: P,
    c1: ApiKeyCache,
    load_stored: L,
    r: Option<String>,
    c2: ApiKeyCache,
) where P: FnOnce(&str) -> Result<(), CaptionError>, L: FnOnce() -> Option<String>
    requires
        save_outcome(c0, api_key, persist, Ok(()), c1),
        read_outcome(c1, load_stored, r, c2),
    ensures
        r matches Some(k) && k@ == api_key@,
        c2.key == c1.key,
{
}

/// A read after a successful removal goes to the store again: it gives what
/// `load_stored` returns, and caches it.
pub proof fn lemma_read_after_remove<D, L>(
    c0: ApiKeyCache,
    delete: D,
    c1: ApiKeyCache,
    load_stored: L,
    r: Option<String>,
    c2: ApiKeyCache,
) where D: FnOnce() -> Result<(), CaptionError>, L: FnOnce() -> Option<String>
    requires
        remove_outcome(c0, delete, Ok(()), c1),
        read_outcome(c1, load_stored, r, c2),
    ensures
        call_ensures(load_stored, (), r),
        c2.key == r,
{
}

/// A failed save or removal changes nothing a later read sees: the read
/// answers, and leaves the cache, exactly as it would have before the attempt.
pub proof fn lemma_failed_write_keeps_reads<P, D, L>(
    c0: ApiKeyCache,
    api_key: &str,
    persist: P,
    delete: D,
    e: CaptionError,
    c1: ApiKeyCache,
    load_stored: L,
)
    where
        P: FnOnce(&str) -> Result<(), CaptionError>,
        D: FnOnce() -> Result<(), CaptionError>,
        L: FnOnce() -> Option<String>,
    requires
        save_outcome(c0, api_key, persist, Err(e), c1) || remove_outcome(c0, delete, Err(e), c1),
    ensures
        forall|r: Option<String>, c2: ApiKeyCache|
            #[trigger] read_outcome(c1, load_stored, r, c2) == read_outcome(c0, load_stored, r, c2),
{
}

/// The key in effect: the stored one, else the environment's.
pub open spec fn effective_key(stored: Option<String>, env: Option<String>) -> Option<String> {
    if stored is Some {
        stored
    } else {
        env
    }
}

/// AI cleaning is available exactly when a key is in effect, and a stored
/// key takes priority over the environment's.
pub proof fn lemma_available_iff_key_in_effect(stored: Option<String>, env: Option<String>)
    ensures
        (stored is Some || env is Some) == (effective_key(stored, env) is Some),
        stored is Some ==> effective_key(stored, env) == stored,
        stored is None ==> effective_key(stored, env) == env,
{
}

/// The API key in effect: the stored key takes priority over the
/// `GROQ_API_KEY` environment variable.
pub fn get_effective_api_key(stored: Option<String>, env: Option<String>) -> (r: Option<String>)
    ensures
        r == effective_key(stored, env),
{
    match stored {
        Some(k) => Some(k),
        None => env,
    }
}

/// Whether AI cleaning can run: a key is stored or set in the environment.
pub fn is_api_key_configured(stored: &Option<String>, env: &Option<String>) -> (r: bool)
    ensures
        r == (stored is Some || env is Some),
{
    stored.is_some() || env.is_some()
}

/// The key to save for what the user entered: the entry trimmed; a blank
/// entry is refused with `SettingsError("API key cannot be empty")`.
pub fn checked_api_key(input: &str) -> (r: Result<String, CaptionError>)
    ensures
        all_ws(input@) ==> (r matches Err(CaptionError::SettingsError(m)) && m@
            == "API key cannot be empty"@),
        !all_ws(input@) ==> (r matches Ok(k) && k@ == trim(input@)),
{
    let v = chars_of(input);
    if is_blank(&v) {
        return Err(CaptionError::SettingsError("API key cannot be empty".to_owned()));
    }
    Ok(string_from_chars(&trim_chars(&v)))
}

/// `n` asterisks.
pub open spec fn stars(n: nat) -> Seq<char> {
    Seq::new(n, |i: int| '*')
}

/// The masked form of an API key: as many `*` as the key has characters
/// when it has at most 12; else its first 8 characters, at most 8 `*` (one
/// per character past the 12th), `...` and its last 4 characters.
pub open spec fn masked_key(key: Seq<char>) -> Seq<char> {
    let n = key.len();
    if n <= 12 {
        stars(n)
    } else {
        let shown = if n - 12 < 8 {
            (n - 12) as nat
        } else {
            8nat
        };
        key.take(8) + stars(shown) + "..."@ + key.skip(n - 4)
    }
}

/// What the user sees of a key: a key of at most 12 characters is all
/// asterisks, one per character; a longer one shows its first 8 characters,
/// then one asterisk per character past the 12th (at most 8), then `...`,
/// then its last 4 characters.
pub proof fn lemma_masked_key_shape(key: Seq<char>)
    ensures
        key.len() <= 12 ==> masked_key(key).len() == key.len() && forall|i: int|
            0 <= i < key.len() ==> #[trigger] masked_key(key)[i] == '*',
        key.len() > 12 ==> {
            let n = key.len() as int;
            let m = masked_key(key);
            let st = if n - 12 < 8 {
                n - 12
            } else {
                8
            };
            &&& m.len() == st + 15
            &&& m.take(8) == key.take(8)
            &&& forall|i: int| 8 <= i < 8 + st ==> #[trigger] m[i] == '*'
            &&& m.subrange(8 + st, 11 + st) == seq!['.', '.', '.']
            &&& m.skip(11 + st) == key.skip(n - 4)
        },
{
    reveal_strlit("...");
    let n = key.len() as int;
    let m = masked_key(key);
    if n > 12 {
        let st: int = if n - 12 < 8 {
            n - 12
        } else {
            8
        };
        let a = key.take(8);
        let b = stars(st as nat);
        let c = "..."@;
        let d = key.skip(n - 4);
        assert(m == a + b + c + d);
        assert(c =~= seq!['.', '.', '.']);
        assert(m.take(8) =~= a);
        assert forall|i: int| 8 <= i < 8 + st implies #[trigger] m[i] == '*' by {
            assert(m[i] == b[i - 8]);
        }
        assert(m.subrange(8 + st, 11 + st) =~= c);
        assert(m.skip(11 + st) =~= d);
    }
}

/// `n` asterisks.
fn star_chars(n: usize) -> (r: Vec<char>)
    ensures
        r@ == stars(n as nat),
{
    let mut r: Vec<char> = Vec::new();
    let mut i: usize = 0;
    while i < n
        invariant
            i <= n,
            r@ == stars(i as nat),
        decreases n - i,
    {
        r.push('*');
        i = i + 1;
        assert(r@ =~= stars(i as nat));
    }
    r
}

/// The key as shown to the user: see `masked_key`.
pub fn mask_api_key(key: &str) -> (r: String)
    ensures
        r@ == masked_key(key@),
{
    let v = chars_of(key);
    let n = v.len();
    if n <= 12 {
        return string_from_chars(&star_chars(n));
    }
    let shown: usize = if n - 12 < 8 {
        n - 12
    } else {
        8
    };
    let mut out = copy_range(&v, 0, 8);
    let st = star_chars(shown);
    push_all(&mut out, &st);
    let dots = chars_of("...");
    push_all(&mut out, &dots);
    let tail = copy_range(&v, n - 4, n);
    push_all(&mut out, &tail);
    assert(v@.subrange(0, 8) =~= v@.take(8));
    assert(v@.subrange(n - 4, n as int) =~= v@.skip(n - 4));
    string_from_chars(&out)
}

} // verus!
