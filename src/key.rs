//! The record that every part of the extractor passes around: one Fluent key,
//! where it comes from and where it is written.
use std::sync::Arc;
use vstd::prelude::*;
use crate::fluent::FluentEntry;
use crate::text::text_eq;

verus! {

/// One key: derived from a call site in code, or imported from a Fluent file.
#[derive(Clone, Debug)]
pub struct FluentKey {
    /// Source file of the call site; empty for imported keys.
    pub code_path: String,
    /// The Fluent identifier; empty for comments.
    pub key: String,
    pub entry: Arc<FluentEntry>,
    /// Target Fluent file, relative to the locale directory.
    pub path: String,
    /// Set on imported keys only.
    pub locale: Option<String>,
    /// Index of the entry in its Fluent file; `usize::MAX` for keys derived from code,
    /// so that they come after everything already in the file.
    pub position: usize,
    /// Names of the messages that this key's pattern refers to.
    pub depends_on_keys: Vec<String>,
    /// The entry as the Fluent serializer writes it: what a retired entry's comment quotes.
    pub rendered: String,
}

/// Why extraction stops.
#[derive(Debug)]
pub enum ExtractError {
    /// One key is routed to two different Fluent files.
    PathConflict { key: String, first_path: String, second_path: String },
    /// One key is generated with two different messages.
    MessageConflict { key: String },
    /// A pattern refers to a message or term that does not exist.
    MissingReference { id: String, path: String },
    /// A Fluent file holds an entry that may not be imported.
    UnsupportedEntry { path: String, position: usize },
}

impl FluentKey {
    /// A key with no rendering; `position` defaults to `usize::MAX`.
    pub fn new(
        code_path: String,
        key: String,
        entry: FluentEntry,
        path: String,
        locale: Option<String>,
        position: Option<usize>,
        depends_on_keys: Vec<String>,
    ) -> (r: FluentKey)
        ensures
            r.code_path == code_path,
            r.key == key,
            *r.entry == entry,
            r.path == path,
            r.locale == locale,
            r.position == (match position {
                Some(p) => p,
                None => usize::MAX,
            }),
            r.depends_on_keys == depends_on_keys,
            r.rendered@ == Seq::<char>::empty(),
    {
        FluentKey {
            code_path,
            key,
            entry: Arc::new(entry),
            path,
            locale,
            position: match position {
                Some(p) => p,
                None => usize::MAX,
            },
            depends_on_keys,
            rendered: String::new(),
        }
    }

    /// The same key, with `rendered` as the text of its entry.
    pub fn with_rendered(self, rendered: String) -> (r: FluentKey)
        ensures
            r == (FluentKey { rendered, ..self }),
    {
        FluentKey { rendered, ..self }
    }
}

/// Whether no two keys of `s` have the same name.
pub open spec fn keys_unique(s: Seq<FluentKey>) -> bool {
    forall|i: int, j: int|
        0 <= i < j < s.len() ==> #[trigger] s[i].key@ != #[trigger] s[j].key@
}

/// Whether `s` holds a key named `k`.
pub open spec fn has_key(s: Seq<FluentKey>, k: Seq<char>) -> bool {
    exists|i: int| 0 <= i < s.len() && #[trigger] s[i].key@ == k
}

/// The first index of a key named `k` in `s`.
pub open spec fn key_index(s: Seq<FluentKey>, k: Seq<char>) -> Option<int> {
    if has_key(s, k) {
        Some(
            choose|i: int|
                0 <= i < s.len() && #[trigger] s[i].key@ == k && forall|j: int|
                    0 <= j < i ==> s[j].key@ != k,
        )
    } else {
        None
    }
}

proof fn lemma_key_index(s: Seq<FluentKey>, k: Seq<char>, i: int)
    requires
        0 <= i < s.len(),
        s[i].key@ == k,
        forall|j: int| 0 <= j < i ==> s[j].key@ != k,
    ensures
        key_index(s, k) == Some(i),
{
    assert(has_key(s, k));
    let c = choose|c: int|
        0 <= c < s.len() && #[trigger] s[c].key@ == k && forall|j: int| 0 <= j < c ==> s[j].key@ != k;
    assert(c == i) by {
        if c < i {
        } else if c > i {
        }
    }
}

/// With unique names, a key named `k` is found where it stands.
pub proof fn lemma_key_index_found(s: Seq<FluentKey>, k: Seq<char>)
    requires
        keys_unique(s),
        key_index(s, k) is Some,
    ensures
        0 <= key_index(s, k)->Some_0 < s.len(),
        s[key_index(s, k)->Some_0].key@ == k,
{
    let i = choose|i: int| 0 <= i < s.len() && #[trigger] s[i].key@ == k;
    assert forall|j: int| 0 <= j < i implies s[j].key@ != k by {
        assert(s[j].key@ != s[i].key@);
    }
    lemma_key_index(s, k, i);
}

/// Where the key named `k` stands in `keys`, if it is there.
pub fn find_key(keys: &Vec<FluentKey>, k: &str) -> (r: Option<usize>)
    ensures
        r is Some ==> key_index(keys@, k@) == Some(r->0 as int),
        r is None ==> key_index(keys@, k@) is None,
        r is Some ==> r->0 < keys.len() && keys@[r->0 as int].key@ == k@,
{
    let mut i: usize = 0;
    while i < keys.len()
        invariant
            i <= keys.len(),
            forall|j: int| 0 <= j < i ==> keys@[j].key@ != k@,
        decreases keys.len() - i,
    {
        if text_eq(keys[i].key.as_str(), k) {
            proof {
                lemma_key_index(keys@, k@, i as int);
            }
            return Some(i);
        }
        i += 1;
    }
    assert(!has_key(keys@, k@));
    None
}

/// What a key holds, with its strings as characters: code path, key, entry,
/// path, locale, position, referenced names and rendering.
pub type KeyView = (
    Seq<char>,
    Seq<char>,
    FluentEntry,
    Seq<char>,
    Option<Seq<char>>,
    usize,
    Seq<Seq<char>>,
    Seq<char>,
);

pub open spec fn key_view(k: FluentKey) -> KeyView {
    (
        k.code_path@,
        k.key@,
        *k.entry,
        k.path@,
        match k.locale {
            Some(l) => Some(l@),
            None => None,
        },
        k.position,
        k.depends_on_keys@.map_values(|d: String| d@),
        k.rendered@,
    )
}

/// The keys of `s` by name: what a map from names to keys would hold.
pub open spec fn key_map(s: Seq<FluentKey>) -> Map<Seq<char>, KeyView> {
    Map::new(|k: Seq<char>| has_key(s, k), |k: Seq<char>| key_view(s[key_index(s, k)->Some_0]))
}

/// With unique names, the key at `i` is found at `i`.
pub proof fn lemma_index_of_unique(s: Seq<FluentKey>, i: int)
    requires
        keys_unique(s),
        0 <= i < s.len(),
    ensures
        key_index(s, s[i].key@) == Some(i),
{
    assert forall|j: int| 0 <= j < i implies s[j].key@ != s[i].key@ by {}
    lemma_key_index(s, s[i].key@, i);
}

/// Adding a key of a new name adds it to the map.
pub proof fn lemma_key_map_push(s: Seq<FluentKey>, k: FluentKey)
    requires
        keys_unique(s),
        !has_key(s, k.key@),
    ensures
        keys_unique(s.push(k)),
        key_map(s.push(k)) == key_map(s).insert(k.key@, key_view(k)),
{
    let t = s.push(k);
    assert(keys_unique(t)) by {
        assert forall|i: int, j: int| 0 <= i < j < t.len() implies #[trigger] t[i].key@
            != #[trigger] t[j].key@ by {
            if j == s.len() {
                assert(t[i] == s[i]);
            } else {
                assert(t[i] == s[i] && t[j] == s[j]);
            }
        }
    }
    assert(key_map(t) =~= key_map(s).insert(k.key@, key_view(k))) by {
        assert forall|x: Seq<char>| key_map(t).contains_key(x) <==> key_map(s).insert(
            k.key@,
            key_view(k),
        ).contains_key(x) by {
            if has_key(t, x) && x != k.key@ {
                let i = choose|i: int| 0 <= i < t.len() && #[trigger] t[i].key@ == x;
                assert(t[i] == s[i]);
            }
            if has_key(s, x) {
                let i = choose|i: int| 0 <= i < s.len() && #[trigger] s[i].key@ == x;
                assert(t[i] == s[i]);
            }
            if x == k.key@ {
                assert(t[s.len() as int].key@ == x);
            }
        }
        assert forall|x: Seq<char>| #[trigger] key_map(t).contains_key(x) implies key_map(t)[x]
            == key_map(s).insert(k.key@, key_view(k))[x] by {
            if x == k.key@ {
                lemma_index_of_unique(t, s.len() as int);
            } else {
                let i = choose|i: int| 0 <= i < t.len() && #[trigger] t[i].key@ == x;
                assert(i < s.len());
                assert(t[i] == s[i]);
                lemma_index_of_unique(t, i);
                lemma_index_of_unique(s, i);
            }
        }
    }
}

/// Replacing the key of a name replaces it in the map.
pub proof fn lemma_key_map_update(s: Seq<FluentKey>, j: int, k: FluentKey)
    requires
        keys_unique(s),
        0 <= j < s.len(),
        s[j].key@ == k.key@,
    ensures
        keys_unique(s.update(j, k)),
        key_map(s.update(j, k)) == key_map(s).insert(k.key@, key_view(k)),
{
    let t = s.update(j, k);
    assert(keys_unique(t)) by {
        assert forall|a: int, b: int| 0 <= a < b < t.len() implies #[trigger] t[a].key@
            != #[trigger] t[b].key@ by {
            assert(t[a].key@ == s[a].key@ && t[b].key@ == s[b].key@);
        }
    }
    assert(key_map(t) =~= key_map(s).insert(k.key@, key_view(k))) by {
        assert forall|x: Seq<char>| key_map(t).contains_key(x) <==> key_map(s).insert(
            k.key@,
            key_view(k),
        ).contains_key(x) by {
            if has_key(t, x) {
                let i = choose|i: int| 0 <= i < t.len() && #[trigger] t[i].key@ == x;
                assert(s[i].key@ == x);
            }
            if has_key(s, x) {
                let i = choose|i: int| 0 <= i < s.len() && #[trigger] s[i].key@ == x;
                assert(t[i].key@ == x);
            }
            if x == k.key@ {
                assert(t[j].key@ == x);
            }
        }
        assert forall|x: Seq<char>| #[trigger] key_map(t).contains_key(x) implies key_map(t)[x]
            == key_map(s).insert(k.key@, key_view(k))[x] by {
            let i = choose|i: int| 0 <= i < t.len() && #[trigger] t[i].key@ == x;
            lemma_index_of_unique(t, i);
            assert(s[i].key@ == x);
            lemma_index_of_unique(s, i);
        }
    }
}

/// Puts `k` in `keys` under its name, in place of any key of that name.
pub fn upsert_key(keys: &mut Vec<FluentKey>, k: FluentKey)
    requires
        keys_unique(old(keys)@),
    ensures
        keys_unique(final(keys)@),
        key_map(final(keys)@) == key_map(old(keys)@).insert(k.key@, key_view(k)),
{
    match find_key(keys, k.key.as_str()) {
        Some(j) => {
            proof {
                lemma_key_index_found(keys@, k.key@);
                lemma_key_map_update(keys@, j as int, k);
            }
            keys.set(j, k);
        },
        None => {
            proof {
                if has_key(keys@, k.key@) {
                    let i = choose|i: int| 0 <= i < keys@.len() && #[trigger] keys@[i].key@ == k.key@;
                    lemma_index_of_unique(keys@, i);
                }
                lemma_key_map_push(keys@, k);
            }
            keys.push(k);
        },
    }
}

} // verus!
