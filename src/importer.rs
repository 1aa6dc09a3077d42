//! The Fluent importer: classifies the entries of one parsed Fluent file.
use std::sync::Arc;
use vstd::prelude::*;
use crate::fluent::FluentEntry;
use crate::key::{ExtractError, FluentKey, KeyView, key_map, key_view, keys_unique, upsert_key};

verus! {

/// One top-level entry of a parsed Fluent file, with its text as the Fluent
/// serializer writes it.
#[derive(Debug)]
pub struct ImportedEntry {
    pub entry: FluentEntry,
    pub rendered: String,
}

/// The id of a message or term; empty for other entries.
pub open spec fn entry_id(e: FluentEntry) -> Seq<char> {
    match e {
        FluentEntry::Message(m) => m.id@,
        FluentEntry::Term(t) => t.id@,
        _ => seq![],
    }
}

/// The key that the entry at `position` of file `path` becomes.
pub open spec fn imported_view(
    e: ImportedEntry,
    position: int,
    path: Seq<char>,
    locale: Seq<char>,
) -> KeyView {
    (seq![], entry_id(e.entry), e.entry, path, Some(locale), position as usize, seq![], e.rendered@)
}

/// Messages and terms by name, and the other entries in order, after the first
/// `n` entries of `body`; or the position of a junk entry when junk may not be
/// imported. A later message or term of a name replaces an earlier one.
pub open spec fn imported(
    body: Seq<ImportedEntry>,
    n: int,
    msgs: Map<Seq<char>, KeyView>,
    terms: Map<Seq<char>, KeyView>,
    misc: Seq<KeyView>,
    path: Seq<char>,
    locale: Seq<char>,
    comment_junks: bool,
) -> Result<(Map<Seq<char>, KeyView>, Map<Seq<char>, KeyView>, Seq<KeyView>), int>
    decreases n,
{
    if n <= 0 {
        Ok((msgs, terms, misc))
    } else {
        match imported(body, n - 1, msgs, terms, misc, path, locale, comment_junks) {
            Err(p) => Err(p),
            Ok(st) => {
                let e = body[n - 1];
                let v = imported_view(e, n - 1, path, locale);
                match e.entry {
                    FluentEntry::Message(_) => Ok((st.0.insert(v.1, v), st.1, st.2)),
                    FluentEntry::Term(_) => Ok((st.0, st.1.insert(v.1, v), st.2)),
                    FluentEntry::Junk(_) => if comment_junks {
                        Ok((st.0, st.1, st.2.push(v)))
                    } else {
                        Err(n - 1)
                    },
                    _ => Ok((st.0, st.1, st.2.push(v))),
                }
            },
        }
    }
}

/// The keys of `s` as views, in order.
pub open spec fn key_views(s: Seq<FluentKey>) -> Seq<KeyView> {
    s.map_values(|k: FluentKey| key_view(k))
}

/// Adds the entries of one Fluent file to the messages, terms and other entries
/// imported so far: messages and terms by name, comments (and junk, when it is
/// to be commented) in order. Each records its position in the file.
pub fn process_raw_ftl(
    body: Vec<ImportedEntry>,
    path: &String,
    locale: &String,
    comment_junks: bool,
    ftl_keys: &mut Vec<FluentKey>,
    terms: &mut Vec<FluentKey>,
    leave_as_is_keys: &mut Vec<FluentKey>,
) -> (r: Result<(), ExtractError>)
    requires
        keys_unique(old(ftl_keys)@),
        keys_unique(old(terms)@),
    ensures
        match imported(
            body@,
            body@.len() as int,
            key_map(old(ftl_keys)@),
            key_map(old(terms)@),
            key_views(old(leave_as_is_keys)@),
            path@,
            locale@,
            comment_junks,
        ) {
            Ok(st) => {
                &&& r is Ok
                &&& keys_unique(final(ftl_keys)@)
                &&& keys_unique(final(terms)@)
                &&& key_map(final(ftl_keys)@) == st.0
                &&& key_map(final(terms)@) == st.1
                &&& key_views(final(leave_as_is_keys)@) == st.2
            },
            Err(p) => r matches Err(ExtractError::UnsupportedEntry { path: q, position })
                && q@ == path@ && position == p,
        },
{
    broadcast use vstd::seq::group_seq_axioms;

    let ghost all = body@;
    let len0 = body.len();
    let ghost n = len0 as nat;
    let ghost m0 = key_map(old(ftl_keys)@);
    let ghost t0 = key_map(old(terms)@);
    let ghost x0 = key_views(old(leave_as_is_keys)@);
    let mut rest = body;
    let mut position: usize = 0;
    while rest.len() > 0
        invariant
            all == body@,
            m0 == key_map(old(ftl_keys)@),
            t0 == key_map(old(terms)@),
            x0 == key_views(old(leave_as_is_keys)@),
            all.len() == n,
            n <= usize::MAX,
            position + rest@.len() == n,
            rest@ == all.subrange(position as int, n as int),
            keys_unique(ftl_keys@),
            keys_unique(terms@),
            imported(all, position as int, m0, t0, x0, path@, locale@, comment_junks) == Ok::<
                (Map<Seq<char>, KeyView>, Map<Seq<char>, KeyView>, Seq<KeyView>),
                int,
            >((key_map(ftl_keys@), key_map(terms@), key_views(leave_as_is_keys@))),
        decreases rest@.len(),
    {
        let e = rest.remove(0);
        let ghost ge = e;
        assert(ge == all[position as int]);
        let ghost v = imported_view(ge, position as int, path@, locale@);
        let ImportedEntry { entry, rendered } = e;
        let id = match &entry {
            FluentEntry::Message(m) => m.id.clone(),
            FluentEntry::Term(t) => t.id.clone(),
            _ => String::new(),
        };
        let is_message = matches!(entry, FluentEntry::Message(_));
        let is_term = matches!(entry, FluentEntry::Term(_));
        let is_junk = matches!(entry, FluentEntry::Junk(_));
        if is_junk && !comment_junks {
            proof {
                assert(imported(all, position + 1, m0, t0, x0, path@, locale@, comment_junks) == Err::<
                    (Map<Seq<char>, KeyView>, Map<Seq<char>, KeyView>, Seq<KeyView>),
                    int,
                >(position as int));
                lemma_imported_error_stays(all, position + 1, n as int, m0, t0, x0, path@, locale@, comment_junks);
            }
            let r = Err(ExtractError::UnsupportedEntry { path: path.clone(), position });
            return r;
        }
        let key = FluentKey {
            code_path: String::new(),
            key: id,
            entry: Arc::new(entry),
            path: path.clone(),
            locale: Some(locale.clone()),
            position,
            depends_on_keys: Vec::new(),
            rendered,
        };
        assert(key_view(key) =~= v);
        if is_message {
            upsert_key(ftl_keys, key);
        } else if is_term {
            upsert_key(terms, key);
        } else {
            let ghost before = leave_as_is_keys@;
            leave_as_is_keys.push(key);
            assert(key_views(leave_as_is_keys@) =~= key_views(before).push(v));
        }
        position += 1;
        assert(rest@ =~= all.subrange(position as int, n as int));
    }
    assert(position == n);
    Ok(())
}

proof fn lemma_imported_error_stays(
    body: Seq<ImportedEntry>,
    k: int,
    n: int,
    msgs: Map<Seq<char>, KeyView>,
    terms: Map<Seq<char>, KeyView>,
    misc: Seq<KeyView>,
    path: Seq<char>,
    locale: Seq<char>,
    comment_junks: bool,
)
    requires
        1 <= k <= n,
        imported(body, k, msgs, terms, misc, path, locale, comment_junks) is Err,
    ensures
        imported(body, n, msgs, terms, misc, path, locale, comment_junks) == imported(
            body,
            k,
            msgs,
            terms,
            misc,
            path,
            locale,
            comment_junks,
        ),
    decreases n - k,
{
    if k < n {
        lemma_imported_error_stays(body, k, n - 1, msgs, terms, misc, path, locale, comment_junks);
    }
}

} // verus!
