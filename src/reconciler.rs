//! The per-locale reconciler: what becomes of each key found in code and each
//! key stored in the locale's Fluent files.
use vstd::prelude::*;
use crate::commentator::comment_ftl_key;
use crate::consts::CommentsKeyModes;
use crate::fluent::FluentEntry;
use crate::key::{
    ExtractError, FluentKey, find_key, has_key, key_index, key_view, keys_unique,
    lemma_key_index_found,
};
use crate::placeholders::{extract_kwargs, key_refs, resolution};
use crate::text::{contains_name, insert_name, names};

verus! {

/// A copy of `k`.
pub fn copy_key(k: &FluentKey) -> (r: FluentKey)
    ensures
        key_view(r) == key_view(*k),
        r.key == k.key,
        r.entry == k.entry,
        r.path == k.path,
        r.code_path == k.code_path,
        r.position == k.position,
{
    let mut deps: Vec<String> = Vec::new();
    let mut i: usize = 0;
    while i < k.depends_on_keys.len()
        invariant
            i <= k.depends_on_keys.len(),
            deps@ == k.depends_on_keys@.subrange(0, i as int),
        decreases k.depends_on_keys.len() - i,
    {
        deps.push(k.depends_on_keys[i].clone());
        assert(deps@ =~= k.depends_on_keys@.subrange(0, i + 1));
        i += 1;
    }
    assert(deps@ =~= k.depends_on_keys@);
    let locale = match &k.locale {
        Some(l) => Some(l.clone()),
        None => None,
    };
    FluentKey {
        code_path: k.code_path.clone(),
        key: k.key.clone(),
        entry: k.entry.clone(),
        path: k.path.clone(),
        locale,
        position: k.position,
        depends_on_keys: deps,
        rendered: k.rendered.clone(),
    }
}

/// Whether two vectors hold the same names.
pub fn same_names(a: &Vec<String>, b: &Vec<String>) -> (r: bool)
    ensures
        r == (names(a@) == names(b@)),
{
    let mut i: usize = 0;
    while i < a.len()
        invariant
            i <= a.len(),
            forall|j: int| 0 <= j < i ==> names(b@).contains(#[trigger] a@[j]@),
        decreases a.len() - i,
    {
        if !contains_name(b, a[i].as_str()) {
            assert(names(a@).contains(a@[i as int]@));
            return false;
        }
        i += 1;
    }
    let mut k: usize = 0;
    while k < b.len()
        invariant
            k <= b.len(),
            forall|j: int| 0 <= j < a.len() ==> names(b@).contains(#[trigger] a@[j]@),
            forall|j: int| 0 <= j < k ==> names(a@).contains(#[trigger] b@[j]@),
        decreases b.len() - k,
    {
        if !contains_name(a, b[k].as_str()) {
            assert(names(b@).contains(b@[k as int]@));
            return false;
        }
        k += 1;
    }
    assert(names(a@) =~= names(b@)) by {
        assert forall|x: Seq<char>| names(a@).contains(x) implies names(b@).contains(x) by {
            let j = choose|j: int| 0 <= j < a@.len() && #[trigger] a@[j]@ == x;
        }
        assert forall|x: Seq<char>| names(b@).contains(x) implies names(a@).contains(x) by {
            let j = choose|j: int| 0 <= j < b@.len() && #[trigger] b@[j]@ == x;
        }
    }
    true
}

/// Keys whose name is outside `ns`.
pub open spec fn name_outside(ns: Set<Seq<char>>) -> spec_fn(FluentKey) -> bool {
    |k: FluentKey| !ns.contains(k.key@)
}

/// Keys whose name is in `ns`.
pub open spec fn name_inside(ns: Set<Seq<char>>) -> spec_fn(FluentKey) -> bool {
    |k: FluentKey| ns.contains(k.key@)
}

/// One more element either joins the filtered prefix or not.
pub proof fn lemma_filter_step(s: Seq<FluentKey>, i: int, p: spec_fn(FluentKey) -> bool)
    requires
        0 <= i < s.len(),
    ensures
        s.subrange(0, i + 1).filter(p) == (if p(s[i]) {
            s.subrange(0, i).filter(p).push(s[i])
        } else {
            s.subrange(0, i).filter(p)
        }),
{
    reveal(Seq::filter);
    let t = s.subrange(0, i + 1);
    assert(t.drop_last() =~= s.subrange(0, i));
    assert(t.last() == s[i]);
}

/// Splits `keys`, in order, into the keys whose name is outside `ns` and those
/// whose name is in it.
pub fn split_by_names(keys: Vec<FluentKey>, ns: &Vec<String>) -> (r: (Vec<FluentKey>, Vec<FluentKey>))
    ensures
        r.0@ == keys@.filter(name_outside(names(ns@))),
        r.1@ == keys@.filter(name_inside(names(ns@))),
{
    let ghost all = keys@;
    let len0 = keys.len();
    let ghost n = len0 as nat;
    let ghost po = name_outside(names(ns@));
    let ghost pi = name_inside(names(ns@));
    let mut rest = keys;
    let mut kept: Vec<FluentKey> = Vec::new();
    let mut taken: Vec<FluentKey> = Vec::new();
    let mut i: usize = 0;
    proof {
        reveal(Seq::filter);
        assert(all.subrange(0, 0) =~= Seq::<FluentKey>::empty());
    }
    while rest.len() > 0
        invariant
            all == keys@,
            n == all.len(),
            n <= usize::MAX,
            i + rest@.len() == n,
            rest@ == all.subrange(i as int, n as int),
            po == name_outside(names(ns@)),
            pi == name_inside(names(ns@)),
            kept@ == all.subrange(0, i as int).filter(po),
            taken@ == all.subrange(0, i as int).filter(pi),
        decreases rest@.len(),
    {
        let k = rest.remove(0);
        assert(k == all[i as int]);
        proof {
            lemma_filter_step(all, i as int, po);
            lemma_filter_step(all, i as int, pi);
        }
        if contains_name(ns, k.key.as_str()) {
            taken.push(k);
        } else {
            kept.push(k);
        }
        i += 1;
        assert(rest@ =~= all.subrange(i as int, n as int));
    }
    assert(all.subrange(0, n as int) =~= all);
    (kept, taken)
}

/// The key named `k` in `s`.
pub open spec fn named(s: Seq<FluentKey>, k: Seq<char>) -> FluentKey {
    s[key_index(s, k)->Some_0]
}

/// Whether key `k` is in code and stored, with another target file.
pub open spec fn moved(code: Seq<FluentKey>, stored: Seq<FluentKey>, k: Seq<char>) -> bool {
    has_key(code, k) && has_key(stored, k) && named(code, k).path@ != named(stored, k).path@
}

pub open spec fn moved_names(code: Seq<FluentKey>, stored: Seq<FluentKey>) -> Set<Seq<char>> {
    Set::new(|k: Seq<char>| moved(code, stored, k))
}

/// The signature comparison over the first `i` code keys: the names whose
/// placeholders differ between code and store, and the messages referenced on
/// the way (from both sides), or the first name that refers to nothing.
pub open spec fn scan(
    code: Seq<FluentKey>,
    stored: Seq<FluentKey>,
    terms: Seq<FluentKey>,
    i: int,
) -> Result<(Set<Seq<char>>, Set<Seq<char>>), Seq<char>>
    decreases i,
{
    if i <= 0 {
        Ok((Set::empty(), Set::empty()))
    } else {
        match scan(code, stored, terms, i - 1) {
            Err(e) => Err(e),
            Ok(st) => {
                let c = code[i - 1];
                if !has_key(stored, c.key@) {
                    Ok(st)
                } else {
                    let s = named(stored, c.key@);
                    match resolution(c, key_refs(c), terms, code) {
                        Err(e) => Err(e),
                        Ok(rc) => match resolution(s, key_refs(s), terms, stored) {
                            Err(e) => Err(e),
                            Ok(rs) => Ok(
                                (
                                    if rc.0 != rs.0 {
                                        st.0.insert(c.key@)
                                    } else {
                                        st.0
                                    },
                                    st.1 + rc.1 + rs.1,
                                ),
                            ),
                        },
                    }
                }
            },
        }
    }
}

/// Whether one of the first `i` keys of `s` is named `k`.
pub open spec fn seen(s: Seq<FluentKey>, i: int, k: Seq<char>) -> bool {
    exists|j: int| 0 <= j < i && #[trigger] s[j].key@ == k
}

/// Names of the keys moved to another file.
fn moved_key_names(code: &Vec<FluentKey>, stored: &Vec<FluentKey>) -> (r: Vec<String>)
    requires
        keys_unique(code@),
        keys_unique(stored@),
    ensures
        names(r@) == moved_names(code@, stored@),
{
    let mut r: Vec<String> = Vec::new();
    let mut i: usize = 0;
    while i < code.len()
        invariant
            i <= code.len(),
            keys_unique(code@),
            keys_unique(stored@),
            names(r@) == Set::new(|k: Seq<char>| moved(code@, stored@, k) && seen(code@, i as int, k)),
        decreases code.len() - i,
    {
        let ghost before = names(r@);
        let ghost k = code@[i as int].key@;
        proof {
            crate::key::lemma_index_of_unique(code@, i as int);
        }
        match find_key(stored, code[i].key.as_str()) {
            Some(j) => {
                proof {
                    lemma_key_index_found(stored@, k);
                }
                if stored[j].path != code[i].path {
                    insert_name(&mut r, code[i].key.clone());
                }
            },
            None => {},
        }
        assert(names(r@) =~= Set::new(
            |x: Seq<char>| moved(code@, stored@, x) && seen(code@, i + 1, x),
        )) by {
            assert forall|x: Seq<char>| #[trigger] seen(code@, i + 1, x) <==> (seen(code@, i as int, x) || x == k) by {
                if x == k {
                    assert(code@[i as int].key@ == x);
                }
                if seen(code@, i + 1, x) && x != k {
                    let j = choose|j: int| 0 <= j < i + 1 && #[trigger] code@[j].key@ == x;
                    assert(j < i);
                }
            }
        }
        i += 1;
    }
    assert(names(r@) =~= moved_names(code@, stored@)) by {
        assert forall|x: Seq<char>| moved(code@, stored@, x) implies seen(code@, code@.len() as int, x) by {
            let j = choose|j: int| 0 <= j < code@.len() && #[trigger] code@[j].key@ == x;
        }
    }
    r
}

/// Compares the placeholders of every code key that is stored, code side against
/// the code keys, store side against `stored`; returns the names that differ and
/// the messages referenced on the way.
fn scan_signatures(code: &Vec<FluentKey>, stored: &Vec<FluentKey>, terms: &Vec<FluentKey>) -> (r:
    Result<(Vec<String>, Vec<String>), ExtractError>)
    requires
        keys_unique(stored@),
        code.len() + terms.len() <= usize::MAX,
        stored.len() + terms.len() <= usize::MAX,
    ensures
        match scan(code@, stored@, terms@, code@.len() as int) {
            Ok(st) => r is Ok && names(r->Ok_0.0@) == st.0 && names(r->Ok_0.1@) == st.1,
            Err(id) => r matches Err(ExtractError::MissingReference { id: m, .. }) && m@ == id,
        },
{
    let mut drifted: Vec<String> = Vec::new();
    let mut referenced: Vec<String> = Vec::new();
    let mut i: usize = 0;
    assert(names(drifted@) =~= Set::<Seq<char>>::empty());
    assert(names(referenced@) =~= Set::<Seq<char>>::empty());
    while i < code.len()
        invariant
            i <= code.len(),
            keys_unique(stored@),
            code.len() + terms.len() <= usize::MAX,
            stored.len() + terms.len() <= usize::MAX,
            scan(code@, stored@, terms@, i as int) == Ok::<(Set<Seq<char>>, Set<Seq<char>>), Seq<char>>(
                (names(drifted@), names(referenced@)),
            ),
        decreases code.len() - i,
    {
        let ghost c = code@[i as int];
        match find_key(stored, code[i].key.as_str()) {
            None => {},
            Some(j) => {
                proof {
                    lemma_key_index_found(stored@, c.key@);
                }
                let ghost sk = stored@[j as int];
                let mut ck = copy_key(&code[i]);
                let code_args = match extract_kwargs(&mut ck, terms, code, &mut referenced) {
                    Ok(a) => a,
                    Err(e) => {
                        proof {
                            lemma_scan_error_stays(code@, stored@, terms@, i + 1, code@.len() as int);
                        }
                        return Err(e);
                    },
                };
                let mut skc = copy_key(&stored[j]);
                let stored_args = match extract_kwargs(&mut skc, terms, stored, &mut referenced) {
                    Ok(a) => a,
                    Err(e) => {
                        proof {
                            lemma_scan_error_stays(code@, stored@, terms@, i + 1, code@.len() as int);
                        }
                        return Err(e);
                    },
                };
                if !same_names(&code_args, &stored_args) {
                    insert_name(&mut drifted, code[i].key.clone());
                }
                proof {
                    let rc = resolution(c, key_refs(c), terms@, code@)->Ok_0;
                    let rs = resolution(sk, key_refs(sk), terms@, stored@)->Ok_0;
                    assert(names(code_args@) == rc.0);
                    assert(names(stored_args@) == rs.0);
                }
            },
        }
        i += 1;
    }
    Ok((drifted, referenced))
}

proof fn lemma_scan_error_stays(
    code: Seq<FluentKey>,
    stored: Seq<FluentKey>,
    terms: Seq<FluentKey>,
    k: int,
    n: int,
)
    requires
        1 <= k <= n,
        scan(code, stored, terms, k) is Err,
    ensures
        scan(code, stored, terms, n) == scan(code, stored, terms, k),
    decreases n - k,
{
    if k < n {
        lemma_scan_error_stays(code, stored, terms, k, n - 1);
    }
}

/// `a` is `b` as `comment_ftl_key` leaves it.
pub open spec fn commented_version(a: FluentKey, b: FluentKey) -> bool {
    &&& a.code_path == b.code_path
    &&& a.key == b.key
    &&& a.path == b.path
    &&& a.locale == b.locale
    &&& a.position == b.position
    &&& a.depends_on_keys == b.depends_on_keys
    &&& a.rendered == b.rendered
    &&& match *b.entry {
        FluentEntry::Comment(_) | FluentEntry::GroupComment(_) | FluentEntry::ResourceComment(_) => a.entry
            == b.entry,
        _ => *a.entry matches FluentEntry::Comment(c) && crate::matcher::views(c.content@)
            == crate::commentator::comment_lines(b.rendered@),
    }
}

/// The stored keys left once those moved to another file are taken out.
pub open spec fn after_moves(code: Seq<FluentKey>, stored: Seq<FluentKey>) -> Seq<FluentKey> {
    stored.filter(name_outside(moved_names(code, stored)))
}

/// Stored names that the code neither asks for nor reaches through references.
pub open spec fn obsolete_names(
    code: Seq<FluentKey>,
    stored: Seq<FluentKey>,
    referenced: Set<Seq<char>>,
) -> Set<Seq<char>> {
    Set::new(|k: Seq<char>| has_key(stored, k) && !has_key(code, k) && !referenced.contains(k))
}

/// Code keys that are written as new entries: those not stored yet and, when
/// retired keys are commented, those whose stored form is retired.
pub open spec fn adds(
    stored: Set<Seq<char>>,
    retired: Set<Seq<char>>,
    mode: CommentsKeyModes,
) -> spec_fn(FluentKey) -> bool {
    |k: FluentKey| !stored.contains(k.key@) || (mode == CommentsKeyModes::Comment && retired.contains(k.key@))
}

/// Code keys that are not stored yet.
pub open spec fn is_new(stored: Set<Seq<char>>) -> spec_fn(FluentKey) -> bool {
    |k: FluentKey| !stored.contains(k.key@)
}

/// The names of the keys of `s`.
pub open spec fn key_names(s: Seq<FluentKey>) -> Set<Seq<char>> {
    Set::new(|k: Seq<char>| has_key(s, k))
}

/// The names of the keys of `keys`.
fn key_name_list(keys: &Vec<FluentKey>) -> (r: Vec<String>)
    ensures
        names(r@) == key_names(keys@),
{
    let mut r: Vec<String> = Vec::new();
    let mut i: usize = 0;
    assert(names(r@) =~= Set::<Seq<char>>::empty());
    while i < keys.len()
        invariant
            i <= keys.len(),
            names(r@) == Set::new(|k: Seq<char>| seen(keys@, i as int, k)),
        decreases keys.len() - i,
    {
        let ghost k = keys@[i as int].key@;
        insert_name(&mut r, keys[i].key.clone());
        assert(names(r@) =~= Set::new(|x: Seq<char>| seen(keys@, i + 1, x))) by {
            assert forall|x: Seq<char>| #[trigger] seen(keys@, i + 1, x) <==> (seen(keys@, i as int, x) || x == k) by {
                if x == k {
                    assert(keys@[i as int].key@ == x);
                }
                if seen(keys@, i + 1, x) && x != k {
                    let j = choose|j: int| 0 <= j < i + 1 && #[trigger] keys@[j].key@ == x;
                    assert(j < i);
                }
            }
        }
        i += 1;
    }
    assert(names(r@) =~= key_names(keys@)) by {
        assert forall|x: Seq<char>| has_key(keys@, x) implies seen(keys@, keys@.len() as int, x) by {
            let j = choose|j: int| 0 <= j < keys@.len() && #[trigger] keys@[j].key@ == x;
        }
    }
    r
}

/// Filtering keeps names unique.
pub proof fn lemma_filter_unique(s: Seq<FluentKey>, p: spec_fn(FluentKey) -> bool)
    requires
        keys_unique(s),
    ensures
        keys_unique(s.filter(p)),
        s.filter(p).len() <= s.len(),
    decreases s.len(),
{
    reveal(Seq::filter);
    s.lemma_filter_len(p);
    if s.len() > 0 {
        let d = s.drop_last();
        assert(keys_unique(d)) by {
            assert forall|i: int, j: int| 0 <= i < j < d.len() implies #[trigger] d[i].key@
                != #[trigger] d[j].key@ by {
                assert(d[i] == s[i] && d[j] == s[j]);
            }
        }
        lemma_filter_unique(d, p);
        if p(s.last()) {
            let f = d.filter(p);
            let t = f.push(s.last());
            assert forall|i: int, j: int| 0 <= i < j < t.len() implies #[trigger] t[i].key@
                != #[trigger] t[j].key@ by {
                if j == f.len() {
                    assert(t[i] == f[i]);
                    d.lemma_filter_contains_rev(p, f[i]);
                    let k = choose|k: int| 0 <= k < d.len() && d[k] == f[i];
                    assert(s[k] == d[k]);
                    assert(s[k].key@ != s[s.len() - 1].key@);
                } else {
                    assert(t[i] == f[i] && t[j] == f[j]);
                }
            }
        }
    }
}


/// A surviving stored key takes the code path of the code key of its name.
pub open spec fn refreshed(k: FluentKey, code: Seq<FluentKey>) -> FluentKey {
    if has_key(code, k.key@) {
        FluentKey { code_path: named(code, k.key@).code_path, ..k }
    } else {
        k
    }
}

/// What reconciling one locale yields.
pub struct LocaleUpdate {
    /// Stored messages that stay as they are.
    pub stored: Vec<FluentKey>,
    /// Code keys written as new entries.
    pub added: Vec<FluentKey>,
    /// Stored messages retired: moved, changed or no longer used.
    pub commented: Vec<FluentKey>,
    pub terms: Vec<FluentKey>,
    /// Comments, and junk, in file order.
    pub misc: Vec<FluentKey>,
    pub added_count: usize,
    pub updated_count: usize,
    pub commented_count: usize,
}

fn code_key_index(code: &Vec<FluentKey>, k: &String) -> (r: Option<usize>)
    requires
        keys_unique(code@),
    ensures
        r is Some <==> has_key(code@, k@),
        r is Some ==> r->0 < code.len() && code@[r->0 as int] == named(code@, k@),
{
    let r = find_key(code, k.as_str());
    proof {
        if r is Some {
            lemma_key_index_found(code@, k@);
        } else if has_key(code@, k@) {
            let i = choose|i: int| 0 <= i < code@.len() && #[trigger] code@[i].key@ == k@;
            crate::key::lemma_index_of_unique(code@, i);
        }
    }
    r
}

/// Names of the stored keys that nothing uses any more.
fn obsolete_key_names(code: &Vec<FluentKey>, stored: &Vec<FluentKey>, referenced: &Vec<String>) -> (r:
    Vec<String>)
    requires
        keys_unique(code@),
    ensures
        names(r@) == obsolete_names(code@, stored@, names(referenced@)),
{
    let mut r: Vec<String> = Vec::new();
    let mut i: usize = 0;
    assert(names(r@) =~= Set::<Seq<char>>::empty());
    while i < stored.len()
        invariant
            i <= stored.len(),
            keys_unique(code@),
            names(r@) == Set::new(
                |k: Seq<char>|
                    seen(stored@, i as int, k) && !has_key(code@, k) && !names(referenced@).contains(k),
            ),
        decreases stored.len() - i,
    {
        let ghost k = stored@[i as int].key@;
        let in_code = code_key_index(code, &stored[i].key).is_some();
        if !in_code && !contains_name(referenced, stored[i].key.as_str()) {
            insert_name(&mut r, stored[i].key.clone());
        }
        assert(names(r@) =~= Set::new(
            |x: Seq<char>|
                seen(stored@, i + 1, x) && !has_key(code@, x) && !names(referenced@).contains(x),
        )) by {
            assert forall|x: Seq<char>| #[trigger] seen(stored@, i + 1, x) <==> (seen(stored@, i as int, x) || x == k) by {
                if x == k {
                    assert(stored@[i as int].key@ == x);
                }
                if seen(stored@, i + 1, x) && x != k {
                    let j = choose|j: int| 0 <= j < i + 1 && #[trigger] stored@[j].key@ == x;
                    assert(j < i);
                }
            }
        }
        i += 1;
    }
    assert(names(r@) =~= obsolete_names(code@, stored@, names(referenced@))) by {
        assert forall|x: Seq<char>| has_key(stored@, x) implies seen(stored@, stored@.len() as int, x) by {
            let j = choose|j: int| 0 <= j < stored@.len() && #[trigger] stored@[j].key@ == x;
        }
    }
    r
}

/// Copies of the code keys to write as new entries, and how many are not stored yet.
fn build_added(
    code: &Vec<FluentKey>,
    stored: &Vec<String>,
    retired: &Vec<String>,
    mode: CommentsKeyModes,
) -> (r: (Vec<FluentKey>, usize))
    ensures
        crate::importer::key_views(r.0@) == crate::importer::key_views(
            code@.filter(adds(names(stored@), names(retired@), mode)),
        ),
        r.1 == code@.filter(is_new(names(stored@))).len(),
{
    broadcast use vstd::seq::group_seq_axioms;

    let ghost p = adds(names(stored@), names(retired@), mode);
    let ghost q = is_new(names(stored@));
    let mut added: Vec<FluentKey> = Vec::new();
    let mut fresh: usize = 0;
    let mut i: usize = 0;
    proof {
        reveal(Seq::filter);
        assert(code@.subrange(0, 0) =~= Seq::<FluentKey>::empty());
    }
    while i < code.len()
        invariant
            i <= code.len(),
            p == adds(names(stored@), names(retired@), mode),
            q == is_new(names(stored@)),
            crate::importer::key_views(added@) == crate::importer::key_views(
                code@.subrange(0, i as int).filter(p),
            ),
            fresh == code@.subrange(0, i as int).filter(q).len(),
            fresh <= i,
        decreases code.len() - i,
    {
        proof {
            lemma_filter_step(code@, i as int, p);
            lemma_filter_step(code@, i as int, q);
            crate::seq_facts::lemma_filter_len_le(code@.subrange(0, i as int), q);
        }
        let stored_here = contains_name(stored, code[i].key.as_str());
        let retire = contains_name(retired, code[i].key.as_str());
        if !stored_here {
            fresh += 1;
        }
        if !stored_here || (mode == CommentsKeyModes::Comment && retire) {
            let ghost before = added@;
            let c = copy_key(&code[i]);
            added.push(c);
            proof {
                let f = code@.subrange(0, i as int).filter(p);
                assert(crate::importer::key_views(added@) =~= crate::importer::key_views(before).push(
                    key_view(c),
                ));
                assert(crate::importer::key_views(f.push(code@[i as int])) =~= crate::importer::key_views(
                    f,
                ).push(key_view(code@[i as int])));
            }
        }
        i += 1;
    }
    assert(code@.subrange(0, code.len() as int) =~= code@);
    (added, fresh)
}

/// The surviving stored keys, each with the code path of its code key.
fn refresh_code_paths(stored: Vec<FluentKey>, code: &Vec<FluentKey>) -> (r: Vec<FluentKey>)
    requires
        keys_unique(code@),
    ensures
        r@.len() == stored@.len(),
        forall|i: int| 0 <= i < r@.len() ==> #[trigger] r@[i] == refreshed(stored@[i], code@),
{
    let ghost all = stored@;
    let len0 = stored.len();
    let mut rest = stored;
    let mut out: Vec<FluentKey> = Vec::new();
    while rest.len() > 0
        invariant
            all == stored@,
            keys_unique(code@),
            len0 == all.len(),
            out@.len() + rest@.len() == len0,
            rest@ == all.subrange(out@.len() as int, len0 as int),
            forall|i: int| 0 <= i < out@.len() ==> #[trigger] out@[i] == refreshed(all[i], code@),
        decreases rest@.len(),
    {
        let ghost at = out@.len();
        let mut k = rest.remove(0);
        assert(k == all[at as int]);
        match code_key_index(code, &k.key) {
            Some(j) => {
                k.code_path = code[j].code_path.clone();
            },
            None => {},
        }
        out.push(k);
        assert(rest@ =~= all.subrange(out@.len() as int, len0 as int));
    }
    out
}

/// The retired keys, commented out when `mode` asks for it.
fn retire_keys(keys: Vec<FluentKey>, mode: CommentsKeyModes) -> (r: Vec<FluentKey>)
    ensures
        r@.len() == keys@.len(),
        forall|i: int|
            0 <= i < r@.len() ==> (if mode == CommentsKeyModes::Comment {
                commented_version(#[trigger] r@[i], keys@[i])
            } else {
                r@[i] == keys@[i]
            }),
{
    let ghost all = keys@;
    let len0 = keys.len();
    let mut rest = keys;
    let mut out: Vec<FluentKey> = Vec::new();
    while rest.len() > 0
        invariant
            all == keys@,
            len0 == all.len(),
            out@.len() + rest@.len() == len0,
            rest@ == all.subrange(out@.len() as int, len0 as int),
            forall|i: int|
                0 <= i < out@.len() ==> (if mode == CommentsKeyModes::Comment {
                    commented_version(#[trigger] out@[i], all[i])
                } else {
                    out@[i] == all[i]
                }),
        decreases rest@.len(),
    {
        let ghost at = out@.len();
        let mut k = rest.remove(0);
        assert(k == all[at as int]);
        if mode == CommentsKeyModes::Comment {
            comment_ftl_key(&mut k);
        }
        out.push(k);
        assert(rest@ =~= all.subrange(out@.len() as int, len0 as int));
    }
    out
}

/// Whether a key holds junk.
pub open spec fn is_junk(k: FluentKey) -> bool {
    *k.entry is Junk
}

/// The comments and junk of the files; junk is commented out when
/// `comment_junks` asks for it. Also returns how many were.
fn comment_junk_keys(keys: Vec<FluentKey>, comment_junks: bool) -> (r: (Vec<FluentKey>, usize))
    ensures
        r.0@.len() == keys@.len(),
        forall|i: int|
            0 <= i < r.0@.len() ==> (if comment_junks && is_junk(keys@[i]) {
                commented_version(#[trigger] r.0@[i], keys@[i])
            } else {
                r.0@[i] == keys@[i]
            }),
        r.1 == (if comment_junks {
            keys@.filter(|k: FluentKey| is_junk(k)).len()
        } else {
            0
        }),
{
    let ghost all = keys@;
    let ghost pj = |k: FluentKey| is_junk(k);
    let len0 = keys.len();
    let mut rest = keys;
    let mut out: Vec<FluentKey> = Vec::new();
    let mut count: usize = 0;
    proof {
        reveal(Seq::filter);
        assert(all.subrange(0, 0) =~= Seq::<FluentKey>::empty());
    }
    while rest.len() > 0
        invariant
            all == keys@,
            pj == (|k: FluentKey| is_junk(k)),
            len0 == all.len(),
            out@.len() + rest@.len() == len0,
            rest@ == all.subrange(out@.len() as int, len0 as int),
            forall|i: int|
                0 <= i < out@.len() ==> (if comment_junks && is_junk(all[i]) {
                    commented_version(#[trigger] out@[i], all[i])
                } else {
                    out@[i] == all[i]
                }),
            count == (if comment_junks {
                all.subrange(0, out@.len() as int).filter(pj).len()
            } else {
                0
            }),
            count <= out@.len(),
        decreases rest@.len(),
    {
        let ghost at = out@.len();
        let mut k = rest.remove(0);
        assert(k == all[at as int]);
        proof {
            lemma_filter_step(all, at as int, pj);
            crate::seq_facts::lemma_filter_len_le(all.subrange(0, at as int), pj);
        }
        if comment_junks && matches!(&*k.entry, FluentEntry::Junk(_)) {
            comment_ftl_key(&mut k);
            count += 1;
        }
        out.push(k);
        assert(rest@ =~= all.subrange(out@.len() as int, len0 as int));
    }
    assert(all.subrange(0, len0 as int) =~= all);
    (out, count)
}

/// Splitting by names neither loses nor adds keys.
pub proof fn lemma_partition_len(s: Seq<FluentKey>, ns: Set<Seq<char>>)
    ensures
        s.filter(name_inside(ns)).len() + s.filter(name_outside(ns)).len() == s.len(),
    decreases s.len(),
{
    reveal(Seq::filter);
    if s.len() > 0 {
        lemma_partition_len(s.drop_last(), ns);
    }
}

/// The stored keys that reconciling retires, before they are commented out: those
/// moved to another file, those whose placeholders changed, those nothing uses.
pub open spec fn retired_keys(
    code: Seq<FluentKey>,
    stored: Seq<FluentKey>,
    drifted: Set<Seq<char>>,
    referenced: Set<Seq<char>>,
) -> Seq<FluentKey> {
    let s1 = after_moves(code, stored);
    let s2 = s1.filter(name_outside(drifted));
    stored.filter(name_inside(moved_names(code, stored))) + s1.filter(name_inside(drifted))
        + s2.filter(name_inside(obsolete_names(code, s2, referenced)))
}

/// The stored keys that survive reconciling, before their code paths are refreshed.
pub open spec fn kept_keys(
    code: Seq<FluentKey>,
    stored: Seq<FluentKey>,
    drifted: Set<Seq<char>>,
    referenced: Set<Seq<char>>,
) -> Seq<FluentKey> {
    let s2 = after_moves(code, stored).filter(name_outside(drifted));
    s2.filter(name_outside(obsolete_names(code, s2, referenced)))
}

/// Reconciles one locale: the keys found in code (`code_keys`) against the
/// messages, terms and other entries stored in its Fluent files.
///
/// A code key that is not stored is added. One stored under another file is
/// retired and added again. One whose placeholders differ between code and store
/// (following references, see `resolution`) is retired and added again. A stored
/// message that the code does not ask for and that no compared message refers to
/// is retired. Retired keys are commented out in `Comment` mode; in `Warn` mode
/// they stay as they were and only new keys are added. Junk is commented out when
/// `comment_junks` is set.
pub fn process_language(
    code_keys: &Vec<FluentKey>,
    stored: Vec<FluentKey>,
    terms: Vec<FluentKey>,
    misc: Vec<FluentKey>,
    comment_keys_mode: CommentsKeyModes,
    comment_junks: bool,
) -> (r: Result<LocaleUpdate, ExtractError>)
    requires
        keys_unique(code_keys@),
        keys_unique(stored@),
        code_keys.len() + terms.len() <= usize::MAX,
        stored.len() + terms.len() <= usize::MAX,
        stored.len() + misc.len() <= usize::MAX,
    ensures
        match scan(code_keys@, after_moves(code_keys@, stored@), terms@, code_keys@.len() as int) {
            Err(id) => r matches Err(ExtractError::MissingReference { id: m, .. }) && m@ == id,
            Ok(st) => r matches Ok(u) && {
                let retired = retired_keys(code_keys@, stored@, st.0, st.1);
                let kept = kept_keys(code_keys@, stored@, st.0, st.1);
                &&& u.stored@.len() == kept.len()
                &&& forall|i: int|
                    0 <= i < kept.len() ==> #[trigger] u.stored@[i] == refreshed(kept[i], code_keys@)
                &&& crate::importer::key_views(u.added@) == crate::importer::key_views(
                    code_keys@.filter(
                        adds(key_names(stored@), moved_names(code_keys@, stored@) + st.0, comment_keys_mode),
                    ),
                )
                &&& u.commented@.len() == retired.len()
                &&& forall|i: int|
                    0 <= i < retired.len() ==> (if comment_keys_mode == CommentsKeyModes::Comment {
                        commented_version(#[trigger] u.commented@[i], retired[i])
                    } else {
                        u.commented@[i] == retired[i]
                    })
                &&& u.terms@ == terms@
                &&& u.misc@.len() == misc@.len()
                &&& forall|i: int|
                    0 <= i < misc@.len() ==> (if comment_junks && is_junk(misc@[i]) {
                        commented_version(#[trigger] u.misc@[i], misc@[i])
                    } else {
                        u.misc@[i] == misc@[i]
                    })
                &&& u.added_count == code_keys@.filter(is_new(key_names(stored@))).len()
                &&& u.updated_count == stored@.filter(name_inside(moved_names(code_keys@, stored@))).len()
                    + after_moves(code_keys@, stored@).filter(name_inside(st.0)).len()
                &&& u.commented_count == retired.len() + (if comment_junks {
                    misc@.filter(|k: FluentKey| is_junk(k)).len()
                } else {
                    0
                })
            },
        },
{
    let ghost s0 = stored@;
    let stored_names = key_name_list(&stored);
    let moved = moved_key_names(code_keys, &stored);
    let (stored1, moved_out) = split_by_names(stored, &moved);
    proof {
        lemma_filter_unique(s0, name_outside(names(moved@)));
    }
    let (drifted, referenced) = match scan_signatures(code_keys, &stored1, &terms) {
        Ok(x) => x,
        Err(e) => {
            return Err(e);
        },
    };
    let mut retire_names = crate::text::copy_strings(&moved);
    let mut i: usize = 0;
    while i < drifted.len()
        invariant
            i <= drifted.len(),
            names(retire_names@) == names(moved@) + names(drifted@.subrange(0, i as int)),
        decreases drifted.len() - i,
    {
        proof {
            crate::text::lemma_names_extend(drifted@, i as int);
        }
        insert_name(&mut retire_names, drifted[i].clone());
        i += 1;
    }
    assert(drifted@.subrange(0, drifted.len() as int) =~= drifted@);
    let (added, fresh) = build_added(code_keys, &stored_names, &retire_names, comment_keys_mode);
    let ghost s1 = stored1@;
    let (stored2, drifted_out) = split_by_names(stored1, &drifted);
    let obsolete = obsolete_key_names(code_keys, &stored2, &referenced);
    let (stored3, obsolete_out) = split_by_names(stored2, &obsolete);
    proof {
        lemma_partition_len(s0, names(moved@));
        lemma_partition_len(s1, names(drifted@));
        lemma_partition_len(s1.filter(name_outside(names(drifted@))), names(obsolete@));
    }
    let updated_count = moved_out.len() + drifted_out.len();
    let mut retired = moved_out;
    let mut d = drifted_out;
    let mut o = obsolete_out;
    retired.append(&mut d);
    retired.append(&mut o);
    let commented = retire_keys(retired, comment_keys_mode);
    let (misc, junk_count) = comment_junk_keys(misc, comment_junks);
    let kept = refresh_code_paths(stored3, code_keys);
    Ok(LocaleUpdate {
        stored: kept,
        added,
        commented_count: commented.len() + junk_count,
        commented,
        terms,
        misc,
        added_count: fresh,
        updated_count,
    })
}

} // verus!
