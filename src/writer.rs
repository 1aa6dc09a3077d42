//! Laying out the Fluent files of a locale: which keys go to which file, in
//! which order.
use vstd::prelude::*;
use crate::fluent::FluentEntry;
use crate::key::FluentKey;
use crate::reconciler::LocaleUpdate;
use crate::text::{insert_name, names};

verus! {

broadcast use vstd::seq_lib::group_to_multiset_ensures;

/// Whether the keys of `s` come in order of position.
pub open spec fn sorted_by_position(s: Seq<FluentKey>) -> bool {
    forall|i: int, j: int| 0 <= i < j < s.len() ==> #[trigger] s[i].position <= #[trigger] s[j].position
}

/// Keys written to file `p`.
pub open spec fn in_file(p: Seq<char>) -> spec_fn(FluentKey) -> bool {
    |k: FluentKey| k.path@ == p
}

/// Keys written elsewhere than file `p`.
pub open spec fn not_in_file(p: Seq<char>) -> spec_fn(FluentKey) -> bool {
    |k: FluentKey| k.path@ != p
}

/// Where a key of position `p` goes among the first `j` keys of `s`: after the
/// last one whose position is not greater.
pub open spec fn insert_index(s: Seq<FluentKey>, p: usize, j: int) -> int
    decreases j,
{
    if 0 < j <= s.len() && s[j - 1].position > p {
        insert_index(s, p, j - 1)
    } else {
        j
    }
}

/// `s` sorted by position, stably: keys of equal position keep their order in `s`.
/// Each key in turn goes after every earlier key whose position is not greater.
pub open spec fn stable_sorted(s: Seq<FluentKey>) -> Seq<FluentKey>
    decreases s.len(),
{
    if s.len() == 0 {
        s
    } else {
        let t = stable_sorted(s.drop_last());
        t.insert(insert_index(t, s.last().position, t.len() as int), s.last())
    }
}

/// The body of one Fluent file: its keys and its other entries, in order of their
/// position in the file, entries of equal position in the order given (keys then
/// other entries); keys new to the file (position `usize::MAX`) come last.
pub fn generate_ftl(fluent_keys: Vec<FluentKey>, leave_as_is: Vec<FluentKey>) -> (r: Vec<FluentKey>)
    ensures
        r@ == stable_sorted(fluent_keys@ + leave_as_is@),
        sorted_by_position(r@),
        r@.to_multiset() == (fluent_keys@ + leave_as_is@).to_multiset(),
{
    let mut all = fluent_keys;
    let mut extra = leave_as_is;
    let ghost whole = all@ + extra@;
    all.append(&mut extra);
    assert(all@ == whole);
    let len0 = all.len();
    let ghost n = len0 as nat;
    let mut rest = all;
    let mut out: Vec<FluentKey> = Vec::new();
    let mut done: usize = 0;
    proof {
        assert(whole.subrange(0, 0) =~= Seq::<FluentKey>::empty());
    }
    while rest.len() > 0
        invariant
            n == whole.len(),
            n <= usize::MAX,
            done + rest@.len() == n,
            rest@ == whole.subrange(done as int, n as int),
            sorted_by_position(out@),
            out@.to_multiset() == whole.subrange(0, done as int).to_multiset(),
            out@ == stable_sorted(whole.subrange(0, done as int)),
        decreases rest@.len(),
    {
        let k = rest.remove(0);
        assert(k == whole[done as int]);
        let mut j: usize = out.len();
        while j > 0 && out[j - 1].position > k.position
            invariant
                j <= out@.len(),
                forall|t: int| j <= t < out@.len() ==> out@[t].position > k.position,
                insert_index(out@, k.position, j as int) == insert_index(out@, k.position, out@.len() as int),
            decreases j,
        {
            j -= 1;
        }
        proof {
            let nxt = whole.subrange(0, done + 1);
            assert(nxt.drop_last() =~= whole.subrange(0, done as int));
            assert(nxt.last() == k);
            assert(insert_index(out@, k.position, j as int) == j);
        }
        let ghost before = out@;
        proof {
            vstd::seq_lib::to_multiset_insert(before, j as int, k);
        }
        out.insert(j, k);
        assert(out@ == before.insert(j as int, k));
        assert(sorted_by_position(out@)) by {
            assert forall|a: int, b: int| 0 <= a < b < out@.len() implies #[trigger] out@[a].position
                <= #[trigger] out@[b].position by {
                if b < j {
                    assert(out@[a] == before[a] && out@[b] == before[b]);
                } else if b == j {
                    assert(out@[a] == before[a]);
                } else if a == j {
                    assert(out@[b] == before[b - 1]);
                } else if a < j {
                    assert(out@[a] == before[a] && out@[b] == before[b - 1]);
                } else {
                    assert(out@[a] == before[a - 1] && out@[b] == before[b - 1]);
                }
            }
        }
        proof {
            let pre = whole.subrange(0, done as int);
            let nxt = whole.subrange(0, done + 1);
            assert(nxt =~= pre.push(k));
            vstd::seq_lib::to_multiset_build(pre, k);
        }
        done += 1;
        assert(rest@ =~= whole.subrange(done as int, n as int));
    }
    assert(whole.subrange(0, n as int) =~= whole);
    out
}

/// Whether one of the first `i` keys of `s` is written to file `p`.
pub open spec fn path_seen(s: Seq<FluentKey>, i: int, p: Seq<char>) -> bool {
    exists|t: int| 0 <= t < i && #[trigger] s[t].path@ == p
}

/// Adds the paths of `keys` to `paths`.
fn file_paths(keys: &Vec<FluentKey>, paths: &mut Vec<String>)
    ensures
        names(final(paths)@) == names(old(paths)@) + Set::new(
            |p: Seq<char>| path_seen(keys@, keys@.len() as int, p),
        ),
{
    let mut i: usize = 0;
    assert(names(paths@) =~= names(old(paths)@) + Set::new(|p: Seq<char>| path_seen(keys@, 0, p)));
    while i < keys.len()
        invariant
            i <= keys.len(),
            names(paths@) == names(old(paths)@) + Set::new(|p: Seq<char>| path_seen(keys@, i as int, p)),
        decreases keys.len() - i,
    {
        let ghost pi = keys@[i as int].path@;
        insert_name(paths, keys[i].path.clone());
        assert(names(paths@) =~= names(old(paths)@) + Set::new(
            |p: Seq<char>| path_seen(keys@, i + 1, p),
        )) by {
            assert forall|p: Seq<char>| #[trigger] path_seen(keys@, i + 1, p) <==> (path_seen(keys@, i as int, p) || p == pi) by {
                if p == pi {
                    assert(keys@[i as int].path@ == p);
                }
                if path_seen(keys@, i + 1, p) && p != pi {
                    let t = choose|t: int| 0 <= t < i + 1 && #[trigger] keys@[t].path@ == p;
                    assert(t < i);
                }
            }
        }
        i += 1;
    }
}

proof fn lemma_path_filter_step(s: Seq<FluentKey>, i: int, p: Seq<char>)
    requires
        0 <= i < s.len(),
    ensures
        s.subrange(0, i + 1).filter(in_file(p)) == (if s[i].path@ == p {
            s.subrange(0, i).filter(in_file(p)).push(s[i])
        } else {
            s.subrange(0, i).filter(in_file(p))
        }),
        s.subrange(0, i + 1).filter(not_in_file(p)) == (if s[i].path@ != p {
            s.subrange(0, i).filter(not_in_file(p)).push(s[i])
        } else {
            s.subrange(0, i).filter(not_in_file(p))
        }),
{
    reveal(Seq::filter);
    let t = s.subrange(0, i + 1);
    assert(t.drop_last() =~= s.subrange(0, i));
    assert(t.last() == s[i]);
}

/// Splits `keys`, in order, into those written to file `p` and the others.
fn split_by_path(keys: Vec<FluentKey>, p: &String) -> (r: (Vec<FluentKey>, Vec<FluentKey>))
    ensures
        r.0@ == keys@.filter(in_file(p@)),
        r.1@ == keys@.filter(not_in_file(p@)),
{
    let ghost all = keys@;
    let len0 = keys.len();
    let mut rest = keys;
    let mut here: Vec<FluentKey> = Vec::new();
    let mut other: Vec<FluentKey> = Vec::new();
    let mut i: usize = 0;
    proof {
        reveal(Seq::filter);
        assert(all.subrange(0, 0) =~= Seq::<FluentKey>::empty());
    }
    while rest.len() > 0
        invariant
            all == keys@,
            len0 == all.len(),
            i + rest@.len() == len0,
            rest@ == all.subrange(i as int, len0 as int),
            here@ == all.subrange(0, i as int).filter(in_file(p@)),
            other@ == all.subrange(0, i as int).filter(not_in_file(p@)),
        decreases rest@.len(),
    {
        let k = rest.remove(0);
        assert(k == all[i as int]);
        proof {
            lemma_path_filter_step(all, i as int, p@);
        }
        if k.path == *p {
            here.push(k);
        } else {
            other.push(k);
        }
        i += 1;
        assert(rest@ =~= all.subrange(i as int, len0 as int));
    }
    assert(all.subrange(0, len0 as int) =~= all);
    (here, other)
}

/// Keys written to none of the files `ps`.
pub open spec fn path_outside(ps: Set<Seq<char>>) -> spec_fn(FluentKey) -> bool {
    |k: FluentKey| !ps.contains(k.path@)
}

proof fn lemma_filter_paths(s: Seq<FluentKey>, ps: Set<Seq<char>>, p: Seq<char>)
    ensures
        !ps.contains(p) ==> s.filter(path_outside(ps)).filter(in_file(p)) == s.filter(in_file(p)),
        s.filter(path_outside(ps)).filter(not_in_file(p)) == s.filter(path_outside(ps.insert(p))),
    decreases s.len(),
{
    reveal(Seq::filter);
    if s.len() > 0 {
        lemma_filter_paths(s.drop_last(), ps, p);
        let d = s.drop_last();
        let x = s.last();
        let f = d.filter(path_outside(ps));
        if !ps.contains(x.path@) {
            assert(s.filter(path_outside(ps)) == f.push(x));
            assert(f.push(x).drop_last() =~= f);
        } else {
            assert(s.filter(path_outside(ps)) == f);
        }
    }
}

/// Whether a group for file `p` is among `groups`.
fn group_exists(groups: &Vec<(String, Vec<FluentKey>)>, p: &String) -> (r: bool)
    ensures
        r == exists|i: int| 0 <= i < groups@.len() && #[trigger] groups@[i].0@ == p@,
{
    let mut i: usize = 0;
    while i < groups.len()
        invariant
            i <= groups.len(),
            forall|t: int| 0 <= t < i ==> #[trigger] groups@[t].0@ != p@,
        decreases groups.len() - i,
    {
        if groups[i].0 == *p {
            return true;
        }
        i += 1;
    }
    false
}

/// The paths of the groups.
pub open spec fn group_paths(groups: Seq<(String, Vec<FluentKey>)>) -> Set<Seq<char>> {
    Set::new(|p: Seq<char>| exists|i: int| 0 <= i < groups.len() && #[trigger] groups[i].0@ == p)
}

/// The keys grouped by the file they are written to, one group per path, each in
/// the order of `fluent_keys`.
pub fn sort_fluent_keys_by_path(fluent_keys: Vec<FluentKey>) -> (r: Vec<(String, Vec<FluentKey>)>)
    ensures
        forall|i: int, j: int| 0 <= i < j < r@.len() ==> #[trigger] r@[i].0@ != #[trigger] r@[j].0@,
        forall|i: int| 0 <= i < r@.len() ==> #[trigger] r@[i].1@ == fluent_keys@.filter(in_file(r@[i].0@)),
        forall|k: int| 0 <= k < fluent_keys@.len() ==> group_paths(r@).contains(#[trigger] fluent_keys@[k].path@),
        forall|i: int| 0 <= i < r@.len() ==> path_seen(fluent_keys@, fluent_keys@.len() as int, #[trigger] r@[i].0@),
{
    let ghost all = fluent_keys@;
    let mut paths: Vec<String> = Vec::new();
    assert(names(paths@) =~= Set::<Seq<char>>::empty());
    file_paths(&fluent_keys, &mut paths);
    assert(names(paths@) =~= Set::new(|p: Seq<char>| path_seen(all, all.len() as int, p)));
    let mut groups: Vec<(String, Vec<FluentKey>)> = Vec::new();
    let mut rest = fluent_keys;
    let mut g: usize = 0;
    proof {
        reveal(Seq::filter);
        assert(group_paths(groups@) =~= Set::<Seq<char>>::empty());
        assert(all.filter(path_outside(Set::<Seq<char>>::empty())) =~= all) by {
            lemma_filter_all(all, Set::<Seq<char>>::empty());
        }
    }
    while g < paths.len()
        invariant
            g <= paths.len(),
            all == fluent_keys@,
            forall|i: int, j: int| 0 <= i < j < groups@.len() ==> #[trigger] groups@[i].0@ != #[trigger] groups@[j].0@,
            forall|i: int| 0 <= i < groups@.len() ==> #[trigger] groups@[i].1@ == all.filter(in_file(groups@[i].0@)),
            rest@ == all.filter(path_outside(group_paths(groups@))),
            forall|t: int| 0 <= t < g ==> group_paths(groups@).contains(#[trigger] paths@[t]@),
            names(paths@) == Set::new(|p: Seq<char>| path_seen(all, all.len() as int, p)),
            forall|i: int| 0 <= i < groups@.len() ==> path_seen(all, all.len() as int, #[trigger] groups@[i].0@),
        decreases paths.len() - g,
    {
        let p = paths[g].clone();
        if !group_exists(&groups, &p) {
            let ghost ps = group_paths(groups@);
            proof {
                lemma_filter_paths(all, ps, p@);
            }
            let (here, others) = split_by_path(rest, &p);
            let ghost before = groups@;
            assert(names(paths@).contains(paths@[g as int]@));
            groups.push((p, here));
            assert forall|i: int| 0 <= i < groups@.len() implies path_seen(all, all.len() as int, #[trigger] groups@[i].0@) by {
                if i < before.len() {
                    assert(groups@[i] == before[i]);
                }
            }
            assert(group_paths(groups@) =~= ps.insert(p@)) by {
                assert forall|x: Seq<char>| group_paths(groups@).contains(x) implies ps.insert(p@).contains(x) by {
                    let i = choose|i: int| 0 <= i < groups@.len() && #[trigger] groups@[i].0@ == x;
                    if i < before.len() {
                        assert(before[i] == groups@[i]);
                    }
                }
                assert forall|x: Seq<char>| ps.insert(p@).contains(x) implies group_paths(groups@).contains(x) by {
                    if x == p@ {
                        assert(groups@[before.len() as int].0@ == x);
                    } else {
                        let i = choose|i: int| 0 <= i < before.len() && #[trigger] before[i].0@ == x;
                        assert(groups@[i] == before[i]);
                    }
                }
            }
            assert forall|t: int| 0 <= t < g + 1 implies group_paths(groups@).contains(#[trigger] paths@[t]@) by {
                if t < g {
                    assert(ps.contains(paths@[t]@));
                }
            }
            rest = others;
        }
        g += 1;
    }
    assert forall|k: int| 0 <= k < all.len() implies group_paths(groups@).contains(#[trigger] all[k].path@) by {
        assert(path_seen(all, all.len() as int, all[k].path@));
        assert(names(paths@).contains(all[k].path@));
        let t = choose|t: int| 0 <= t < paths@.len() && #[trigger] paths@[t]@ == all[k].path@;
        assert(group_paths(groups@).contains(paths@[t]@));
    }
    groups
}

proof fn lemma_filter_all(s: Seq<FluentKey>, ps: Set<Seq<char>>)
    requires
        ps == Set::<Seq<char>>::empty(),
    ensures
        s.filter(path_outside(ps)) == s,
    decreases s.len(),
{
    reveal(Seq::filter);
    if s.len() > 0 {
        lemma_filter_all(s.drop_last(), ps);
        assert(s.drop_last().push(s.last()) =~= s);
    }
}

/// Whether a key holds a message.
pub open spec fn is_message(k: FluentKey) -> bool {
    *k.entry is Message
}

/// Every key that a locale's files hold after reconciling, but comments and junk.
pub open spec fn locale_keys(u: LocaleUpdate) -> Seq<FluentKey> {
    u.stored@ + u.added@ + u.commented@ + u.terms@
}

fn count_messages(keys: &Vec<FluentKey>) -> (r: usize)
    ensures
        r == keys@.filter(|k: FluentKey| is_message(k)).len(),
{
    let ghost pm = |k: FluentKey| is_message(k);
    let mut count: usize = 0;
    let mut i: usize = 0;
    proof {
        reveal(Seq::filter);
        assert(keys@.subrange(0, 0) =~= Seq::<FluentKey>::empty());
    }
    while i < keys.len()
        invariant
            i <= keys.len(),
            pm == (|k: FluentKey| is_message(k)),
            count == keys@.subrange(0, i as int).filter(pm).len(),
            count <= i,
        decreases keys.len() - i,
    {
        proof {
            crate::reconciler::lemma_filter_step(keys@, i as int, pm);
        }
        if matches!(&*keys[i].entry, FluentEntry::Message(_)) {
            count += 1;
        }
        i += 1;
    }
    assert(keys@.subrange(0, keys.len() as int) =~= keys@);
    count
}

/// The Fluent files of a reconciled locale: for each path that a key is written
/// to, the file's body in order (see `generate_ftl`), with the comments and junk
/// that stood in that file; and how many messages the files hold.
pub fn write_results(update: LocaleUpdate) -> (r: (Vec<(String, Vec<FluentKey>)>, usize))
    requires
        update.stored@.len() + update.added@.len() + update.commented@.len() + update.terms@.len()
            + update.misc@.len() <= usize::MAX,
    ensures
        forall|i: int, j: int| 0 <= i < j < r.0@.len() ==> #[trigger] r.0@[i].0@ != #[trigger] r.0@[j].0@,
        forall|i: int|
            0 <= i < r.0@.len() ==> sorted_by_position(#[trigger] r.0@[i].1@) && r.0@[i].1@.to_multiset()
                == (locale_keys(update).filter(in_file(r.0@[i].0@)) + update.misc@.filter(
                in_file(r.0@[i].0@),
            )).to_multiset(),
        forall|k: int|
            0 <= k < locale_keys(update).len() ==> group_paths(r.0@).contains(
                #[trigger] locale_keys(update)[k].path@,
            ),
        forall|i: int|
            0 <= i < r.0@.len() ==> path_seen(
                locale_keys(update),
                locale_keys(update).len() as int,
                #[trigger] r.0@[i].0@,
            ),
        r.1 == locale_keys(update).filter(|k: FluentKey| is_message(k)).len(),
{
    let ghost u = update;
    let LocaleUpdate { stored, added, commented, terms, misc, .. } = update;
    let mut all = stored;
    let mut a = added;
    let mut c = commented;
    let mut t = terms;
    all.append(&mut a);
    all.append(&mut c);
    all.append(&mut t);
    assert(all@ == locale_keys(u));
    let count = count_messages(&all);
    let groups = sort_fluent_keys_by_path(all);
    let ghost gs = groups@;
    let ghost m = misc@;
    let mut rest_misc = misc;
    let mut files: Vec<(String, Vec<FluentKey>)> = Vec::new();
    let mut rest_groups = groups;
    proof {
        reveal(Seq::filter);
        assert(m.filter(path_outside(Set::<Seq<char>>::empty())) == m) by {
            lemma_filter_all(m, Set::<Seq<char>>::empty());
        }
        assert(group_paths(files@) =~= Set::<Seq<char>>::empty());
        assert(gs.subrange(0, 0) =~= Seq::<(String, Vec<FluentKey>)>::empty());
    }
    while rest_groups.len() > 0
        invariant
            gs.len() == files@.len() + rest_groups@.len(),
            rest_groups@ == gs.subrange(files@.len() as int, gs.len() as int),
            forall|i: int, j: int| 0 <= i < j < gs.len() ==> #[trigger] gs[i].0@ != #[trigger] gs[j].0@,
            forall|i: int| 0 <= i < gs.len() ==> #[trigger] gs[i].1@ == locale_keys(u).filter(in_file(gs[i].0@)),
            forall|i: int| 0 <= i < gs.len() ==> path_seen(locale_keys(u), locale_keys(u).len() as int, #[trigger] gs[i].0@),
            forall|i: int| 0 <= i < files@.len() ==> #[trigger] files@[i].0@ == gs[i].0@,
            forall|i: int|
                0 <= i < files@.len() ==> sorted_by_position(#[trigger] files@[i].1@) && files@[i].1@.to_multiset()
                    == (locale_keys(u).filter(in_file(files@[i].0@)) + m.filter(in_file(files@[i].0@))).to_multiset(),
            rest_misc@ == m.filter(path_outside(group_paths(files@))),
        decreases rest_groups@.len(),
    {
        let ghost at = files@.len();
        let (p, keys) = rest_groups.remove(0);
        assert((p, keys) == gs[at as int]);
        let ghost ps = group_paths(files@);
        assert(!ps.contains(p@)) by {
            if ps.contains(p@) {
                let i = choose|i: int| 0 <= i < files@.len() && #[trigger] files@[i].0@ == p@;
                assert(gs[i].0@ == gs[at as int].0@);
            }
        }
        proof {
            lemma_filter_paths(m, ps, p@);
        }
        let (here, others) = split_by_path(rest_misc, &p);
        let body = generate_ftl(keys, here);
        let ghost before = files@;
        files.push((p, body));
        assert(group_paths(files@) =~= ps.insert(p@)) by {
            assert forall|x: Seq<char>| group_paths(files@).contains(x) implies ps.insert(p@).contains(x) by {
                let i = choose|i: int| 0 <= i < files@.len() && #[trigger] files@[i].0@ == x;
                if i < before.len() {
                    assert(before[i] == files@[i]);
                }
            }
            assert forall|x: Seq<char>| ps.insert(p@).contains(x) implies group_paths(files@).contains(x) by {
                if x == p@ {
                    assert(files@[before.len() as int].0@ == x);
                } else {
                    let i = choose|i: int| 0 <= i < before.len() && #[trigger] before[i].0@ == x;
                    assert(files@[i] == before[i]);
                }
            }
        }
        rest_misc = others;
        assert(rest_groups@ =~= gs.subrange(files@.len() as int, gs.len() as int));
    }
    assert forall|k: int| 0 <= k < locale_keys(u).len() implies group_paths(files@).contains(
        #[trigger] locale_keys(u)[k].path@,
    ) by {
        assert(group_paths(gs).contains(locale_keys(u)[k].path@));
        let i = choose|i: int| 0 <= i < gs.len() && #[trigger] gs[i].0@ == locale_keys(u)[k].path@;
        assert(files@[i].0@ == gs[i].0@);
    }
    (files, count)
}

proof fn lemma_rises(r: Seq<FluentKey>, i: int)
    requires
        0 <= i < r.len(),
        forall|a: int, b: int| 0 <= a < b < r.len() ==> #[trigger] r[a].position < #[trigger] r[b].position,
    ensures
        r[i].position >= i,
    decreases i,
{
    if i > 0 {
        lemma_rises(r, i - 1);
    }
}

proof fn lemma_bounded(r: Seq<FluentKey>, i: int)
    requires
        0 <= i < r.len(),
        r[r.len() - 1].position < r.len(),
        forall|a: int, b: int| 0 <= a < b < r.len() ==> #[trigger] r[a].position < #[trigger] r[b].position,
    ensures
        r[i].position <= i,
    decreases r.len() - i,
{
    if i < r.len() - 1 {
        lemma_bounded(r, i + 1);
    }
}

/// Keys that carry the positions `0..n` of one file, once each, come out of
/// ordering by position (what `generate_ftl` ensures) each at its own position: a
/// file imported and written back unchanged keeps the order of its entries.
pub proof fn lemma_order_restores_positions(r: Seq<FluentKey>, s: Seq<FluentKey>)
    requires
        sorted_by_position(r),
        r.to_multiset() == s.to_multiset(),
        forall|i: int| 0 <= i < s.len() ==> #[trigger] s[i].position < s.len(),
        forall|i: int, j: int| 0 <= i < j < s.len() ==> #[trigger] s[i].position != #[trigger] s[j].position,
    ensures
        r.len() == s.len(),
        forall|p: int| 0 <= p < r.len() ==> #[trigger] r[p].position == p && s.contains(r[p]),
{
    broadcast use vstd::multiset::group_multiset_axioms;

    vstd::seq_lib::to_multiset_len(r);
    vstd::seq_lib::to_multiset_len(s);
    assert(s.no_duplicates()) by {
        assert forall|i: int, j: int| 0 <= i < s.len() && 0 <= j < s.len() && i != j implies s[i] != s[j] by {
            if i < j {
                assert(s[i].position != s[j].position);
            } else {
                assert(s[j].position != s[i].position);
            }
        }
    }
    s.lemma_multiset_has_no_duplicates();
    r.lemma_multiset_has_no_duplicates_conv();
    assert forall|p: int| 0 <= p < r.len() implies s.contains(#[trigger] r[p]) by {
        vstd::seq_lib::to_multiset_contains(r, r[p]);
        vstd::seq_lib::to_multiset_contains(s, r[p]);
        assert(r.contains(r[p]));
    }
    assert forall|a: int, b: int| 0 <= a < b < r.len() implies #[trigger] r[a].position < #[trigger] r[b].position by {
        assert(r[a].position <= r[b].position);
        assert(s.contains(r[a]) && s.contains(r[b]));
        let x = choose|x: int| 0 <= x < s.len() && s[x] == r[a];
        let y = choose|y: int| 0 <= y < s.len() && s[y] == r[b];
        assert(r[a] != r[b]);
        assert(x != y);
        if x < y {
            assert(s[x].position != s[y].position);
        } else {
            assert(s[y].position != s[x].position);
        }
    }
    if r.len() > 0 {
        let last = r.len() - 1;
        let y = choose|y: int| 0 <= y < s.len() && s[y] == r[last];
        assert(r[last].position < r.len());
        assert forall|p: int| 0 <= p < r.len() implies #[trigger] r[p].position == p && s.contains(r[p]) by {
            lemma_rises(r, p);
            lemma_bounded(r, p);
        }
    }
}

} // verus!
