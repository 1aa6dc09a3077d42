//! The code keys of several source files, merged into one map.
use vstd::prelude::*;
use crate::key::{
    ExtractError, FluentKey, KeyView, find_key, has_key, key_map, key_view, keys_unique,
    lemma_key_index_found, lemma_key_map_push,
};
use crate::matcher::{entry_vars, message_vars, same_views};

verus! {

/// Whether two key views disagree: another target file or other placeholders.
pub open spec fn views_disagree(a: KeyView, b: KeyView) -> bool {
    a.3 != b.3 || message_vars(a.2) != message_vars(b.2)
}

/// Whether a name is in both maps with views that disagree.
pub open spec fn maps_conflict(a: Map<Seq<char>, KeyView>, b: Map<Seq<char>, KeyView>) -> bool {
    exists|k: Seq<char>| #[trigger] a.contains_key(k) && b.contains_key(k) && views_disagree(a[k], b[k])
}

/// Adds the keys of one source file, `keys`, to those merged so far, `acc`. A name
/// already merged must come with the same target file and placeholders, and then
/// the merged key stays; otherwise merging fails.
pub fn merge_fluent_keys(acc: &mut Vec<FluentKey>, keys: Vec<FluentKey>) -> (r: Result<(), ExtractError>)
    requires
        keys_unique(old(acc)@),
        keys_unique(keys@),
    ensures
        r is Ok <==> !maps_conflict(key_map(old(acc)@), key_map(keys@)),
        r is Ok ==> keys_unique(final(acc)@) && key_map(final(acc)@) == key_map(keys@).union_prefer_right(
            key_map(old(acc)@),
        ),
{
    let ghost a0 = key_map(acc@);
    let ghost all = keys@;
    let len0 = keys.len();
    let mut rest = keys;
    let mut i: usize = 0;
    proof {
        assert(all.subrange(0, 0) =~= Seq::<FluentKey>::empty());
        assert(key_map(Seq::<FluentKey>::empty()) =~= Map::<Seq<char>, KeyView>::empty());
        assert(Map::<Seq<char>, KeyView>::empty().union_prefer_right(a0) =~= a0);
    }
    while rest.len() > 0
        invariant
            all == keys@,
            a0 == key_map(old(acc)@),
            keys_unique(all),
            len0 == all.len(),
            i + rest@.len() == len0,
            rest@ == all.subrange(i as int, len0 as int),
            keys_unique(acc@),
            !maps_conflict(a0, key_map(all.subrange(0, i as int))),
            key_map(acc@) == key_map(all.subrange(0, i as int)).union_prefer_right(a0),
        decreases rest@.len(),
    {
        let k = rest.remove(0);
        assert(k == all[i as int]);
        let ghost pre = all.subrange(0, i as int);
        let ghost nxt = all.subrange(0, i + 1);
        proof {
            assert(nxt =~= pre.push(k));
            assert(keys_unique(pre)) by {
                assert forall|a: int, b: int| 0 <= a < b < pre.len() implies #[trigger] pre[a].key@
                    != #[trigger] pre[b].key@ by {
                    assert(pre[a] == all[a] && pre[b] == all[b]);
                }
            }
            assert(!has_key(pre, k.key@)) by {
                if has_key(pre, k.key@) {
                    let j = choose|j: int| 0 <= j < pre.len() && #[trigger] pre[j].key@ == k.key@;
                    assert(all[j].key@ != all[i as int].key@);
                }
            }
            lemma_key_map_push(pre, k);
        }
        match find_key(acc, k.key.as_str()) {
            Some(j) => {
                proof {
                    lemma_key_index_found(acc@, k.key@);
                    crate::key::lemma_index_of_unique(acc@, j as int);
                    // The merged key of this name came from `acc`, not from earlier keys.
                    assert(!key_map(pre).contains_key(k.key@));
                    assert(has_key(acc@, k.key@));
                    assert(key_map(acc@).contains_key(k.key@));
                    assert(a0.contains_key(k.key@));
                    assert(key_map(acc@)[k.key@] == key_view(acc@[j as int]));
                    assert(a0[k.key@] == key_view(acc@[j as int]));
                }
                let existing = &acc[j];
                let same_path = existing.path == k.path;
                let same_vars = same_views(&entry_vars(&existing.entry), &entry_vars(&k.entry));
                if !same_path || !same_vars {
                    proof {
                        assert(a0.contains_key(k.key@));
                        assert(key_map(all).contains_key(k.key@)) by {
                            assert(all[i as int].key@ == k.key@);
                        }
                        crate::key::lemma_index_of_unique(all, i as int);
                        assert(views_disagree(a0[k.key@], key_map(all)[k.key@]));
                        assert(maps_conflict(a0, key_map(all)));
                    }
                    return Err(
                        if !same_path {
                            ExtractError::PathConflict {
                                key: k.key.clone(),
                                first_path: existing.path.clone(),
                                second_path: k.path.clone(),
                            }
                        } else {
                            ExtractError::MessageConflict { key: k.key.clone() }
                        },
                    );
                }
                proof {
                    assert(key_map(acc@) =~= key_map(nxt).union_prefer_right(a0));
                    assert(!maps_conflict(a0, key_map(nxt))) by {
                        if maps_conflict(a0, key_map(nxt)) {
                            let x = choose|x: Seq<char>| #[trigger] a0.contains_key(x) && key_map(nxt).contains_key(x)
                                && views_disagree(a0[x], key_map(nxt)[x]);
                            if x != k.key@ {
                                assert(key_map(pre).contains_key(x));
                            }
                        }
                    }
                }
            },
            None => {
                proof {
                    assert(!has_key(acc@, k.key@)) by {
                        if has_key(acc@, k.key@) {
                            let t = choose|t: int| 0 <= t < acc@.len() && #[trigger] acc@[t].key@ == k.key@;
                            crate::key::lemma_index_of_unique(acc@, t);
                        }
                    }
                    lemma_key_map_push(acc@, k);
                    assert(!key_map(acc@).contains_key(k.key@));
                    assert(!a0.contains_key(k.key@));
                }
                acc.push(k);
                proof {
                    assert(key_map(acc@) =~= key_map(nxt).union_prefer_right(a0));
                    assert(!maps_conflict(a0, key_map(nxt))) by {
                        if maps_conflict(a0, key_map(nxt)) {
                            let x = choose|x: Seq<char>| #[trigger] a0.contains_key(x) && key_map(nxt).contains_key(x)
                                && views_disagree(a0[x], key_map(nxt)[x]);
                            assert(key_map(pre).contains_key(x));
                        }
                    }
                }
            },
        }
        i += 1;
        assert(rest@ =~= all.subrange(i as int, len0 as int));
    }
    assert(all.subrange(0, len0 as int) =~= all);
    Ok(())
}

} // verus!
