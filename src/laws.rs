//! Properties that hold across the recognizer, the merge and the reconciler.
use vstd::prelude::*;
use crate::code_keys::{maps_conflict, views_disagree};
use crate::key::{FluentKey, KeyView, has_key};
use crate::matcher::{I18nMatcher, CallSite, call_key, chain, literal_key, outside_in, views};
use crate::reconciler::{
    kept_keys, retired_keys, after_moves, moved_names, name_inside, name_outside, obsolete_names,
    scan, named, key_names, adds, is_new,
};
use crate::placeholders::{Reference, resolve_from, resolve_item, elements_refs, key_refs};
use crate::matcher::is_generated;
use crate::consts::CommentsKeyModes;
use crate::key::keys_unique;
use crate::fluent::{Expression, InlineExpression, PatternElement};

verus! {

/// Whether `c` is a whitespace character.
pub open spec fn is_whitespace(c: char) -> bool {
    c == ' ' || c == '\t' || c == '\n' || c == '\r' || c == '\x0b' || c == '\x0c'
}

/// Whether `s` holds no whitespace.
pub open spec fn no_whitespace(s: Seq<char>) -> bool {
    forall|i: int| 0 <= i < s.len() ==> !is_whitespace(#[trigger] s[i])
}

/// The attribute names of a callee's chain, the one nearest the call first.
pub open spec fn chain_segments(c: crate::matcher::Callee) -> Seq<String> {
    match chain(c) {
        Some(ch) => ch.0,
        None => seq![],
    }
}

proof fn lemma_outside_in_clean(segs: Seq<Seq<char>>)
    requires
        forall|i: int| 0 <= i < segs.len() ==> no_whitespace(#[trigger] segs[i]),
    ensures
        no_whitespace(outside_in(segs)),
    decreases segs.len(),
{
    if segs.len() > 1 {
        let rest = segs.subrange(1, segs.len() as int);
        assert forall|i: int| 0 <= i < rest.len() implies no_whitespace(#[trigger] rest[i]) by {
            assert(rest[i] == segs[i + 1]);
        }
        lemma_outside_in_clean(rest);
        let a = outside_in(rest);
        let s = a + seq!['-'] + segs[0];
        assert(no_whitespace(segs[0]));
        assert forall|i: int| 0 <= i < s.len() implies !is_whitespace(#[trigger] s[i]) by {
            if i < a.len() {
                assert(s[i] == a[i]);
            } else if i == a.len() {
                assert(s[i] == '-');
            } else {
                assert(s[i] == segs[0][i - a.len() - 1]);
            }
        }
    } else if segs.len() == 1 {
        assert(no_whitespace(segs[0]));
    }
}

/// A recognized call's key is its literal argument, or the names of its attribute
/// chain (all of them, or all but the outermost one after a prefix) joined by `-`
/// from the outermost in; so when those names and the literal hold no whitespace,
/// neither does the key.
pub proof fn lemma_recognized_key_shape(m: I18nMatcher, call: CallSite)
    requires
        call_key(m, call) is Some,
    ensures
        literal_key(call.args@) == call_key(m, call) || outside_in(views(chain_segments(call.func)))
            == call_key(m, call)->Some_0 || outside_in(views(chain_segments(call.func).drop_last()))
            == call_key(m, call)->Some_0,
        (forall|i: int|
            0 <= i < chain_segments(call.func).len() ==> no_whitespace(
                #[trigger] chain_segments(call.func)[i]@,
            )) && (literal_key(call.args@) is Some ==> no_whitespace(literal_key(call.args@)->Some_0))
            ==> no_whitespace(call_key(m, call)->Some_0),
{
    let segs = chain_segments(call.func);
    if (forall|i: int| 0 <= i < segs.len() ==> no_whitespace(#[trigger] segs[i]@)) {
        assert forall|i: int| 0 <= i < views(segs).len() implies no_whitespace(#[trigger] views(segs)[i]) by {
            assert(views(segs)[i] == segs[i]@);
        }
        lemma_outside_in_clean(views(segs));
        if segs.len() > 0 {
            let d = segs.drop_last();
            assert forall|i: int| 0 <= i < views(d).len() implies no_whitespace(#[trigger] views(d)[i]) by {
                assert(views(d)[i] == d[i]@);
                assert(d[i] == segs[i]);
            }
            lemma_outside_in_clean(views(d));
        }
    }
}

/// Once two maps of code keys merge, a name in both has one target file and one
/// set of placeholders, and the merged map keeps the key merged first.
pub proof fn lemma_merged_keys_agree(
    first: Map<Seq<char>, KeyView>,
    second: Map<Seq<char>, KeyView>,
    k: Seq<char>,
)
    requires
        !maps_conflict(first, second),
        first.contains_key(k),
        second.contains_key(k),
    ensures
        second.union_prefer_right(first)[k] == first[k],
        !views_disagree(first[k], second[k]),
{
    assert(first.contains_key(k) && second.contains_key(k));
}

proof fn lemma_filter_keeps(s: Seq<FluentKey>, p: spec_fn(FluentKey) -> bool, i: int)
    requires
        0 <= i < s.len(),
        p(s[i]),
    ensures
        has_key(s.filter(p), s[i].key@),
{
    broadcast use vstd::seq_lib::group_filter_ensures;

    assert(s.filter(p).contains(s[i]));
    let j = choose|j: int| 0 <= j < s.filter(p).len() && s.filter(p)[j] == s[i];
    assert(s.filter(p)[j].key@ == s[i].key@);
}

/// No stored message is lost: after reconciling, each stored name is among the
/// keys that stay or among the retired keys (which `Comment` mode turns into
/// comments).
pub proof fn lemma_no_stored_key_dropped(
    code: Seq<FluentKey>,
    stored: Seq<FluentKey>,
    drifted: Set<Seq<char>>,
    referenced: Set<Seq<char>>,
    k: Seq<char>,
)
    requires
        has_key(stored, k),
    ensures
        has_key(kept_keys(code, stored, drifted, referenced), k) || has_key(
            retired_keys(code, stored, drifted, referenced),
            k,
        ),
{
    let i = choose|i: int| 0 <= i < stored.len() && #[trigger] stored[i].key@ == k;
    let m = moved_names(code, stored);
    let s1 = after_moves(code, stored);
    let s2 = s1.filter(name_outside(drifted));
    let ob = obsolete_names(code, s2, referenced);
    let a = stored.filter(name_inside(m));
    let b = s1.filter(name_inside(drifted));
    let c = s2.filter(name_inside(ob));
    let retired = retired_keys(code, stored, drifted, referenced);
    assert(retired == a + b + c);
    if m.contains(k) {
        lemma_filter_keeps(stored, name_inside(m), i);
        let j = choose|j: int| 0 <= j < a.len() && #[trigger] a[j].key@ == k;
        assert(retired[j] == a[j]);
    } else {
        lemma_filter_keeps(stored, name_outside(m), i);
        let i1 = choose|j: int| 0 <= j < s1.len() && #[trigger] s1[j].key@ == k;
        if drifted.contains(k) {
            lemma_filter_keeps(s1, name_inside(drifted), i1);
            let j = choose|j: int| 0 <= j < b.len() && #[trigger] b[j].key@ == k;
            assert(retired[a.len() + j] == b[j]);
        } else {
            lemma_filter_keeps(s1, name_outside(drifted), i1);
            let i2 = choose|j: int| 0 <= j < s2.len() && #[trigger] s2[j].key@ == k;
            if ob.contains(k) {
                lemma_filter_keeps(s2, name_inside(ob), i2);
                let j = choose|j: int| 0 <= j < c.len() && #[trigger] c[j].key@ == k;
                assert(retired[a.len() + b.len() + j] == c[j]);
            } else {
                lemma_filter_keeps(s2, name_outside(ob), i2);
            }
        }
    }
}

proof fn lemma_filter_none(s: Seq<FluentKey>, p: spec_fn(FluentKey) -> bool)
    requires
        forall|i: int| 0 <= i < s.len() ==> !p(#[trigger] s[i]),
    ensures
        s.filter(p).len() == 0,
    decreases s.len(),
{
    reveal(Seq::filter);
    if s.len() > 0 {
        let d = s.drop_last();
        assert forall|i: int| 0 <= i < d.len() implies !p(#[trigger] d[i]) by {
            assert(d[i] == s[i]);
        }
        lemma_filter_none(d, p);
    }
}

proof fn lemma_filter_every(s: Seq<FluentKey>, p: spec_fn(FluentKey) -> bool)
    requires
        forall|i: int| 0 <= i < s.len() ==> p(#[trigger] s[i]),
    ensures
        s.filter(p) == s,
    decreases s.len(),
{
    reveal(Seq::filter);
    if s.len() > 0 {
        let d = s.drop_last();
        assert forall|i: int| 0 <= i < d.len() implies p(#[trigger] d[i]) by {
            assert(d[i] == s[i]);
        }
        lemma_filter_every(d, p);
        assert(d.push(s.last()) =~= s);
    }
}

/// Whether every element is a variable placeable or text.
spec fn plain_elements(els: Seq<PatternElement>) -> bool {
    forall|i: int|
        0 <= i < els.len() ==> (#[trigger] els[i] is TextElement || els[i] matches PatternElement::Placeable {
            expression: Expression::Inline(InlineExpression::VariableReference { .. }),
        })
}

/// Whether every reference is to a variable.
pub open spec fn only_variables(items: Seq<Reference>) -> bool {
    forall|i: int| 0 <= i < items.len() ==> #[trigger] items[i] is Variable
}

proof fn lemma_plain_refs(els: Seq<PatternElement>)
    requires
        plain_elements(els),
    ensures
        only_variables(elements_refs(els)),
    decreases els.len(),
{
    if els.len() > 0 {
        let d = els.subrange(0, els.len() - 1);
        assert forall|i: int| 0 <= i < d.len() implies (#[trigger] d[i] is TextElement || d[i] matches PatternElement::Placeable {
            expression: Expression::Inline(InlineExpression::VariableReference { .. }),
        }) by {
            assert(d[i] == els[i]);
        }
        lemma_plain_refs(d);
        let a = elements_refs(d);
        let b = crate::placeholders::element_refs(els.last());
        assert(els.last() == els[els.len() - 1]);
        assert(only_variables(b));
        assert forall|i: int| 0 <= i < (a + b).len() implies #[trigger] (a + b)[i] is Variable by {
            if i < a.len() {
                assert((a + b)[i] == a[i]);
            } else {
                assert((a + b)[i] == b[i - a.len()]);
            }
        }
    }
}

/// The variables named by `items[i..]`.
pub open spec fn variables_from(items: Seq<Reference>, i: int) -> Set<Seq<char>> {
    Set::new(|n: Seq<char>| exists|j: int| i <= j < items.len() && #[trigger] items[j]->Variable_0@ == n)
}

proof fn lemma_variables_resolve(
    msgs: Seq<FluentKey>,
    terms: Seq<FluentKey>,
    items: Seq<Reference>,
    i: int,
    vm: Set<Seq<char>>,
    vt: Set<Seq<char>>,
    depth: nat,
)
    requires
        0 <= i <= items.len(),
        only_variables(items),
    ensures
        resolve_from(msgs, terms, items, i, vm, vt, depth) == Ok::<(Set<Seq<char>>, Set<Seq<char>>), Seq<char>>(
            (variables_from(items, i), Set::empty()),
        ),
    decreases items.len() - i,
{
    if i < items.len() {
        lemma_variables_resolve(msgs, terms, items, i + 1, vm, vt, depth);
        assert(items[i] is Variable);
        let n = items[i]->Variable_0;
        assert(resolve_item(msgs, terms, items[i], vm, vt, depth) == Ok::<(Set<Seq<char>>, Set<Seq<char>>), Seq<char>>(
            (set![n@], Set::empty()),
        ));
        assert(set![n@] + variables_from(items, i + 1) =~= variables_from(items, i)) by {
            assert forall|x: Seq<char>| variables_from(items, i).contains(x) implies (set![n@] + variables_from(items, i + 1)).contains(x) by {
                let j = choose|j: int| i <= j < items.len() && #[trigger] items[j]->Variable_0@ == x;
                if j > i {
                    assert(variables_from(items, i + 1).contains(x));
                }
            }
            assert forall|x: Seq<char>| (set![n@] + variables_from(items, i + 1)).contains(x) implies variables_from(items, i).contains(x) by {
                if x == n@ {
                    assert(items[i]->Variable_0@ == x);
                } else {
                    let j = choose|j: int| i + 1 <= j < items.len() && #[trigger] items[j]->Variable_0@ == x;
                    assert(items[j]->Variable_0@ == x);
                }
            }
        }
        assert(Set::<Seq<char>>::empty() + Set::<Seq<char>>::empty() =~= Set::<Seq<char>>::empty());
    } else {
        assert(variables_from(items, i) =~= Set::<Seq<char>>::empty());
    }
}

proof fn lemma_generated_refs(k: FluentKey)
    requires
        is_generated(*k.entry, k.key@),
    ensures
        only_variables(key_refs(k)),
{
    if let crate::fluent::FluentEntry::Message(m) = *k.entry {
        let els = m.value->Some_0.elements@;
        assert forall|i: int| 0 <= i < els.len() implies (#[trigger] els[i] is TextElement || els[i] matches PatternElement::Placeable {
            expression: Expression::Inline(InlineExpression::VariableReference { .. }),
        }) by {
            if i >= 1 {
                assert(els[i] matches PatternElement::Placeable {
                    expression: Expression::Inline(InlineExpression::VariableReference { .. }),
                });
            }
        }
        lemma_plain_refs(els);
    }
}

proof fn lemma_scan_quiet(code: Seq<FluentKey>, stored: Seq<FluentKey>, terms: Seq<FluentKey>, i: int)
    requires
        0 <= i <= code.len(),
        keys_unique(stored),
        forall|j: int| 0 <= j < code.len() ==> is_generated(*#[trigger] code[j].entry, code[j].key@),
        forall|j: int|
            0 <= j < code.len() ==> has_key(stored, #[trigger] code[j].key@) && named(stored, code[j].key@).entry
                == code[j].entry && named(stored, code[j].key@).key@ == code[j].key@,
    ensures
        scan(code, stored, terms, i) == Ok::<(Set<Seq<char>>, Set<Seq<char>>), Seq<char>>(
            (Set::empty(), Set::empty()),
        ),
    decreases i,
{
    if i > 0 {
        lemma_scan_quiet(code, stored, terms, i - 1);
        let c = code[i - 1];
        assert(has_key(stored, c.key@));
        let st = named(stored, c.key@);
        lemma_generated_refs(c);
        assert(key_refs(st) == key_refs(c));
        lemma_variables_resolve(code, terms, key_refs(c), 0, crate::placeholders::root_messages(c), crate::placeholders::root_terms(c), (code.len() + terms.len()) as nat);
        lemma_variables_resolve(stored, terms, key_refs(st), 0, crate::placeholders::root_messages(st), crate::placeholders::root_terms(st), (stored.len() + terms.len()) as nat);
        assert(Set::<Seq<char>>::empty() + Set::<Seq<char>>::empty() + Set::<Seq<char>>::empty() =~= Set::<Seq<char>>::empty());
    }
}

/// A second run changes nothing: when the stored messages are exactly the keys
/// that the code asks for, each under its target file with the entry generated
/// for it, nothing is moved, changed, retired or added.
pub proof fn lemma_second_run_is_stable(
    code: Seq<FluentKey>,
    stored: Seq<FluentKey>,
    terms: Seq<FluentKey>,
    mode: CommentsKeyModes,
)
    requires
        keys_unique(code),
        keys_unique(stored),
        forall|j: int| 0 <= j < code.len() ==> is_generated(*#[trigger] code[j].entry, code[j].key@),
        forall|j: int|
            0 <= j < code.len() ==> has_key(stored, #[trigger] code[j].key@) && named(stored, code[j].key@).entry
                == code[j].entry && named(stored, code[j].key@).path@ == code[j].path@,
        forall|j: int| 0 <= j < stored.len() ==> has_key(code, #[trigger] stored[j].key@),
    ensures
        moved_names(code, stored) == Set::<Seq<char>>::empty(),
        scan(code, after_moves(code, stored), terms, code.len() as int) == Ok::<
            (Set<Seq<char>>, Set<Seq<char>>),
            Seq<char>,
        >((Set::empty(), Set::empty())),
        retired_keys(code, stored, Set::empty(), Set::empty()).len() == 0,
        kept_keys(code, stored, Set::empty(), Set::empty()) == stored,
        code.filter(is_new(key_names(stored))).len() == 0,
        code.filter(adds(key_names(stored), moved_names(code, stored) + Set::empty(), mode)).len() == 0,
        stored.filter(name_inside(moved_names(code, stored))).len() == 0,
        after_moves(code, stored).filter(name_inside(Set::empty())).len() == 0,
{
    let e = Set::<Seq<char>>::empty();
    assert(moved_names(code, stored) =~= e) by {
        assert forall|k: Seq<char>| !crate::reconciler::moved(code, stored, k) by {
            if has_key(code, k) && has_key(stored, k) {
                let j = choose|j: int| 0 <= j < code.len() && #[trigger] code[j].key@ == k;
                crate::key::lemma_index_of_unique(code, j);
            }
        }
    }
    lemma_filter_every(stored, name_outside(e));
    assert(after_moves(code, stored) == stored);
    assert forall|j: int| 0 <= j < code.len() implies has_key(stored, #[trigger] code[j].key@)
        && named(stored, code[j].key@).entry == code[j].entry && named(stored, code[j].key@).key@ == code[j].key@ by {
        assert(has_key(stored, code[j].key@));
        crate::key::lemma_key_index_found(stored, code[j].key@);
    }
    lemma_scan_quiet(code, stored, terms, code.len() as int);
    lemma_filter_none(stored, name_inside(e));
    assert(obsolete_names(code, stored, e) =~= e) by {
        assert forall|k: Seq<char>| !obsolete_names(code, stored, e).contains(k) by {
            if has_key(stored, k) {
                let j = choose|j: int| 0 <= j < stored.len() && #[trigger] stored[j].key@ == k;
                assert(has_key(code, stored[j].key@));
            }
        }
    }
    assert(retired_keys(code, stored, e, e) =~= Seq::<FluentKey>::empty());
    assert(kept_keys(code, stored, e, e) == stored);
    lemma_filter_none(code, is_new(key_names(stored)));
    assert(moved_names(code, stored) + e =~= e);
    lemma_filter_none(code, adds(key_names(stored), e, mode));
}

} // verus!
