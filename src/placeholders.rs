//! The placeholder extractor: which variables a message needs, following the
//! messages and terms it refers to.
use vstd::prelude::*;
use crate::fluent::{
    CallArguments, Expression, FluentEntry, InlineExpression, PatternElement, Variant,
};
use crate::key::{ExtractError, FluentKey, find_key, key_index};
use crate::text::{contains_name, insert_name, names};

verus! {

broadcast use {vstd::std_specs::vec::group_vec_axioms, vstd::seq::group_seq_axioms};

/// A name that a pattern mentions, in the order the walk meets it.
#[derive(Debug)]
pub enum Reference {
    Variable(String),
    Message(String),
    Term(String),
}

/// What an inline expression mentions: a variable, a message or a term.
pub open spec fn inline_refs(e: InlineExpression) -> Seq<Reference> {
    match e {
        InlineExpression::VariableReference { id } => seq![Reference::Variable(id)],
        InlineExpression::MessageReference { id, .. } => seq![Reference::Message(id)],
        InlineExpression::TermReference { id, .. } => seq![Reference::Term(id)],
        _ => seq![],
    }
}

/// What a placeable's expression mentions: a select expression adds its selector
/// when it is a variable, then what each variant's pattern mentions.
pub open spec fn expression_refs(x: Expression) -> Seq<Reference>
    decreases x,
{
    match x {
        Expression::Inline(e) => inline_refs(e),
        Expression::Select { selector, variants } => {
            let head = match selector {
                InlineExpression::VariableReference { id } => seq![Reference::Variable(id)],
                _ => seq![],
            };
            head + variants_refs(variants@)
        },
    }
}

/// What the patterns of `vs` mention, variant after variant.
pub open spec fn variants_refs(vs: Seq<Variant>) -> Seq<Reference>
    decreases vs,
{
    if vs.len() == 0 {
        seq![]
    } else {
        variants_refs(vs.subrange(0, vs.len() - 1)) + elements_refs(vs.last().value.elements@)
    }
}

/// What a pattern element mentions: nothing for text.
pub open spec fn element_refs(el: PatternElement) -> Seq<Reference>
    decreases el,
{
    match el {
        PatternElement::TextElement { .. } => seq![],
        PatternElement::Placeable { expression } => expression_refs(expression),
    }
}

/// What the elements of a pattern mention, element after element.
pub open spec fn elements_refs(els: Seq<PatternElement>) -> Seq<Reference>
    decreases els,
{
    if els.len() == 0 {
        seq![]
    } else {
        elements_refs(els.subrange(0, els.len() - 1)) + element_refs(els.last())
    }
}

/// What the value of a message or term mentions; nothing for other entries.
pub open spec fn entry_refs(e: FluentEntry) -> Seq<Reference> {
    match e {
        FluentEntry::Message(m) => match m.value {
            Some(p) => elements_refs(p.elements@),
            None => seq![],
        },
        FluentEntry::Term(t) => elements_refs(t.value.elements@),
        _ => seq![],
    }
}

fn push_inline_refs(e: &InlineExpression, out: &mut Vec<Reference>)
    ensures
        final(out)@ == old(out)@ + inline_refs(*e),
{
    match e {
        InlineExpression::VariableReference { id } => out.push(Reference::Variable(id.clone())),
        InlineExpression::MessageReference { id, .. } => out.push(Reference::Message(id.clone())),
        InlineExpression::TermReference { id, .. } => out.push(Reference::Term(id.clone())),
        _ => {
            assert(old(out)@ + inline_refs(*e) =~= old(out)@);
        },
    }
}

fn push_expression_refs(x: &Expression, out: &mut Vec<Reference>)
    ensures
        final(out)@ == old(out)@ + expression_refs(*x),
    decreases x,
{
    match x {
        Expression::Inline(e) => push_inline_refs(e, out),
        Expression::Select { selector, variants } => {
            if let InlineExpression::VariableReference { id } = selector {
                out.push(Reference::Variable(id.clone()));
            }
            let ghost mid = out@;
            push_variants_refs(variants, out);
            assert(old(out)@ + expression_refs(*x) =~= mid + variants_refs(variants@));
        },
    }
}

fn push_variants_refs(vs: &Vec<Variant>, out: &mut Vec<Reference>)
    ensures
        final(out)@ == old(out)@ + variants_refs(vs@),
    decreases vs,
{
    let mut i: usize = 0;
    while i < vs.len()
        invariant
            i <= vs.len(),
            out@ == old(out)@ + variants_refs(vs@.subrange(0, i as int)),
        decreases vs.len() - i,
    {
        let ghost before = out@;
        assert(decreases_to!(vs => vs@[i as int].value.elements));
        push_elements_refs(&vs[i].value.elements, out);
        let ghost next = vs@.subrange(0, i + 1);
        assert(next.subrange(0, next.len() - 1) =~= vs@.subrange(0, i as int));
        assert(out@ =~= old(out)@ + variants_refs(next));
        i += 1;
    }
    assert(vs@.subrange(0, vs.len() as int) =~= vs@);
}

fn push_element_refs(el: &PatternElement, out: &mut Vec<Reference>)
    ensures
        final(out)@ == old(out)@ + element_refs(*el),
    decreases el,
{
    match el {
        PatternElement::TextElement { .. } => {
            assert(old(out)@ + element_refs(*el) =~= old(out)@);
        },
        PatternElement::Placeable { expression } => push_expression_refs(expression, out),
    }
}

fn push_elements_refs(els: &Vec<PatternElement>, out: &mut Vec<Reference>)
    ensures
        final(out)@ == old(out)@ + elements_refs(els@),
    decreases els,
{
    let mut i: usize = 0;
    while i < els.len()
        invariant
            i <= els.len(),
            out@ == old(out)@ + elements_refs(els@.subrange(0, i as int)),
        decreases els.len() - i,
    {
        assert(decreases_to!(els => els@[i as int]));
        push_element_refs(&els[i], out);
        let ghost next = els@.subrange(0, i + 1);
        assert(next.subrange(0, next.len() - 1) =~= els@.subrange(0, i as int));
        assert(out@ =~= old(out)@ + elements_refs(next));
        i += 1;
    }
    assert(els@.subrange(0, els.len() as int) =~= els@);
}

/// What the value of `e` mentions, in the order of the walk.
pub fn entry_references(e: &FluentEntry) -> (r: Vec<Reference>)
    ensures
        r@ == entry_refs(*e),
{
    let mut out: Vec<Reference> = Vec::new();
    match e {
        FluentEntry::Message(m) => match &m.value {
            Some(p) => push_elements_refs(&p.elements, &mut out),
            None => {},
        },
        FluentEntry::Term(t) => push_elements_refs(&t.value.elements, &mut out),
        _ => {},
    }
    assert(out@ =~= entry_refs(*e));
    out
}

/// What the value of key `k` mentions.
pub open spec fn key_refs(k: FluentKey) -> Seq<Reference> {
    entry_refs(*k.entry)
}

/// Variables collected, and messages recorded as referenced, by the walk over one
/// reference, or the name when it refers to nothing.
///
/// A message reference is recorded, then the message's own value is walked, unless
/// it is being resolved already (`visiting_messages`): re-entering a name adds
/// nothing, so cycles end. A term reference walks the term (terms have a namespace
/// of their own), but what the term's walk references is not recorded: terms are
/// never retired for want of use. `depth` bounds the nesting; it starts at the
/// number of messages and terms, which a chain of distinct names cannot exceed.
pub open spec fn resolve_item(
    msgs: Seq<FluentKey>,
    terms: Seq<FluentKey>,
    item: Reference,
    visiting_messages: Set<Seq<char>>,
    visiting_terms: Set<Seq<char>>,
    depth: nat,
) -> Result<(Set<Seq<char>>, Set<Seq<char>>), Seq<char>>
    decreases depth, 0int,
{
    match item {
        Reference::Variable(n) => Ok((set![n@], Set::empty())),
        Reference::Message(id) => match key_index(msgs, id@) {
            None => Err(id@),
            Some(j) => if visiting_messages.contains(id@) || depth == 0 {
                Ok((Set::empty(), set![id@]))
            } else {
                match resolve_from(
                    msgs,
                    terms,
                    key_refs(msgs[j]),
                    0,
                    visiting_messages.insert(id@),
                    visiting_terms,
                    (depth - 1) as nat,
                ) {
                    Err(e) => Err(e),
                    Ok(sub) => Ok((sub.0, sub.1.insert(id@))),
                }
            },
        },
        Reference::Term(id) => match key_index(terms, id@) {
            None => Err(id@),
            Some(j) => if visiting_terms.contains(id@) || depth == 0 {
                Ok((Set::empty(), Set::empty()))
            } else {
                match resolve_from(
                    msgs,
                    terms,
                    key_refs(terms[j]),
                    0,
                    visiting_messages,
                    visiting_terms.insert(id@),
                    (depth - 1) as nat,
                ) {
                    Err(e) => Err(e),
                    Ok(sub) => Ok((sub.0, Set::empty())),
                }
            },
        },
    }
}

/// The walk over `items[i..]`, reference after reference: the union of what each
/// collects and records, or the first name that refers to nothing.
pub open spec fn resolve_from(
    msgs: Seq<FluentKey>,
    terms: Seq<FluentKey>,
    items: Seq<Reference>,
    i: int,
    visiting_messages: Set<Seq<char>>,
    visiting_terms: Set<Seq<char>>,
    depth: nat,
) -> Result<(Set<Seq<char>>, Set<Seq<char>>), Seq<char>>
    decreases depth, items.len() - i,
{
    if i < 0 || i >= items.len() {
        Ok((Set::empty(), Set::empty()))
    } else {
        match resolve_item(msgs, terms, items[i], visiting_messages, visiting_terms, depth) {
            Err(e) => Err(e),
            Ok(h) => match resolve_from(
                msgs,
                terms,
                items,
                i + 1,
                visiting_messages,
                visiting_terms,
                depth,
            ) {
                Err(e) => Err(e),
                Ok(t) => Ok((h.0 + t.0, h.1 + t.1)),
            },
        }
    }
}

proof fn lemma_names_push(v: Seq<String>, s: String)
    ensures
        names(v.push(s)) == names(v).insert(s@),
{
    assert(names(v.push(s)) =~= names(v).insert(s@)) by {
        assert(v.push(s)[v.len() as int] == s);
        assert forall|x: Seq<char>| names(v.push(s)).contains(x) implies names(v).insert(
            s@,
        ).contains(x) by {
            let i = choose|i: int| 0 <= i < v.push(s).len() && #[trigger] v.push(s)[i]@ == x;
            if i < v.len() {
                assert(v[i]@ == x);
            }
        }
        assert forall|x: Seq<char>| names(v).insert(s@).contains(x) implies names(
            v.push(s),
        ).contains(x) by {
            if x != s@ {
                let i = choose|i: int| 0 <= i < v.len() && #[trigger] v[i]@ == x;
                assert(v.push(s)[i]@ == x);
            }
        }
    }
}

/// `v` with `s` added.
fn with_name(v: &Vec<String>, s: &String) -> (r: Vec<String>)
    ensures
        names(r@) == names(v@).insert(s@),
{
    let mut r = crate::text::copy_strings(v);
    let pushed = s.clone();
    proof {
        lemma_names_push(r@, pushed);
    }
    r.push(pushed);
    r
}

/// The result that `resolve_one` reports of `res`, in terms of the vectors it fills.
pub open spec fn reports(
    res: Result<(Set<Seq<char>>, Set<Seq<char>>), Seq<char>>,
    r: Result<(), String>,
    vars0: Seq<String>,
    vars1: Seq<String>,
    refs0: Seq<String>,
    refs1: Seq<String>,
) -> bool {
    match res {
        Ok(out) => r is Ok && names(vars1) == names(vars0) + out.0 && names(refs1) == names(refs0)
            + out.1,
        Err(id) => r is Err && r->Err_0@ == id,
    }
}

#[verifier::rlimit(60)]
fn resolve_message(
    msgs: &Vec<FluentKey>,
    terms: &Vec<FluentKey>,
    id: &String,
    visiting_messages: &Vec<String>,
    visiting_terms: &Vec<String>,
    depth: usize,
    vars: &mut Vec<String>,
    refs: &mut Vec<String>,
) -> (r: Result<(), String>)
    ensures
        reports(
            resolve_item(
                msgs@,
                terms@,
                Reference::Message(*id),
                names(visiting_messages@),
                names(visiting_terms@),
                depth as nat,
            ),
            r,
            old(vars)@,
            final(vars)@,
            old(refs)@,
            final(refs)@,
        ),
    decreases depth, 0int,
{
    let ghost vm = names(visiting_messages@);
    let ghost vt = names(visiting_terms@);
    let ghost v0 = names(vars@);
    let ghost r0 = names(refs@);
    let j = match find_key(msgs, id.as_str()) {
        None => {
            return Err(id.clone());
        },
        Some(j) => j,
    };
    if contains_name(visiting_messages, id.as_str()) || depth == 0 {
        insert_name(refs, id.clone());
        assert(names(vars@) =~= v0 + Set::empty());
        assert(names(refs@) =~= r0 + set![id@]);
        return Ok(());
    }
    let sub_items = entry_references(&msgs[j].entry);
    let inner = with_name(visiting_messages, id);
    let res = resolve_refs(msgs, terms, &sub_items, 0, &inner, visiting_terms, depth - 1, vars, refs);
    if let Err(e) = res {
        return Err(e);
    }
    let ghost r_mid = names(refs@);
    insert_name(refs, id.clone());
    proof {
        let sub = resolve_from(
            msgs@,
            terms@,
            key_refs(msgs@[j as int]),
            0,
            vm.insert(id@),
            vt,
            (depth - 1) as nat,
        )->Ok_0;
        assert(r_mid == r0 + sub.1);
        assert(names(refs@) =~= r0 + sub.1.insert(id@));
    }
    Ok(())
}

#[verifier::rlimit(60)]
fn resolve_term(
    msgs: &Vec<FluentKey>,
    terms: &Vec<FluentKey>,
    id: &String,
    visiting_messages: &Vec<String>,
    visiting_terms: &Vec<String>,
    depth: usize,
    vars: &mut Vec<String>,
    refs: &mut Vec<String>,
) -> (r: Result<(), String>)
    ensures
        reports(
            resolve_item(
                msgs@,
                terms@,
                Reference::Term(*id),
                names(visiting_messages@),
                names(visiting_terms@),
                depth as nat,
            ),
            r,
            old(vars)@,
            final(vars)@,
            old(refs)@,
            final(refs)@,
        ),
    decreases depth, 0int,
{
    let ghost vm = names(visiting_messages@);
    let ghost vt = names(visiting_terms@);
    let ghost v0 = names(vars@);
    let ghost r0 = names(refs@);
    let j = match find_key(terms, id.as_str()) {
        None => {
            return Err(id.clone());
        },
        Some(j) => j,
    };
    if contains_name(visiting_terms, id.as_str()) || depth == 0 {
        assert(names(vars@) =~= v0 + Set::empty());
        assert(names(refs@) =~= r0 + Set::empty());
        return Ok(());
    }
    let sub_items = entry_references(&terms[j].entry);
    let inner = with_name(visiting_terms, id);
    let mut unrecorded: Vec<String> = Vec::new();
    let res = resolve_refs(
        msgs,
        terms,
        &sub_items,
        0,
        visiting_messages,
        &inner,
        depth - 1,
        vars,
        &mut unrecorded,
    );
    if let Err(e) = res {
        return Err(e);
    }
    assert(names(refs@) =~= r0 + Set::empty());
    Ok(())
}

/// Walks one reference, adding the variables met to `vars` and the messages
/// recorded to `refs`; on a name that refers to nothing, returns that name.
fn resolve_one(
    msgs: &Vec<FluentKey>,
    terms: &Vec<FluentKey>,
    item: &Reference,
    visiting_messages: &Vec<String>,
    visiting_terms: &Vec<String>,
    depth: usize,
    vars: &mut Vec<String>,
    refs: &mut Vec<String>,
) -> (r: Result<(), String>)
    ensures
        reports(
            resolve_item(
                msgs@,
                terms@,
                *item,
                names(visiting_messages@),
                names(visiting_terms@),
                depth as nat,
            ),
            r,
            old(vars)@,
            final(vars)@,
            old(refs)@,
            final(refs)@,
        ),
    decreases depth, 1int,
{
    match item {
        Reference::Variable(n) => {
            let ghost v0 = names(vars@);
            insert_name(vars, n.clone());
            assert(names(vars@) =~= v0 + set![n@]);
            assert(names(refs@) =~= names(refs@) + Set::empty());
            Ok(())
        },
        Reference::Message(id) => resolve_message(
            msgs,
            terms,
            id,
            visiting_messages,
            visiting_terms,
            depth,
            vars,
            refs,
        ),
        Reference::Term(id) => resolve_term(
            msgs,
            terms,
            id,
            visiting_messages,
            visiting_terms,
            depth,
            vars,
            refs,
        ),
    }
}

/// Walks `items[i..]` in order, as `resolve_one` walks each.
fn resolve_refs(
    msgs: &Vec<FluentKey>,
    terms: &Vec<FluentKey>,
    items: &Vec<Reference>,
    i: usize,
    visiting_messages: &Vec<String>,
    visiting_terms: &Vec<String>,
    depth: usize,
    vars: &mut Vec<String>,
    refs: &mut Vec<String>,
) -> (r: Result<(), String>)
    requires
        i <= items.len(),
    ensures
        match resolve_from(
            msgs@,
            terms@,
            items@,
            i as int,
            names(visiting_messages@),
            names(visiting_terms@),
            depth as nat,
        ) {
            Ok(res) => r is Ok && names(final(vars)@) == names(old(vars)@) + res.0 && names(
                final(refs)@,
            ) == names(old(refs)@) + res.1,
            Err(id) => r is Err && r->Err_0@ == id,
        },
    decreases depth, 1 + items.len() - i,
{
    if i >= items.len() {
        assert(names(old(vars)@) + Set::empty() =~= names(old(vars)@));
        assert(names(old(refs)@) + Set::empty() =~= names(old(refs)@));
        return Ok(());
    }
    let ghost vm = names(visiting_messages@);
    let ghost vt = names(visiting_terms@);
    let ghost v0 = names(vars@);
    let ghost r0 = names(refs@);
    let head = resolve_one(
        msgs,
        terms,
        &items[i],
        visiting_messages,
        visiting_terms,
        depth,
        vars,
        refs,
    );
    if let Err(e) = head {
        return Err(e);
    }
    let ghost v1 = names(vars@);
    let ghost r1 = names(refs@);
    let rest = resolve_refs(
        msgs,
        terms,
        items,
        i + 1,
        visiting_messages,
        visiting_terms,
        depth,
        vars,
        refs,
    );
    if let Err(e) = rest {
        return Err(e);
    }
    proof {
        let h = resolve_item(msgs@, terms@, items@[i as int], vm, vt, depth as nat)->Ok_0;
        let t = resolve_from(msgs@, terms@, items@, i + 1, vm, vt, depth as nat)->Ok_0;
        assert(names(vars@) =~= v0 + (h.0 + t.0));
        assert(names(refs@) =~= r0 + (h.1 + t.1));
    }
    Ok(())
}

/// Names that a key is resolving from the start: its own, in its namespace, so
/// that a message referring to itself ends at once.
pub open spec fn root_messages(k: FluentKey) -> Set<Seq<char>> {
    if *k.entry is Message {
        set![k.key@]
    } else {
        Set::empty()
    }
}

pub open spec fn root_terms(k: FluentKey) -> Set<Seq<char>> {
    if *k.entry is Term {
        set![k.key@]
    } else {
        Set::empty()
    }
}

/// The walk over `items` on behalf of key `k`, against the messages `msgs` and
/// the terms `terms`.
pub open spec fn resolution(
    k: FluentKey,
    items: Seq<Reference>,
    terms: Seq<FluentKey>,
    msgs: Seq<FluentKey>,
) -> Result<(Set<Seq<char>>, Set<Seq<char>>), Seq<char>> {
    resolve_from(
        msgs,
        terms,
        items,
        0,
        root_messages(k),
        root_terms(k),
        (msgs.len() + terms.len()) as nat,
    )
}

/// The messages that `items` refers to directly.
pub open spec fn message_refs(items: Seq<Reference>) -> Set<Seq<char>> {
    Set::new(
        |s: Seq<char>|
            exists|i: int|
                0 <= i < items.len() && #[trigger] items[i] is Message && items[i]->Message_0@
                    == s,
    )
}

/// `b` is `a` with, at most, other referenced names.
pub open spec fn same_but_depends(a: FluentKey, b: FluentKey) -> bool {
    &&& b.code_path == a.code_path
    &&& b.key == a.key
    &&& b.entry == a.entry
    &&& b.path == a.path
    &&& b.locale == a.locale
    &&& b.position == a.position
    &&& b.rendered == a.rendered
}

/// What a walk on behalf of `k` leaves behind: on success the variables and the
/// referenced messages are added, and `k` records the messages its items name;
/// a name that refers to nothing is reported with `k`'s file.
pub open spec fn walked(
    res: Result<(Set<Seq<char>>, Set<Seq<char>>), Seq<char>>,
    r: Result<(), ExtractError>,
    items: Seq<Reference>,
    k0: FluentKey,
    k1: FluentKey,
    kwargs0: Seq<String>,
    kwargs1: Seq<String>,
    deps0: Seq<String>,
    deps1: Seq<String>,
) -> bool {
    match res {
        Ok(out) => {
            &&& r is Ok
            &&& names(kwargs1) == names(kwargs0) + out.0
            &&& names(deps1) == names(deps0) + out.1
            &&& same_but_depends(k0, k1)
            &&& names(k1.depends_on_keys@) == names(k0.depends_on_keys@) + message_refs(items)
        },
        Err(id) => {
            &&& r matches Err(ExtractError::MissingReference { id: m, path: p }) && m@ == id && p@
                == k0.path@
            &&& kwargs1 == kwargs0
            &&& deps1 == deps0
            &&& k1 == k0
        },
    }
}

fn record_message_refs(deps: &mut Vec<String>, items: &Vec<Reference>)
    ensures
        names(final(deps)@) == names(old(deps)@) + message_refs(items@),
{
    let mut i: usize = 0;
    while i < items.len()
        invariant
            i <= items.len(),
            names(deps@) == names(old(deps)@) + message_refs(items@.subrange(0, i as int)),
        decreases items.len() - i,
    {
        let ghost before = names(deps@);
        if let Reference::Message(id) = &items[i] {
            insert_name(deps, id.clone());
        }
        assert(names(deps@) =~= names(old(deps)@) + message_refs(items@.subrange(0, i + 1))) by {
            let sub = items@.subrange(0, i + 1);
            assert forall|x: Seq<char>| message_refs(sub).contains(x) implies names(deps@).contains(x) by {
                let k = choose|k: int| 0 <= k < sub.len() && #[trigger] sub[k] is Message && sub[k]->Message_0@ == x;
                if k < i {
                    assert(items@.subrange(0, i as int)[k] == sub[k]);
                    assert(message_refs(items@.subrange(0, i as int)).contains(x));
                }
            }
            assert forall|x: Seq<char>| message_refs(items@.subrange(0, i as int)).contains(x) implies message_refs(sub).contains(x) by {
                let k = choose|k: int| 0 <= k < i && #[trigger] items@.subrange(0, i as int)[k] is Message && items@.subrange(0, i as int)[k]->Message_0@ == x;
                assert(sub[k] == items@.subrange(0, i as int)[k]);
            }
            if items@[i as int] is Message {
                assert(sub[i as int] == items@[i as int]);
            }
        }
        i += 1;
    }
    assert(items@.subrange(0, items.len() as int) =~= items@);
}

/// Walks `items` on behalf of `key`, against the messages `all_fluent_keys` and
/// the terms `terms`, as `resolution` says.
fn apply_references(
    key: &mut FluentKey,
    items: &Vec<Reference>,
    kwargs: &mut Vec<String>,
    terms: &Vec<FluentKey>,
    all_fluent_keys: &Vec<FluentKey>,
    depend_keys: &mut Vec<String>,
) -> (r: Result<(), ExtractError>)
    requires
        all_fluent_keys.len() + terms.len() <= usize::MAX,
    ensures
        walked(
            resolution(*old(key), items@, terms@, all_fluent_keys@),
            r,
            items@,
            *old(key),
            *final(key),
            old(kwargs)@,
            final(kwargs)@,
            old(depend_keys)@,
            final(depend_keys)@,
        ),
{
    let mut vm: Vec<String> = Vec::new();
    let mut vt: Vec<String> = Vec::new();
    proof {
        lemma_names_push(vm@, key.key);
        assert(names(vm@) =~= Set::<Seq<char>>::empty());
    }
    match &*key.entry {
        FluentEntry::Message(_) => vm.push(key.key.clone()),
        FluentEntry::Term(_) => vt.push(key.key.clone()),
        _ => {},
    }
    assert(names(vm@) == root_messages(*key));
    assert(names(vt@) =~= root_terms(*key)) by {
        lemma_names_push(Seq::<String>::empty(), key.key);
    }
    let depth = all_fluent_keys.len() + terms.len();
    // The walk fills copies, so that a failed walk leaves everything as it was.
    let mut vars = crate::text::copy_strings(kwargs);
    let mut refs = crate::text::copy_strings(depend_keys);
    let res = resolve_refs(all_fluent_keys, terms, items, 0, &vm, &vt, depth, &mut vars, &mut refs);
    match res {
        Err(id) => Err(ExtractError::MissingReference { id, path: key.path.clone() }),
        Ok(()) => {
            *kwargs = vars;
            *depend_keys = refs;
            record_message_refs(&mut key.depends_on_keys, items);
            Ok(())
        },
    }
}

/// The placeholders that `key`'s value needs, following the messages and terms it
/// refers to; the messages met are added to `depend_keys` (through messages only:
/// not inside terms) and those named in its own value to `key.depends_on_keys`.
pub fn extract_kwargs(
    key: &mut FluentKey,
    terms: &Vec<FluentKey>,
    all_fluent_keys: &Vec<FluentKey>,
    depend_keys: &mut Vec<String>,
) -> (r: Result<Vec<String>, ExtractError>)
    requires
        all_fluent_keys.len() + terms.len() <= usize::MAX,
    ensures
        walked(
            resolution(*old(key), key_refs(*old(key)), terms@, all_fluent_keys@),
            match r {
                Ok(_) => Ok(()),
                Err(e) => Err(e),
            },
            key_refs(*old(key)),
            *old(key),
            *final(key),
            Seq::empty(),
            match r {
                Ok(v) => v@,
                Err(_) => Seq::empty(),
            },
            old(depend_keys)@,
            final(depend_keys)@,
        ),
{
    let items = entry_references(&key.entry);
    let mut kwargs: Vec<String> = Vec::new();
    match apply_references(key, &items, &mut kwargs, terms, all_fluent_keys, depend_keys) {
        Ok(()) => Ok(kwargs),
        Err(e) => Err(e),
    }
}

/// What `extract_kwargs` does for one element of `key`'s pattern, adding the
/// placeholders found to `kwargs`.
pub fn extract_kwargs_from_placeable(
    key: &mut FluentKey,
    placeable: &PatternElement,
    kwargs: &mut Vec<String>,
    terms: &Vec<FluentKey>,
    all_fluent_keys: &Vec<FluentKey>,
    depend_keys: &mut Vec<String>,
) -> (r: Result<(), ExtractError>)
    requires
        all_fluent_keys.len() + terms.len() <= usize::MAX,
    ensures
        walked(
            resolution(*old(key), element_refs(*placeable), terms@, all_fluent_keys@),
            r,
            element_refs(*placeable),
            *old(key),
            *final(key),
            old(kwargs)@,
            final(kwargs)@,
            old(depend_keys)@,
            final(depend_keys)@,
        ),
{
    let mut items: Vec<Reference> = Vec::new();
    push_element_refs(placeable, &mut items);
    assert(items@ =~= element_refs(*placeable));
    apply_references(key, &items, kwargs, terms, all_fluent_keys, depend_keys)
}

/// A variable reference is a placeholder by itself.
pub fn extract_kwargs_from_variable_reference(variable_reference: &String, kwargs: &mut Vec<String>)
    ensures
        names(final(kwargs)@) == names(old(kwargs)@).insert(variable_reference@),
{
    insert_name(kwargs, variable_reference.clone());
}

/// What `extract_kwargs` does for a placeable that refers to message `id`.
pub fn extract_kwargs_from_message_reference(
    key: &mut FluentKey,
    id: &String,
    attribute: &Option<String>,
    kwargs: &mut Vec<String>,
    terms: &Vec<FluentKey>,
    all_fluent_keys: &Vec<FluentKey>,
    depend_keys: &mut Vec<String>,
) -> (r: Result<(), ExtractError>)
    requires
        all_fluent_keys.len() + terms.len() <= usize::MAX,
    ensures
        walked(
            resolution(*old(key), seq![Reference::Message(*id)], terms@, all_fluent_keys@),
            r,
            seq![Reference::Message(*id)],
            *old(key),
            *final(key),
            old(kwargs)@,
            final(kwargs)@,
            old(depend_keys)@,
            final(depend_keys)@,
        ),
{
    let mut items: Vec<Reference> = Vec::new();
    items.push(Reference::Message(id.clone()));
    assert(items@ =~= seq![Reference::Message(*id)]);
    apply_references(key, &items, kwargs, terms, all_fluent_keys, depend_keys)
}

/// What `extract_kwargs` does for a placeable that refers to term `id`; nothing
/// met inside a term is recorded as referenced.
pub fn extract_kwargs_from_term_reference(
    key: &mut FluentKey,
    id: &String,
    attribute: &Option<String>,
    arguments: &Option<CallArguments>,
    kwargs: &mut Vec<String>,
    terms: &Vec<FluentKey>,
    all_fluent_keys: &Vec<FluentKey>,
) -> (r: Result<(), ExtractError>)
    requires
        all_fluent_keys.len() + terms.len() <= usize::MAX,
    ensures
        walked(
            resolution(*old(key), seq![Reference::Term(*id)], terms@, all_fluent_keys@),
            r,
            seq![Reference::Term(*id)],
            *old(key),
            *final(key),
            old(kwargs)@,
            final(kwargs)@,
            Seq::empty(),
            Seq::empty(),
        ),
{
    let mut items: Vec<Reference> = Vec::new();
    items.push(Reference::Term(id.clone()));
    assert(items@ =~= seq![Reference::Term(*id)]);
    let mut unrecorded: Vec<String> = Vec::new();
    let r = apply_references(key, &items, kwargs, terms, all_fluent_keys, &mut unrecorded);
    proof {
        if r is Ok {
            let out = resolution(*old(key), items@, terms@, all_fluent_keys@)->Ok_0;
            let h = resolve_item(all_fluent_keys@, terms@, items@[0], root_messages(*old(key)), root_terms(*old(key)), (all_fluent_keys.len() + terms.len()) as nat)->Ok_0;
            let t = resolve_from(all_fluent_keys@, terms@, items@, 1, root_messages(*old(key)), root_terms(*old(key)), (all_fluent_keys.len() + terms.len()) as nat)->Ok_0;
            assert(h.1 == Set::<Seq<char>>::empty());
            assert(t.1 == Set::<Seq<char>>::empty());
            assert(out.1 =~= Set::<Seq<char>>::empty());
            assert(names(Seq::<String>::empty()) =~= Set::<Seq<char>>::empty());
        }
    }
    r
}

/// What `extract_kwargs` does for a select expression: its selector when it is a
/// variable, then the placeables of every variant.
pub fn extract_kwargs_from_selector_expression(
    key: &mut FluentKey,
    selector: &InlineExpression,
    variants: &Vec<Variant>,
    kwargs: &mut Vec<String>,
    terms: &Vec<FluentKey>,
    all_fluent_keys: &Vec<FluentKey>,
    depend_keys: &mut Vec<String>,
) -> (r: Result<(), ExtractError>)
    requires
        all_fluent_keys.len() + terms.len() <= usize::MAX,
    ensures
        walked(
            resolution(*old(key), selector_refs(*selector, variants@), terms@, all_fluent_keys@),
            r,
            selector_refs(*selector, variants@),
            *old(key),
            *final(key),
            old(kwargs)@,
            final(kwargs)@,
            old(depend_keys)@,
            final(depend_keys)@,
        ),
{
    let mut items: Vec<Reference> = Vec::new();
    if let InlineExpression::VariableReference { id } = selector {
        items.push(Reference::Variable(id.clone()));
    }
    push_variants_refs(variants, &mut items);
    assert(items@ =~= selector_refs(*selector, variants@));
    apply_references(key, &items, kwargs, terms, all_fluent_keys, depend_keys)
}

/// What a select expression with this selector and these variants mentions.
pub open spec fn selector_refs(selector: InlineExpression, variants: Seq<Variant>) -> Seq<Reference> {
    let head = match selector {
        InlineExpression::VariableReference { id } => seq![Reference::Variable(id)],
        _ => seq![],
    };
    head + variants_refs(variants)
}

/// What `extract_kwargs` does for a message, adding to `kwargs`.
pub fn extract_kwargs_from_message(
    key: &mut FluentKey,
    kwargs: &mut Vec<String>,
    terms: &Vec<FluentKey>,
    all_fluent_keys: &Vec<FluentKey>,
    depend_keys: &mut Vec<String>,
) -> (r: Result<(), ExtractError>)
    requires
        *old(key).entry is Message,
        all_fluent_keys.len() + terms.len() <= usize::MAX,
    ensures
        walked(
            resolution(*old(key), key_refs(*old(key)), terms@, all_fluent_keys@),
            r,
            key_refs(*old(key)),
            *old(key),
            *final(key),
            old(kwargs)@,
            final(kwargs)@,
            old(depend_keys)@,
            final(depend_keys)@,
        ),
{
    let items = entry_references(&key.entry);
    apply_references(key, &items, kwargs, terms, all_fluent_keys, depend_keys)
}

/// What `extract_kwargs` does for a term, adding to `kwargs`.
pub fn extract_kwargs_from_term(
    key: &mut FluentKey,
    kwargs: &mut Vec<String>,
    terms: &Vec<FluentKey>,
    all_fluent_keys: &Vec<FluentKey>,
    depend_keys: &mut Vec<String>,
) -> (r: Result<(), ExtractError>)
    requires
        *old(key).entry is Term,
        all_fluent_keys.len() + terms.len() <= usize::MAX,
    ensures
        walked(
            resolution(*old(key), key_refs(*old(key)), terms@, all_fluent_keys@),
            r,
            key_refs(*old(key)),
            *old(key),
            *final(key),
            old(kwargs)@,
            final(kwargs)@,
            old(depend_keys)@,
            final(depend_keys)@,
        ),
{
    let items = entry_references(&key.entry);
    apply_references(key, &items, kwargs, terms, all_fluent_keys, depend_keys)
}

} // verus!
