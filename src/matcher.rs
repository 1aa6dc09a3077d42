//! The call-site recognizer: which calls in a source file ask for a translation,
//! and which Fluent key each one asks for.
use std::sync::Arc;
use vstd::prelude::*;
use crate::consts::{GET_LITERAL, PATH_LITERAL};
use crate::fluent::{Expression, FluentEntry, InlineExpression, Message, Pattern, PatternElement};
use crate::key::{ExtractError, FluentKey, find_key, key_index, keys_unique};
use crate::paths::{route_path, routed_path};
use crate::text::{contains_name, names, text_eq};

verus! {

/// The callee of a call expression, as far as the recognizer reads it.
#[derive(Debug)]
pub enum Callee {
    /// A bare identifier, as in `i18n(...)`.
    Name(String),
    /// `value.attr`, as in `i18n.menu.start(...)`.
    Attribute { value: Box<Callee>, attr: String },
    /// Any other expression.
    Other,
}

/// A call argument: a string literal, or something else.
#[derive(Debug)]
pub enum Argument {
    StringLiteral(String),
    Other,
}

/// A keyword argument; `arg` is `None` for `**kwargs`.
#[derive(Debug)]
pub struct Keyword {
    pub arg: Option<String>,
    pub value: Argument,
}

/// One call expression of a source file, in source order.
#[derive(Debug)]
pub struct CallSite {
    pub func: Callee,
    /// The positional arguments.
    pub args: Vec<Argument>,
    pub keywords: Vec<Keyword>,
}

/// The characters of each string of `s`.
pub open spec fn views(s: Seq<String>) -> Seq<Seq<char>> {
    s.map_values(|x: String| x@)
}

/// The attribute names of a callee, the one nearest the call first, and the
/// identifier the chain starts from; `None` when it starts from anything else.
pub open spec fn chain(c: Callee) -> Option<(Seq<String>, String)>
    decreases c,
{
    match c {
        Callee::Name(n) => Some((seq![], n)),
        Callee::Attribute { value, attr } => match chain(*value) {
            Some(inner) => Some((seq![attr] + inner.0, inner.1)),
            None => None,
        },
        Callee::Other => None,
    }
}

/// The value of the first positional argument, when it is a string literal.
pub open spec fn literal_key(args: Seq<Argument>) -> Option<Seq<char>> {
    if args.len() > 0 && args[0] is StringLiteral {
        Some(args[0]->StringLiteral_0@)
    } else {
        None
    }
}

/// Segments given nearest-the-call first, joined by `-` from the outermost in.
pub open spec fn outside_in(segs: Seq<Seq<char>>) -> Seq<char>
    decreases segs.len(),
{
    if segs.len() == 0 {
        seq![]
    } else if segs.len() == 1 {
        segs[0]
    } else {
        outside_in(segs.subrange(1, segs.len() as int)) + seq!['-'] + segs[0]
    }
}

/// The key that an attribute chain on a translator names: for `.get` the literal
/// argument; else the segments joined outside in, unless the one nearest the call
/// is an ignored attribute. No segments, no key.
pub open spec fn segments_key(
    ignore_attributes: Seq<String>,
    segs: Seq<String>,
    args: Seq<Argument>,
) -> Option<Seq<char>> {
    if segs.len() == 1 && segs[0]@ == seq!['g', 'e', 't'] {
        literal_key(args)
    } else if segs.len() == 0 {
        None
    } else if names(ignore_attributes).contains(segs[0]@) {
        None
    } else {
        Some(outside_in(views(segs)))
    }
}

/// The key that `call` asks for, if it is a translation site.
pub open spec fn call_key(m: I18nMatcher, call: CallSite) -> Option<Seq<char>> {
    match call.func {
        Callee::Name(n) => if names(m.i18n_keys@).contains(n@) {
            literal_key(call.args@)
        } else {
            None
        },
        Callee::Attribute { .. } => match chain(call.func) {
            None => None,
            Some(ch) => if names(m.i18n_keys@).contains(ch.1@) {
                segments_key(m.ignore_attributes@, ch.0, call.args@)
            } else if names(m.i18n_keys_prefix@).contains(ch.1@) && ch.0.len() > 0 && names(
                m.i18n_keys@,
            ).contains(ch.0.last()@) {
                segments_key(m.ignore_attributes@, ch.0.drop_last(), call.args@)
            } else {
                None
            },
        },
        Callee::Other => None,
    }
}

/// Whether keyword `kw` routes the key: `_path` with a non-empty string literal.
pub open spec fn is_route(kw: Keyword) -> bool {
    &&& kw.arg is Some
    &&& kw.arg->Some_0@ == seq!['_', 'p', 'a', 't', 'h']
    &&& kw.value is StringLiteral
    &&& kw.value->StringLiteral_0@.len() > 0
}

/// The Fluent file that the keywords route a key to: the last `_path` decides.
pub open spec fn keywords_path(kws: Seq<Keyword>, default_file: Seq<char>) -> Seq<char>
    decreases kws.len(),
{
    if kws.len() == 0 {
        default_file
    } else if is_route(kws.last()) {
        routed_path(kws.last().value->StringLiteral_0@, default_file)
    } else {
        keywords_path(kws.drop_last(), default_file)
    }
}

/// The placeholders that the keywords give, in call order: every named keyword
/// but `_path` and the ignored ones.
pub open spec fn keywords_vars(kws: Seq<Keyword>, ignore_kwargs: Seq<String>) -> Seq<Seq<char>>
    decreases kws.len(),
{
    if kws.len() == 0 {
        seq![]
    } else {
        let kw = kws.last();
        let rest = keywords_vars(kws.drop_last(), ignore_kwargs);
        if kw.arg is Some && kw.arg->Some_0@ != seq!['_', 'p', 'a', 't', 'h'] && !names(
            ignore_kwargs,
        ).contains(kw.arg->Some_0@) {
            rest.push(kw.arg->Some_0@)
        } else {
            rest
        }
    }
}

/// What a translation site records: its key, its target file and its placeholders.
#[verifier::opaque]
pub open spec fn recognized(m: I18nMatcher, call: CallSite) -> Option<
    (Seq<char>, Seq<char>, Seq<Seq<char>>),
> {
    match call_key(m, call) {
        Some(k) => Some(
            (k, keywords_path(call.keywords@, m.default_ftl_file@), keywords_vars(call.keywords@, m.ignore_kwargs@)),
        ),
        None => None,
    }
}

/// The variable a pattern element stands for, when it is a variable placeable.
pub open spec fn element_var(el: PatternElement) -> Seq<char> {
    match el {
        PatternElement::Placeable { expression: Expression::Inline(InlineExpression::VariableReference { id }) } => id@,
        _ => seq![],
    }
}

/// The variables that pattern elements stand for.
pub open spec fn elements_vars(els: Seq<PatternElement>) -> Seq<Seq<char>> {
    els.map_values(|el: PatternElement| element_var(el))
}

/// The placeholders of a generated message: what follows its leading text.
#[verifier::opaque]
pub open spec fn message_vars(e: FluentEntry) -> Seq<Seq<char>> {
    match e {
        FluentEntry::Message(m) => match m.value {
            Some(p) => if p.elements@.len() == 0 {
                seq![]
            } else {
                elements_vars(p.elements@.subrange(1, p.elements@.len() as int))
            },
            None => seq![],
        },
        _ => seq![],
    }
}

/// Whether `e` is the message generated for `key`: its id and leading text are
/// the key, and only variable placeables follow.
pub open spec fn is_generated(e: FluentEntry, key: Seq<char>) -> bool {
    match e {
        FluentEntry::Message(m) => {
            &&& m.id@ == key
            &&& m.attributes@.len() == 0
            &&& m.comment is None
            &&& m.value is Some
            &&& m.value->Some_0.elements@.len() >= 1
            &&& m.value->Some_0.elements@[0] matches PatternElement::TextElement { value } && value@ == key
            &&& forall|i: int| 1 <= i < m.value->Some_0.elements@.len() ==> (
                #[trigger] m.value->Some_0.elements@[i] matches PatternElement::Placeable {
                    expression: Expression::Inline(InlineExpression::VariableReference { .. }),
                })
        },
        _ => false,
    }
}

/// The record of a code key: key, target file and placeholders.
pub open spec fn record_of(k: FluentKey) -> (Seq<char>, Seq<char>, Seq<Seq<char>>) {
    (k.key@, k.path@, message_vars(*k.entry))
}

/// Whether `k` is a key derived from code in file `code_path`.
pub open spec fn is_code_key(k: FluentKey, code_path: Seq<char>) -> bool {
    &&& is_generated(*k.entry, k.key@)
    &&& k.code_path@ == code_path
    &&& k.locale is None
    &&& k.position == usize::MAX
    &&& k.depends_on_keys@.len() == 0
}

/// Walks the calls of one source file and collects the keys they ask for.
pub struct I18nMatcher {
    pub code_path: String,
    pub default_ftl_file: String,
    pub i18n_keys: Vec<String>,
    pub i18n_keys_prefix: Vec<String>,
    pub ignore_attributes: Vec<String>,
    pub ignore_kwargs: Vec<String>,
    pub fluent_keys: Vec<FluentKey>,
}

/// The configuration of `a` and `b` is the same.
pub open spec fn same_config(a: I18nMatcher, b: I18nMatcher) -> bool {
    &&& a.code_path == b.code_path
    &&& a.default_ftl_file == b.default_ftl_file
    &&& a.i18n_keys == b.i18n_keys
    &&& a.i18n_keys_prefix == b.i18n_keys_prefix
    &&& a.ignore_attributes == b.ignore_attributes
    &&& a.ignore_kwargs == b.ignore_kwargs
}

/// The keys collected so far are unique and were each generated from a call.
pub open spec fn keys_well_formed(m: I18nMatcher) -> bool {
    &&& keys_unique(m.fluent_keys@)
    &&& forall|j: int| 0 <= j < m.fluent_keys@.len() ==> is_code_key(#[trigger] m.fluent_keys@[j], m.code_path@)
}

fn collect_chain(c: &Callee, segs: &mut Vec<String>) -> (r: Option<String>)
    ensures
        match chain(*c) {
            Some(ch) => r == Some(ch.1) && final(segs)@ == old(segs)@ + ch.0,
            None => r is None,
        },
    decreases c,
{
    match c {
        Callee::Name(n) => {
            assert(old(segs)@ + seq![] =~= old(segs)@);
            Some(n.clone())
        },
        Callee::Attribute { value, attr } => {
            segs.push(attr.clone());
            let r = collect_chain(value, segs);
            proof {
                if let Some(ch) = chain(**value) {
                    assert(final(segs)@ =~= old(segs)@ + (seq![*attr] + ch.0));
                }
            }
            r
        },
        Callee::Other => None,
    }
}

fn first_literal(args: &Vec<Argument>) -> (r: Option<String>)
    ensures
        match r {
            Some(k) => literal_key(args@) == Some(k@),
            None => literal_key(args@) is None,
        },
{
    if args.len() == 0 {
        return None;
    }
    match &args[0] {
        Argument::StringLiteral(v) => Some(v.clone()),
        Argument::Other => None,
    }
}

fn join_outside_in(segs: &Vec<String>) -> (r: String)
    ensures
        r@ == outside_in(views(segs@)),
{
    let n = segs.len();
    let ghost vs = views(segs@);
    let mut key = String::new();
    let mut i: usize = n;
    assert(vs.subrange(n as int, n as int) =~= Seq::<Seq<char>>::empty());
    while i > 0
        invariant
            i <= n,
            n == segs.len(),
            vs == views(segs@),
            key@ == outside_in(vs.subrange(i as int, n as int)),
        decreases i,
    {
        let ghost t = vs.subrange(i - 1, n as int);
        assert(t.subrange(1, t.len() as int) =~= vs.subrange(i as int, n as int));
        assert(t[0] == segs@[i - 1]@);
        if i < n {
            key.append("-");
            proof {
                reveal_strlit("-");
            }
        }
        key.append(segs[i - 1].as_str());
        i -= 1;
    }
    assert(vs.subrange(0, n as int) =~= vs);
    key
}

pub(crate) fn same_views(a: &Vec<String>, b: &Vec<String>) -> (r: bool)
    ensures
        r == (views(a@) == views(b@)),
{
    if a.len() != b.len() {
        assert(views(a@).len() != views(b@).len());
        return false;
    }
    let mut i: usize = 0;
    while i < a.len()
        invariant
            a.len() == b.len(),
            i <= a.len(),
            forall|j: int| 0 <= j < i ==> a@[j]@ == b@[j]@,
        decreases a.len() - i,
    {
        if a[i] != b[i] {
            assert(views(a@)[i as int] != views(b@)[i as int]);
            return false;
        }
        i += 1;
    }
    assert(views(a@) =~= views(b@));
    true
}

/// The placeholders of entry `e`, as `message_vars` reads them.
pub(crate) fn entry_vars(e: &FluentEntry) -> (r: Vec<String>)
    ensures
        views(r@) == message_vars(*e),
{
    broadcast use vstd::seq::group_seq_axioms;

    proof {
        reveal(message_vars);
    }
    let mut r: Vec<String> = Vec::new();
    if let FluentEntry::Message(m) = e {
        if let Some(p) = &m.value {
            let els = &p.elements;
            if els.len() == 0 {
                assert(views(r@) =~= message_vars(*e));
                return r;
            }
            let ghost target = elements_vars(els@.subrange(1, els@.len() as int));
            let mut i: usize = 1;
            while i < els.len()
                invariant
                    1 <= i <= els.len(),
                    target == elements_vars(els@.subrange(1, els@.len() as int)),
                    views(r@) =~= target.subrange(0, i - 1),
                decreases els.len() - i,
            {
                let v = match &els[i] {
                    PatternElement::Placeable {
                        expression: Expression::Inline(InlineExpression::VariableReference { id }),
                    } => id.clone(),
                    _ => String::new(),
                };
                assert(v@ == element_var(els@[i as int]));
                assert(els@.subrange(1, els@.len() as int)[i - 1] == els@[i as int]);
                assert(target[i - 1] == element_var(els@[i as int]));
                let ghost before = r@;
                assert(target.subrange(0, i - 1).len() == i - 1);
                assert(views(before).len() == before.len());
                assert(before.len() == i - 1);
                r.push(v);
                assert(r@.len() == i);
                assert forall|k: int| 0 <= k < i implies views(r@)[k] == target.subrange(0, i as int)[k] by {
                    if k < i - 1 {
                        assert(r@[k] == before[k]);
                        assert(views(before)[k] == target.subrange(0, i - 1)[k]);
                    } else {
                        assert(r@[k] == v);
                    }
                }
                assert(views(r@) =~= target.subrange(0, i as int));
                i += 1;
            }
            assert(target.subrange(0, target.len() as int) =~= target);
            return r;
        }
    }
    assert(views(r@) =~= message_vars(*e));
    r
}

impl I18nMatcher {
    /// A matcher for the calls of source file `code_path`, with nothing collected yet.
    pub fn new(
        code_path: String,
        default_ftl_file: String,
        i18n_keys: Vec<String>,
        i18n_keys_prefix: Vec<String>,
        ignore_attributes: Vec<String>,
        ignore_kwargs: Vec<String>,
    ) -> (r: I18nMatcher)
        ensures
            r.code_path == code_path,
            r.default_ftl_file == default_ftl_file,
            r.i18n_keys == i18n_keys,
            r.i18n_keys_prefix == i18n_keys_prefix,
            r.ignore_attributes == ignore_attributes,
            r.ignore_kwargs == ignore_kwargs,
            r.fluent_keys@.len() == 0,
            keys_well_formed(r),
    {
        I18nMatcher {
            code_path,
            default_ftl_file,
            i18n_keys,
            i18n_keys_prefix,
            ignore_attributes,
            ignore_kwargs,
            fluent_keys: Vec::new(),
        }
    }

    /// The key of a bare-name call such as `i18n("welcome")`.
    fn process_name_call(&self, call: &CallSite) -> (r: Option<String>)
        requires
            call.func is Name,
        ensures
            match r {
                Some(k) => call_key(*self, *call) == Some(k@),
                None => call_key(*self, *call) is None,
            },
    {
        if let Callee::Name(n) = &call.func {
            if contains_name(&self.i18n_keys, n.as_str()) {
                return first_literal(&call.args);
            }
        }
        None
    }

    /// The key of a call on an attribute chain, such as `i18n.menu.start()`.
    fn process_attribute_call(&self, call: &CallSite) -> (r: Option<String>)
        requires
            call.func is Attribute,
        ensures
            match r {
                Some(k) => call_key(*self, *call) == Some(k@),
                None => call_key(*self, *call) is None,
            },
    {
        let mut attrs: Vec<String> = Vec::new();
        let base = collect_chain(&call.func, &mut attrs);
        assert(attrs@ =~= Seq::<String>::empty() + attrs@);
        match base {
            None => None,
            Some(name) => self.process_attribute_name_call(call, &name, attrs),
        }
    }

    fn process_attribute_name_call(&self, call: &CallSite, base: &String, attrs: Vec<String>) -> (r:
        Option<String>)
        requires
            call.func is Attribute,
            chain(call.func) == Some((attrs@, *base)),
        ensures
            match r {
                Some(k) => call_key(*self, *call) == Some(k@),
                None => call_key(*self, *call) is None,
            },
    {
        if contains_name(&self.i18n_keys, base.as_str()) {
            self.process_i18n_key_call(call, &attrs)
        } else if contains_name(&self.i18n_keys_prefix, base.as_str()) && attrs.len() > 0
            && contains_name(&self.i18n_keys, attrs[attrs.len() - 1].as_str()) {
            let mut attrs = attrs;
            attrs.pop();
            self.process_i18n_key_call(call, &attrs)
        } else {
            None
        }
    }

    /// The key of a chain on a translator, given its segments nearest the call first.
    fn process_i18n_key_call(&self, call: &CallSite, attrs: &Vec<String>) -> (r: Option<String>)
        ensures
            match r {
                Some(k) => segments_key(self.ignore_attributes@, attrs@, call.args@) == Some(k@),
                None => segments_key(self.ignore_attributes@, attrs@, call.args@) is None,
            },
    {
        proof {
            reveal_strlit("get");
        }
        if attrs.len() == 1 && text_eq(attrs[0].as_str(), GET_LITERAL) {
            assert(GET_LITERAL@ == seq!['g', 'e', 't']);
            self.process_i18n_key_call_get_literal(call)
        } else {
            assert(!(attrs@.len() == 1 && attrs@[0]@ == seq!['g', 'e', 't'])) by {
                if attrs@.len() == 1 && attrs@[0]@ == seq!['g', 'e', 't'] {
                    assert(GET_LITERAL@ == seq!['g', 'e', 't']);
                }
            }
            self.process_i18n_key_call_attrs(attrs)
        }
    }

    /// `i18n.get("key")`: the literal is the key; without one the call is skipped.
    fn process_i18n_key_call_get_literal(&self, call: &CallSite) -> (r: Option<String>)
        ensures
            match r {
                Some(k) => literal_key(call.args@) == Some(k@),
                None => literal_key(call.args@) is None,
            },
    {
        first_literal(&call.args)
    }

    /// The segments joined outside in, unless the one nearest the call is ignored.
    fn process_i18n_key_call_attrs(&self, attrs: &Vec<String>) -> (r: Option<String>)
        requires
            !(attrs@.len() == 1 && attrs@[0]@ == seq!['g', 'e', 't']),
        ensures
            match r {
                Some(k) => segments_key(self.ignore_attributes@, attrs@, Seq::empty()) == Some(k@),
                None => segments_key(self.ignore_attributes@, attrs@, Seq::empty()) is None,
            },
    {
        if attrs.len() == 0 {
            return None;
        }
        if contains_name(&self.ignore_attributes, attrs[0].as_str()) {
            return None;
        }
        Some(join_outside_in(attrs))
    }
}

/// Whether two translation sites among `calls` ask for the same key with another
/// target file or other placeholders.
pub open spec fn calls_conflict(m: I18nMatcher, calls: Seq<CallSite>) -> bool {
    exists|i: int, j: int|
        0 <= i < j < calls.len() && #[trigger] recognized(m, calls[i]) is Some
            && #[trigger] recognized(m, calls[j]) is Some && record_key(recognized(m, calls[i]))
            == record_key(recognized(m, calls[j])) && recognized(m, calls[i]) != recognized(m, calls[j])
}

/// The key of a record, if there is one.
pub open spec fn record_key(rec: Option<(Seq<char>, Seq<char>, Seq<Seq<char>>)>) -> Seq<char> {
    match rec {
        Some(r) => r.0,
        None => seq![],
    }
}

/// Whether every translation site among `calls` has its record in `keys`.
#[verifier::opaque]
pub open spec fn covers(m: I18nMatcher, calls: Seq<CallSite>, keys: Seq<FluentKey>) -> bool {
    forall|i: int|
        0 <= i < calls.len() && #[trigger] recognized(m, calls[i]) is Some ==> exists|j: int|
            0 <= j < keys.len() && record_of(#[trigger] keys[j]) == recognized(m, calls[i])->0
}

/// Whether every record in `keys` is that of a translation site among `calls`.
#[verifier::opaque]
pub open spec fn sourced(m: I18nMatcher, calls: Seq<CallSite>, keys: Seq<FluentKey>) -> bool {
    forall|j: int|
        0 <= j < keys.len() ==> exists|i: int|
            0 <= i < calls.len() && #[trigger] recognized(m, calls[i]) == Some(
                record_of(#[trigger] keys[j]),
            )
}

/// Whether `keys` holds exactly the records of the translation sites among `calls`.
pub open spec fn represents(m: I18nMatcher, calls: Seq<CallSite>, keys: Seq<FluentKey>) -> bool {
    covers(m, calls, keys) && sourced(m, calls, keys)
}

impl I18nMatcher {
    /// The key generated for a call: a message whose value is the key, followed by
    /// one variable placeable per named keyword, routed by `_path`.
    fn create_fluent_key(&self, call: &CallSite, key: String) -> (r: FluentKey)
        ensures
            is_code_key(r, self.code_path@),
            record_of(r) == (
                key@,
                keywords_path(call.keywords@, self.default_ftl_file@),
                keywords_vars(call.keywords@, self.ignore_kwargs@),
            ),
    {
        proof {
            reveal_strlit("_path");
            reveal(message_vars);
        }
        assert(PATH_LITERAL@ == seq!['_', 'p', 'a', 't', 'h']);
        let kws = &call.keywords;
        let mut path = self.default_ftl_file.clone();
        let mut vars: Vec<String> = Vec::new();
        let mut elements: Vec<PatternElement> = Vec::new();
        elements.push(PatternElement::TextElement { value: key.clone() });
        let mut i: usize = 0;
        while i < kws.len()
            invariant
                i <= kws.len(),
                PATH_LITERAL@ == seq!['_', 'p', 'a', 't', 'h'],
                path@ == keywords_path(kws@.subrange(0, i as int), self.default_ftl_file@),
                views(vars@) == keywords_vars(kws@.subrange(0, i as int), self.ignore_kwargs@),
                elements@.len() == vars@.len() + 1,
                elements@[0] matches PatternElement::TextElement { value } && value@ == key@,
                forall|j: int|
                    1 <= j < elements@.len() ==> (#[trigger] elements@[j] matches PatternElement::Placeable {
                        expression: Expression::Inline(InlineExpression::VariableReference { id }),
                    } && id@ == vars@[j - 1]@),
            decreases kws.len() - i,
        {
            let ghost pre = kws@.subrange(0, i as int);
            let ghost next = kws@.subrange(0, i + 1);
            assert(next.drop_last() =~= pre);
            assert(next.last() == kws@[i as int]);
            let kw = &kws[i];
            if let Some(arg) = &kw.arg {
                if text_eq(arg.as_str(), PATH_LITERAL) {
                    if let Argument::StringLiteral(raw) = &kw.value {
                        if chars_of_len(raw) > 0 {
                            path = route_path(raw.as_str(), self.default_ftl_file.as_str());
                        }
                    }
                } else if !contains_name(&self.ignore_kwargs, arg.as_str()) {
                    let ghost before = vars@;
                    vars.push(arg.clone());
                    elements.push(
                        PatternElement::Placeable {
                            expression: Expression::Inline(
                                InlineExpression::VariableReference { id: arg.clone() },
                            ),
                        },
                    );
                    assert(views(vars@) =~= views(before).push(arg@));
                }
            }
            i += 1;
        }
        assert(kws@.subrange(0, kws.len() as int) =~= kws@);
        let ghost els = elements@;
        let ghost vs = views(vars@);
        assert(elements_vars(els.subrange(1, els.len() as int)) =~= vs) by {
            assert forall|j: int| 0 <= j < vs.len() implies elements_vars(
                els.subrange(1, els.len() as int),
            )[j] == vs[j] by {
                assert(els.subrange(1, els.len() as int)[j] == els[j + 1]);
                assert(els[j + 1] matches PatternElement::Placeable {
                    expression: Expression::Inline(InlineExpression::VariableReference { id }),
                } && id@ == vars@[j]@);
            }
        }
        let message = Message {
            id: key.clone(),
            value: Some(Pattern { elements }),
            attributes: Vec::new(),
            comment: None,
        };
        FluentKey {
            code_path: self.code_path.clone(),
            key,
            entry: Arc::new(FluentEntry::Message(message)),
            path,
            locale: None,
            position: usize::MAX,
            depends_on_keys: Vec::new(),
            rendered: String::new(),
        }
    }

    /// Records `key`, unless a key of that name is there already: then its target
    /// file and its placeholders must be the same.
    fn add_fluent_key(&mut self, key: FluentKey) -> (r: Result<(), ExtractError>)
        requires
            keys_well_formed(*old(self)),
            is_code_key(key, old(self).code_path@),
        ensures
            same_config(*old(self), *final(self)),
            keys_well_formed(*final(self)),
            match key_index(old(self).fluent_keys@, key.key@) {
                None => r is Ok && final(self).fluent_keys@ == old(self).fluent_keys@.push(key),
                Some(j) => final(self).fluent_keys@ == old(self).fluent_keys@ && if old(
                    self,
                ).fluent_keys@[j].path@ != key.path@ {
                    r matches Err(ExtractError::PathConflict { key: k, .. }) && k@ == key.key@
                } else if record_of(old(self).fluent_keys@[j]) != record_of(key) {
                    r matches Err(ExtractError::MessageConflict { key: k }) && k@ == key.key@
                } else {
                    r is Ok
                },
            },
    {
        match find_key(&self.fluent_keys, key.key.as_str()) {
            Some(j) => {
                let existing = &self.fluent_keys[j];
                if existing.path != key.path {
                    return Err(
                        ExtractError::PathConflict {
                            key: key.key.clone(),
                            first_path: existing.path.clone(),
                            second_path: key.path.clone(),
                        },
                    );
                }
                let a = entry_vars(&existing.entry);
                let b = entry_vars(&key.entry);
                if !same_views(&a, &b) {
                    return Err(ExtractError::MessageConflict { key: key.key.clone() });
                }
                Ok(())
            },
            None => {
                proof {
                    assert forall|i: int| 0 <= i < old(self).fluent_keys@.len() implies old(
                        self,
                    ).fluent_keys@[i].key@ != key.key@ by {
                        if old(self).fluent_keys@[i].key@ == key.key@ {
                            assert(crate::key::has_key(old(self).fluent_keys@, key.key@));
                        }
                    }
                }
                self.fluent_keys.push(key);
                Ok(())
            },
        }
    }

    /// Records the key that `call` asks for, if it is a translation site.
    pub fn visit_expr(&mut self, call: &CallSite) -> (r: Result<(), ExtractError>)
        requires
            keys_well_formed(*old(self)),
        ensures
            same_config(*old(self), *final(self)),
            keys_well_formed(*final(self)),
            match recognized(*old(self), *call) {
                None => r is Ok && final(self).fluent_keys@ == old(self).fluent_keys@,
                Some(rec) => match key_index(old(self).fluent_keys@, rec.0) {
                    None => r is Ok && final(self).fluent_keys@.len() == old(self).fluent_keys@.len()
                        + 1 && final(self).fluent_keys@.drop_last() == old(self).fluent_keys@
                        && record_of(final(self).fluent_keys@.last()) == rec,
                    Some(j) => final(self).fluent_keys@ == old(self).fluent_keys@ && if record_of(
                        old(self).fluent_keys@[j],
                    ) == rec {
                        r is Ok
                    } else {
                        r is Err
                    },
                },
            },
    {
        proof {
            reveal(recognized);
        }
        let key = match &call.func {
            Callee::Attribute { .. } => self.process_attribute_call(call),
            Callee::Name(_) => self.process_name_call(call),
            Callee::Other => None,
        };
        match key {
            None => Ok(()),
            Some(k) => {
                let fk = self.create_fluent_key(call, k);
                let r = self.add_fluent_key(fk);
                proof {
                    if key_index(old(self).fluent_keys@, fk.key@) is None {
                        assert(self.fluent_keys@.drop_last() =~= old(self).fluent_keys@);
                    }
                }
                r
            },
        }
    }
}

fn chars_of_len(s: &String) -> (r: usize)
    ensures
        r == s@.len(),
{
    crate::text::chars_of(s.as_str()).len()
}

proof fn lemma_recognized_config(a: I18nMatcher, b: I18nMatcher, call: CallSite)
    requires
        same_config(a, b),
    ensures
        recognized(a, call) == recognized(b, call),
{
    reveal(recognized);
}

proof fn lemma_conflict_found(m0: I18nMatcher, calls: Seq<CallSite>, i: int, keys0: Seq<FluentKey>)
    requires
        0 <= i < calls.len(),
        keys_unique(keys0),
        represents(m0, calls.subrange(0, i), keys0),
        recognized(m0, calls[i]) is Some,
        key_index(keys0, record_key(recognized(m0, calls[i]))) is Some,
        record_of(keys0[key_index(keys0, record_key(recognized(m0, calls[i])))->Some_0])
            != recognized(m0, calls[i])->0,
    ensures
        calls_conflict(m0, calls),
{
    let pre = calls.subrange(0, i);
    let rec = recognized(m0, calls[i])->0;
    let j = key_index(keys0, rec.0)->Some_0;
    assert(0 <= j < keys0.len() && keys0[j].key@ == rec.0) by {
        crate::key::lemma_key_index_found(keys0, rec.0);
    }
    reveal(sourced);
    let w = choose|w: int|
        0 <= w < pre.len() && #[trigger] recognized(m0, pre[w]) == Some(record_of(keys0[j]));
    assert(pre[w] == calls[w]);
    assert(recognized(m0, calls[w]) == Some(record_of(keys0[j])));
    assert(record_key(recognized(m0, calls[w])) == record_key(recognized(m0, calls[i])));
}

proof fn lemma_step_skipped(m0: I18nMatcher, calls: Seq<CallSite>, i: int, keys: Seq<FluentKey>)
    requires
        0 <= i < calls.len(),
        !calls_conflict(m0, calls.subrange(0, i)),
        represents(m0, calls.subrange(0, i), keys),
        recognized(m0, calls[i]) is None,
    ensures
        !calls_conflict(m0, calls.subrange(0, i + 1)),
        represents(m0, calls.subrange(0, i + 1), keys),
{
    let pre = calls.subrange(0, i);
    let next = calls.subrange(0, i + 1);
    assert forall|k: int| 0 <= k < i implies next[k] == pre[k] by {}
    assert(next[i] == calls[i]);
    assert forall|a: int, b: int|
        0 <= a < b < next.len() && #[trigger] recognized(m0, next[a]) is Some
            && #[trigger] recognized(m0, next[b]) is Some && record_key(recognized(m0, next[a]))
            == record_key(recognized(m0, next[b])) implies recognized(m0, next[a]) == recognized(
        m0,
        next[b],
    ) by {
        assert(b < i);
        assert(recognized(m0, pre[a]) is Some && recognized(m0, pre[b]) is Some);
    }
    assert(covers(m0, next, keys)) by {
        reveal(covers);
        assert forall|k: int|
            0 <= k < next.len() && #[trigger] recognized(m0, next[k]) is Some implies exists|j: int|
                0 <= j < keys.len() && record_of(#[trigger] keys[j]) == recognized(m0, next[k])->0 by {
            assert(recognized(m0, pre[k]) is Some);
        }
    }
    assert(sourced(m0, next, keys)) by {
        reveal(sourced);
        assert forall|j: int| 0 <= j < keys.len() implies exists|k: int|
            0 <= k < next.len() && #[trigger] recognized(m0, next[k]) == Some(
                record_of(#[trigger] keys[j]),
            ) by {
            let k = choose|k: int|
                0 <= k < pre.len() && #[trigger] recognized(m0, pre[k]) == Some(record_of(keys[j]));
            assert(recognized(m0, next[k]) == Some(record_of(keys[j])));
        }
    }
}

proof fn lemma_same_record(
    m0: I18nMatcher,
    calls: Seq<CallSite>,
    i: int,
    keys0: Seq<FluentKey>,
    a: int,
)
    requires
        0 <= a < i < calls.len(),
        keys_unique(keys0),
        represents(m0, calls.subrange(0, i), keys0),
        recognized(m0, calls[i]) is Some,
        recognized(m0, calls[a]) is Some,
        record_key(recognized(m0, calls[a])) == record_key(recognized(m0, calls[i])),
    ensures
        key_index(keys0, record_key(recognized(m0, calls[i]))) is Some,
        record_of(keys0[key_index(keys0, record_key(recognized(m0, calls[i])))->Some_0])
            == recognized(m0, calls[a])->0,
{
    reveal(covers);
    let pre = calls.subrange(0, i);
    let rec = recognized(m0, calls[i])->0;
    assert(pre[a] == calls[a]);
    assert(recognized(m0, pre[a]) is Some);
    let j2 = choose|j2: int|
        0 <= j2 < keys0.len() && record_of(#[trigger] keys0[j2]) == recognized(m0, pre[a])->0;
    assert(crate::key::has_key(keys0, rec.0)) by {
        assert(keys0[j2].key@ == rec.0);
    }
    let j = key_index(keys0, rec.0)->Some_0;
    assert(keys0[j].key@ == rec.0);
    assert(j == j2) by {
        if j < j2 {
            assert(keys0[j].key@ != keys0[j2].key@);
        } else if j > j2 {
            assert(keys0[j2].key@ != keys0[j].key@);
        }
    }
}

proof fn lemma_step_recorded(
    m0: I18nMatcher,
    calls: Seq<CallSite>,
    i: int,
    keys0: Seq<FluentKey>,
    keys1: Seq<FluentKey>,
)
    requires
        0 <= i < calls.len(),
        keys_unique(keys0),
        !calls_conflict(m0, calls.subrange(0, i)),
        represents(m0, calls.subrange(0, i), keys0),
        recognized(m0, calls[i]) is Some,
        ({
            let rec = recognized(m0, calls[i])->0;
            match key_index(keys0, rec.0) {
                None => keys1.len() == keys0.len() + 1 && keys1.drop_last() == keys0 && record_of(
                    keys1.last(),
                ) == rec,
                Some(j) => keys1 == keys0 && record_of(keys0[j]) == rec,
            }
        }),
    ensures
        !calls_conflict(m0, calls.subrange(0, i + 1)),
        represents(m0, calls.subrange(0, i + 1), keys1),
{
    let pre = calls.subrange(0, i);
    let next = calls.subrange(0, i + 1);
    let rec_i = recognized(m0, calls[i]);
    let rec = rec_i->0;
    let present = key_index(keys0, rec.0) is Some;
    assert forall|k: int| 0 <= k < i implies next[k] == pre[k] && pre[k] == calls[k] by {}
    assert(next[i] == calls[i]);
    assert forall|j: int| 0 <= j < keys0.len() implies keys1[j] == keys0[j] by {
        if !present {
            assert(keys1.drop_last()[j] == keys0[j]);
        }
    }
    assert forall|a: int, b: int|
        0 <= a < b < next.len() && #[trigger] recognized(m0, next[a]) is Some
            && #[trigger] recognized(m0, next[b]) is Some && record_key(recognized(m0, next[a]))
            == record_key(recognized(m0, next[b])) implies recognized(m0, next[a]) == recognized(
        m0,
        next[b],
    ) by {
        if b < i {
            assert(recognized(m0, pre[a]) is Some && recognized(m0, pre[b]) is Some);
        } else {
            lemma_same_record(m0, calls, i, keys0, a);
        }
    }
    assert(covers(m0, next, keys1)) by {
        reveal(covers);
        assert forall|k: int|
            0 <= k < next.len() && #[trigger] recognized(m0, next[k]) is Some implies exists|j: int|
                0 <= j < keys1.len() && record_of(#[trigger] keys1[j]) == recognized(m0, next[k])->0 by {
            if k < i {
                assert(recognized(m0, pre[k]) is Some);
                let j = choose|j: int|
                    0 <= j < keys0.len() && record_of(#[trigger] keys0[j]) == recognized(m0, pre[k])->0;
                assert(keys1[j] == keys0[j]);
            } else if present {
                let j = key_index(keys0, rec.0)->Some_0;
                assert(0 <= j < keys0.len()) by {
                    assert(crate::key::has_key(keys0, rec.0));
                }
                assert(keys1[j] == keys0[j]);
            } else {
                assert(keys1[keys1.len() - 1] == keys1.last());
            }
        }
    }
    assert(sourced(m0, next, keys1)) by {
        reveal(sourced);
        assert forall|j: int| 0 <= j < keys1.len() implies exists|k: int|
            0 <= k < next.len() && #[trigger] recognized(m0, next[k]) == Some(
                record_of(#[trigger] keys1[j]),
            ) by {
            if j < keys0.len() {
                let k = choose|k: int|
                    0 <= k < pre.len() && #[trigger] recognized(m0, pre[k]) == Some(record_of(keys0[j]));
                assert(recognized(m0, next[k]) == Some(record_of(keys0[j])));
            } else {
                assert(keys1[j] == keys1.last());
                assert(recognized(m0, next[i]) == Some(record_of(keys1[j])));
            }
        }
    }
}

impl I18nMatcher {
    /// Records the keys that `calls`, the calls of one file in source order, ask
    /// for. Fails when two of them ask for one key with another target file or
    /// other placeholders.
    pub fn visit_body(&mut self, calls: &Vec<CallSite>) -> (r: Result<(), ExtractError>)
        requires
            keys_well_formed(*old(self)),
            old(self).fluent_keys@.len() == 0,
        ensures
            same_config(*old(self), *final(self)),
            keys_well_formed(*final(self)),
            r is Ok <==> !calls_conflict(*old(self), calls@),
            r is Ok ==> represents(*old(self), calls@, final(self).fluent_keys@),
    {
        let ghost m0 = *self;
        assert(calls@.subrange(0, 0) =~= Seq::<CallSite>::empty());
        assert(represents(m0, calls@.subrange(0, 0), self.fluent_keys@)) by {
            reveal(covers);
            reveal(sourced);
        }
        let mut i: usize = 0;
        while i < calls.len()
            invariant
                i <= calls.len(),
                same_config(m0, *self),
                m0 == *old(self),
                keys_well_formed(*self),
                !calls_conflict(m0, calls@.subrange(0, i as int)),
                represents(m0, calls@.subrange(0, i as int), self.fluent_keys@),
            decreases calls.len() - i,
        {
            let ghost keys0 = self.fluent_keys@;
            proof {
                lemma_recognized_config(*self, m0, calls@[i as int]);
            }
            let res = self.visit_expr(&calls[i]);
            if res.is_err() {
                proof {
                    lemma_conflict_found(m0, calls@, i as int, keys0);
                }
                return res;
            }
            proof {
                if recognized(m0, calls@[i as int]) is None {
                    lemma_step_skipped(m0, calls@, i as int, keys0);
                } else {
                    lemma_step_recorded(m0, calls@, i as int, keys0, self.fluent_keys@);
                }
            }
            i += 1;
        }
        assert(calls@.subrange(0, calls.len() as int) =~= calls@);
        Ok(())
    }
}

} // verus!
