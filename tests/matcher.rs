use extractor::code_keys::merge_fluent_keys;
use extractor::fluent::{Expression, FluentEntry, InlineExpression, PatternElement};
use extractor::matcher::{Argument, CallSite, Callee, I18nMatcher, Keyword};
use extractor::paths::route_path;
use extractor::{ExtractError, FluentKey};

fn s(x: &str) -> String {
    x.to_string()
}

fn names(xs: &[&str]) -> Vec<String> {
    xs.iter().map(|x| x.to_string()).collect()
}

fn matcher(keys: &[&str], prefix: &[&str]) -> I18nMatcher {
    I18nMatcher::new(
        s("app.py"),
        s("_default.ftl"),
        names(keys),
        names(prefix),
        names(&["set_locale", "use_locale", "use_context", "set_context"]),
        Vec::new(),
    )
}

fn chain(base: &str, attrs: &[&str]) -> Callee {
    let mut c = Callee::Name(s(base));
    for a in attrs {
        c = Callee::Attribute { value: Box::new(c), attr: s(a) };
    }
    c
}

fn kw(name: &str, value: Argument) -> Keyword {
    Keyword { arg: Some(s(name)), value }
}

fn call(func: Callee, args: Vec<Argument>, keywords: Vec<Keyword>) -> CallSite {
    CallSite { func, args, keywords }
}

fn vars_of(k: &FluentKey) -> Vec<String> {
    match k.entry.as_ref() {
        FluentEntry::Message(m) => m
            .value
            .as_ref()
            .unwrap()
            .elements
            .iter()
            .skip(1)
            .map(|e| match e {
                PatternElement::Placeable {
                    expression: Expression::Inline(InlineExpression::VariableReference { id }),
                } => id.clone(),
                _ => panic!("not a variable"),
            })
            .collect(),
        _ => panic!("not a message"),
    }
}

fn text_of(k: &FluentKey) -> String {
    match k.entry.as_ref() {
        FluentEntry::Message(m) => match &m.value.as_ref().unwrap().elements[0] {
            PatternElement::TextElement { value } => value.clone(),
            _ => panic!("no text"),
        },
        _ => panic!("not a message"),
    }
}

#[test]
fn plain_name_call() {
    let mut m = matcher(&["i18n"], &[]);
    let calls = vec![call(
        Callee::Name(s("i18n")),
        vec![Argument::StringLiteral(s("welcome"))],
        vec![kw("name", Argument::Other)],
    )];
    m.visit_body(&calls).unwrap();
    assert_eq!(m.fluent_keys.len(), 1);
    let k = &m.fluent_keys[0];
    assert_eq!(k.key, "welcome");
    assert_eq!(text_of(k), "welcome");
    assert_eq!(vars_of(k), names(&["name"]));
    assert_eq!(k.path, "_default.ftl");
    assert_eq!(k.position, usize::MAX);
    assert_eq!(k.code_path, "app.py");
}

#[test]
fn attribute_chain_joins_outside_in() {
    let mut m = matcher(&["i18n"], &[]);
    let calls = vec![call(chain("i18n", &["menu", "start"]), vec![], vec![])];
    m.visit_body(&calls).unwrap();
    assert_eq!(m.fluent_keys.len(), 1);
    assert_eq!(m.fluent_keys[0].key, "menu-start");
    assert_eq!(text_of(&m.fluent_keys[0]), "menu-start");
    assert!(!m.fluent_keys[0].key.contains(char::is_whitespace));
}

#[test]
fn prefix_and_get() {
    let mut m = matcher(&["i18n"], &["self"]);
    let calls = vec![call(
        chain("self", &["i18n", "get"]),
        vec![Argument::StringLiteral(s("about"))],
        vec![kw("_path", Argument::StringLiteral(s("info/about.ftl")))],
    )];
    m.visit_body(&calls).unwrap();
    assert_eq!(m.fluent_keys.len(), 1);
    assert_eq!(m.fluent_keys[0].key, "about");
    assert_eq!(m.fluent_keys[0].path, "info/about.ftl");
    assert!(vars_of(&m.fluent_keys[0]).is_empty());
}

#[test]
fn path_override_without_extension() {
    let mut m = matcher(&["i18n"], &[]);
    let calls = vec![call(
        chain("i18n", &["faq"]),
        vec![],
        vec![kw("_path", Argument::StringLiteral(s("pages")))],
    )];
    m.visit_body(&calls).unwrap();
    assert_eq!(m.fluent_keys[0].key, "faq");
    assert_eq!(m.fluent_keys[0].path, "pages/_default.ftl");
}

#[test]
fn route_path_appends_default_only_without_extension() {
    assert_eq!(route_path("pages", "_default.ftl"), "pages/_default.ftl");
    assert_eq!(route_path("pages/", "_default.ftl"), "pages/_default.ftl");
    assert_eq!(route_path("info/about.ftl", "_default.ftl"), "info/about.ftl");
    assert_eq!(route_path(".hidden", "_default.ftl"), ".hidden/_default.ftl");
    assert_eq!(route_path("a.b/c", "x.ftl"), "a.b/c/x.ftl");
}

#[test]
fn empty_source_yields_no_keys() {
    let mut m = matcher(&["i18n"], &[]);
    m.visit_body(&Vec::new()).unwrap();
    assert!(m.fluent_keys.is_empty());
}

#[test]
fn get_without_arguments_is_skipped() {
    let mut m = matcher(&["i18n"], &[]);
    let calls = vec![call(chain("i18n", &["get"]), vec![], vec![])];
    assert!(m.visit_body(&calls).is_ok());
    assert!(m.fluent_keys.is_empty());
}

#[test]
fn ignored_attribute_is_skipped() {
    let mut m = matcher(&["i18n"], &[]);
    let calls = vec![call(
        chain("i18n", &["x", "set_locale"]),
        vec![Argument::StringLiteral(s("en"))],
        vec![],
    )];
    m.visit_body(&calls).unwrap();
    assert!(m.fluent_keys.is_empty());
}

#[test]
fn name_call_without_literal_is_skipped() {
    let mut m = matcher(&["i18n"], &[]);
    let calls = vec![
        call(Callee::Name(s("i18n")), vec![Argument::Other], vec![]),
        call(Callee::Name(s("i18n")), vec![], vec![kw("name", Argument::Other)]),
        call(Callee::Name(s("other")), vec![Argument::StringLiteral(s("x"))], vec![]),
        call(Callee::Other, vec![Argument::StringLiteral(s("x"))], vec![]),
    ];
    m.visit_body(&calls).unwrap();
    assert!(m.fluent_keys.is_empty());
}

#[test]
fn ignored_kwargs_and_double_star_are_not_placeholders() {
    let mut m = I18nMatcher::new(s("app.py"), s("_default.ftl"), names(&["i18n"]), Vec::new(), Vec::new(), names(&["when"]));
    let calls = vec![call(
        chain("i18n", &["hello"]),
        vec![],
        vec![
            kw("a", Argument::Other),
            kw("when", Argument::Other),
            Keyword { arg: None, value: Argument::Other },
            kw("b", Argument::StringLiteral(s("v"))),
        ],
    )];
    m.visit_body(&calls).unwrap();
    assert_eq!(vars_of(&m.fluent_keys[0]), names(&["a", "b"]));
}

#[test]
fn repeated_key_with_same_signature_is_kept_once() {
    let mut m = matcher(&["i18n"], &[]);
    let c = || call(chain("i18n", &["hi"]), vec![], vec![kw("n", Argument::Other)]);
    m.visit_body(&vec![c(), c()]).unwrap();
    assert_eq!(m.fluent_keys.len(), 1);
}

#[test]
fn repeated_key_with_other_path_conflicts() {
    let mut m = matcher(&["i18n"], &[]);
    let calls = vec![
        call(chain("i18n", &["hi"]), vec![], vec![]),
        call(chain("i18n", &["hi"]), vec![], vec![kw("_path", Argument::StringLiteral(s("x.ftl")))]),
    ];
    assert!(matches!(m.visit_body(&calls), Err(ExtractError::PathConflict { .. })));
}

#[test]
fn repeated_key_with_other_placeholders_conflicts() {
    let mut m = matcher(&["i18n"], &[]);
    let calls = vec![
        call(chain("i18n", &["hi"]), vec![], vec![kw("a", Argument::Other)]),
        call(chain("i18n", &["hi"]), vec![], vec![kw("b", Argument::Other)]),
    ];
    assert!(matches!(m.visit_body(&calls), Err(ExtractError::MessageConflict { .. })));
}

#[test]
fn prefix_without_translator_segment_is_skipped() {
    let mut m = matcher(&["i18n"], &["self"]);
    let calls = vec![
        call(chain("self", &["other", "x"]), vec![], vec![]),
        call(chain("self", &["i18n"]), vec![], vec![]),
    ];
    m.visit_body(&calls).unwrap();
    assert!(m.fluent_keys.is_empty());
}

fn keys_of(calls: Vec<CallSite>) -> Vec<FluentKey> {
    let mut m = matcher(&["i18n"], &[]);
    m.visit_body(&calls).unwrap();
    m.fluent_keys
}

#[test]
fn merging_files_keeps_one_key_per_name() {
    let mut acc = keys_of(vec![call(chain("i18n", &["a"]), vec![], vec![])]);
    let more = keys_of(vec![
        call(chain("i18n", &["a"]), vec![], vec![]),
        call(chain("i18n", &["b"]), vec![], vec![]),
    ]);
    merge_fluent_keys(&mut acc, more).unwrap();
    let mut ks: Vec<String> = acc.iter().map(|k| k.key.clone()).collect();
    ks.sort();
    assert_eq!(ks, names(&["a", "b"]));
}

#[test]
fn merging_files_with_other_paths_conflicts() {
    let mut acc = keys_of(vec![call(chain("i18n", &["a"]), vec![], vec![])]);
    let more = keys_of(vec![call(
        chain("i18n", &["a"]),
        vec![],
        vec![kw("_path", Argument::StringLiteral(s("b.ftl")))],
    )]);
    assert!(matches!(merge_fluent_keys(&mut acc, more), Err(ExtractError::PathConflict { .. })));
}
