use extractor::fluent::{
    Comment, Expression, FluentEntry, InlineExpression, Message, Pattern, PatternElement, Term,
};
use extractor::importer::{process_raw_ftl, ImportedEntry};
use extractor::matcher::{Argument, CallSite, Callee, I18nMatcher, Keyword};
use extractor::reconciler::process_language;
use extractor::writer::{generate_ftl, sort_fluent_keys_by_path, write_results};
use extractor::{CommentsKeyModes, ExtractError, FluentKey};

fn s(x: &str) -> String {
    x.to_string()
}

fn text(x: &str) -> PatternElement {
    PatternElement::TextElement { value: s(x) }
}

fn var(name: &str) -> PatternElement {
    PatternElement::Placeable {
        expression: Expression::Inline(InlineExpression::VariableReference { id: s(name) }),
    }
}

fn msg_ref(name: &str) -> PatternElement {
    PatternElement::Placeable {
        expression: Expression::Inline(InlineExpression::MessageReference { id: s(name), attribute: None }),
    }
}

fn message(id: &str, elements: Vec<PatternElement>) -> FluentEntry {
    FluentEntry::Message(Message { id: s(id), value: Some(Pattern { elements }), attributes: vec![], comment: None })
}

fn stored(id: &str, elements: Vec<PatternElement>, position: usize, rendered: &str) -> FluentKey {
    FluentKey::new(String::new(), s(id), message(id, elements), s("_default.ftl"), Some(s("en")), Some(position), Vec::new())
        .with_rendered(s(rendered))
}

fn code_keys(calls: Vec<CallSite>) -> Vec<FluentKey> {
    let mut m = I18nMatcher::new(s("app.py"), s("_default.ftl"), vec![s("i18n")], Vec::new(), Vec::new(), Vec::new());
    m.visit_body(&calls).unwrap();
    m.fluent_keys
}

fn attr_call(name: &str, kwargs: &[&str]) -> CallSite {
    CallSite {
        func: Callee::Attribute { value: Box::new(Callee::Name(s("i18n"))), attr: s(name) },
        args: vec![],
        keywords: kwargs.iter().map(|k| Keyword { arg: Some(s(k)), value: Argument::Other }).collect(),
    }
}

fn comment_lines(k: &FluentKey) -> Vec<String> {
    match k.entry.as_ref() {
        FluentEntry::Comment(c) => c.content.clone(),
        other => panic!("not a comment: {:?}", other),
    }
}

#[test]
fn rename_across_runs() {
    let code = code_keys(vec![attr_call("welcome", &[])]);
    let st = vec![stored("greet", vec![text("hola")], 0, "greet = hola\n")];
    let u = process_language(&code, st, Vec::new(), Vec::new(), CommentsKeyModes::Comment, false).unwrap();
    assert!(u.stored.is_empty());
    assert_eq!(u.added.len(), 1);
    assert_eq!(u.added[0].key, "welcome");
    assert_eq!(u.commented.len(), 1);
    assert_eq!(u.commented[0].key, "greet");
    assert_eq!(comment_lines(&u.commented[0]), vec![s("greet = hola")]);
    assert_eq!(u.added_count, 1);
    assert_eq!(u.commented_count, 1);
    assert_eq!(u.updated_count, 0);
}

#[test]
fn signature_drift() {
    let code = code_keys(vec![attr_call("bye", &["name"])]);
    let st = vec![stored("bye", vec![text("Bye, "), var("who")], 0, "bye = Bye, { $who }\n")];
    let u = process_language(&code, st, Vec::new(), Vec::new(), CommentsKeyModes::Comment, false).unwrap();
    assert_eq!(u.updated_count, 1);
    assert_eq!(u.commented_count, 1);
    assert_eq!(u.added_count, 0);
    assert_eq!(comment_lines(&u.commented[0]), vec![s("bye = Bye, { $who }")]);
    assert_eq!(u.added.len(), 1);
    assert_eq!(u.added[0].key, "bye");
    match u.added[0].entry.as_ref() {
        FluentEntry::Message(m) => assert_eq!(m.value.as_ref().unwrap().elements, vec![text("bye"), var("name")]),
        _ => panic!("not a message"),
    }
}

#[test]
fn second_run_changes_nothing() {
    let code = code_keys(vec![attr_call("hello", &["name"]), attr_call("bye", &[])]);
    let st = vec![
        stored("hello", vec![text("Hello "), var("name")], 0, "hello = Hello { $name }\n"),
        stored("bye", vec![text("Bye")], 1, "bye = Bye\n"),
    ];
    let u = process_language(&code, st, Vec::new(), Vec::new(), CommentsKeyModes::Comment, false).unwrap();
    assert_eq!((u.added_count, u.updated_count, u.commented_count), (0, 0, 0));
    assert!(u.added.is_empty());
    assert!(u.commented.is_empty());
    assert_eq!(u.stored.len(), 2);
    assert_eq!(u.stored[0].code_path, "app.py");
}

#[test]
fn moved_key_is_retired_and_added() {
    let code = code_keys(vec![CallSite {
        func: Callee::Attribute { value: Box::new(Callee::Name(s("i18n"))), attr: s("hi") },
        args: vec![],
        keywords: vec![Keyword { arg: Some(s("_path")), value: Argument::StringLiteral(s("other.ftl")) }],
    }]);
    let st = vec![stored("hi", vec![text("Hi")], 0, "hi = Hi\n")];
    let u = process_language(&code, st, Vec::new(), Vec::new(), CommentsKeyModes::Comment, false).unwrap();
    assert_eq!((u.added_count, u.updated_count, u.commented_count), (0, 1, 1));
    assert_eq!(u.added[0].path, "other.ftl");
    assert_eq!(u.commented[0].path, "_default.ftl");
}

#[test]
fn referenced_keys_stay_and_unused_ones_are_retired() {
    let code = code_keys(vec![attr_call("a", &[])]);
    let st = vec![
        stored("a", vec![text("A "), msg_ref("b")], 0, "a = A { b }\n"),
        stored("b", vec![text("B")], 1, "b = B\n"),
        stored("c", vec![text("C")], 2, "c = C\n"),
    ];
    let u = process_language(&code, st, Vec::new(), Vec::new(), CommentsKeyModes::Comment, false).unwrap();
    let kept: Vec<String> = u.stored.iter().map(|k| k.key.clone()).collect();
    let retired: Vec<String> = u.commented.iter().map(|k| k.key.clone()).collect();
    assert_eq!(kept, vec![s("a"), s("b")]);
    assert_eq!(retired, vec![s("c")]);
    assert_eq!(comment_lines(&u.commented[0]), vec![s("c = C")]);
}

#[test]
fn warn_mode_keeps_retired_keys_and_adds_only_new_ones() {
    let code = code_keys(vec![attr_call("bye", &["name"]), attr_call("new", &[])]);
    let st = vec![stored("bye", vec![text("Bye, "), var("who")], 0, "bye = Bye, { $who }\n")];
    let u = process_language(&code, st, Vec::new(), Vec::new(), CommentsKeyModes::Warn, false).unwrap();
    let added: Vec<String> = u.added.iter().map(|k| k.key.clone()).collect();
    assert_eq!(added, vec![s("new")]);
    assert!(matches!(u.commented[0].entry.as_ref(), FluentEntry::Message(_)));
    assert_eq!((u.added_count, u.updated_count, u.commented_count), (1, 1, 1));
}

#[test]
fn junk_is_commented_when_asked() {
    let junk = FluentKey::new(String::new(), String::new(), FluentEntry::Junk(s("oops")), s("_default.ftl"), Some(s("en")), Some(3), Vec::new())
        .with_rendered(s("oops\n"));
    let u = process_language(&Vec::new(), Vec::new(), Vec::new(), vec![junk], CommentsKeyModes::Comment, true).unwrap();
    assert_eq!(comment_lines(&u.misc[0]), vec![s("oops")]);
    assert_eq!(u.commented_count, 1);
}

#[test]
fn missing_reference_stops_the_locale() {
    let code = code_keys(vec![attr_call("a", &[])]);
    let st = vec![stored("a", vec![msg_ref("nowhere")], 0, "a = { nowhere }\n")];
    let r = process_language(&code, st, Vec::new(), Vec::new(), CommentsKeyModes::Comment, false);
    assert!(matches!(r, Err(ExtractError::MissingReference { .. })));
}

fn entry_of(e: FluentEntry) -> ImportedEntry {
    ImportedEntry { entry: e, rendered: String::new() }
}

#[test]
fn import_then_write_keeps_entry_order() {
    let body = vec![
        entry_of(FluentEntry::ResourceComment(Comment { content: vec![s("top")] })),
        entry_of(message("m1", vec![text("One")])),
        entry_of(FluentEntry::Term(Term { id: s("t"), value: Pattern { elements: vec![text("T")] }, attributes: vec![], comment: None })),
        entry_of(FluentEntry::Comment(Comment { content: vec![s("note")] })),
        entry_of(message("m2", vec![text("Two")])),
    ];
    let (mut keys, mut terms, mut misc) = (Vec::new(), Vec::new(), Vec::new());
    process_raw_ftl(body, &s("_default.ftl"), &s("en"), false, &mut keys, &mut terms, &mut misc).unwrap();
    assert_eq!(keys.len(), 2);
    assert_eq!(terms.len(), 1);
    assert_eq!(misc.len(), 2);
    let mut all = keys;
    all.extend(terms);
    let out = generate_ftl(all, misc);
    let positions: Vec<usize> = out.iter().map(|k| k.position).collect();
    assert_eq!(positions, vec![0, 1, 2, 3, 4]);
}

#[test]
fn junk_is_refused_unless_commented() {
    let body = vec![entry_of(message("m", vec![])), entry_of(FluentEntry::Junk(s("This is junk")))];
    let (mut keys, mut terms, mut misc) = (Vec::new(), Vec::new(), Vec::new());
    let r = process_raw_ftl(body, &s("x.ftl"), &s("en"), false, &mut keys, &mut terms, &mut misc);
    match r {
        Err(ExtractError::UnsupportedEntry { path, position }) => {
            assert_eq!(path, "x.ftl");
            assert_eq!(position, 1);
        }
        other => panic!("unexpected {:?}", other),
    }
    let body = vec![entry_of(FluentEntry::Junk(s("This is junk")))];
    let (mut keys, mut terms, mut misc) = (Vec::new(), Vec::new(), Vec::new());
    process_raw_ftl(body, &s("x.ftl"), &s("en"), true, &mut keys, &mut terms, &mut misc).unwrap();
    assert_eq!(misc.len(), 1);
}

#[test]
fn later_message_of_a_name_replaces_earlier() {
    let body = vec![entry_of(message("m", vec![text("old")])), entry_of(message("m", vec![text("new")]))];
    let (mut keys, mut terms, mut misc) = (Vec::new(), Vec::new(), Vec::new());
    process_raw_ftl(body, &s("x.ftl"), &s("en"), false, &mut keys, &mut terms, &mut misc).unwrap();
    assert_eq!(keys.len(), 1);
    assert_eq!(keys[0].position, 1);
}

#[test]
fn test_sort_fluent_keys_by_path() {
    let k1 = FluentKey::new(s("file1.py"), s("key1"), message("key1", vec![]), s("file1.ftl"), Some(s("en")), Some(0), Vec::new());
    let k2 = FluentKey::new(s("file2.py"), s("key2"), message("key2", vec![]), s("file2.ftl"), Some(s("en")), Some(0), Vec::new());
    let sorted = sort_fluent_keys_by_path(vec![k1, k2]);
    assert_eq!(sorted.len(), 2);
    assert!(sorted.iter().any(|(p, _)| p == "file1.ftl"));
    assert!(sorted.iter().any(|(p, _)| p == "file2.ftl"));
}

#[test]
fn test_generate_ftl() {
    let mk = |key: &str, entry: FluentEntry, pos: usize| {
        FluentKey::new(s("tmp.py"), s(key), entry, s("tmp.ftl"), Some(s("en")), Some(pos), Vec::new())
    };
    let keys = vec![
        mk("junk", FluentEntry::Junk(s("This is junk.")), 3),
        mk("message", message("message", vec![text("Test message.")]), 0),
        mk("comment", FluentEntry::Comment(Comment { content: vec![s("This is a comment.")] }), 2),
        mk("term", FluentEntry::Term(Term { id: s("term"), value: Pattern { elements: vec![text("Test term.")] }, attributes: vec![], comment: None }), 1),
    ];
    let out = generate_ftl(keys, Vec::new());
    let order: Vec<String> = out.iter().map(|k| k.key.clone()).collect();
    assert_eq!(order, vec![s("message"), s("term"), s("comment"), s("junk")]);
}

#[test]
fn write_results_groups_files_and_counts_messages() {
    let code = code_keys(vec![
        attr_call("a", &[]),
        CallSite {
            func: Callee::Attribute { value: Box::new(Callee::Name(s("i18n"))), attr: s("b") },
            args: vec![],
            keywords: vec![Keyword { arg: Some(s("_path")), value: Argument::StringLiteral(s("other")) }],
        },
    ]);
    let st = vec![stored("a", vec![text("A")], 1, "a = A\n")];
    let note = FluentKey::new(String::new(), String::new(), FluentEntry::Comment(Comment { content: vec![s("n")] }), s("_default.ftl"), Some(s("en")), Some(0), Vec::new());
    let u = process_language(&code, st, Vec::new(), vec![note], CommentsKeyModes::Comment, false).unwrap();
    let (files, count) = write_results(u);
    assert_eq!(count, 2);
    assert_eq!(files.len(), 2);
    let main = files.iter().find(|(p, _)| p == "_default.ftl").unwrap();
    let order: Vec<usize> = main.1.iter().map(|k| k.position).collect();
    assert_eq!(order, vec![0, 1]);
    let other = files.iter().find(|(p, _)| p == "other/_default.ftl").unwrap();
    assert_eq!(other.1[0].key, "b");
}

#[test]
fn generate_ftl_keeps_order_of_equal_positions() {
    let mk = |key: &str, pos: usize| {
        FluentKey::new(s("app.py"), s(key), message(key, vec![text(key)]), s("tmp.ftl"), None, Some(pos), Vec::new())
    };
    let keys = vec![mk("new1", usize::MAX), mk("old", 0), mk("new2", usize::MAX), mk("new3", usize::MAX)];
    let notes = vec![FluentKey::new(String::new(), String::new(), FluentEntry::Comment(Comment { content: vec![s("c")] }), s("tmp.ftl"), None, Some(1), Vec::new())];
    let out = generate_ftl(keys, notes);
    let order: Vec<(String, usize)> = out.iter().map(|k| (k.key.clone(), k.position)).collect();
    assert_eq!(
        order,
        vec![(s("old"), 0), (s(""), 1), (s("new1"), usize::MAX), (s("new2"), usize::MAX), (s("new3"), usize::MAX)]
    );
}
