use extractor::fluent::{
    Expression, FluentEntry, InlineExpression, Message, Pattern, PatternElement, Term, Variant,
    VariantKey,
};
use extractor::placeholders::{
    extract_kwargs, extract_kwargs_from_message, extract_kwargs_from_message_reference,
    extract_kwargs_from_placeable, extract_kwargs_from_selector_expression, extract_kwargs_from_term,
    extract_kwargs_from_term_reference, extract_kwargs_from_variable_reference,
};
use extractor::{ExtractError, FluentKey};

fn var(name: &str) -> PatternElement {
    PatternElement::Placeable {
        expression: Expression::Inline(InlineExpression::VariableReference { id: name.to_string() }),
    }
}

fn msg_ref(name: &str) -> PatternElement {
    PatternElement::Placeable {
        expression: Expression::Inline(InlineExpression::MessageReference {
            id: name.to_string(),
            attribute: None,
        }),
    }
}

fn term_ref(name: &str) -> PatternElement {
    PatternElement::Placeable {
        expression: Expression::Inline(InlineExpression::TermReference {
            id: name.to_string(),
            attribute: None,
            arguments: None,
        }),
    }
}

fn message(id: &str, elements: Vec<PatternElement>) -> FluentEntry {
    FluentEntry::Message(Message {
        id: id.to_string(),
        value: Some(Pattern { elements }),
        attributes: vec![],
        comment: None,
    })
}

fn term(id: &str, elements: Vec<PatternElement>) -> FluentEntry {
    FluentEntry::Term(Term {
        id: id.to_string(),
        value: Pattern { elements },
        attributes: vec![],
        comment: None,
    })
}

fn key(name: &str, entry: FluentEntry) -> FluentKey {
    FluentKey::new(
        "tmp.py".to_string(),
        name.to_string(),
        entry,
        "tmp.ftl".to_string(),
        Some("en".to_string()),
        Some(0),
        Vec::new(),
    )
}

#[test]
fn test_extract_kwargs_message() {
    let mut k = key("msg", message("msg", vec![var("username")]));
    let mut kwargs: Vec<String> = Vec::new();
    extract_kwargs_from_message(&mut k, &mut kwargs, &Vec::new(), &Vec::new(), &mut Vec::new()).unwrap();
    assert!(kwargs.contains(&"username".to_string()));
}

#[test]
fn test_extract_kwargs_term() {
    let mut k = key("term", term("term", vec![var("username")]));
    let mut kwargs: Vec<String> = Vec::new();
    extract_kwargs_from_term(&mut k, &mut kwargs, &Vec::new(), &Vec::new(), &mut Vec::new()).unwrap();
    assert!(kwargs.contains(&"username".to_string()));
}

#[test]
fn test_extract_kwargs_from_placeable_variable_reference() {
    let mut k = key("msg", message("msg", vec![var("username")]));
    let mut kwargs: Vec<String> = Vec::new();
    extract_kwargs_from_placeable(&mut k, &var("username"), &mut kwargs, &Vec::new(), &Vec::new(), &mut Vec::new())
        .unwrap();
    assert!(kwargs.contains(&"username".to_string()));
}

#[test]
fn test_extract_kwargs_from_placeable_message_reference() {
    let mut k = key("msg", message("msg", vec![msg_ref("ref_msg")]));
    let all = vec![key("ref_msg", message("ref_msg", vec![]))];
    let mut kwargs: Vec<String> = Vec::new();
    extract_kwargs_from_placeable(&mut k, &msg_ref("ref_msg"), &mut kwargs, &Vec::new(), &all, &mut Vec::new())
        .unwrap();
    assert!(!kwargs.contains(&"ref_msg".to_string()));
}

#[test]
fn test_extract_kwargs_from_placeable_term_reference() {
    let mut k = key("msg", message("msg", vec![term_ref("term")]));
    let terms = vec![key("term", term("term", vec![]))];
    let mut kwargs: Vec<String> = Vec::new();
    extract_kwargs_from_placeable(&mut k, &term_ref("term"), &mut kwargs, &terms, &Vec::new(), &mut Vec::new())
        .unwrap();
    assert!(!kwargs.contains(&"term".to_string()));
}

#[test]
fn test_extract_kwargs_from_variable_reference() {
    let mut kwargs: Vec<String> = Vec::new();
    extract_kwargs_from_variable_reference(&"username".to_string(), &mut kwargs);
    assert!(kwargs.contains(&"username".to_string()));
}

#[test]
fn test_extract_kwargs_from_placeable_select() {
    let select = PatternElement::Placeable {
        expression: Expression::Select {
            selector: InlineExpression::VariableReference { id: "user_role".to_string() },
            variants: vec![],
        },
    };
    let mut k = key("msg", message("msg", vec![]));
    let mut kwargs: Vec<String> = Vec::new();
    extract_kwargs_from_placeable(&mut k, &select, &mut kwargs, &Vec::new(), &Vec::new(), &mut Vec::new()).unwrap();
    assert!(kwargs.contains(&"user_role".to_string()));
}

#[test]
fn test_extract_kwargs_from_message_reference() {
    let mut k = key("msg", message("msg", vec![msg_ref("ref_msg")]));
    let all = vec![key("ref_msg", message("ref_msg", vec![var("username")]))];
    let mut kwargs: Vec<String> = Vec::new();
    extract_kwargs_from_message_reference(
        &mut k,
        &"ref_msg".to_string(),
        &None,
        &mut kwargs,
        &Vec::new(),
        &all,
        &mut Vec::new(),
    )
    .unwrap();
    assert!(kwargs.contains(&"username".to_string()));
}

#[test]
fn test_extract_kwargs_from_term_reference() {
    let mut k = key("msg", message("msg", vec![term_ref("term")]));
    let terms = vec![key("term", term("term", vec![var("username")]))];
    let mut kwargs: Vec<String> = Vec::new();
    extract_kwargs_from_term_reference(&mut k, &"term".to_string(), &None, &None, &mut kwargs, &terms, &Vec::new())
        .unwrap();
    assert!(kwargs.contains(&"username".to_string()));
}

#[test]
fn test_extract_kwargs_from_selector_expression() {
    let mut k = key("msg", message("msg", vec![]));
    let selector = InlineExpression::VariableReference { id: "user_role".to_string() };
    let variants = vec![
        Variant {
            key: VariantKey::Identifier { name: "admin".to_string() },
            value: Pattern { elements: vec![var("user_role")] },
            default: false,
        },
        Variant {
            key: VariantKey::Identifier { name: "user".to_string() },
            value: Pattern { elements: vec![] },
            default: true,
        },
    ];
    let mut kwargs: Vec<String> = Vec::new();
    extract_kwargs_from_selector_expression(
        &mut k,
        &selector,
        &variants,
        &mut kwargs,
        &Vec::new(),
        &Vec::new(),
        &mut Vec::new(),
    )
    .unwrap();
    assert!(kwargs.contains(&"user_role".to_string()));
}

#[test]
fn test_extract_kwargs_from_message() {
    let mut k = key("msg", message("msg", vec![var("username")]));
    let mut kwargs: Vec<String> = Vec::new();
    extract_kwargs_from_message(&mut k, &mut kwargs, &Vec::new(), &Vec::new(), &mut Vec::new()).unwrap();
    assert!(kwargs.contains(&"username".to_string()));
}

#[test]
fn test_extract_kwargs_from_term() {
    let mut k = key("term", term("term", vec![var("username")]));
    let mut kwargs: Vec<String> = Vec::new();
    extract_kwargs_from_term(&mut k, &mut kwargs, &Vec::new(), &Vec::new(), &mut Vec::new()).unwrap();
    assert!(kwargs.contains(&"username".to_string()));
}

#[test]
fn missing_message_reference_is_an_error() {
    let mut k = key("msg", message("msg", vec![msg_ref("ref_msg")]));
    let r = extract_kwargs(&mut k, &Vec::new(), &Vec::new(), &mut Vec::new());
    match r {
        Err(ExtractError::MissingReference { id, path }) => {
            assert_eq!(id, "ref_msg");
            assert_eq!(path, "tmp.ftl");
        }
        other => panic!("unexpected result {:?}", other),
    }
}

#[test]
fn missing_term_reference_is_an_error() {
    let mut k = key("msg", message("msg", vec![term_ref("term")]));
    let r = extract_kwargs(&mut k, &Vec::new(), &Vec::new(), &mut Vec::new());
    assert!(matches!(r, Err(ExtractError::MissingReference { .. })));
}

#[test]
fn transitive_references_are_followed_and_recorded() {
    // a -> { b } ; b -> { $x } { -t } ; -t -> { $y } { c } ; c -> { $z }
    let all = vec![
        key("a", message("a", vec![msg_ref("b")])),
        key("b", message("b", vec![var("x"), term_ref("t")])),
        key("c", message("c", vec![var("z")])),
    ];
    let terms = vec![key("t", term("t", vec![var("y"), msg_ref("c")]))];
    let mut root = key("a", message("a", vec![msg_ref("b")]));
    let mut depend: Vec<String> = Vec::new();
    let mut vars = extract_kwargs(&mut root, &terms, &all, &mut depend).unwrap();
    vars.sort();
    assert_eq!(vars, vec!["x".to_string(), "y".to_string(), "z".to_string()]);
    assert_eq!(depend, vec!["b".to_string()]);
    assert_eq!(root.depends_on_keys, vec!["b".to_string()]);
}

#[test]
fn cyclic_references_end() {
    let all = vec![
        key("a", message("a", vec![var("x"), msg_ref("b")])),
        key("b", message("b", vec![var("y"), msg_ref("a")])),
    ];
    let mut root = key("a", message("a", vec![var("x"), msg_ref("b")]));
    let mut depend: Vec<String> = Vec::new();
    let mut vars = extract_kwargs(&mut root, &Vec::new(), &all, &mut depend).unwrap();
    vars.sort();
    assert_eq!(vars, vec!["x".to_string(), "y".to_string()]);
    depend.sort();
    assert_eq!(depend, vec!["a".to_string(), "b".to_string()]);
}

#[test]
fn self_reference_ends() {
    let all = vec![key("a", message("a", vec![var("x"), msg_ref("a")]))];
    let mut root = key("a", message("a", vec![var("x"), msg_ref("a")]));
    let vars = extract_kwargs(&mut root, &Vec::new(), &all, &mut Vec::new()).unwrap();
    assert_eq!(vars, vec!["x".to_string()]);
}

#[test]
fn missing_message_leaves_kwargs_unchanged() {
    let mut k = key("msg", message("msg", vec![msg_ref("ref_msg")]));
    let mut kwargs: Vec<String> = vec!["kept".to_string()];
    let mut depend: Vec<String> = vec!["dep".to_string()];
    let r = extract_kwargs_from_message_reference(
        &mut k,
        &"ref_msg".to_string(),
        &None,
        &mut kwargs,
        &Vec::new(),
        &Vec::new(),
        &mut depend,
    );
    assert!(matches!(r, Err(ExtractError::MissingReference { .. })));
    assert_eq!(kwargs, vec!["kept".to_string()]);
    assert_eq!(depend, vec!["dep".to_string()]);
    assert!(k.depends_on_keys.is_empty());
}

#[test]
fn missing_term_leaves_kwargs_unchanged() {
    let mut k = key("msg", message("msg", vec![term_ref("term")]));
    let mut kwargs: Vec<String> = vec!["kept".to_string()];
    let r = extract_kwargs_from_term_reference(&mut k, &"term".to_string(), &None, &None, &mut kwargs, &Vec::new(), &Vec::new());
    match r {
        Err(ExtractError::MissingReference { id, path }) => {
            assert_eq!(id, "term");
            assert_eq!(path, "tmp.ftl");
        }
        other => panic!("unexpected {:?}", other),
    }
    assert_eq!(kwargs, vec!["kept".to_string()]);
}

#[test]
fn failed_walk_records_nothing() {
    // The variable comes before the missing reference; nothing is kept of it.
    let mut k = key("msg", message("msg", vec![var("x"), msg_ref("gone")]));
    let mut kwargs: Vec<String> = Vec::new();
    let mut depend: Vec<String> = Vec::new();
    let r = extract_kwargs_from_message(&mut k, &mut kwargs, &Vec::new(), &Vec::new(), &mut depend);
    assert!(r.is_err());
    assert!(kwargs.is_empty());
    assert!(depend.is_empty());
}
