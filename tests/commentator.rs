use extractor::fluent::{Comment, FluentEntry, Message, Pattern, PatternElement, Term};
use extractor::{comment_ftl_key, split_content, FluentKey};

fn key(name: &str, entry: FluentEntry) -> FluentKey {
    FluentKey::new(
        "tmp.py".to_string(),
        name.to_string(),
        entry,
        "tmp.ftl".to_string(),
        Some("en".to_string()),
        Some(0),
        Vec::new(),
    )
}

#[test]
fn test_comment_ftl_key_message_entry() {
    let mut k = key(
        "message",
        FluentEntry::Message(Message {
            id: "message".to_string(),
            value: Some(Pattern {
                elements: vec![PatternElement::TextElement { value: "This is a test message.".to_string() }],
            }),
            attributes: vec![],
            comment: Some(Comment { content: vec!["Original message comment.".to_string()] }),
        }),
    );
    comment_ftl_key(&mut k);
    assert!(matches!(k.entry.as_ref(), FluentEntry::Comment(_)));
}

#[test]
fn test_comment_ftl_key_term_entry() {
    let mut k = key(
        "term",
        FluentEntry::Term(Term {
            id: "term".to_string(),
            value: Pattern {
                elements: vec![PatternElement::TextElement { value: "This is a test term.".to_string() }],
            },
            attributes: vec![],
            comment: Some(Comment { content: vec!["Original term comment.".to_string()] }),
        }),
    );
    comment_ftl_key(&mut k);
    assert!(matches!(k.entry.as_ref(), FluentEntry::Comment(_)));
}

#[test]
fn test_comment_ftl_key_junk_entry() {
    let mut k = key("junk", FluentEntry::Junk("This is junk content.".to_string()));
    comment_ftl_key(&mut k);
    assert!(matches!(k.entry.as_ref(), FluentEntry::Comment(_)));
}

#[test]
fn test_comment_ftl_key_comment_entry() {
    let original_key = key(
        "comment",
        FluentEntry::Comment(Comment { content: vec!["Existing comment content.".to_string()] }),
    );
    let mut copied_key = original_key.clone();
    comment_ftl_key(&mut copied_key);
    assert!(matches!(original_key.entry.as_ref(), FluentEntry::Comment(_)));
    assert_eq!(original_key.entry, copied_key.entry);
}

#[test]
fn commented_message_quotes_its_rendering() {
    let mut k = key(
        "greet",
        FluentEntry::Message(Message {
            id: "greet".to_string(),
            value: Some(Pattern { elements: vec![PatternElement::TextElement { value: "hola".to_string() }] }),
            attributes: vec![],
            comment: None,
        }),
    )
    .with_rendered("greet = hola\n".to_string());
    comment_ftl_key(&mut k);
    match k.entry.as_ref() {
        FluentEntry::Comment(c) => assert_eq!(c.content, vec!["greet = hola".to_string()]),
        other => panic!("not a comment: {:?}", other),
    }
}

#[test]
fn group_comments_stay() {
    let mut k = key("", FluentEntry::GroupComment(Comment { content: vec!["Group".to_string()] }));
    comment_ftl_key(&mut k);
    assert_eq!(*k.entry, FluentEntry::GroupComment(Comment { content: vec!["Group".to_string()] }));
}

#[test]
fn split_content_joins_last_two_lines() {
    assert_eq!(
        split_content("a = A\n    { $x }\n    more\n".to_string()),
        vec!["a = A".to_string(), "    { $x }".to_string() + "    more"]
    );
    assert_eq!(split_content("one\r\ntwo".to_string()), vec!["onetwo".to_string()]);
    assert_eq!(split_content("single\n".to_string()), vec!["single".to_string()]);
    assert_eq!(split_content(String::new()), Vec::<String>::new());
    assert_eq!(split_content("x\n\n".to_string()), vec!["x".to_string()]);
}
