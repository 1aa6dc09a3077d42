use extractor::{normalize_line_endings, LineEndings};

#[test]
fn lf_rewrites_every_ending() {
    let out = normalize_line_endings("a\r\nb\rc\nd".to_string(), &LineEndings::LF);
    assert_eq!(out, "a\nb\nc\nd");
    assert!(!out.contains("\r\n"));
}

#[test]
fn cr_rewrites_every_ending() {
    assert_eq!(normalize_line_endings("a\r\nb\rc\nd".to_string(), &LineEndings::CR), "a\rb\rc\rd");
}

#[test]
fn crlf_rewrites_every_ending() {
    assert_eq!(normalize_line_endings("a\r\nb\rc\nd".to_string(), &LineEndings::CRLF), "a\r\nb\r\nc\r\nd");
    assert_eq!(normalize_line_endings("a\rb".to_string(), &LineEndings::CRLF), "a\r\nb");
    assert_eq!(normalize_line_endings("\n\r".to_string(), &LineEndings::CRLF), "\r\n\r\n");
}

#[test]
fn default_leaves_text() {
    assert_eq!(normalize_line_endings("a\r\nb\r".to_string(), &LineEndings::Default), "a\r\nb\r");
}

#[test]
fn empty_text_stays_empty() {
    assert_eq!(normalize_line_endings(String::new(), &LineEndings::CRLF), "");
}

#[test]
fn non_ascii_text_is_kept() {
    assert_eq!(normalize_line_endings("é\r\nü".to_string(), &LineEndings::LF), "é\nü");
}
