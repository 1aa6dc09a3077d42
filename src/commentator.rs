//! Retiring an entry: its Fluent text kept as a comment.
use std::sync::Arc;
use vstd::prelude::*;
use crate::fluent::{Comment, FluentEntry};
use crate::key::FluentKey;
use crate::matcher::views;
use crate::text::{chars_of, string_of};

verus! {

/// Index of the first `\n` at or after `i`, or the length of `s`.
pub open spec fn next_newline(s: Seq<char>, i: int) -> int
    decreases s.len() - i,
{
    if i < 0 || i >= s.len() {
        s.len() as int
    } else if s[i] == '\n' {
        i
    } else {
        next_newline(s, i + 1)
    }
}

/// A line without its `\r`, when it ended in `\r\n`.
pub open spec fn strip_cr(line: Seq<char>) -> Seq<char> {
    if line.len() > 0 && line.last() == '\r' {
        line.drop_last()
    } else {
        line
    }
}

/// The lines of `s` from index `start` on: split at `\n` (a `\r` before it is
/// dropped); a final line ending adds no empty line.
pub open spec fn lines_from(s: Seq<char>, start: int) -> Seq<Seq<char>>
    decreases s.len() - start,
{
    if start < 0 || start >= s.len() {
        seq![]
    } else {
        let k = next_newline(s, start);
        if k >= s.len() || k < start {
            seq![s.subrange(start, s.len() as int)]
        } else {
            seq![strip_cr(s.subrange(start, k))] + lines_from(s, k + 1)
        }
    }
}

/// The lines of a rendered entry, with the last two joined into one, so that
/// the comment does not end on an empty line.
pub open spec fn comment_lines(s: Seq<char>) -> Seq<Seq<char>> {
    let ls = lines_from(s, 0);
    if ls.len() >= 2 {
        ls.subrange(0, ls.len() - 2).push(ls[ls.len() - 2] + ls[ls.len() - 1])
    } else {
        ls
    }
}

fn line_of(v: &Vec<char>, start: usize, end: usize, strip: bool) -> (r: String)
    requires
        start <= end <= v.len(),
    ensures
        r@ == (if strip {
            strip_cr(v@.subrange(start as int, end as int))
        } else {
            v@.subrange(start as int, end as int)
        }),
{
    let mut stop = end;
    if strip && end > start && v[end - 1] == '\r' {
        stop = end - 1;
    }
    let mut out: Vec<char> = Vec::new();
    let mut i: usize = start;
    while i < stop
        invariant
            start <= i <= stop <= end <= v.len(),
            out@ == v@.subrange(start as int, i as int),
        decreases stop - i,
    {
        out.push(v[i]);
        assert(out@ =~= v@.subrange(start as int, i + 1));
        i += 1;
    }
    if end > start {
        assert(v@.subrange(start as int, end as int).drop_last() =~= v@.subrange(start as int, end - 1));
    }
    string_of(&out)
}

/// The lines of `raw_entry`, with the last two joined into one.
pub fn split_content(raw_entry: String) -> (r: Vec<String>)
    ensures
        views(r@) == comment_lines(raw_entry@),
{
    let v = chars_of(raw_entry.as_str());
    let n = v.len();
    let mut content: Vec<String> = Vec::new();
    let mut start: usize = 0;
    let mut i: usize = 0;
    while i < n
        invariant
            n == v@.len(),
            v@ == raw_entry@,
            start <= i <= n,
            forall|j: int| start <= j < i ==> v@[j] != '\n',
            next_newline(v@, start as int) == next_newline(v@, i as int),
            views(content@) + lines_from(v@, start as int) == lines_from(v@, 0),
        decreases n - i,
    {
        if v[i] == '\n' {
            assert(next_newline(v@, i as int) == i);
            let line = line_of(&v, start, i, true);
            let ghost before = views(content@);
            content.push(line);
            assert(views(content@) =~= before.push(line@));
            assert(lines_from(v@, start as int) == seq![line@] + lines_from(v@, i + 1));
            assert(views(content@) + lines_from(v@, i + 1) =~= before + lines_from(v@, start as int));
            start = i + 1;
        }
        i += 1;
    }
    if start < n {
        assert(next_newline(v@, n as int) == n);
        let line = line_of(&v, start, n, false);
        let ghost before = views(content@);
        content.push(line);
        assert(views(content@) =~= before.push(line@));
        assert(lines_from(v@, start as int) == seq![line@]);
        assert(lines_from(v@, n as int) == Seq::<Seq<char>>::empty());
        assert(views(content@) =~= before + lines_from(v@, start as int));
    } else {
        assert(views(content@) =~= views(content@) + lines_from(v@, start as int));
    }
    let ghost ls = lines_from(v@, 0);
    assert(views(content@) == ls);
    if content.len() >= 2 {
        let last = content.pop().unwrap();
        let mut pre_last = content.pop().unwrap();
        pre_last.append(last.as_str());
        let ghost head = views(content@);
        content.push(pre_last);
        assert(head =~= ls.subrange(0, ls.len() - 2));
        assert(views(content@) =~= head.push(ls[ls.len() - 2] + ls[ls.len() - 1]));
    }
    content
}

/// Retires `key`: a message, term or junk entry becomes a comment holding its
/// rendered text, line by line; comments stay as they are.
pub fn comment_ftl_key(key: &mut FluentKey)
    ensures
        final(key).code_path == old(key).code_path,
        final(key).key == old(key).key,
        final(key).path == old(key).path,
        final(key).locale == old(key).locale,
        final(key).position == old(key).position,
        final(key).depends_on_keys == old(key).depends_on_keys,
        final(key).rendered == old(key).rendered,
        match *old(key).entry {
            FluentEntry::Comment(_) | FluentEntry::GroupComment(_) | FluentEntry::ResourceComment(
                _,
            ) => final(key).entry == old(key).entry,
            _ => *final(key).entry matches FluentEntry::Comment(c) && views(c.content@)
                == comment_lines(old(key).rendered@),
        },
{
    match &*key.entry {
        FluentEntry::Comment(_) | FluentEntry::GroupComment(_) | FluentEntry::ResourceComment(_) => {
            return;
        },
        _ => {},
    }
    let content = split_content(key.rendered.clone());
    key.entry = Arc::new(FluentEntry::Comment(Comment { content }));
}

} // verus!
