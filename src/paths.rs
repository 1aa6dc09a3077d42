//! Target paths of Fluent files, as text with `/` between components.
use vstd::prelude::*;
use crate::text::{chars_of, string_of};

verus! {

/// Index just past the last component of `p`: trailing `/` are not part of it.
pub open spec fn name_end(p: Seq<char>, i: int) -> int
    decreases i,
{
    if i <= 0 {
        0
    } else if p[i - 1] == '/' {
        name_end(p, i - 1)
    } else {
        i
    }
}

/// Index where the component ending at `end` starts.
pub open spec fn name_start(p: Seq<char>, i: int) -> int
    decreases i,
{
    if i <= 0 {
        0
    } else if p[i - 1] == '/' {
        i
    } else {
        name_start(p, i - 1)
    }
}

/// The last component of `p`.
pub open spec fn file_name(p: Seq<char>) -> Seq<char> {
    let end = name_end(p, p.len() as int);
    p.subrange(name_start(p, end), end)
}

/// Whether `p` names a file with an extension: its last component is not `..`
/// and holds a `.` after its first character.
pub open spec fn has_extension(p: Seq<char>) -> bool {
    let f = file_name(p);
    f != seq!['.', '.'] && exists|i: int| 0 < i < f.len() && f[i] == '.'
}

/// `file` under the directory `dir`; an absolute `file` stands alone.
pub open spec fn join_path(dir: Seq<char>, file: Seq<char>) -> Seq<char> {
    if file.len() > 0 && file[0] == '/' {
        file
    } else if dir.len() == 0 || dir.last() == '/' {
        dir + file
    } else {
        dir + seq!['/'] + file
    }
}

/// The Fluent file that a `_path` value names: the value itself when it has an
/// extension, else the default file inside the directory it names.
pub open spec fn routed_path(raw: Seq<char>, default_file: Seq<char>) -> Seq<char> {
    if has_extension(raw) {
        raw
    } else {
        join_path(raw, default_file)
    }
}

fn file_name_bounds(p: &Vec<char>) -> (r: (usize, usize))
    ensures
        r.1 == name_end(p@, p@.len() as int),
        r.0 == name_start(p@, r.1 as int),
        r.0 <= r.1 <= p.len(),
{
    let mut end: usize = p.len();
    while end > 0 && p[end - 1] == '/'
        invariant
            end <= p.len(),
            name_end(p@, end as int) == name_end(p@, p@.len() as int),
        decreases end,
    {
        end -= 1;
    }
    let mut start: usize = end;
    while start > 0 && p[start - 1] != '/'
        invariant
            start <= end <= p.len(),
            name_start(p@, start as int) == name_start(p@, end as int),
        decreases start,
    {
        start -= 1;
    }
    (start, end)
}

proof fn lemma_name_bounds(p: Seq<char>, i: int)
    requires
        0 <= i <= p.len(),
    ensures
        0 <= name_end(p, i) <= i,
        0 <= name_start(p, i) <= i,
    decreases i,
{
    if i > 0 {
        lemma_name_bounds(p, i - 1);
    }
}

/// Whether `p` names a file with an extension.
pub fn path_has_extension(p: &str) -> (r: bool)
    ensures
        r == has_extension(p@),
{
    let v = chars_of(p);
    let (start, end) = file_name_bounds(&v);
    proof {
        lemma_name_bounds(v@, v@.len() as int);
        lemma_name_bounds(v@, end as int);
    }
    let ghost f = v@.subrange(start as int, end as int);
    assert(f == file_name(p@));
    if end - start == 2 && v[start] == '.' && v[start + 1] == '.' {
        assert(f =~= seq!['.', '.']);
        return false;
    }
    assert(f != seq!['.', '.']) by {
        if f == seq!['.', '.'] {
            assert(f.len() == 2 && f[0] == '.' && f[1] == '.');
        }
    }
    if start == end {
        return false;
    }
    let mut i: usize = start + 1;
    while i < end
        invariant
            start < i <= end <= v.len(),
            f == v@.subrange(start as int, end as int),
            f == file_name(p@),
            f != seq!['.', '.'],
            forall|j: int| start < j < i ==> v@[j] != '.',
        decreases end - i,
    {
        if v[i] == '.' {
            let ghost w = i - start;
            assert(0 < w < f.len() && f[w] == '.');
            assert(has_extension(p@));
            return true;
        }
        i += 1;
    }
    assert forall|j: int| 0 < j < f.len() implies f[j] != '.' by {
        assert(f[j] == v@[start + j]);
    }
    false
}

/// Where a key routed by `_path = raw` is written.
pub fn route_path(raw: &str, default_file: &str) -> (r: String)
    ensures
        r@ == routed_path(raw@, default_file@),
{
    if path_has_extension(raw) {
        return string_of(&chars_of(raw));
    }
    let d = chars_of(raw);
    let f = chars_of(default_file);
    let mut out: Vec<char> = Vec::new();
    if f.len() > 0 && f[0] == '/' {
        return string_of(&f);
    }
    let mut i: usize = 0;
    while i < d.len()
        invariant
            i <= d.len(),
            out@ == d@.subrange(0, i as int),
        decreases d.len() - i,
    {
        out.push(d[i]);
        assert(out@ =~= d@.subrange(0, i + 1));
        i += 1;
    }
    assert(d@.subrange(0, d.len() as int) =~= d@);
    if !(d.len() == 0 || d[d.len() - 1] == '/') {
        out.push('/');
    }
    let ghost mid = out@;
    let mut k: usize = 0;
    while k < f.len()
        invariant
            k <= f.len(),
            out@ == mid + f@.subrange(0, k as int),
        decreases f.len() - k,
    {
        out.push(f[k]);
        assert(out@ =~= mid + f@.subrange(0, k + 1));
        k += 1;
    }
    assert(f@.subrange(0, f.len() as int) =~= f@);
    assert(out@ =~= routed_path(raw@, default_file@));
    string_of(&out)
}

} // verus!
