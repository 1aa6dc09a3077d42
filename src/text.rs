use vstd::prelude::*;

verus! {

/// Relies on `String::push`: the character is appended at the end.
#[verifier::external_body]
pub(crate) fn push_char(s: &mut String, c: char)
    ensures
        final(s)@ == old(s)@.push(c),
{
    s.push(c);
}

/// The characters of `s`, in order.
pub fn chars_of(s: &str) -> (r: Vec<char>)
    ensures
        r@ == s@,
{
    let mut r: Vec<char> = Vec::new();
    for c in it: s.chars()
        invariant
            it.seq() == s@,
            r@ == it.seq().take(it.index() as int),
    {
        r.push(c);
    }
    r
}

/// A string holding the characters of `v`, in order.
pub fn string_of(v: &Vec<char>) -> (r: String)
    ensures
        r@ == v@,
{
    let mut r = String::new();
    let mut i: usize = 0;
    while i < v.len()
        invariant
            i <= v.len(),
            r@ == v@.take(i as int),
        decreases v.len() - i,
    {
        push_char(&mut r, v[i]);
        assert(v@.take(i as int + 1) =~= v@.take(i as int).push(v@[i as int]));
        i += 1;
    }
    assert(v@.take(v.len() as int) =~= v@);
    r
}

} // verus!

verus! {

/// The strings of `v`, as a set of character sequences.
pub open spec fn names(v: Seq<String>) -> Set<Seq<char>> {
    Set::new(|s: Seq<char>| exists|i: int| 0 <= i < v.len() && #[trigger] v[i]@ == s)
}

/// Whether two strings hold the same characters.
pub fn text_eq(a: &str, b: &str) -> (r: bool)
    ensures
        r == (a@ == b@),
{
    let x = chars_of(a);
    let y = chars_of(b);
    if x.len() != y.len() {
        return false;
    }
    let mut i: usize = 0;
    while i < x.len()
        invariant
            x@ == a@,
            y@ == b@,
            x.len() == y.len(),
            i <= x.len(),
            forall|j: int| 0 <= j < i ==> x@[j] == y@[j],
        decreases x.len() - i,
    {
        if x[i] != y[i] {
            return false;
        }
        i += 1;
    }
    assert(x@ =~= y@);
    true
}

/// Whether `v` holds a string with the characters of `s`.
pub fn contains_name(v: &Vec<String>, s: &str) -> (r: bool)
    ensures
        r == names(v@).contains(s@),
{
    let mut i: usize = 0;
    while i < v.len()
        invariant
            i <= v.len(),
            forall|j: int| 0 <= j < i ==> v@[j]@ != s@,
        decreases v.len() - i,
    {
        if text_eq(v[i].as_str(), s) {
            assert(v@[i as int]@ == s@);
            return true;
        }
        i += 1;
    }
    false
}

/// Adds `s` to the set of names held in `v`, unless it is there already.
pub fn insert_name(v: &mut Vec<String>, s: String)
    ensures
        names(final(v)@) == names(old(v)@).insert(s@),
{
    if !contains_name(v, s.as_str()) {
        let ghost s_view = s@;
        v.push(s);
        assert(names(v@) =~= names(old(v)@).insert(s_view)) by {
            assert(v@[v@.len() - 1]@ == s_view);
            assert forall|x: Seq<char>| names(v@).contains(x) implies names(old(v)@).insert(
                s_view,
            ).contains(x) by {
                let i = choose|i: int| 0 <= i < v@.len() && #[trigger] v@[i]@ == x;
                if i < old(v)@.len() {
                    assert(old(v)@[i]@ == x);
                }
            }
            assert forall|x: Seq<char>| names(old(v)@).insert(s_view).contains(x) implies names(
                v@,
            ).contains(x) by {
                if x != s_view {
                    let i = choose|i: int| 0 <= i < old(v)@.len() && #[trigger] old(v)@[i]@ == x;
                    assert(v@[i]@ == x);
                }
            }
        }
    } else {
        assert(names(old(v)@).insert(s@) =~= names(old(v)@));
    }
}

/// A copy of `v`.
pub fn copy_strings(v: &Vec<String>) -> (r: Vec<String>)
    ensures
        r@ == v@,
{
    let mut r: Vec<String> = Vec::new();
    let mut i: usize = 0;
    while i < v.len()
        invariant
            i <= v.len(),
            r@ == v@.subrange(0, i as int),
        decreases v.len() - i,
    {
        r.push(v[i].clone());
        assert(r@ =~= v@.subrange(0, i + 1));
        i += 1;
    }
    assert(v@.subrange(0, v.len() as int) =~= v@);
    r
}

/// One more string of `v` adds its name.
pub proof fn lemma_names_extend(v: Seq<String>, i: int)
    requires
        0 <= i < v.len(),
    ensures
        names(v.subrange(0, i + 1)) == names(v.subrange(0, i)).insert(v[i]@),
{
    let a = v.subrange(0, i);
    let b = v.subrange(0, i + 1);
    assert(names(b) =~= names(a).insert(v[i]@)) by {
        assert forall|x: Seq<char>| names(b).contains(x) implies names(a).insert(v[i]@).contains(x) by {
            let j = choose|j: int| 0 <= j < b.len() && #[trigger] b[j]@ == x;
            if j < i {
                assert(a[j] == b[j]);
            }
        }
        assert forall|x: Seq<char>| names(a).insert(v[i]@).contains(x) implies names(b).contains(x) by {
            if x == v[i]@ {
                assert(b[i] == v[i]);
            } else {
                let j = choose|j: int| 0 <= j < a.len() && #[trigger] a[j]@ == x;
                assert(b[j] == a[j]);
            }
        }
    }
}

} // verus!
