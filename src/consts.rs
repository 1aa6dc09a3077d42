use vstd::prelude::*;
use crate::text::{chars_of, push_char};

verus! {

/// Name of the translator function recognised by default.
pub const I18N_LITERAL: &'static str = "i18n";

/// Attribute through which a key is looked up by literal, as in `i18n.get("key")`.
pub const GET_LITERAL: &'static str = "get";

/// Keyword argument that routes a key to another Fluent file.
pub const PATH_LITERAL: &'static str = "_path";

/// Fluent file that keys are written to when nothing else is said.
pub const DEFAULT_FTL_FILENAME: &'static str = "_default.ftl";

/// What happens to a stored key that the code no longer asks for.
#[derive(PartialEq, Eq, Structural, Clone, Copy, Debug)]
pub enum CommentsKeyModes {
    /// The key is kept in its file as a comment.
    Comment,
    /// The key is only reported; renamed or changed keys are not rewritten.
    Warn,
}

/// Line endings of the written Fluent files.
#[derive(PartialEq, Eq, Structural, Clone, Copy, Debug)]
pub enum LineEndings {
    /// As the serializer produced them.
    Default,
    /// `\n`
    LF,
    /// `\r`
    CR,
    /// `\r\n`
    CRLF,
}

/// What the character at `i` (with the one after it, where it matters) becomes,
/// and how many characters it consumes.
pub open spec fn ending_step(s: Seq<char>, i: int, le: LineEndings) -> (Seq<char>, int) {
    let c = s[i];
    let crlf = c == '\r' && i + 1 < s.len() && s[i + 1] == '\n';
    match le {
        LineEndings::Default => (seq![c], 1),
        LineEndings::LF => if crlf {
            (seq!['\n'], 2)
        } else if c == '\r' {
            (seq!['\n'], 1)
        } else {
            (seq![c], 1)
        },
        LineEndings::CR => if crlf {
            (seq!['\r'], 2)
        } else if c == '\n' {
            (seq!['\r'], 1)
        } else {
            (seq![c], 1)
        },
        LineEndings::CRLF => if crlf {
            (seq!['\r', '\n'], 2)
        } else if c == '\r' || c == '\n' {
            (seq!['\r', '\n'], 1)
        } else {
            (seq![c], 1)
        },
    }
}

/// `s` from position `i` on, with its line endings rewritten to `le`:
/// for `LF`, `\r\n` and then every `\r` become `\n`; for `CR`, `\r\n` and then
/// every `\n` become `\r`; for `CRLF`, `\r\n` stays and every other `\r` or
/// `\n` becomes `\r\n`; `Default` leaves the text as it is.
pub open spec fn endings_from(s: Seq<char>, i: int, le: LineEndings) -> Seq<char>
    decreases s.len() - i,
{
    if i < 0 || i >= s.len() {
        seq![]
    } else {
        let step = ending_step(s, i, le);
        if step.1 >= 1 {
            step.0 + endings_from(s, i + step.1, le)
        } else {
            seq![]
        }
    }
}

/// `s` with its line endings rewritten to `le`.
pub open spec fn normalized(s: Seq<char>, le: LineEndings) -> Seq<char> {
    if le == LineEndings::Default {
        s
    } else {
        endings_from(s, 0, le)
    }
}

/// Whether `s` holds the two characters `\r\n` next to each other.
pub open spec fn has_crlf(s: Seq<char>) -> bool {
    exists|j: int| 0 <= j && j + 1 < s.len() && #[trigger] s[j] == '\r' && s[j + 1] == '\n'
}

/// Rewrites the line endings of `s` as `line_endings` asks.
pub fn normalize_line_endings(s: String, line_endings: &LineEndings) -> (r: String)
    ensures
        r@ == normalized(s@, *line_endings),
{
    if *line_endings == LineEndings::Default {
        return s;
    }
    let le = *line_endings;
    let v = chars_of(s.as_str());
    let n = v.len();
    let mut r = String::new();
    let mut i: usize = 0;
    while i < n
        invariant
            n == v@.len(),
            v@ == s@,
            i <= n,
            le != LineEndings::Default,
            le == *line_endings,
            r@ + endings_from(v@, i as int, le) == normalized(s@, le),
        decreases n - i,
    {
        let c = v[i];
        let crlf = c == '\r' && i + 1 < n && v[i + 1] == '\n';
        let ghost before = r@;
        let mut step: usize = 1;
        match le {
            LineEndings::LF => {
                if crlf {
                    push_char(&mut r, '\n');
                    step = 2;
                } else if c == '\r' {
                    push_char(&mut r, '\n');
                } else {
                    push_char(&mut r, c);
                }
            },
            LineEndings::CR => {
                if crlf {
                    push_char(&mut r, '\r');
                    step = 2;
                } else if c == '\n' {
                    push_char(&mut r, '\r');
                } else {
                    push_char(&mut r, c);
                }
            },
            LineEndings::CRLF => {
                if c == '\r' || c == '\n' {
                    push_char(&mut r, '\r');
                    push_char(&mut r, '\n');
                    if crlf {
                        step = 2;
                    }
                } else {
                    push_char(&mut r, c);
                }
            },
            LineEndings::Default => {
                push_char(&mut r, c);
            },
        }
        proof {
            let st = ending_step(v@, i as int, le);
            assert(r@ == before + st.0);
            assert(step as int == st.1);
            assert(endings_from(v@, i as int, le) == st.0 + endings_from(v@, i + st.1, le));
            assert(before + (st.0 + endings_from(v@, i + st.1, le)) =~= (before + st.0)
                + endings_from(v@, i + st.1, le));
        }
        i = i + step;
    }
    proof {
        assert(endings_from(v@, i as int, le) == Seq::<char>::empty());
        assert(r@ + Seq::<char>::empty() =~= r@);
    }
    r
}

/// With `LF`, the rewritten text holds no `\r` at all.
proof fn lemma_lf_has_no_cr(s: Seq<char>, i: int)
    requires
        0 <= i,
    ensures
        forall|j: int|
            0 <= j < endings_from(s, i, LineEndings::LF).len()
                ==> endings_from(s, i, LineEndings::LF)[j] != '\r',
    decreases s.len() - i,
{
    if i < s.len() {
        let st = ending_step(s, i, LineEndings::LF);
        lemma_lf_has_no_cr(s, i + st.1);
        let rest = endings_from(s, i + st.1, LineEndings::LF);
        assert(endings_from(s, i, LineEndings::LF) == st.0 + rest);
        assert forall|j: int| 0 <= j < (st.0 + rest).len() implies (st.0 + rest)[j] != '\r' by {
            if j < st.0.len() {
            } else {
                assert((st.0 + rest)[j] == rest[j - st.0.len()]);
            }
        }
    }
}

/// Text written with `LF` line endings holds no `\r` at all, so never `\r\n`.
pub proof fn lemma_lf_output_has_no_crlf(s: Seq<char>)
    ensures
        !has_crlf(normalized(s, LineEndings::LF)),
        forall|j: int|
            0 <= j < normalized(s, LineEndings::LF).len() ==> #[trigger] normalized(s, LineEndings::LF)[j]
                != '\r',
{
    lemma_lf_has_no_cr(s, 0);
}

/// Whether every `\r` of `t` is followed by `\n` and every `\n` preceded by `\r`.
pub open spec fn crlf_only(t: Seq<char>) -> bool {
    &&& forall|j: int| 0 <= j < t.len() && #[trigger] t[j] == '\r' ==> j + 1 < t.len() && t[j + 1] == '\n'
    &&& forall|j: int| 0 <= j < t.len() && #[trigger] t[j] == '\n' ==> j > 0 && t[j - 1] == '\r'
}

proof fn lemma_crlf_from(s: Seq<char>, i: int)
    requires
        0 <= i,
    ensures
        crlf_only(endings_from(s, i, LineEndings::CRLF)),
    decreases s.len() - i,
{
    if i < s.len() {
        let st = ending_step(s, i, LineEndings::CRLF);
        lemma_crlf_from(s, i + st.1);
        let rest = endings_from(s, i + st.1, LineEndings::CRLF);
        let t = st.0 + rest;
        assert(endings_from(s, i, LineEndings::CRLF) == t);
        assert forall|j: int| 0 <= j < t.len() && #[trigger] t[j] == '\r' implies j + 1 < t.len() && t[j + 1] == '\n' by {
            if j >= st.0.len() {
                assert(t[j] == rest[j - st.0.len()]);
                assert(t[j + 1] == rest[j + 1 - st.0.len()]);
            }
        }
        assert forall|j: int| 0 <= j < t.len() && #[trigger] t[j] == '\n' implies j > 0 && t[j - 1] == '\r' by {
            if j >= st.0.len() {
                assert(t[j] == rest[j - st.0.len()]);
                if j - st.0.len() > 0 {
                    assert(t[j - 1] == rest[j - 1 - st.0.len()]);
                }
            }
        }
    }
}

/// Text written with `CRLF` line endings has each line ending as `\r\n`: no `\r`
/// or `\n` stands alone.
pub proof fn lemma_crlf_output_is_crlf_only(s: Seq<char>)
    ensures
        crlf_only(normalized(s, LineEndings::CRLF)),
{
    lemma_crlf_from(s, 0);
}

} // verus!
