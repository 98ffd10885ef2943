//! Turning text that came from the page into names that are safe on disk.

use vstd::prelude::*;
use crate::text::{chars_of, string_of};

verus! {

broadcast use vstd::seq_lib::group_seq_properties;

/// An ASCII letter or digit.
pub open spec fn is_ascii_alnum(c: char) -> bool {
    ('a' <= c && c <= 'z') || ('A' <= c && c <= 'Z') || ('0' <= c && c <= '9')
}

/// Every `..` replaced by `-`, left to right, as `str::replace` does.
pub open spec fn undot(s: Seq<char>) -> Seq<char>
    decreases s.len(),
{
    if s.len() == 0 {
        Seq::<char>::empty()
    } else if s.len() >= 2 && s[0] == '.' && s[1] == '.' {
        seq!['-'] + undot(s.skip(2))
    } else {
        seq![s[0]] + undot(s.skip(1))
    }
}

/// Runs of `-` collapsed to one.
pub open spec fn collapse_dashes(s: Seq<char>) -> Seq<char>
    decreases s.len(),
{
    if s.len() == 0 {
        Seq::<char>::empty()
    } else {
        let c = collapse_dashes(s.drop_last());
        if s.last() == '-' && c.len() > 0 && c.last() == '-' {
            c
        } else {
            c.push(s.last())
        }
    }
}

/// Which characters a trim removes.
#[derive(Clone, Copy)]
pub enum Trim {
    /// `-` and `.`.
    Edges,
    /// What `char::is_whitespace` calls white space.
    Space,
}

/// Unicode white space, as `char::is_whitespace` defines it.
pub open spec fn is_space(c: char) -> bool {
    ||| ('\t' <= c && c <= '\r')
    ||| c == ' '
    ||| c == '\u{85}'
    ||| c == '\u{A0}'
    ||| c == '\u{1680}'
    ||| ('\u{2000}' <= c && c <= '\u{200A}')
    ||| c == '\u{2028}'
    ||| c == '\u{2029}'
    ||| c == '\u{202F}'
    ||| c == '\u{205F}'
    ||| c == '\u{3000}'
}

/// Whether `mode` removes `c`.
pub open spec fn trims(mode: Trim, c: char) -> bool {
    match mode {
        Trim::Edges => c == '-' || c == '.',
        Trim::Space => is_space(c),
    }
}

/// `s` without the removable characters at its start.
pub open spec fn trim_front(s: Seq<char>, mode: Trim) -> Seq<char>
    decreases s.len(),
{
    if s.len() > 0 && trims(mode, s[0]) {
        trim_front(s.drop_first(), mode)
    } else {
        s
    }
}

/// `s` without the removable characters at its end.
pub open spec fn trim_back(s: Seq<char>, mode: Trim) -> Seq<char>
    decreases s.len(),
{
    if s.len() > 0 && trims(mode, s.last()) {
        trim_back(s.drop_last(), mode)
    } else {
        s
    }
}

/// `s` without the removable characters at either end.
pub open spec fn trim(s: Seq<char>, mode: Trim) -> Seq<char> {
    trim_back(trim_front(s, mode), mode)
}

fn removes(mode: Trim, c: char) -> (r: bool)
    ensures
        r == trims(mode, c),
{
    match mode {
        Trim::Edges => c == '-' || c == '.',
        Trim::Space => ('\t' <= c && c <= '\r') || c == ' ' || c == '\u{85}' || c == '\u{A0}'
            || c == '\u{1680}' || ('\u{2000}' <= c && c <= '\u{200A}') || c == '\u{2028}'
            || c == '\u{2029}' || c == '\u{202F}' || c == '\u{205F}' || c == '\u{3000}',
    }
}

/// [`undot`], executable.
pub fn replace_double_dots(s: &Vec<char>) -> (r: Vec<char>)
    ensures
        r@ == undot(s@),
{
    let mut out: Vec<char> = Vec::new();
    let mut i: usize = 0;
    assert(s@.skip(0) =~= s@);
    while i < s.len()
        invariant
            i <= s.len(),
            undot(s@) == out@ + undot(s@.skip(i as int)),
        decreases s.len() - i,
    {
        let ghost rest = s@.skip(i as int);
        if i + 1 < s.len() && s[i] == '.' && s[i + 1] == '.' {
            assert(rest.skip(2) =~= s@.skip(i + 2));
            out.push('-');
            assert(undot(s@) =~= out@ + undot(s@.skip(i + 2)));
            i = i + 2;
        } else {
            assert(rest.skip(1) =~= s@.skip(i + 1));
            out.push(s[i]);
            assert(undot(s@) =~= out@ + undot(s@.skip(i + 1)));
            i = i + 1;
        }
    }
    assert(s@.skip(i as int) =~= Seq::<char>::empty());
    assert(out@ + Seq::<char>::empty() =~= out@);
    out
}

/// [`collapse_dashes`], executable.
pub fn collapse_dash_runs(s: &Vec<char>) -> (r: Vec<char>)
    ensures
        r@ == collapse_dashes(s@),
{
    let mut out: Vec<char> = Vec::new();
    let mut i: usize = 0;
    assert(s@.subrange(0, 0) =~= Seq::<char>::empty());
    while i < s.len()
        invariant
            i <= s.len(),
            out@ == collapse_dashes(s@.subrange(0, i as int)),
        decreases s.len() - i,
    {
        let ghost seen = s@.subrange(0, i + 1);
        assert(seen.drop_last() =~= s@.subrange(0, i as int));
        let c = s[i];
        if !(c == '-' && out.len() > 0 && out[out.len() - 1] == '-') {
            out.push(c);
        }
        i = i + 1;
    }
    assert(s@.subrange(0, i as int) =~= s@);
    out
}

proof fn lemma_trim_front_skip(s: Seq<char>, mode: Trim, i: int)
    requires
        0 <= i <= s.len(),
        forall|k: int| 0 <= k < i ==> trims(mode, #[trigger] s[k]),
    ensures
        trim_front(s, mode) == trim_front(s.skip(i), mode),
    decreases i,
{
    if i > 0 {
        assert(s.drop_first().skip(i - 1) =~= s.skip(i));
        assert forall|k: int| 0 <= k < i - 1 implies trims(mode, #[trigger] s.drop_first()[k]) by {
            assert(s.drop_first()[k] == s[k + 1]);
        }
        lemma_trim_front_skip(s.drop_first(), mode, i - 1);
    } else {
        assert(s.skip(0) =~= s);
    }
}

proof fn lemma_trim_back_take(s: Seq<char>, mode: Trim, j: int)
    requires
        0 <= j <= s.len(),
        forall|k: int| j <= k < s.len() ==> trims(mode, #[trigger] s[k]),
    ensures
        trim_back(s, mode) == trim_back(s.take(j), mode),
    decreases s.len() - j,
{
    if j < s.len() {
        assert(s.drop_last().take(j) =~= s.take(j));
        lemma_trim_back_take(s.drop_last(), mode, j);
    } else {
        assert(s.take(j) =~= s);
    }
}

/// [`trim`], executable.
pub fn trim_chars(s: &Vec<char>, mode: Trim) -> (r: Vec<char>)
    ensures
        r@ == trim(s@, mode),
{
    let mut a: usize = 0;
    while a < s.len() && removes(mode, s[a])
        invariant
            a <= s.len(),
            forall|k: int| 0 <= k < a ==> trims(mode, #[trigger] s@[k]),
        decreases s.len() - a,
    {
        a = a + 1;
    }
    proof {
        lemma_trim_front_skip(s@, mode, a as int);
    }
    let ghost front = s@.skip(a as int);
    assert(trim_front(front, mode) == front);
    let mut b: usize = s.len();
    while b > a && removes(mode, s[b - 1])
        invariant
            a <= b <= s.len(),
            forall|k: int| b <= k < s.len() ==> trims(mode, #[trigger] s@[k]),
        decreases b,
    {
        b = b - 1;
    }
    proof {
        assert forall|k: int| b - a <= k < front.len() implies trims(mode, #[trigger] front[k]) by {
            assert(front[k] == s@[a + k]);
        }
        lemma_trim_back_take(front, mode, b - a);
        assert(front.take(b - a) =~= s@.subrange(a as int, b as int));
    }
    let mut out: Vec<char> = Vec::new();
    let mut i = a;
    while i < b
        invariant
            a <= i <= b,
            b <= s.len(),
            out@ == s@.subrange(a as int, i as int),
        decreases b - i,
    {
        out.push(s[i]);
        i = i + 1;
    }
    out
}

// ---------------------------------------------------------------- sanitize

/// A character `sanitize` keeps as it is.
pub open spec fn is_plain_name_char(c: char) -> bool {
    is_ascii_alnum(c) || c == '-' || c == '_' || c == '.'
}

/// What a suggested file name becomes: anything but `[A-Za-z0-9-_.]` is a
/// `-`, every `..` is a `-`, runs of `-` are one, and `-` and `.` go from both
/// ends; nothing left is `song.mid`.
pub open spec fn sanitized(name: Seq<char>) -> Seq<char> {
    let plain = name.map_values(|c: char| if is_plain_name_char(c) { c } else { '-' });
    let t = trim(collapse_dashes(undot(plain)), Trim::Edges);
    if t.len() == 0 {
        seq!['s', 'o', 'n', 'g', '.', 'm', 'i', 'd']
    } else {
        t
    }
}

/// A suggested name that cannot be a path.
pub fn sanitize(name: &str) -> (r: String)
    ensures
        r@ == sanitized(name@),
{
    let cs = chars_of(name);
    let mut plain: Vec<char> = Vec::new();
    let mut i: usize = 0;
    while i < cs.len()
        invariant
            i <= cs.len(),
            plain@ == cs@.subrange(0, i as int).map_values(|c: char| if is_plain_name_char(c) { c } else { '-' }),
        decreases cs.len() - i,
    {
        let c = cs[i];
        let keep = ('a' <= c && c <= 'z') || ('A' <= c && c <= 'Z') || ('0' <= c && c <= '9') || c == '-' || c == '_' || c == '.';
        plain.push(if keep { c } else { '-' });
        assert(plain@ =~= cs@.subrange(0, i + 1).map_values(|c: char| if is_plain_name_char(c) { c } else { '-' }));
        i = i + 1;
    }
    assert(cs@.subrange(0, i as int) =~= cs@);
    let t = trim_chars(&collapse_dash_runs(&replace_double_dots(&plain)), Trim::Edges);
    if t.len() == 0 {
        proof {
            reveal_strlit("song.mid");
        }
        let r = "song.mid".to_string();
        assert(r@ =~= seq!['s', 'o', 'n', 'g', '.', 'm', 'i', 'd']);
        r
    } else {
        string_of(&t)
    }
}

} // verus!

verus! {

// ---------------------------------------------------------------- safe_file_name

/// A control character: `char::is_control`, the Unicode `Cc` category.
pub open spec fn is_control(c: char) -> bool {
    c <= '\u{1F}' || ('\u{7F}' <= c && c <= '\u{9F}')
}

/// A character a readable file name may not carry: a path separator, one of
/// the characters Windows reserves, or a control character.
pub open spec fn is_unsafe_char(c: char) -> bool {
    ||| c == '/' || c == '\\' || c == ':' || c == '*' || c == '?'
    ||| c == '"' || c == '<' || c == '>' || c == '|'
    ||| is_control(c)
}

/// What a readable name becomes: unsafe characters and every `..` become
/// `-`, then white space, `-` and `.`, and white space again, go from both
/// ends; nothing left is `stem`.
pub open spec fn safe_named(name: Seq<char>) -> Seq<char> {
    let cleaned = undot(name.map_values(|c: char| if is_unsafe_char(c) { '-' } else { c }));
    let t = trim(trim(trim(cleaned, Trim::Space), Trim::Edges), Trim::Space);
    if t.len() == 0 {
        seq!['s', 't', 'e', 'm']
    } else {
        t
    }
}

/// A name that is safe as a file name and still readable as one: spaces and
/// `#` survive, separators and `..` do not.
pub fn safe_file_name(name: &str) -> (r: String)
    ensures
        r@ == safe_named(name@),
{
    let cs = chars_of(name);
    let mut cleaned: Vec<char> = Vec::new();
    let mut i: usize = 0;
    while i < cs.len()
        invariant
            i <= cs.len(),
            cleaned@ == cs@.subrange(0, i as int).map_values(|c: char| if is_unsafe_char(c) { '-' } else { c }),
        decreases cs.len() - i,
    {
        let c = cs[i];
        let bad = c == '/' || c == '\\' || c == ':' || c == '*' || c == '?' || c == '"' || c == '<'
            || c == '>' || c == '|' || c <= '\u{1F}' || ('\u{7F}' <= c && c <= '\u{9F}');
        cleaned.push(if bad { '-' } else { c });
        assert(cleaned@ =~= cs@.subrange(0, i + 1).map_values(|c: char| if is_unsafe_char(c) { '-' } else { c }));
        i = i + 1;
    }
    assert(cs@.subrange(0, i as int) =~= cs@);
    let undotted = replace_double_dots(&cleaned);
    let t = trim_chars(&trim_chars(&trim_chars(&undotted, Trim::Space), Trim::Edges), Trim::Space);
    if t.len() == 0 {
        proof {
            reveal_strlit("stem");
        }
        let r = "stem".to_string();
        assert(r@ =~= seq!['s', 't', 'e', 'm']);
        r
    } else {
        string_of(&t)
    }
}

} // verus!

verus! {

// ---------------------------------------------------------------- what a name can never be

/// No two `.` side by side.
pub open spec fn no_double_dot(s: Seq<char>) -> bool {
    forall|i: int| 0 <= i < s.len() - 1 ==> !(#[trigger] s[i] == '.' && s[i + 1] == '.')
}

/// No character that separates path components, on any platform.
pub open spec fn no_separator(s: Seq<char>) -> bool {
    forall|i: int| 0 <= i < s.len() ==> #[trigger] s[i] != '/' && s[i] != '\\'
}

/// No two `-` side by side.
pub open spec fn no_double_dash(s: Seq<char>) -> bool {
    forall|i: int| 0 <= i < s.len() - 1 ==> !(#[trigger] s[i] == '-' && s[i + 1] == '-')
}

/// Neither end is a character `mode` trims.
pub open spec fn trimmed_ends(s: Seq<char>, mode: Trim) -> bool {
    s.len() > 0 ==> !trims(mode, s[0]) && !trims(mode, s.last())
}

proof fn lemma_collapse_no_double_dash(s: Seq<char>)
    ensures
        no_double_dash(collapse_dashes(s)),
    decreases s.len(),
{
    if s.len() > 0 {
        lemma_collapse_no_double_dash(s.drop_last());
        let c = collapse_dashes(s.drop_last());
        let r = collapse_dashes(s);
        if !(s.last() == '-' && c.len() > 0 && c.last() == '-') {
            assert forall|i: int| 0 <= i < r.len() - 1 implies !(#[trigger] r[i] == '-' && r[i + 1] == '-') by {
                if i < c.len() - 1 {
                    assert(r[i] == c[i] && r[i + 1] == c[i + 1]);
                } else {
                    assert(r[i] == c.last());
                }
            }
        }
    }
}

proof fn lemma_collapse_unchanged(s: Seq<char>)
    requires
        no_double_dash(s),
    ensures
        collapse_dashes(s) == s,
    decreases s.len(),
{
    if s.len() > 0 {
        let t = s.drop_last();
        assert forall|i: int| 0 <= i < t.len() - 1 implies !(#[trigger] t[i] == '-' && t[i + 1] == '-') by {
            assert(t[i] == s[i] && t[i + 1] == s[i + 1]);
        }
        lemma_collapse_unchanged(t);
        if t.len() > 0 {
            assert(!(s[t.len() - 1] == '-' && s[t.len() as int] == '-'));
        }
        assert(t.push(s.last()) =~= s);
    }
}

proof fn lemma_undot_unchanged(s: Seq<char>)
    requires
        no_double_dot(s),
    ensures
        undot(s) == s,
    decreases s.len(),
{
    if s.len() > 0 {
        let t = s.skip(1);
        assert forall|i: int| 0 <= i < t.len() - 1 implies !(#[trigger] t[i] == '.' && t[i + 1] == '.') by {
            assert(t[i] == s[i + 1] && t[i + 1] == s[i + 2]);
        }
        lemma_undot_unchanged(t);
        if s.len() >= 2 {
            assert(!(s[0] == '.' && s[1] == '.'));
        }
        assert(seq![s[0]] + t =~= s);
    }
}

proof fn lemma_trim_unchanged(s: Seq<char>, mode: Trim)
    requires
        s.len() > 0,
        trimmed_ends(s, mode),
    ensures
        trim(s, mode) == s,
{
}

proof fn lemma_trim_ends(s: Seq<char>, mode: Trim)
    ensures
        trimmed_ends(trim(s, mode), mode),
        no_double_dash(s) ==> no_double_dash(trim(s, mode)),
{
    let a = lemma_front_slice(s, mode);
    let f = s.skip(a);
    let b = lemma_back_slice(f, mode);
    lemma_front_stops(s, mode);
    lemma_back_stops(f, mode);
    let t = trim(s, mode);
    assert(t =~= f.take(b));
    if t.len() > 0 {
        assert(t[0] == f[0]);
    }
    if no_double_dash(s) {
        assert forall|i: int| 0 <= i < t.len() - 1 implies !(#[trigger] t[i] == '-' && t[i + 1] == '-') by {
            assert(t[i] == s[a + i] && t[i + 1] == s[a + i + 1]);
        }
    }
}

proof fn lemma_front_stops(s: Seq<char>, mode: Trim)
    ensures
        trim_front(s, mode).len() > 0 ==> !trims(mode, trim_front(s, mode)[0]),
    decreases s.len(),
{
    if s.len() > 0 && trims(mode, s[0]) {
        lemma_front_stops(s.drop_first(), mode);
    }
}

proof fn lemma_back_stops(s: Seq<char>, mode: Trim)
    ensures
        trim_back(s, mode).len() > 0 ==> !trims(mode, trim_back(s, mode).last()),
    decreases s.len(),
{
    if s.len() > 0 && trims(mode, s.last()) {
        lemma_back_stops(s.drop_last(), mode);
    }
}

proof fn lemma_undot_first(t: Seq<char>)
    requires
        t.len() > 0,
    ensures
        undot(t).len() > 0,
        undot(t)[0] == if t.len() >= 2 && t[0] == '.' && t[1] == '.' { '-' } else { t[0] },
{
}

proof fn lemma_undot_no_double_dot(s: Seq<char>)
    ensures
        no_double_dot(undot(s)),
    decreases s.len(),
{
    if s.len() == 0 {
    } else if s.len() >= 2 && s[0] == '.' && s[1] == '.' {
        lemma_undot_no_double_dot(s.skip(2));
        let u = undot(s);
        assert forall|i: int| 0 <= i < u.len() - 1 implies !(#[trigger] u[i] == '.' && u[i + 1] == '.') by {
            if i > 0 {
                assert(u[i] == undot(s.skip(2))[i - 1]);
                assert(u[i + 1] == undot(s.skip(2))[i]);
            }
        }
    } else {
        lemma_undot_no_double_dot(s.skip(1));
        let u = undot(s);
        let rest = s.skip(1);
        assert forall|i: int| 0 <= i < u.len() - 1 implies !(#[trigger] u[i] == '.' && u[i + 1] == '.') by {
            if i > 0 {
                assert(u[i] == undot(rest)[i - 1]);
                assert(u[i + 1] == undot(rest)[i]);
            } else {
                lemma_undot_first(rest);
                assert(u[1] == undot(rest)[0]);
            }
        }
    }
}

proof fn lemma_undot_chars(s: Seq<char>, p: spec_fn(char) -> bool)
    requires
        forall|i: int| 0 <= i < s.len() ==> p(#[trigger] s[i]),
        p('-'),
    ensures
        forall|i: int| 0 <= i < undot(s).len() ==> p(#[trigger] undot(s)[i]),
    decreases s.len(),
{
    if s.len() == 0 {
    } else if s.len() >= 2 && s[0] == '.' && s[1] == '.' {
        lemma_undot_chars(s.skip(2), p);
        assert forall|i: int| 0 <= i < undot(s).len() implies p(#[trigger] undot(s)[i]) by {
            if i > 0 {
                assert(undot(s)[i] == undot(s.skip(2))[i - 1]);
            }
        }
    } else {
        lemma_undot_chars(s.skip(1), p);
        assert forall|i: int| 0 <= i < undot(s).len() implies p(#[trigger] undot(s)[i]) by {
            if i > 0 {
                assert(undot(s)[i] == undot(s.skip(1))[i - 1]);
            }
        }
    }
}

proof fn lemma_collapse(s: Seq<char>, p: spec_fn(char) -> bool)
    requires
        forall|i: int| 0 <= i < s.len() ==> p(#[trigger] s[i]),
    ensures
        forall|i: int| 0 <= i < collapse_dashes(s).len() ==> p(#[trigger] collapse_dashes(s)[i]),
        no_double_dot(s) ==> no_double_dot(collapse_dashes(s)),
        s.len() > 0 ==> collapse_dashes(s).len() > 0 && collapse_dashes(s).last() == s.last(),
    decreases s.len(),
{
    if s.len() > 0 {
        let t = s.drop_last();
        lemma_collapse(t, p);
        let c = collapse_dashes(t);
        if no_double_dot(s) {
            assert forall|i: int| 0 <= i < t.len() - 1 implies !(#[trigger] t[i] == '.' && t[i + 1] == '.') by {
                assert(s[i] == t[i] && s[i + 1] == t[i + 1]);
            }
            if t.len() > 0 {
                assert(!(s[t.len() - 1] == '.' && s[t.len() as int] == '.'));
            }
        }
    }
}

proof fn lemma_trim_is_slice(s: Seq<char>, mode: Trim)
    ensures
        exists|a: int, b: int| 0 <= a <= b <= s.len() && trim(s, mode) == s.subrange(a, b),
{
    let a = lemma_front_slice(s, mode);
    let f = s.skip(a);
    let b = lemma_back_slice(f, mode);
    assert(trim(s, mode) =~= s.subrange(a, a + b));
}

proof fn lemma_front_slice(s: Seq<char>, mode: Trim) -> (a: int)
    ensures
        0 <= a <= s.len(),
        trim_front(s, mode) == s.skip(a),
    decreases s.len(),
{
    if s.len() > 0 && trims(mode, s[0]) {
        let a = lemma_front_slice(s.drop_first(), mode);
        assert(s.drop_first().skip(a) =~= s.skip(a + 1));
        a + 1
    } else {
        assert(s.skip(0) =~= s);
        0
    }
}

proof fn lemma_back_slice(s: Seq<char>, mode: Trim) -> (b: int)
    ensures
        0 <= b <= s.len(),
        trim_back(s, mode) == s.take(b),
    decreases s.len(),
{
    if s.len() > 0 && trims(mode, s.last()) {
        let b = lemma_back_slice(s.drop_last(), mode);
        assert(s.drop_last().take(b) =~= s.take(b));
        b
    } else {
        assert(s.take(s.len() as int) =~= s);
        s.len() as int
    }
}

proof fn lemma_trim_keeps(s: Seq<char>, mode: Trim, p: spec_fn(char) -> bool)
    requires
        forall|i: int| 0 <= i < s.len() ==> p(#[trigger] s[i]),
    ensures
        forall|i: int| 0 <= i < trim(s, mode).len() ==> p(#[trigger] trim(s, mode)[i]),
        no_double_dot(s) ==> no_double_dot(trim(s, mode)),
{
    lemma_trim_is_slice(s, mode);
    let (a, b) = choose|a: int, b: int| 0 <= a <= b <= s.len() && trim(s, mode) == s.subrange(a, b);
    let t = trim(s, mode);
    assert forall|i: int| 0 <= i < t.len() implies p(#[trigger] t[i]) by {
        assert(t[i] == s[a + i]);
    }
    if no_double_dot(s) {
        assert forall|i: int| 0 <= i < t.len() - 1 implies !(#[trigger] t[i] == '.' && t[i + 1] == '.') by {
            assert(t[i] == s[a + i] && t[i + 1] == s[a + i + 1]);
        }
    }
}

/// A suggested name is never empty, holds only `[A-Za-z0-9-_.]`, has no `..`
/// and no `--` in it, neither starts nor ends with `-` or `.`: it can never be
/// a path.
pub proof fn sanitized_is_only_a_name(name: Seq<char>)
    ensures
        sanitized(name).len() > 0,
        forall|i: int| 0 <= i < sanitized(name).len() ==> is_plain_name_char(#[trigger] sanitized(name)[i]),
        no_double_dot(sanitized(name)),
        no_double_dash(sanitized(name)),
        trimmed_ends(sanitized(name), Trim::Edges),
        no_separator(sanitized(name)),
{
    let plain = name.map_values(|c: char| if is_plain_name_char(c) { c } else { '-' });
    let p = |c: char| is_plain_name_char(c);
    assert forall|i: int| 0 <= i < plain.len() implies p(#[trigger] plain[i]) by {}
    lemma_undot_chars(plain, p);
    lemma_undot_no_double_dot(plain);
    let u = undot(plain);
    lemma_collapse(u, p);
    let c = collapse_dashes(u);
    lemma_trim_keeps(c, Trim::Edges, p);
    lemma_collapse_no_double_dash(u);
    lemma_trim_ends(c, Trim::Edges);
    let t = trim(c, Trim::Edges);
    if t.len() == 0 {
        let song = seq!['s', 'o', 'n', 'g', '.', 'm', 'i', 'd'];
        assert(sanitized(name) == song);
        assert forall|i: int| 0 <= i < song.len() implies is_plain_name_char(#[trigger] song[i]) by {}
        assert forall|i: int| 0 <= i < song.len() - 1 implies !(#[trigger] song[i] == '.' && song[i + 1] == '.') by {}
        assert forall|i: int| 0 <= i < song.len() - 1 implies !(#[trigger] song[i] == '-' && song[i + 1] == '-') by {}
    }
}

/// Sanitising a name that was already sanitised changes nothing.
pub proof fn sanitizing_twice_is_sanitizing_once(name: Seq<char>)
    ensures
        sanitized(sanitized(name)) == sanitized(name),
{
    let s = sanitized(name);
    sanitized_is_only_a_name(name);
    let plain = s.map_values(|c: char| if is_plain_name_char(c) { c } else { '-' });
    assert(plain =~= s);
    lemma_undot_unchanged(s);
    lemma_collapse_unchanged(s);
    lemma_trim_unchanged(s, Trim::Edges);
}

/// A readable stem name is never empty, never holds a path separator, a
/// control character or one of the characters Windows reserves, has no `..`
/// in it, and has no white space at either end.
pub proof fn safe_named_is_only_a_name(name: Seq<char>)
    ensures
        safe_named(name).len() > 0,
        trimmed_ends(safe_named(name), Trim::Space),
        forall|i: int| 0 <= i < safe_named(name).len() ==> !is_unsafe_char(#[trigger] safe_named(name)[i]),
        no_double_dot(safe_named(name)),
        no_separator(safe_named(name)),
{
    let m = name.map_values(|c: char| if is_unsafe_char(c) { '-' } else { c });
    let p = |c: char| !is_unsafe_char(c);
    assert forall|i: int| 0 <= i < m.len() implies p(#[trigger] m[i]) by {}
    lemma_undot_chars(m, p);
    lemma_undot_no_double_dot(m);
    let u = undot(m);
    lemma_trim_keeps(u, Trim::Space, p);
    let t1 = trim(u, Trim::Space);
    lemma_trim_keeps(t1, Trim::Edges, p);
    let t2 = trim(t1, Trim::Edges);
    lemma_trim_keeps(t2, Trim::Space, p);
    lemma_trim_ends(t2, Trim::Space);
    let t = trim(t2, Trim::Space);
    if t.len() == 0 {
        let stem = seq!['s', 't', 'e', 'm'];
        assert(safe_named(name) == stem);
        assert forall|i: int| 0 <= i < stem.len() implies !is_unsafe_char(#[trigger] stem[i]) by {}
    }
}

} // verus!

verus! {

// ---------------------------------------------------------------- ids of stored things

/// A character an id on disk may hold.
pub open spec fn is_stem_char(c: char) -> bool {
    ('a' <= c && c <= 'z') || ('0' <= c && c <= '9') || c == '-' || c == '_'
}

/// Whether `s` can be an id on disk: not empty, and only small ASCII letters,
/// digits, `-` and `_`, so it can never be a path or climb out of a folder.
pub open spec fn safe_stem(s: Seq<char>) -> bool {
    s.len() > 0 && forall|i: int| 0 <= i < s.len() ==> is_stem_char(#[trigger] s[i])
}

/// A character of a slug: an ASCII letter in small case or a digit, and
/// anything else a `-`.
pub open spec fn slug_char(c: char) -> char {
    if 'A' <= c && c <= 'Z' {
        ((c as u32) + 32) as char
    } else if ('a' <= c && c <= 'z') || ('0' <= c && c <= '9') {
        c
    } else {
        '-'
    }
}

/// The id a name is stored under: ASCII letters in small case and digits
/// kept, every other run of characters one `-`, no `-` at either end, and
/// `fallback` when nothing is left.
pub open spec fn slug(name: Seq<char>, fallback: Seq<char>) -> Seq<char> {
    let t = trim(collapse_dashes(name.map_values(|c: char| slug_char(c))), Trim::Edges);
    if t.len() == 0 {
        fallback
    } else {
        t
    }
}

/// [`safe_stem`], executable.
pub fn is_safe_stem(s: &str) -> (r: bool)
    ensures
        r == safe_stem(s@),
{
    let cs = chars_of(s);
    if cs.len() == 0 {
        return false;
    }
    let mut i: usize = 0;
    while i < cs.len()
        invariant
            i <= cs.len(),
            cs@ == s@,
            forall|k: int| 0 <= k < i ==> is_stem_char(#[trigger] cs@[k]),
        decreases cs.len() - i,
    {
        let c = cs[i];
        if !(('a' <= c && c <= 'z') || ('0' <= c && c <= '9') || c == '-' || c == '_') {
            return false;
        }
        i = i + 1;
    }
    true
}

/// [`slug`], executable.
pub fn slug_with(name: &str, fallback: &str) -> (r: String)
    ensures
        r@ == slug(name@, fallback@),
{
    let cs = chars_of(name);
    let mut mapped: Vec<char> = Vec::new();
    let mut i: usize = 0;
    while i < cs.len()
        invariant
            i <= cs.len(),
            mapped@ == cs@.subrange(0, i as int).map_values(|c: char| slug_char(c)),
        decreases cs.len() - i,
    {
        let c = cs[i];
        let m = if 'A' <= c && c <= 'Z' {
            crate::text::lower_ascii(c)
        } else if ('a' <= c && c <= 'z') || ('0' <= c && c <= '9') {
            c
        } else {
            '-'
        };
        mapped.push(m);
        assert(mapped@ =~= cs@.subrange(0, i + 1).map_values(|c: char| slug_char(c)));
        i = i + 1;
    }
    assert(cs@.subrange(0, i as int) =~= cs@);
    let t = trim_chars(&collapse_dash_runs(&mapped), Trim::Edges);
    if t.len() == 0 {
        fallback.to_string()
    } else {
        string_of(&t)
    }
}

/// A slug is always a safe id when its fallback is: whatever a name from a
/// text box holds, the id it is stored under never becomes a path.
pub proof fn slug_is_a_safe_stem(name: Seq<char>, fallback: Seq<char>)
    requires
        safe_stem(fallback),
    ensures
        safe_stem(slug(name, fallback)),
{
    let m = name.map_values(|c: char| slug_char(c));
    let p = |c: char| is_stem_char(c);
    assert forall|i: int| 0 <= i < m.len() implies p(#[trigger] m[i]) by {
        let c = name[i];
        if 'A' <= c && c <= 'Z' {
            assert('a' <= slug_char(c) && slug_char(c) <= 'z');
        }
    }
    lemma_collapse(m, p);
    lemma_trim_keeps(collapse_dashes(m), Trim::Edges, p);
}

} // verus!

verus! {

// ---------------------------------------------------------------- a slug ignores surrounding space

/// Runs of `-` collapsed, then `-` and `.` gone from both ends.
spec fn tidy(y: Seq<char>) -> Seq<char> {
    trim(collapse_dashes(y), Trim::Edges)
}

proof fn lemma_collapse_first(y: Seq<char>)
    requires
        y.len() > 0,
    ensures
        collapse_dashes(y).len() > 0,
        collapse_dashes(y)[0] == y[0],
    decreases y.len(),
{
    let c = collapse_dashes(y.drop_last());
    if y.len() > 1 {
        lemma_collapse_first(y.drop_last());
        assert(y.drop_last()[0] == y[0]);
        assert(c.push(y.last())[0] == c[0]);
    } else {
        assert(y.drop_last() =~= Seq::<char>::empty());
        assert(c =~= Seq::<char>::empty());
        assert(collapse_dashes(y) =~= seq![y.last()]);
    }
}

proof fn lemma_collapse_dash_front(y: Seq<char>)
    ensures
        collapse_dashes(seq!['-'] + y) == if y.len() > 0 && collapse_dashes(y)[0] == '-' {
            collapse_dashes(y)
        } else {
            seq!['-'] + collapse_dashes(y)
        },
    decreases y.len(),
{
    let d = seq!['-'] + y;
    if y.len() == 0 {
        assert(d =~= seq!['-']);
        assert(d.drop_last() =~= Seq::<char>::empty());
        assert(collapse_dashes(d) =~= seq!['-']);
        assert(seq!['-'] + collapse_dashes(y) =~= seq!['-']);
    } else {
        let y1 = y.drop_last();
        let z = y.last();
        assert(d.drop_last() =~= seq!['-'] + y1);
        assert(d.last() == z);
        lemma_collapse_dash_front(y1);
        lemma_collapse_first(y);
        let r = collapse_dashes(y1);
        if y1.len() == 0 {
            assert(y =~= seq![z]);
            assert(y.drop_last() =~= Seq::<char>::empty());
            assert(collapse_dashes(y) =~= seq![z]);
            if z == '-' {
                assert(collapse_dashes(d) =~= seq!['-']);
            } else {
                assert(collapse_dashes(d) =~= seq!['-', z]);
                assert(seq!['-'] + collapse_dashes(y) =~= seq!['-', z]);
            }
        } else {
            lemma_collapse_first(y1);
            assert(y1[0] == y[0]);
            if y1[0] == '-' {
            } else {
                let l = seq!['-'] + r;
                assert(l.last() == r.last());
                if z == '-' && r.last() == '-' {
                } else {
                    assert(l.push(z) =~= seq!['-'] + r.push(z));
                }
            }
        }
    }
}

proof fn lemma_trim_front_push(s: Seq<char>, x: char)
    ensures
        trim_front(s.push(x), Trim::Edges) == if trim_front(s, Trim::Edges).len() == 0 {
            trim_front(seq![x], Trim::Edges)
        } else {
            trim_front(s, Trim::Edges).push(x)
        },
    decreases s.len(),
{
    if s.len() > 0 {
        assert(s.push(x)[0] == s[0]);
        if trims(Trim::Edges, s[0]) {
            assert(s.push(x).drop_first() =~= s.drop_first().push(x));
            lemma_trim_front_push(s.drop_first(), x);
        }
    } else {
        assert(s.push(x) =~= seq![x]);
    }
}

proof fn lemma_tidy_dash_back(y: Seq<char>)
    ensures
        tidy(y.push('-')) == tidy(y),
{
    let c = collapse_dashes(y);
    assert(y.push('-').drop_last() =~= y);
    if c.len() > 0 && c.last() == '-' {
    } else {
        lemma_trim_front_push(c, '-');
        let f = trim_front(c, Trim::Edges);
        if f.len() == 0 {
            let one = seq!['-'];
            assert(one[0] == '-');
            assert(one.drop_first() =~= Seq::<char>::empty());
            assert(trim_front(one.drop_first(), Trim::Edges) =~= Seq::<char>::empty());
            assert(trim_front(one, Trim::Edges) =~= Seq::<char>::empty());
        } else {
            assert(f.push('-').drop_last() =~= f);
        }
    }
}

proof fn lemma_tidy_dash_front(y: Seq<char>)
    ensures
        tidy(seq!['-'] + y) == tidy(y),
{
    lemma_collapse_dash_front(y);
    let c = collapse_dashes(y);
    if !(y.len() > 0 && c[0] == '-') {
        assert((seq!['-'] + c).drop_first() =~= c);
    }
}

proof fn lemma_tidy_dashes(d1: Seq<char>, y: Seq<char>, d2: Seq<char>)
    requires
        forall|i: int| 0 <= i < d1.len() ==> d1[i] == '-',
        forall|i: int| 0 <= i < d2.len() ==> d2[i] == '-',
    ensures
        tidy(d1 + y + d2) == tidy(y),
    decreases d1.len() + d2.len(),
{
    if d2.len() > 0 {
        assert(d1 + y + d2 =~= (d1 + y + d2.drop_last()).push('-'));
        lemma_tidy_dash_back(d1 + y + d2.drop_last());
        lemma_tidy_dashes(d1, y, d2.drop_last());
    } else if d1.len() > 0 {
        assert(d1 + y + d2 =~= seq!['-'] + (d1.drop_first() + y + d2));
        lemma_tidy_dash_front(d1.drop_first() + y + d2);
        lemma_tidy_dashes(d1.drop_first(), y, d2);
    } else {
        assert(d1 + y + d2 =~= y);
    }
}

proof fn lemma_space_trim_slice(s: Seq<char>) -> (ab: (int, int))
    ensures
        0 <= ab.0 <= ab.1 <= s.len(),
        trim(s, Trim::Space) == s.subrange(ab.0, ab.1),
        forall|k: int| 0 <= k < ab.0 ==> is_space(#[trigger] s[k]),
        forall|k: int| ab.1 <= k < s.len() ==> is_space(#[trigger] s[k]),
{
    let a = lemma_space_front(s);
    let f = s.skip(a);
    let b = lemma_space_back(f);
    assert(trim(s, Trim::Space) =~= s.subrange(a, a + b));
    assert forall|k: int| a + b <= k < s.len() implies is_space(#[trigger] s[k]) by {
        assert(f[k - a] == s[k]);
    }
    (a, a + b)
}

proof fn lemma_space_front(s: Seq<char>) -> (a: int)
    ensures
        0 <= a <= s.len(),
        trim_front(s, Trim::Space) == s.skip(a),
        forall|k: int| 0 <= k < a ==> is_space(#[trigger] s[k]),
    decreases s.len(),
{
    if s.len() > 0 && trims(Trim::Space, s[0]) {
        let a = lemma_space_front(s.drop_first());
        assert(s.drop_first().skip(a) =~= s.skip(a + 1));
        assert forall|k: int| 0 <= k < a + 1 implies is_space(#[trigger] s[k]) by {
            if k > 0 {
                assert(s.drop_first()[k - 1] == s[k]);
            }
        }
        a + 1
    } else {
        assert(s.skip(0) =~= s);
        0
    }
}

proof fn lemma_space_back(s: Seq<char>) -> (b: int)
    ensures
        0 <= b <= s.len(),
        trim_back(s, Trim::Space) == s.take(b),
        forall|k: int| b <= k < s.len() ==> is_space(#[trigger] s[k]),
    decreases s.len(),
{
    if s.len() > 0 && trims(Trim::Space, s.last()) {
        let b = lemma_space_back(s.drop_last());
        assert(s.drop_last().take(b) =~= s.take(b));
        assert forall|k: int| b <= k < s.len() implies is_space(#[trigger] s[k]) by {
            if k < s.len() - 1 {
                assert(s.drop_last()[k] == s[k]);
            }
        }
        b
    } else {
        assert(s.take(s.len() as int) =~= s);
        s.len() as int
    }
}

/// The white space around a name makes no difference to its slug.
pub proof fn slug_ignores_surrounding_space(name: Seq<char>, fallback: Seq<char>)
    ensures
        slug(trim(name, Trim::Space), fallback) == slug(name, fallback),
{
    let (a, b) = lemma_space_trim_slice(name);
    let f = |c: char| slug_char(c);
    let mid = name.subrange(a, b);
    let d1 = name.subrange(0, a).map_values(f);
    let d2 = name.subrange(b, name.len() as int).map_values(f);
    assert forall|i: int| 0 <= i < d1.len() implies d1[i] == '-' by {
        assert(is_space(name[i]));
    }
    assert forall|i: int| 0 <= i < d2.len() implies d2[i] == '-' by {
        assert(is_space(name[b + i]));
    }
    assert(name.map_values(f) =~= d1 + mid.map_values(f) + d2);
    lemma_tidy_dashes(d1, mid.map_values(f), d2);
}

} // verus!
