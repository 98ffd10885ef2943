//! Paths as text: their components, whether one lies inside another, and the
//! refusal of network paths.
//!
//! A path is read the way `std::path::Path` reads it on the platform the
//! plugin runs on, which each call names by a [`Syntax`]. On POSIX systems
//! only `/` separates components; on Windows `\` does too, and a drive (`C:`)
//! or the verbatim spelling of one (`\\?\C:`) is a prefix component of its
//! own. A separator at the start, or right after the drive, is the root; a
//! leading `.` is the current directory; empty components and later `.`s are
//! dropped; and `..` is kept as a component of its own.

use vstd::prelude::*;
use crate::text::{chars_of, eq_ignore_ascii_case, opt_text, same_chars, same_ignoring_ascii_case, texts};

verus! {

/// The path rules of a platform.
#[derive(Clone, Copy, Debug, PartialEq, Eq, Structural)]
pub enum Syntax {
    /// macOS and Linux: `/` alone separates, and there are no drives.
    Posix,
    /// Windows: `/` and `\` separate, and a path may start with a drive.
    Windows,
}

/// A path separator on some platform a path may come from.
pub open spec fn is_sep(c: char) -> bool {
    c == '/' || c == '\\'
}

/// A path separator under `sx`.
pub open spec fn is_sep_in(sx: Syntax, c: char) -> bool {
    c == '/' || (sx == Syntax::Windows && c == '\\')
}

/// The separator `sx` writes between components.
pub open spec fn main_sep(sx: Syntax) -> char {
    if sx == Syntax::Windows {
        '\\'
    } else {
        '/'
    }
}

/// The text between separators, left to right, including empty pieces.
pub open spec fn split_seps(s: Seq<char>, sx: Syntax) -> Seq<Seq<char>>
    decreases s.len(),
{
    if s.len() == 0 {
        seq![Seq::<char>::empty()]
    } else {
        let rest = split_seps(s.drop_last(), sx);
        if is_sep_in(sx, s.last()) {
            rest.push(Seq::<char>::empty())
        } else {
            rest.update(rest.len() - 1, rest.last().push(s.last()))
        }
    }
}

/// A piece that survives as a component: not empty, and not `.`.
pub open spec fn is_kept(piece: Seq<char>) -> bool {
    piece.len() > 0 && piece != seq!['.']
}

/// The pieces that survive, in order.
pub open spec fn kept(pieces: Seq<Seq<char>>) -> Seq<Seq<char>>
    decreases pieces.len(),
{
    if pieces.len() == 0 {
        Seq::<Seq<char>>::empty()
    } else if is_kept(pieces.last()) {
        kept(pieces.drop_last()).push(pieces.last())
    } else {
        kept(pieces.drop_last())
    }
}

/// A letter that can name a drive.
pub open spec fn is_drive_letter(c: char) -> bool {
    ('a' <= c && c <= 'z') || ('A' <= c && c <= 'Z')
}

/// `\\?\X:`, the verbatim spelling of a local drive.
pub open spec fn is_verbatim_drive(s: Seq<char>) -> bool {
    &&& s.len() >= 6
    &&& s[0] == '\\'
    &&& s[1] == '\\'
    &&& s[2] == '?'
    &&& s[3] == '\\'
    &&& is_drive_letter(s[4])
    &&& s[5] == ':'
}

/// How many characters of `s` are its drive prefix: on Windows, six for
/// `\\?\X:` and two for `X:`; none otherwise.
pub open spec fn prefix_len(s: Seq<char>, sx: Syntax) -> int {
    if sx != Syntax::Windows {
        0
    } else if is_verbatim_drive(s) {
        6
    } else if s.len() >= 2 && is_drive_letter(s[0]) && s[1] == ':' {
        2
    } else {
        0
    }
}

/// Whether a component is a drive prefix, and nothing more.
pub open spec fn is_prefix(c: Seq<char>, sx: Syntax) -> bool {
    c.len() > 0 && prefix_len(c, sx) == c.len()
}

/// The drive prefix of `s`, as a component, if it has one.
pub open spec fn prefix_part(s: Seq<char>, sx: Syntax) -> Seq<Seq<char>> {
    if prefix_len(s, sx) > 0 {
        seq![s.subrange(0, prefix_len(s, sx))]
    } else {
        Seq::<Seq<char>>::empty()
    }
}

/// What follows the drive prefix.
pub open spec fn after_prefix(s: Seq<char>, sx: Syntax) -> Seq<char> {
    s.subrange(prefix_len(s, sx), s.len() as int)
}

/// The root (`/`) or current-directory (`.`) component a path, read after
/// its prefix, begins with, if any.
pub open spec fn head_of(s: Seq<char>, sx: Syntax) -> Seq<Seq<char>> {
    if s.len() > 0 && is_sep_in(sx, s[0]) {
        seq![seq!['/']]
    } else if split_seps(s, sx)[0] == seq!['.'] {
        seq![seq!['.']]
    } else {
        Seq::<Seq<char>>::empty()
    }
}

/// The components of a path read after its prefix.
pub open spec fn rest_components(s: Seq<char>, sx: Syntax) -> Seq<Seq<char>> {
    head_of(s, sx) + kept(split_seps(s, sx))
}

/// The components of a path. The drive prefix is its own text, the root is
/// `/` whichever separator spelled it, the current directory is `.`, the
/// parent `..`, and every other component is its own name.
pub open spec fn components(s: Seq<char>, sx: Syntax) -> Seq<Seq<char>> {
    prefix_part(s, sx) + rest_components(after_prefix(s, sx), sx)
}

/// Whether a component is a name someone chose: not a drive, the root, `.` or
/// `..`.
pub open spec fn is_named(c: Seq<char>, sx: Syntax) -> bool {
    c != seq!['/'] && c != seq!['.'] && c != seq!['.', '.'] && !is_prefix(c, sx)
}

/// How many named components a sequence of components holds.
pub open spec fn named_count(cs: Seq<Seq<char>>, sx: Syntax) -> nat
    decreases cs.len(),
{
    if cs.len() == 0 {
        0
    } else {
        named_count(cs.drop_last(), sx) + if is_named(cs.last(), sx) { 1nat } else { 0nat }
    }
}

/// Whether `base`'s components are the first components of `path`.
pub open spec fn spec_starts_with(path: Seq<char>, base: Seq<char>, sx: Syntax) -> bool {
    let p = components(path, sx);
    let b = components(base, sx);
    b.len() <= p.len() && p.subrange(0, b.len() as int) == b
}

/// A path that names another machine: two separators first, in either
/// direction, unless it is the verbatim spelling of a local drive.
pub open spec fn is_remote(s: Seq<char>) -> bool {
    s.len() >= 2 && is_sep(s[0]) && is_sep(s[1]) && !is_verbatim_drive(s)
}

/// The separator a path is written with: `\` when it holds one, `/` otherwise.
pub open spec fn style_sep(s: Seq<char>) -> char {
    if s.contains('\\') {
        '\\'
    } else {
        '/'
    }
}

} // verus!

verus! {

fn is_dot_piece(piece: &Vec<char>) -> (r: bool)
    ensures
        r == (piece@ == seq!['.']),
{
    if piece.len() == 1 && piece[0] == '.' {
        assert(piece@ =~= seq!['.']);
        true
    } else {
        false
    }
}

/// The components of a path read after its prefix, as [`rest_components`]
/// defines them.
fn rest_components_of(cs: &Vec<char>, sx: Syntax) -> (out: Vec<Vec<char>>)
    ensures
        texts(out@) == rest_components(cs@, sx),
{
    let n = cs.len();
    let mut done: Vec<Vec<char>> = Vec::new();
    let mut cur: Vec<char> = Vec::new();
    let mut pieces: usize = 0;
    let mut first_dot = false;
    let ghost mut raw: Seq<Seq<char>> = Seq::empty();
    let mut i: usize = 0;
    assert(cs@.subrange(0, 0) =~= Seq::<char>::empty());
    assert(split_seps(Seq::<char>::empty(), sx) =~= raw.push(cur@));
    while i < n
        invariant
            n == cs@.len(),
            i <= n,
            pieces == raw.len(),
            pieces <= i,
            split_seps(cs@.subrange(0, i as int), sx) == raw.push(cur@),
            texts(done@) == kept(raw),
            pieces > 0 ==> first_dot == (raw[0] == seq!['.']),
        decreases n - i,
    {
        let c = cs[i];
        assert(cs@.subrange(0, i + 1).drop_last() =~= cs@.subrange(0, i as int));
        assert(cs@.subrange(0, i + 1).last() == c);
        if is_sep_char_in(c, sx) {
            let ghost piece = cur@;
            let dot = is_dot_piece(&cur);
            if pieces == 0 {
                first_dot = dot;
            }
            let keep = cur.len() > 0 && !dot;
            let ghost before = texts(done@);
            if keep {
                done.push(cur);
                assert(texts(done@) =~= before.push(piece));
            }
            proof {
                assert(raw.push(piece).drop_last() =~= raw);
                raw = raw.push(piece);
            }
            cur = Vec::new();
            pieces = pieces + 1;
            assert(split_seps(cs@.subrange(0, i + 1), sx) =~= raw.push(cur@));
        } else {
            let ghost before = cur@;
            cur.push(c);
            assert(split_seps(cs@.subrange(0, i + 1), sx) =~= raw.push(cur@));
        }
        i = i + 1;
    }
    assert(cs@.subrange(0, n as int) =~= cs@);
    let ghost all = raw.push(cur@);
    let last_dot = is_dot_piece(&cur);
    let keep_last = cur.len() > 0 && !last_dot;
    let ghost before = texts(done@);
    assert(all.drop_last() =~= raw);
    if keep_last {
        done.push(cur);
        assert(texts(done@) =~= before.push(all.last()));
    }
    assert(texts(done@) == kept(all));
    let lead_dot = if pieces == 0 { last_dot } else { first_dot };
    let mut out: Vec<Vec<char>> = Vec::new();
    if n > 0 && is_sep_char_in(cs[0], sx) {
        let mut root: Vec<char> = Vec::new();
        root.push('/');
        assert(root@ =~= seq!['/']);
        out.push(root);
    } else if lead_dot {
        let mut dot: Vec<char> = Vec::new();
        dot.push('.');
        assert(dot@ =~= seq!['.']);
        out.push(dot);
    }
    assert(split_seps(cs@, sx)[0] == all[0]);
    let ghost h = texts(out@);
    assert(h =~= head_of(cs@, sx));
    let ghost tail = done@;
    out.append(&mut done);
    assert(texts(out@) =~= h + texts(tail));
    out
}

fn is_drive_char(c: char) -> (r: bool)
    ensures
        r == is_drive_letter(c),
{
    ('a' <= c && c <= 'z') || ('A' <= c && c <= 'Z')
}

pub(crate) fn is_windows(sx: Syntax) -> (r: bool)
    ensures
        r == (sx == Syntax::Windows),
{
    match sx {
        Syntax::Windows => true,
        Syntax::Posix => false,
    }
}

/// [`main_sep`], executable.
pub fn main_sep_of(sx: Syntax) -> (r: char)
    ensures
        r == main_sep(sx),
{
    if is_windows(sx) {
        '\\'
    } else {
        '/'
    }
}

/// [`prefix_len`], executable.
pub(crate) fn prefix_length(cs: &Vec<char>, sx: Syntax) -> (r: usize)
    ensures
        r as int == prefix_len(cs@, sx),
        r <= cs.len(),
{
    let n = cs.len();
    if !is_windows(sx) {
        0
    } else if n >= 6 && cs[0] == '\\' && cs[1] == '\\' && cs[2] == '?' && cs[3] == '\\' && is_drive_char(cs[4])
        && cs[5] == ':' {
        6
    } else if n >= 2 && is_drive_char(cs[0]) && cs[1] == ':' {
        assert(!is_verbatim_drive(cs@));
        2
    } else {
        0
    }
}

/// The characters of `cs` from `from` to `to`.
fn slice_chars(cs: &Vec<char>, from: usize, to: usize) -> (r: Vec<char>)
    requires
        from <= to <= cs.len(),
    ensures
        r@ == cs@.subrange(from as int, to as int),
{
    let mut r: Vec<char> = Vec::new();
    let mut i = from;
    while i < to
        invariant
            from <= i <= to <= cs.len(),
            r@ == cs@.subrange(from as int, i as int),
        decreases to - i,
    {
        r.push(cs[i]);
        i = i + 1;
    }
    r
}

/// The components of `path`, as [`components`] defines them.
pub fn components_of(path: &str, sx: Syntax) -> (out: Vec<Vec<char>>)
    ensures
        texts(out@) == components(path@, sx),
{
    let cs = chars_of(path);
    let p = prefix_length(&cs, sx);
    let rest = slice_chars(&cs, p, cs.len());
    let mut tail = rest_components_of(&rest, sx);
    let mut out: Vec<Vec<char>> = Vec::new();
    if p > 0 {
        let pre = slice_chars(&cs, 0, p);
        out.push(pre);
    }
    let ghost head = texts(out@);
    assert(head =~= prefix_part(path@, sx));
    let ghost t = tail@;
    out.append(&mut tail);
    assert(texts(out@) =~= head + texts(t));
    out
}

} // verus!

verus! {

/// What is said when a network path is refused.
pub const NETWORK_PATH: &'static str = "that is a network path, and only files on this computer can be used";

/// Whether `base`'s components are the first components of `path` — `Path::starts_with`.
pub fn starts_with(path: &str, base: &str, sx: Syntax) -> (r: bool)
    ensures
        r == spec_starts_with(path@, base@, sx),
{
    let p = components_of(path, sx);
    let b = components_of(base, sx);
    if b.len() > p.len() {
        return false;
    }
    let mut i: usize = 0;
    while i < b.len()
        invariant
            b.len() <= p.len(),
            i <= b.len(),
            texts(p@) == components(path@, sx),
            texts(b@) == components(base@, sx),
            forall|k: int| 0 <= k < i ==> texts(p@)[k] == texts(b@)[k],
        decreases b.len() - i,
    {
        if !same_chars(&p[i], &b[i]) {
            assert(texts(p@)[i as int] == p@[i as int]@);
            assert(texts(b@)[i as int] == b@[i as int]@);
            assert(texts(p@).subrange(0, b.len() as int)[i as int] != texts(b@)[i as int]);
            assert(texts(p@).subrange(0, b.len() as int) != texts(b@));
            assert(!spec_starts_with(path@, base@, sx));
            return false;
        }
        i = i + 1;
    }
    assert(texts(p@).subrange(0, b.len() as int) =~= texts(b@));
    true
}

fn is_named_piece(c: &Vec<char>, sx: Syntax) -> (r: bool)
    ensures
        r == is_named(c@, sx),
{
    if c.len() > 0 && prefix_length(c, sx) == c.len() {
        false
    } else if c.len() == 1 && (c[0] == '/' || c[0] == '.') {
        if c[0] == '/' {
            assert(c@ =~= seq!['/']);
        } else {
            assert(c@ =~= seq!['.']);
        }
        false
    } else if c.len() == 2 && c[0] == '.' && c[1] == '.' {
        assert(c@ =~= seq!['.', '.']);
        false
    } else {
        assert(c@ != seq!['/']);
        assert(c@ != seq!['.']);
        assert(c@ != seq!['.', '.']);
        true
    }
}

/// How many named components `path` has.
pub fn named_depth(path: &str, sx: Syntax) -> (r: usize)
    ensures
        r == named_count(components(path@, sx), sx),
{
    let cs = components_of(path, sx);
    let mut count: usize = 0;
    let mut i: usize = 0;
    while i < cs.len()
        invariant
            i <= cs.len(),
            count <= i,
            count == named_count(texts(cs@).subrange(0, i as int), sx),
        decreases cs.len() - i,
    {
        assert(texts(cs@).subrange(0, i + 1).drop_last() =~= texts(cs@).subrange(0, i as int));
        if is_named_piece(&cs[i], sx) {
            count = count + 1;
        }
        i = i + 1;
    }
    assert(texts(cs@).subrange(0, cs.len() as int) =~= texts(cs@));
    count
}

/// Could this plausibly be a folder somebody keeps samples in? At least two
/// named components: a drive, a root or a profile folder is not.
pub fn is_plausible_library(path: &str, sx: Syntax) -> (r: bool)
    ensures
        r == (named_count(components(path@, sx), sx) >= 2),
{
    named_depth(path, sx) >= 2
}

pub(crate) fn is_sep_char(c: char) -> (r: bool)
    ensures
        r == is_sep(c),
{
    c == '/' || c == '\\'
}

/// [`is_sep_in`], executable.
pub(crate) fn is_sep_char_in(c: char, sx: Syntax) -> (r: bool)
    ensures
        r == is_sep_in(sx, c),
{
    c == '/' || (is_windows(sx) && c == '\\')
}

/// Refuse a path that names another machine, before anything touches it.
pub fn refuse_remote(path: &str) -> (r: Result<(), String>)
    ensures
        r is Err <==> is_remote(path@),
        r matches Err(e) ==> e@ == NETWORK_PATH@,
{
    let cs = chars_of(path);
    let n = cs.len();
    if n >= 2 && is_sep_char(cs[0]) && is_sep_char(cs[1]) {
        let verbatim = n >= 6 && cs[0] == '\\' && cs[1] == '\\' && cs[2] == '?' && cs[3] == '\\'
            && (('a' <= cs[4] && cs[4] <= 'z') || ('A' <= cs[4] && cs[4] <= 'Z')) && cs[5] == ':';
        if !verbatim {
            return Err(NETWORK_PATH.to_string());
        }
    }
    Ok(())
}

} // verus!

verus! {

/// The last component, when it is a name: `Path::file_name`.
pub open spec fn spec_file_name(s: Seq<char>, sx: Syntax) -> Option<Seq<char>> {
    let c = components(s, sx);
    if c.len() > 0 && is_named(c.last(), sx) {
        Some(c.last())
    } else {
        None
    }
}

/// The index of the last `.` in `name`, or -1 when there is none.
pub open spec fn last_dot(name: Seq<char>) -> int
    decreases name.len(),
{
    if name.len() == 0 {
        -1
    } else if name.last() == '.' {
        name.len() - 1
    } else {
        last_dot(name.drop_last())
    }
}

/// What follows the last `.` of the file name, unless that dot is its first
/// character: `Path::extension`.
pub open spec fn spec_extension(s: Seq<char>, sx: Syntax) -> Option<Seq<char>> {
    match spec_file_name(s, sx) {
        Some(name) => if last_dot(name) > 0 {
            Some(name.subrange(last_dot(name) + 1, name.len() as int))
        } else {
            None
        },
        None => None,
    }
}

pub proof fn lemma_last_dot_bounds(name: Seq<char>)
    ensures
        -1 <= last_dot(name) < name.len(),
        last_dot(name) >= 0 ==> name[last_dot(name)] == '.',
        forall|k: int| last_dot(name) < k < name.len() ==> name[k] != '.',
    decreases name.len(),
{
    if name.len() > 0 && name.last() != '.' {
        lemma_last_dot_bounds(name.drop_last());
        assert forall|k: int| last_dot(name) < k < name.len() implies name[k] != '.' by {
            if k < name.len() - 1 {
                assert(name.drop_last()[k] == name[k]);
            }
        }
    }
}

/// The file name of `path`, if it has one.
pub fn file_name_of(path: &str, sx: Syntax) -> (r: Option<Vec<char>>)
    ensures
        match r {
            Some(v) => spec_file_name(path@, sx) == Some(v@),
            None => spec_file_name(path@, sx) is None,
        },
{
    let mut cs = components_of(path, sx);
    if cs.len() == 0 {
        return None;
    }
    let ghost all = texts(cs@);
    let last = cs.pop().unwrap();
    assert(last@ == all.last());
    if is_named_piece(&last, sx) {
        Some(last)
    } else {
        None
    }
}

/// The index of the last `.` in `name`, if there is one.
pub fn find_last_dot(name: &Vec<char>) -> (r: Option<usize>)
    ensures
        match r {
            Some(i) => last_dot(name@) == i as int,
            None => last_dot(name@) == -1,
        },
{
    let mut i: usize = name.len();
    assert(name@.subrange(0, i as int) =~= name@);
    while i > 0
        invariant
            i <= name.len(),
            last_dot(name@) == last_dot(name@.subrange(0, i as int)),
        decreases i,
    {
        assert(name@.subrange(0, i as int).drop_last() =~= name@.subrange(0, i - 1));
        if name[i - 1] == '.' {
            return Some(i - 1);
        }
        i = i - 1;
    }
    None
}

/// The extension of `path`, if it has one.
pub fn extension_of(path: &str, sx: Syntax) -> (r: Option<Vec<char>>)
    ensures
        match r {
            Some(v) => spec_extension(path@, sx) == Some(v@),
            None => spec_extension(path@, sx) is None,
        },
{
    match file_name_of(path, sx) {
        None => None,
        Some(name) => match find_last_dot(&name) {
            Some(d) if d > 0 => {
                proof {
                    lemma_last_dot_bounds(name@);
                }
                let mut out: Vec<char> = Vec::new();
                let mut i = d + 1;
                while i < name.len()
                    invariant
                        d + 1 <= i <= name.len(),
                        out@ == name@.subrange(d + 1, i as int),
                    decreases name.len() - i,
                {
                    out.push(name[i]);
                    i = i + 1;
                }
                Some(out)
            },
            _ => None,
        },
    }
}

/// The two kinds of file the library lists and the loader reads.
#[derive(Clone, Copy, Debug, PartialEq, Eq)]
pub enum Kind {
    Audio,
    Midi,
}

impl Kind {
    /// How the page names this kind.
    pub fn label(&self) -> (r: &'static str)
        ensures
            r@ == kind_label(*self),
    {
        proof {
            reveal_strlit("audio");
            reveal_strlit("midi");
        }
        match self {
            Kind::Audio => {
                assert("audio"@ =~= kind_label(Kind::Audio));
                "audio"
            },
            Kind::Midi => {
                assert("midi"@ =~= kind_label(Kind::Midi));
                "midi"
            },
        }
    }
}

/// `"audio"` or `"midi"`.
pub open spec fn kind_label(k: Kind) -> Seq<char> {
    match k {
        Kind::Audio => seq!['a', 'u', 'd', 'i', 'o'],
        Kind::Midi => seq!['m', 'i', 'd', 'i'],
    }
}

/// The audio extensions the decoder reads, compared without regard to ASCII case.
pub open spec fn is_audio_extension(e: Seq<char>) -> bool {
    ||| eq_ignore_ascii_case(e, seq!['w', 'a', 'v'])
    ||| eq_ignore_ascii_case(e, seq!['a', 'i', 'f'])
    ||| eq_ignore_ascii_case(e, seq!['a', 'i', 'f', 'f'])
    ||| eq_ignore_ascii_case(e, seq!['f', 'l', 'a', 'c'])
    ||| eq_ignore_ascii_case(e, seq!['m', 'p', '3'])
    ||| eq_ignore_ascii_case(e, seq!['o', 'g', 'g'])
}

/// The MIDI extensions, compared without regard to ASCII case.
pub open spec fn is_midi_extension(e: Seq<char>) -> bool {
    ||| eq_ignore_ascii_case(e, seq!['m', 'i', 'd'])
    ||| eq_ignore_ascii_case(e, seq!['m', 'i', 'd', 'i'])
}

/// Which kind a path is, by its extension.
pub open spec fn spec_kind_of(s: Seq<char>, sx: Syntax) -> Option<Kind> {
    match spec_extension(s, sx) {
        Some(e) => if is_audio_extension(e) {
            Some(Kind::Audio)
        } else if is_midi_extension(e) {
            Some(Kind::Midi)
        } else {
            None
        },
        None => None,
    }
}

fn word(w: &str) -> (v: Vec<char>)
    ensures
        v@ == w@,
{
    chars_of(w)
}

/// Whether `e` is one of the audio extensions.
pub fn audio_extension(e: &Vec<char>) -> (r: bool)
    ensures
        r == is_audio_extension(e@),
{
    proof {
        reveal_strlit("wav");
        reveal_strlit("aif");
        reveal_strlit("aiff");
        reveal_strlit("flac");
        reveal_strlit("mp3");
        reveal_strlit("ogg");
    }
    let a = same_ignoring_ascii_case(e, &word("wav"));
    let b = same_ignoring_ascii_case(e, &word("aif"));
    let c = same_ignoring_ascii_case(e, &word("aiff"));
    let d = same_ignoring_ascii_case(e, &word("flac"));
    let f = same_ignoring_ascii_case(e, &word("mp3"));
    let g = same_ignoring_ascii_case(e, &word("ogg"));
    assert("wav"@ =~= seq!['w', 'a', 'v']);
    assert("aif"@ =~= seq!['a', 'i', 'f']);
    assert("aiff"@ =~= seq!['a', 'i', 'f', 'f']);
    assert("flac"@ =~= seq!['f', 'l', 'a', 'c']);
    assert("mp3"@ =~= seq!['m', 'p', '3']);
    assert("ogg"@ =~= seq!['o', 'g', 'g']);
    a || b || c || d || f || g
}

/// Whether `e` is one of the MIDI extensions.
pub fn midi_extension(e: &Vec<char>) -> (r: bool)
    ensures
        r == is_midi_extension(e@),
{
    proof {
        reveal_strlit("mid");
        reveal_strlit("midi");
    }
    let a = same_ignoring_ascii_case(e, &word("mid"));
    let b = same_ignoring_ascii_case(e, &word("midi"));
    assert("mid"@ =~= seq!['m', 'i', 'd']);
    assert("midi"@ =~= seq!['m', 'i', 'd', 'i']);
    a || b
}

/// Which kind of file `path` is, by its extension, if it is one the plugin uses.
pub fn kind_of(path: &str, sx: Syntax) -> (r: Option<Kind>)
    ensures
        r == spec_kind_of(path@, sx),
{
    match extension_of(path, sx) {
        None => None,
        Some(e) => if audio_extension(&e) {
            Some(Kind::Audio)
        } else if midi_extension(&e) {
            Some(Kind::Midi)
        } else {
            None
        },
    }
}

/// Does this name end in an extension the decoder reads?
pub fn is_audio(path: &str, sx: Syntax) -> (r: bool)
    ensures
        r == (spec_kind_of(path@, sx) == Some(Kind::Audio)),
{
    match kind_of(path, sx) {
        Some(Kind::Audio) => true,
        _ => false,
    }
}

} // verus!

verus! {

/// Whether two paths have the same components — how `Path` compares them.
pub fn same_path(a: &str, b: &str, sx: Syntax) -> (r: bool)
    ensures
        r == (components(a@, sx) == components(b@, sx)),
{
    let x = starts_with(a, b, sx);
    let y = starts_with(b, a, sx);
    if x && y {
        assert(components(a@, sx) =~= components(b@, sx));
    }
    proof {
        if components(a@, sx) == components(b@, sx) {
            assert(components(a@, sx).subrange(0, components(a@, sx).len() as int) =~= components(a@, sx));
        }
    }
    x && y
}

/// Is `path` the same folder as `root`, or inside it? Each is compared in its
/// resolved form when both resolved, and as written otherwise.
pub open spec fn spec_same_or_inside(
    root: Seq<char>,
    root_real: Option<Seq<char>>,
    path: Seq<char>,
    path_real: Option<Seq<char>>,
    sx: Syntax,
) -> bool {
    match (root_real, path_real) {
        (Some(r), Some(p)) => spec_starts_with(p, r, sx),
        _ => spec_starts_with(path, root, sx),
    }
}

/// [`spec_same_or_inside`], executable.
pub fn same_or_inside(
    root: &str,
    root_real: &Option<String>,
    path: &str,
    path_real: &Option<String>,
    sx: Syntax,
) -> (r: bool)
    ensures
        r == spec_same_or_inside(root@, opt_text(*root_real), path@, opt_text(*path_real), sx),
{
    match (root_real, path_real) {
        (Some(r), Some(p)) => starts_with(p.as_str(), r.as_str(), sx),
        _ => starts_with(path, root, sx),
    }
}

} // verus!

verus! {

/// `dir` with the relative name `name` pushed onto it: the platform's
/// separator goes between them unless `dir` is empty, already ends with a
/// separator, or is a bare drive (`C:`).
pub open spec fn joined(dir: Seq<char>, name: Seq<char>, sx: Syntax) -> Seq<char> {
    if dir.len() == 0 || is_sep_in(sx, dir.last()) || (dir.len() == 2 && prefix_len(dir, sx) == 2) {
        dir + name
    } else {
        dir + seq![main_sep(sx)] + name
    }
}

/// [`style_sep`], executable.
pub fn style_sep_of(cs: &Vec<char>) -> (r: char)
    ensures
        r == style_sep(cs@),
{
    let mut i: usize = 0;
    while i < cs.len()
        invariant
            i <= cs.len(),
            forall|k: int| 0 <= k < i ==> cs@[k] != '\\',
        decreases cs.len() - i,
    {
        if cs[i] == '\\' {
            assert(cs@.contains('\\'));
            return '\\';
        }
        i = i + 1;
    }
    assert(!cs@.contains('\\'));
    '/'
}

/// [`joined`], executable: `Path::join` of a relative name.
pub fn join_name(dir: &str, name: &str, sx: Syntax) -> (r: String)
    ensures
        r@ == joined(dir@, name@, sx),
{
    let mut out = chars_of(dir);
    let n = chars_of(name);
    let bare_drive = out.len() == 2 && prefix_length(&out, sx) == 2;
    if !(out.len() == 0 || is_sep_char_in(out[out.len() - 1], sx) || bare_drive) {
        out.push(main_sep_of(sx));
    }
    let ghost head = out@;
    let mut i: usize = 0;
    while i < n.len()
        invariant
            i <= n.len(),
            out@ == head + n@.subrange(0, i as int),
        decreases n.len() - i,
    {
        out.push(n[i]);
        i = i + 1;
    }
    assert(n@.subrange(0, i as int) =~= n@);
    assert(out@ =~= joined(dir@, name@, sx));
    crate::text::string_of(&out)
}

} // verus!
