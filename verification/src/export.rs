//! Getting a song out as files: the name a saved file ends up with, the names
//! a batch of stems is given, how patterns are carved into stems, and the
//! one-slot mailbox that says how an export ended.

use vstd::prelude::*;
use crate::text::{chars_of, eq_ignore_ascii_case, same_ignoring_ascii_case, string_of, strs};
use crate::paths::{is_prefix, is_sep_in, is_sep_char_in, last_dot, prefix_length, Syntax};
use crate::names::{sanitize, sanitized};

verus! {

// ---------------------------------------------------------------- with_extension

/// `s` without the separators (`/` or `\`) and lone `.` components that end it: what is
/// left ends with the last component.
pub open spec fn without_tail(s: Seq<char>, sx: Syntax) -> Seq<char>
    decreases s.len(),
{
    if s.len() > 0 && is_sep_in(sx, s.last()) {
        without_tail(s.drop_last(), sx)
    } else if s.len() >= 2 && s.last() == '.' && is_sep_in(sx, s[s.len() - 2]) {
        without_tail(s.drop_last(), sx)
    } else {
        s
    }
}

/// The index of the last separator in `s`, or -1 when there is none.
pub open spec fn last_sep(s: Seq<char>, sx: Syntax) -> int
    decreases s.len(),
{
    if s.len() == 0 {
        -1
    } else if is_sep_in(sx, s.last()) {
        s.len() - 1
    } else {
        last_sep(s.drop_last(), sx)
    }
}

/// The text of the last component of `s`.
pub open spec fn last_piece(s: Seq<char>, sx: Syntax) -> Seq<char> {
    let t = without_tail(s, sx);
    t.subrange(last_sep(t, sx) + 1, t.len() as int)
}

/// Whether the last component is a file name: not empty, `.`, `..` or a
/// bare drive.
pub open spec fn names_a_file(s: Seq<char>, sx: Syntax) -> bool {
    let n = last_piece(s, sx);
    n.len() > 0 && n != seq!['.'] && n != seq!['.', '.'] && !is_prefix(n, sx)
}

/// How much of the file name is its stem: all of it, unless a `.` after its
/// first character starts an extension.
pub open spec fn stem_len(name: Seq<char>) -> int {
    if last_dot(name) > 0 {
        last_dot(name)
    } else {
        name.len() as int
    }
}

/// Whether the file name already ends in `.mid`, in any case.
pub open spec fn has_mid_extension(s: Seq<char>, sx: Syntax) -> bool {
    let n = last_piece(s, sx);
    last_dot(n) > 0 && eq_ignore_ascii_case(n.subrange(last_dot(n) + 1, n.len() as int), seq!['m', 'i', 'd'])
}

/// The path of a saved MIDI file: unchanged when it names no file or already
/// ends in `.mid`; otherwise everything up to the end of the file stem, then
/// `.mid` (so an unrelated extension is replaced rather than kept).
pub open spec fn mid_path(s: Seq<char>, sx: Syntax) -> Seq<char> {
    if !names_a_file(s, sx) || has_mid_extension(s, sx) {
        s
    } else {
        let t = without_tail(s, sx);
        t.subrange(0, last_sep(t, sx) + 1 + stem_len(last_piece(s, sx))) + seq!['.', 'm', 'i', 'd']
    }
}

proof fn lemma_last_sep_bounds(s: Seq<char>, sx: Syntax)
    ensures
        -1 <= last_sep(s, sx) < s.len(),
    decreases s.len(),
{
    if s.len() > 0 && !is_sep_in(sx, s.last()) {
        lemma_last_sep_bounds(s.drop_last(), sx);
    }
}

proof fn lemma_without_tail_prefix(s: Seq<char>, sx: Syntax)
    ensures
        without_tail(s, sx).len() <= s.len(),
        without_tail(s, sx) == s.subrange(0, without_tail(s, sx).len() as int),
    decreases s.len(),
{
    if s.len() > 0 && is_sep_in(sx, s.last()) {
        lemma_without_tail_prefix(s.drop_last(), sx);
        assert(s.drop_last().subrange(0, without_tail(s, sx).len() as int) =~= s.subrange(0, without_tail(s, sx).len() as int));
    } else if s.len() >= 2 && s.last() == '.' && is_sep_in(sx, s[s.len() - 2]) {
        lemma_without_tail_prefix(s.drop_last(), sx);
        assert(s.drop_last().subrange(0, without_tail(s, sx).len() as int) =~= s.subrange(0, without_tail(s, sx).len() as int));
    } else {
        assert(s.subrange(0, s.len() as int) =~= s);
    }
}

/// How long [`without_tail`] of the first `n` characters is.
fn tail_end(cs: &Vec<char>, sx: Syntax) -> (r: usize)
    ensures
        r <= cs.len(),
        without_tail(cs@, sx) == cs@.subrange(0, r as int),
{
    let mut n: usize = cs.len();
    assert(cs@.subrange(0, n as int) =~= cs@);
    loop
        invariant
            n <= cs.len(),
            without_tail(cs@, sx) == without_tail(cs@.subrange(0, n as int), sx),
        decreases n,
    {
        let ghost t = cs@.subrange(0, n as int);
        if n > 0 && is_sep_char_in(cs[n - 1], sx) {
            assert(t.drop_last() =~= cs@.subrange(0, n - 1));
            n = n - 1;
        } else if n >= 2 && cs[n - 1] == '.' && is_sep_char_in(cs[n - 2], sx) {
            assert(t.drop_last() =~= cs@.subrange(0, n - 1));
            n = n - 1;
        } else {
            return n;
        }
    }
}

/// The index just after the last separator among the first `n` characters.
fn piece_start(cs: &Vec<char>, n: usize, sx: Syntax) -> (r: usize)
    requires
        n <= cs.len(),
    ensures
        r <= n,
        r as int == last_sep(cs@.subrange(0, n as int), sx) + 1,
{
    let mut i: usize = n;
    while i > 0
        invariant
            i <= n <= cs.len(),
            last_sep(cs@.subrange(0, n as int), sx) == last_sep(cs@.subrange(0, i as int), sx),
        decreases i,
    {
        assert(cs@.subrange(0, i as int).drop_last() =~= cs@.subrange(0, i - 1));
        if is_sep_char_in(cs[i - 1], sx) {
            return i;
        }
        i = i - 1;
    }
    i
}

/// Makes sure a saved file really is a `.mid`: the extension is added only
/// when missing, kept in whatever case it was typed, and replaces any other.
pub fn with_extension(path: &str, sx: Syntax) -> (r: String)
    ensures
        r@ == mid_path(path@, sx),
{
    let cs = chars_of(path);
    let n = tail_end(&cs, sx);
    let start = piece_start(&cs, n, sx);
    let ghost t = cs@.subrange(0, n as int);
    proof {
        assert(t.subrange(0, n as int) =~= t);
    }
    let mut name: Vec<char> = Vec::new();
    let mut i = start;
    while i < n
        invariant
            start <= i <= n <= cs.len(),
            name@ == cs@.subrange(start as int, i as int),
        decreases n - i,
    {
        name.push(cs[i]);
        i = i + 1;
    }
    assert(name@ =~= last_piece(path@, sx));
    let is_file = name.len() > 0 && !(name.len() == 1 && name[0] == '.')
        && !(name.len() == 2 && name[0] == '.' && name[1] == '.') && prefix_length(&name, sx) != name.len();
    assert(is_file == names_a_file(path@, sx)) by {
        if name.len() == 1 && name@[0] == '.' {
            assert(name@ =~= seq!['.']);
        }
        if name.len() == 2 && name@[0] == '.' && name@[1] == '.' {
            assert(name@ =~= seq!['.', '.']);
        }
    }
    if !is_file {
        return path.to_string();
    }
    let dot = crate::paths::find_last_dot(&name);
    let mut stem = name.len();
    match dot {
        Some(d) if d > 0 => {
            proof {
                crate::paths::lemma_last_dot_bounds(name@);
            }
            let mut ext: Vec<char> = Vec::new();
            let mut k = d + 1;
            while k < name.len()
                invariant
                    d + 1 <= k <= name.len(),
                    ext@ == name@.subrange(d + 1, k as int),
                decreases name.len() - k,
            {
                ext.push(name[k]);
                k = k + 1;
            }
            let mid = vec!['m', 'i', 'd'];
            assert(mid@ =~= seq!['m', 'i', 'd']);
            if same_ignoring_ascii_case(&ext, &mid) {
                return path.to_string();
            }
            stem = d;
        },
        _ => {},
    }
    assert(!has_mid_extension(path@, sx));
    assert(stem as int == stem_len(name@));
    let mut out: Vec<char> = Vec::new();
    let end = start + stem;
    let mut j: usize = 0;
    while j < end
        invariant
            j <= end <= n <= cs.len(),
            out@ == cs@.subrange(0, j as int),
        decreases end - j,
    {
        out.push(cs[j]);
        j = j + 1;
    }
    out.push('.');
    out.push('m');
    out.push('i');
    out.push('d');
    assert(out@ =~= t.subrange(0, last_sep(t, sx) + 1 + stem_len(name@)) + seq!['.', 'm', 'i', 'd']);
    string_of(&out)
}

} // verus!

verus! {

// ---------------------------------------------------------------- distinct

/// The character for a decimal digit.
pub open spec fn digit_char(d: int) -> char {
    if d == 0 { '0' }
    else if d == 1 { '1' }
    else if d == 2 { '2' }
    else if d == 3 { '3' }
    else if d == 4 { '4' }
    else if d == 5 { '5' }
    else if d == 6 { '6' }
    else if d == 7 { '7' }
    else if d == 8 { '8' }
    else { '9' }
}

/// `n` written in decimal, without leading zeros.
pub open spec fn decimal(n: nat) -> Seq<char>
    decreases n,
{
    if n < 10 {
        seq![digit_char(n as int)]
    } else {
        decimal(n / 10).push(digit_char((n % 10) as int))
    }
}

/// `name (n)`: the `n`th file of a batch that wanted the same name.
pub open spec fn numbered(name: Seq<char>, n: nat) -> Seq<char> {
    name + seq![' ', '('] + decimal(n) + seq![')']
}

/// Whether `n` is the first number from 2 on whose `name (n)` is not taken.
pub open spec fn first_free(taken: Seq<Seq<char>>, name: Seq<char>, n: nat) -> bool {
    &&& n >= 2
    &&& !taken.contains(numbered(name, n))
    &&& forall|k: nat| 2 <= k < n ==> taken.contains(#[trigger] numbered(name, k))
}

/// The name a file gets in a batch that has already used `taken`: `name`
/// itself if it is free, else `name (n)` for the first free `n` from 2 on.
pub open spec fn distinct_name(taken: Seq<Seq<char>>, name: Seq<char>) -> Seq<char> {
    if !taken.contains(name) {
        name
    } else {
        numbered(name, choose|n: nat| first_free(taken, name, n))
    }
}

proof fn lemma_digit_injective(a: int, b: int)
    requires
        0 <= a < 10,
        0 <= b < 10,
        digit_char(a) == digit_char(b),
    ensures
        a == b,
{
}

proof fn lemma_decimal_nonempty(n: nat)
    ensures
        decimal(n).len() >= 1,
        n >= 10 ==> decimal(n).len() >= 2,
    decreases n,
{
    if n >= 10 {
        lemma_decimal_nonempty(n / 10);
    }
}

/// Different numbers are written differently.
pub proof fn lemma_decimal_injective(a: nat, b: nat)
    requires
        decimal(a) == decimal(b),
    ensures
        a == b,
    decreases a,
{
    lemma_decimal_nonempty(a);
    lemma_decimal_nonempty(b);
    if a < 10 && b < 10 {
        assert(decimal(a) == seq![digit_char(a as int)]);
        assert(decimal(b) == seq![digit_char(b as int)]);
        assert(decimal(a)[0] == decimal(b)[0]);
        assert(digit_char(a as int) == decimal(a)[0]);
        assert(digit_char(b as int) == decimal(b)[0]);
        lemma_digit_injective(a as int, b as int);
    } else if a >= 10 && b >= 10 {
        let da = decimal(a);
        let db = decimal(b);
        assert(da.last() == db.last());
        lemma_digit_injective((a % 10) as int, (b % 10) as int);
        assert(da.drop_last() =~= decimal(a / 10));
        assert(db.drop_last() =~= decimal(b / 10));
        lemma_decimal_injective(a / 10, b / 10);
    }
}

/// `name (a)` and `name (b)` are the same only for the same number, and
/// neither is `name` itself.
pub proof fn lemma_numbered_injective(name: Seq<char>, a: nat, b: nat)
    ensures
        numbered(name, a) == numbered(name, b) ==> a == b,
        numbered(name, a) != name,
{
    let x = numbered(name, a);
    let y = numbered(name, b);
    assert(x.len() == name.len() + 3 + decimal(a).len());
    if x == y {
        assert(decimal(a).len() == decimal(b).len());
        assert(x.subrange(name.len() + 2int, x.len() - 1) =~= decimal(a));
        assert(y.subrange(name.len() + 2int, y.len() - 1) =~= decimal(b));
        lemma_decimal_injective(a, b);
    }
}

/// When `name` and `name (2)` to `name (m)` are all taken, `taken` holds at
/// least `m` entries, since those `m` names are different.
proof fn lemma_taken_bounds_the_search(taken: Seq<Seq<char>>, name: Seq<char>, m: nat)
    requires
        m >= 1,
        taken.contains(name),
        forall|k: nat| 2 <= k <= m ==> taken.contains(#[trigger] numbered(name, k)),
    ensures
        m <= taken.len(),
{
    let tail = Seq::new((m - 1) as nat, |i: int| numbered(name, (i + 2) as nat));
    let s = seq![name] + tail;
    assert forall|i: int, j: int| 0 <= i < s.len() && 0 <= j < s.len() && i != j implies s[i] != s[j] by {
        if i == 0 {
            lemma_numbered_injective(name, (j + 1) as nat, (j + 1) as nat);
            assert(s[j] == numbered(name, (j + 1) as nat));
        } else if j == 0 {
            lemma_numbered_injective(name, (i + 1) as nat, (i + 1) as nat);
            assert(s[i] == numbered(name, (i + 1) as nat));
        } else {
            assert(s[i] == numbered(name, (i + 1) as nat));
            assert(s[j] == numbered(name, (j + 1) as nat));
            lemma_numbered_injective(name, (i + 1) as nat, (j + 1) as nat);
        }
    }
    assert(s.no_duplicates());
    s.unique_seq_to_set();
    assert forall|x: Seq<char>| s.to_set().contains(x) implies taken.to_set().contains(x) by {
        let i = choose|i: int| 0 <= i < s.len() && s[i] == x;
        if i > 0 {
            assert(s[i] == numbered(name, (i + 1) as nat));
        }
    }
    taken.lemma_cardinality_of_set();
    vstd::set_lib::lemma_len_subset(s.to_set(), taken.to_set());
}

/// `d` as its digit character.
fn digit_of(d: usize) -> (c: char)
    requires
        d < 10,
    ensures
        c == digit_char(d as int),
{
    if d == 0 { '0' }
    else if d == 1 { '1' }
    else if d == 2 { '2' }
    else if d == 3 { '3' }
    else if d == 4 { '4' }
    else if d == 5 { '5' }
    else if d == 6 { '6' }
    else if d == 7 { '7' }
    else if d == 8 { '8' }
    else { '9' }
}

/// Whether `v` holds the text `s`.
pub fn holds_text(v: &Vec<String>, s: &Vec<char>) -> (r: bool)
    ensures
        r == strs(v@).contains(s@),
{
    let mut i: usize = 0;
    while i < v.len()
        invariant
            i <= v.len(),
            forall|k: int| 0 <= k < i ==> strs(v@)[k] != s@,
        decreases v.len() - i,
    {
        let t = chars_of(v[i].as_str());
        if crate::text::same_chars(&t, s) {
            assert(strs(v@)[i as int] == s@);
            return true;
        }
        i = i + 1;
    }
    false
}

/// `name`, or `name (n)` if an earlier file in this batch already took it,
/// with `n` the first free number from 2 on. The answer joins `taken`.
pub fn distinct(taken: &mut Vec<String>, name: String) -> (r: String)
    requires
        old(taken).len() < usize::MAX,
    ensures
        r@ == distinct_name(strs(old(taken)@), name@),
        !strs(old(taken)@).contains(name@) ==> r@ == name@,
        strs(old(taken)@).contains(name@) ==> exists|n: nat|
            n <= old(taken).len() + 1 && #[trigger] first_free(strs(old(taken)@), name@, n) && r@ == numbered(name@, n),
        !strs(old(taken)@).contains(r@),
        strs(final(taken)@) == strs(old(taken)@).push(r@),
{
    let ghost before = strs(taken@);
    let base = chars_of(name.as_str());
    if !holds_text(taken, &base) {
        let r = name.clone();
        taken.push(name);
        assert(strs(taken@) =~= before.push(r@));
        return r;
    }
    let mut nth: usize = 2;
    loop
        invariant
            2 <= nth <= taken.len() + 1,
            taken.len() < usize::MAX,
            before == strs(taken@),
            before == strs(old(taken)@),
            base@ == name@,
            before.contains(name@),
            forall|k: nat| 2 <= k < nth ==> before.contains(#[trigger] numbered(name@, k)),
        decreases taken.len() + 1 - nth,
    {
        let mut cand = base.clone();
        cand.push(' ');
        cand.push('(');
        let digits = decimal_u64(nth as u64);
        let mut i: usize = 0;
        let ghost head = cand@;
        while i < digits.len()
            invariant
                i <= digits.len(),
                cand@ == head + digits@.subrange(0, i as int),
            decreases digits.len() - i,
        {
            cand.push(digits[i]);
            i = i + 1;
        }
        cand.push(')');
        assert(cand@ =~= numbered(name@, nth as nat));
        if !holds_text(taken, &cand) {
            let r = string_of(&cand);
            taken.push(string_of(&cand));
            assert(strs(taken@) =~= before.push(r@));
            proof {
                assert(first_free(before, name@, nth as nat));
                let m = choose|n: nat| first_free(before, name@, n);
                if m < nth {
                    assert(before.contains(numbered(name@, m)));
                } else if m > nth {
                    assert(before.contains(numbered(name@, nth as nat)));
                }
                assert(m == nth);
                assert(distinct_name(before, name@) == r@);
                assert(first_free(before, name@, nth as nat) && r@ == numbered(name@, nth as nat));
            }
            return r;
        }
        proof {
            lemma_taken_bounds_the_search(before, name@, nth as nat);
        }
        nth = nth + 1;
    }
}

} // verus!

verus! {

// ---------------------------------------------------------------- the mailbox

/// How an export ended, for the page to show.
#[derive(Clone, Debug, PartialEq, Eq)]
pub enum Status {
    /// Nothing has been exported since the page last looked.
    Idle,
    /// A dialog is open, or the bytes are being written.
    Running,
    /// Written, and where.
    Done { path: String },
    /// The producer closed the dialog: the ordinary way out, not an error.
    Cancelled,
    /// It could not be written, and why.
    Failed { reason: String },
}

/// Why a second export is refused while one is open.
pub const BUSY: &'static str = "an export is already open — finish that one first";

/// Why a song with no notes in any part writes no stems.
pub const SONG_PLAYS_NOTHING: &'static str = "this song plays nothing, so there are no stems to write";

/// Why a set of silent patterns writes no stems.
pub const PARTS_PLAY_NOTHING: &'static str = "these parts play nothing, so there are no stems to write";

/// Why audio stems are refused when the kit that plays did not load.
pub const NO_KIT: &'static str = "the preview kit did not load, so there is no audio to render";

/// One in-flight export and its outcome, held per plugin instance: one slot,
/// claimed before a dialog opens and filled with how it ended.
pub struct Exports {
    status: Status,
}

impl Exports {
    /// What the slot holds.
    pub closed spec fn slot(&self) -> Status {
        self.status
    }

    /// An empty slot.
    pub fn new() -> (r: Exports)
        ensures
            r.slot() == Status::Idle,
    {
        Exports { status: Status::Idle }
    }

    /// Reads the outcome and clears it, so a finished export is announced
    /// once. `Running` is not an outcome, so it stays.
    pub fn take_status(&mut self) -> (r: Status)
        ensures
            old(self).slot() is Running ==> r == Status::Running && final(self).slot() == Status::Running,
            !(old(self).slot() is Running) ==> r == old(self).slot() && final(self).slot() == Status::Idle,
    {
        if let Status::Running = self.status {
            return Status::Running;
        }
        let mut taken = Status::Idle;
        std::mem::swap(&mut taken, &mut self.status);
        taken
    }

    /// Takes the one slot, or says why it cannot be taken: a second export
    /// while one is running is refused rather than queued.
    pub fn claim(&mut self) -> (r: Result<(), String>)
        ensures
            old(self).slot() is Running ==> r is Err && r->Err_0@ == BUSY@ && final(self).slot() == old(self).slot(),
            !(old(self).slot() is Running) ==> r is Ok && final(self).slot() == Status::Running,
    {
        if let Status::Running = self.status {
            return Err(BUSY.to_string());
        }
        self.status = Status::Running;
        Ok(())
    }

    /// Puts how a claimed export ended back into the slot.
    pub fn publish(&mut self, outcome: Status)
        ensures
            final(self).slot() == outcome,
    {
        self.status = outcome;
    }

    /// Starts writing a song to a file the producer picks: the slot is
    /// claimed, and the answer is the name the dialog opens with.
    pub fn start_song_midi(&mut self, suggested: &str) -> (r: Result<String, String>)
        ensures
            old(self).slot() is Running ==> r is Err && r->Err_0@ == BUSY@ && final(self).slot() == old(self).slot(),
            !(old(self).slot() is Running) ==> r is Ok && r->Ok_0@ == sanitized(suggested@)
                && final(self).slot() == Status::Running,
    {
        let name = sanitize(suggested);
        match self.claim() {
            Ok(()) => Ok(name),
            Err(e) => Err(e),
        }
    }

    /// Starts writing one file per playing part of a song into a folder the
    /// producer picks. A song in which no part plays is refused before any
    /// dialog opens, and leaves the slot as it was; otherwise the slot is
    /// claimed and the answer is the name of the sub-folder the stems go in.
    pub fn start_song_stems(&mut self, playing_parts: usize, folder_name: &str) -> (r: Result<String, String>)
        ensures
            playing_parts == 0 ==> r is Err && r->Err_0@ == SONG_PLAYS_NOTHING@ && final(self).slot() == old(self).slot(),
            playing_parts > 0 && old(self).slot() is Running ==> r is Err && r->Err_0@ == BUSY@
                && final(self).slot() == old(self).slot(),
            playing_parts > 0 && !(old(self).slot() is Running) ==> r is Ok && r->Ok_0@ == sanitized(folder_name@)
                && final(self).slot() == Status::Running,
    {
        if playing_parts == 0 {
            return Err(SONG_PLAYS_NOTHING.to_string());
        }
        let stem_dir = sanitize(folder_name);
        match self.claim() {
            Ok(()) => Ok(stem_dir),
            Err(e) => Err(e),
        }
    }

    /// Starts writing the parts of the patterns on screen into a folder, as
    /// MIDI or as audio. Refused, in this order and before any dialog opens:
    /// when every pattern is silent; when audio is asked for and the kit that
    /// plays did not load; when the renderer said the patterns are too long
    /// for audio (its reason is passed on). Otherwise the slot is claimed and
    /// the answer is the name of the sub-folder the stems go in.
    pub fn start_pattern_stems(
        &mut self,
        note_counts: &Vec<usize>,
        folder_name: &str,
        audio: bool,
        kit_loaded: bool,
        too_long: Option<String>,
    ) -> (r: Result<String, String>)
        ensures
            ({
                let silent = forall|i: int| 0 <= i < note_counts.len() ==> note_counts@[i] == 0;
                let refusal = if silent {
                    Some(PARTS_PLAY_NOTHING@)
                } else if audio && !kit_loaded {
                    Some(NO_KIT@)
                } else if audio && too_long is Some {
                    Some(too_long->Some_0@)
                } else {
                    None::<Seq<char>>
                };
                &&& refusal is Some ==> r is Err && r->Err_0@ == refusal->Some_0 && final(self).slot() == old(self).slot()
                &&& refusal is None && old(self).slot() is Running ==> r is Err && r->Err_0@ == BUSY@
                    && final(self).slot() == old(self).slot()
                &&& refusal is None && !(old(self).slot() is Running) ==> r is Ok && r->Ok_0@ == sanitized(folder_name@)
                    && final(self).slot() == Status::Running
            }),
    {
        let mut i: usize = 0;
        let mut silent = true;
        while i < note_counts.len()
            invariant
                i <= note_counts.len(),
                silent == (forall|k: int| 0 <= k < i ==> note_counts@[k] == 0),
            decreases note_counts.len() - i,
        {
            if note_counts[i] != 0 {
                silent = false;
            }
            i = i + 1;
        }
        if silent {
            return Err(PARTS_PLAY_NOTHING.to_string());
        }
        if audio && !kit_loaded {
            return Err(NO_KIT.to_string());
        }
        if audio {
            if let Some(reason) = too_long {
                return Err(reason);
            }
        }
        let stem_dir = sanitize(folder_name);
        match self.claim() {
            Ok(()) => Ok(stem_dir),
            Err(e) => Err(e),
        }
    }
}

impl Default for Exports {
    fn default() -> (r: Exports)
        ensures
            r.slot() == Status::Idle,
    {
        Exports::new()
    }
}

} // verus!

verus! {

// ---------------------------------------------------------------- patterns into stems

/// One note, as the stem cut reads it.
#[derive(Clone, Copy, Debug, PartialEq, Eq)]
pub struct Note {
    pub start_tick: u32,
    pub len_ticks: u32,
    pub pitch: u8,
    pub vel: u8,
}

/// The part of the timeline a clip is trimmed to.
#[derive(Clone, Copy, Debug, PartialEq, Eq)]
pub struct Region {
    pub from_tick: u32,
    pub to_tick: u32,
}

/// One lane of a pattern, named by the engine's lane number, and its notes.
#[derive(Clone, Debug, PartialEq, Eq)]
pub struct LaneTrack {
    pub lane: u8,
    pub notes: Vec<Note>,
}

/// A pattern as the stem cut reads it: its length in bars, the ticks in one
/// bar (which the engine computes from its resolution and meter), its lanes
/// and the clip it is trimmed to.
#[derive(Clone, Debug, PartialEq, Eq)]
pub struct Pattern {
    pub bars: u16,
    pub ticks_per_bar: u32,
    pub lanes: Vec<LaneTrack>,
    pub clip_region: Option<Region>,
}

/// A pattern as a value.
pub struct PatternView {
    pub bars: u16,
    pub ticks_per_bar: u32,
    pub lanes: Seq<(u8, Seq<Note>)>,
    pub clip_region: Option<Region>,
}

impl View for LaneTrack {
    type V = (u8, Seq<Note>);

    open spec fn view(&self) -> (u8, Seq<Note>) {
        (self.lane, self.notes@)
    }
}

impl View for Pattern {
    type V = PatternView;

    open spec fn view(&self) -> PatternView {
        PatternView {
            bars: self.bars,
            ticks_per_bar: self.ticks_per_bar,
            lanes: self.lanes@.map_values(|t: LaneTrack| t@),
            clip_region: self.clip_region,
        }
    }
}

/// The views of a sequence of patterns.
pub open spec fn pattern_views(v: Seq<Pattern>) -> Seq<PatternView> {
    v.map_values(|p: Pattern| p@)
}

/// The lanes that have notes, in order.
pub open spec fn playing(lanes: Seq<(u8, Seq<Note>)>) -> Seq<(u8, Seq<Note>)>
    decreases lanes.len(),
{
    if lanes.len() == 0 {
        Seq::<(u8, Seq<Note>)>::empty()
    } else if lanes.last().1.len() > 0 {
        playing(lanes.drop_last()).push(lanes.last())
    } else {
        playing(lanes.drop_last())
    }
}

/// `p` holding only the lane `track`.
pub open spec fn with_only(p: PatternView, track: (u8, Seq<Note>)) -> PatternView {
    PatternView { bars: p.bars, ticks_per_bar: p.ticks_per_bar, lanes: seq![track], clip_region: p.clip_region }
}

/// One pattern per lane that has notes, each holding only that lane, with
/// everything else unchanged so the files line up at bar 1.
pub open spec fn lanes_apart(p: PatternView) -> Seq<PatternView> {
    playing(p.lanes).map_values(|t: (u8, Seq<Note>)| with_only(p, t))
}

fn copy_notes(notes: &Vec<Note>) -> (r: Vec<Note>)
    ensures
        r@ == notes@,
{
    let mut r: Vec<Note> = Vec::new();
    let mut i: usize = 0;
    while i < notes.len()
        invariant
            i <= notes.len(),
            r@ == notes@.subrange(0, i as int),
        decreases notes.len() - i,
    {
        r.push(notes[i]);
        i = i + 1;
    }
    assert(r@ =~= notes@);
    r
}

proof fn lemma_map_push<A, B>(s: Seq<A>, x: A, f: spec_fn(A) -> B)
    ensures
        s.push(x).map_values(f) == s.map_values(f).push(f(x)),
{
    assert(s.push(x).map_values(f) =~= s.map_values(f).push(f(x)));
}

/// One pattern per lane that has notes, each carrying only that lane.
pub fn per_lane(pattern: &Pattern) -> (r: Vec<Pattern>)
    ensures
        pattern_views(r@) == lanes_apart(pattern@),
{
    let ghost p = pattern@;
    let mut r: Vec<Pattern> = Vec::new();
    let mut i: usize = 0;
    while i < pattern.lanes.len()
        invariant
            i <= pattern.lanes.len(),
            p == pattern@,
            pattern_views(r@) == playing(p.lanes.subrange(0, i as int)).map_values(
                |t: (u8, Seq<Note>)| with_only(p, t),
            ),
        decreases pattern.lanes.len() - i,
    {
        let ghost seen = p.lanes.subrange(0, i + 1);
        assert(seen.drop_last() =~= p.lanes.subrange(0, i as int));
        assert(seen.last() == pattern.lanes@[i as int]@);
        let track = &pattern.lanes[i];
        if track.notes.len() > 0 {
            let one = LaneTrack { lane: track.lane, notes: copy_notes(&track.notes) };
            let lanes = vec![one];
            let piece = Pattern {
                bars: pattern.bars,
                ticks_per_bar: pattern.ticks_per_bar,
                lanes,
                clip_region: pattern.clip_region,
            };
            assert(piece@.lanes =~= seq![seen.last()]);
            assert(piece@ == with_only(p, seen.last()));
            assert(playing(seen) == playing(seen.drop_last()).push(seen.last()));
            let ghost before = r@;
            r.push(piece);
            proof {
                lemma_map_push(before, piece, |q: Pattern| q@);
                lemma_map_push(playing(seen.drop_last()), seen.last(), |t: (u8, Seq<Note>)| with_only(p, t));
            }
        } else {
            assert(playing(seen) == playing(seen.drop_last()));
        }
        i = i + 1;
    }
    assert(p.lanes.subrange(0, i as int) =~= p.lanes);
    r
}

/// `a + b`, or the largest `u32` when that does not fit.
pub open spec fn sat_add(a: u32, b: u32) -> u32 {
    if a + b > u32::MAX { u32::MAX } else { (a + b) as u32 }
}

/// `a * b`, or the largest `u32` when that does not fit.
pub open spec fn sat_mul(a: u32, b: u32) -> u32 {
    if a * b > u32::MAX { u32::MAX } else { (a * b) as u32 }
}

/// `a * b`, or the largest `u16` when that does not fit.
pub open spec fn sat_mul16(a: u16, b: u16) -> u16 {
    if a * b > u16::MAX { u16::MAX } else { (a * b) as u16 }
}

/// `n`, or the largest `u16` when it is larger.
pub open spec fn clamp16(n: int) -> u16 {
    if n > u16::MAX { u16::MAX } else { n as u16 }
}

/// The note moved `by` ticks later.
pub open spec fn later(n: Note, by: u32) -> Note {
    Note { start_tick: sat_add(n.start_tick, by), len_ticks: n.len_ticks, pitch: n.pitch, vel: n.vel }
}

/// The lane with every note moved `by` ticks later.
pub open spec fn lane_later(t: (u8, Seq<Note>), by: u32) -> (u8, Seq<Note>) {
    (t.0, t.1.map_values(|n: Note| later(n, by)))
}

/// The clip moved `by` ticks later.
pub open spec fn region_later(r: Option<Region>, by: u32) -> Option<Region> {
    match r {
        Some(g) => Some(Region { from_tick: sat_add(g.from_tick, by), to_tick: sat_add(g.to_tick, by) }),
        None => None,
    }
}

/// The length of the whole clip in ticks.
pub open spec fn span(p: PatternView) -> u32 {
    sat_mul(p.ticks_per_bar, p.bars as u32)
}

/// The `index`th lane of a sequential cut: moved `index` clip lengths later,
/// its clip boundary moved with it, and `index + 1` times as many bars so its
/// notes stay inside it.
pub open spec fn in_turn(p: PatternView, one: PatternView, index: int) -> PatternView {
    let shift = sat_mul(span(p), index as u32);
    PatternView {
        bars: sat_mul16(p.bars, clamp16(index + 1)),
        ticks_per_bar: one.ticks_per_bar,
        lanes: one.lanes.map_values(|t: (u8, Seq<Note>)| lane_later(t, shift)),
        clip_region: region_later(one.clip_region, shift),
    }
}

/// One pattern per lane that has notes, each starting where the last one
/// ended.
pub open spec fn lanes_in_turn(p: PatternView) -> Seq<PatternView> {
    lanes_apart(p).map(|i: int, one: PatternView| in_turn(p, one, i))
}

fn saturating_add(a: u32, b: u32) -> (r: u32)
    ensures
        r == sat_add(a, b),
{
    match a.checked_add(b) {
        Some(c) => c,
        None => u32::MAX,
    }
}

fn saturating_mul(a: u32, b: u32) -> (r: u32)
    ensures
        r == sat_mul(a, b),
{
    match a.checked_mul(b) {
        Some(c) => c,
        None => u32::MAX,
    }
}

fn saturating_mul16(a: u16, b: u16) -> (r: u16)
    ensures
        r == sat_mul16(a, b),
{
    match a.checked_mul(b) {
        Some(c) => c,
        None => u16::MAX,
    }
}

fn shift_lane(track: &LaneTrack, by: u32) -> (r: LaneTrack)
    ensures
        r@ == lane_later(track@, by),
{
    let mut notes: Vec<Note> = Vec::new();
    let mut i: usize = 0;
    while i < track.notes.len()
        invariant
            i <= track.notes.len(),
            notes@ == track.notes@.subrange(0, i as int).map_values(|n: Note| later(n, by)),
        decreases track.notes.len() - i,
    {
        let n = track.notes[i];
        notes.push(Note {
            start_tick: saturating_add(n.start_tick, by),
            len_ticks: n.len_ticks,
            pitch: n.pitch,
            vel: n.vel,
        });
        assert(notes@ =~= track.notes@.subrange(0, i + 1).map_values(|n: Note| later(n, by)));
        i = i + 1;
    }
    assert(track.notes@.subrange(0, i as int) =~= track.notes@);
    LaneTrack { lane: track.lane, notes }
}

/// One pattern per lane that has notes, each pushed a clip length later than
/// the one before, so that dropped anywhere they play one after the other.
pub fn in_sequence(pattern: &Pattern) -> (r: Vec<Pattern>)
    ensures
        pattern_views(r@) == lanes_in_turn(pattern@),
{
    let ghost p = pattern@;
    let whole = saturating_mul(pattern.ticks_per_bar, pattern.bars as u32);
    let apart = per_lane(pattern);
    let mut r: Vec<Pattern> = Vec::new();
    let mut index: usize = 0;
    while index < apart.len()
        invariant
            index <= apart.len(),
            p == pattern@,
            whole == span(p),
            pattern_views(apart@) == lanes_apart(p),
            pattern_views(r@) == lanes_apart(p).subrange(0, index as int).map(
                |i: int, one: PatternView| in_turn(p, one, i),
            ),
        decreases apart.len() - index,
    {
        let one = &apart[index];
        let ghost v = lanes_apart(p)[index as int];
        assert(one@ == v);
        let shift = saturating_mul(whole, #[verifier::truncate] (index as u32));
        let mut lanes: Vec<LaneTrack> = Vec::new();
        let mut k: usize = 0;
        while k < one.lanes.len()
            invariant
                k <= one.lanes.len(),
                one@ == v,
                lanes@.map_values(|t: LaneTrack| t@) == v.lanes.subrange(0, k as int).map_values(
                    |t: (u8, Seq<Note>)| lane_later(t, shift),
                ),
            decreases one.lanes.len() - k,
        {
            assert(v.lanes[k as int] == one.lanes@[k as int]@);
            let ghost before = lanes@;
            let moved = shift_lane(&one.lanes[k], shift);
            lanes.push(moved);
            proof {
                lemma_map_push(before, moved, |t: LaneTrack| t@);
                assert(v.lanes.subrange(0, k + 1) =~= v.lanes.subrange(0, k as int).push(v.lanes[k as int]));
                lemma_map_push(v.lanes.subrange(0, k as int), v.lanes[k as int], |t: (u8, Seq<Note>)| lane_later(t, shift));
            }
            k = k + 1;
        }
        assert(v.lanes.subrange(0, k as int) =~= v.lanes);
        let clip_region = match one.clip_region {
            Some(g) => Some(Region {
                from_tick: saturating_add(g.from_tick, shift),
                to_tick: saturating_add(g.to_tick, shift),
            }),
            None => None,
        };
        let times: u16 = if index < 65535 { (index + 1) as u16 } else { 65535 };
        let piece = Pattern {
            bars: saturating_mul16(pattern.bars, times),
            ticks_per_bar: one.ticks_per_bar,
            lanes,
            clip_region,
        };
        assert(piece@.lanes =~= v.lanes.map_values(|t: (u8, Seq<Note>)| lane_later(t, shift)));
        assert(piece@ == in_turn(p, v, index as int));
        let ghost before = r@;
        r.push(piece);
        proof {
            lemma_map_push(before, piece, |q: Pattern| q@);
            assert(lanes_apart(p).subrange(0, index + 1).map(|i: int, one: PatternView| in_turn(p, one, i))
                =~= lanes_apart(p).subrange(0, index as int).map(|i: int, one: PatternView| in_turn(p, one, i)).push(
                in_turn(p, v, index as int)));
        }
        index = index + 1;
    }
    assert(lanes_apart(p).subrange(0, index as int) =~= lanes_apart(p));
    r
}

} // verus!

verus! {

/// Every note of every lane of `p` starts inside the clip.
pub open spec fn notes_inside(p: PatternView) -> bool {
    forall|j: int, k: int|
        0 <= j < p.lanes.len() && 0 <= k < p.lanes[j].1.len() ==> (#[trigger] p.lanes[j].1[k]).start_tick
            < p.ticks_per_bar * p.bars
}

proof fn lemma_playing_is_drawn_from(lanes: Seq<(u8, Seq<Note>)>, j: int)
    requires
        0 <= j < playing(lanes).len(),
    ensures
        exists|m: int| 0 <= m < lanes.len() && lanes[m] == playing(lanes)[j],
        playing(lanes)[j].1.len() > 0,
    decreases lanes.len(),
{
    let rest = lanes.drop_last();
    if lanes.last().1.len() > 0 && j == playing(rest).len() {
        assert(lanes[lanes.len() - 1] == playing(lanes)[j]);
    } else {
        lemma_playing_is_drawn_from(rest, j);
        let m = choose|m: int| 0 <= m < rest.len() && rest[m] == playing(rest)[j];
        assert(lanes[m] == playing(lanes)[j]);
    }
}

/// A sequential cut moves notes and nothing else: its `i`th stem holds the
/// same lanes, with the same notes in the same order, as the `i`th stem of a
/// per-lane cut; each note keeps its length, pitch and velocity, and only its
/// start moves, by `i` clip lengths (each sum stopping at the largest tick).
pub proof fn a_sequential_stem_moves_only_note_starts(p: PatternView, i: int, j: int, k: int)
    requires
        0 <= i < lanes_apart(p).len(),
        i <= u32::MAX,
        0 <= j < lanes_apart(p)[i].lanes.len(),
        0 <= k < lanes_apart(p)[i].lanes[j].1.len(),
    ensures
        lanes_in_turn(p).len() == lanes_apart(p).len(),
        lanes_in_turn(p)[i].lanes.len() == lanes_apart(p)[i].lanes.len(),
        lanes_in_turn(p)[i].lanes[j].0 == lanes_apart(p)[i].lanes[j].0,
        lanes_in_turn(p)[i].lanes[j].1.len() == lanes_apart(p)[i].lanes[j].1.len(),
        ({
            let moved = lanes_in_turn(p)[i].lanes[j].1[k];
            let before = lanes_apart(p)[i].lanes[j].1[k];
            let clip: int = if p.ticks_per_bar * p.bars > u32::MAX { u32::MAX as int } else { p.ticks_per_bar * p.bars };
            let shift: int = if clip * i > u32::MAX { u32::MAX as int } else { clip * i };
            &&& moved.len_ticks == before.len_ticks
            &&& moved.pitch == before.pitch
            &&& moved.vel == before.vel
            &&& moved.start_tick == if before.start_tick + shift > u32::MAX { u32::MAX as int } else { before.start_tick + shift }
        }),
        lanes_in_turn(p)[i].ticks_per_bar == p.ticks_per_bar,
        lanes_in_turn(p)[i].bars == if p.bars * (i + 1) > u16::MAX { u16::MAX as int } else { p.bars * (i + 1) },
        lanes_in_turn(p)[i].clip_region is Some <==> p.clip_region is Some,
        ({
            let clip: int = if p.ticks_per_bar * p.bars > u32::MAX { u32::MAX as int } else { p.ticks_per_bar * p.bars };
            let shift: int = if clip * i > u32::MAX { u32::MAX as int } else { clip * i };
            p.clip_region matches Some(h) ==> {
                &&& lanes_in_turn(p)[i].clip_region->Some_0.from_tick == if h.from_tick + shift > u32::MAX {
                    u32::MAX as int
                } else {
                    h.from_tick + shift
                }
                &&& lanes_in_turn(p)[i].clip_region->Some_0.to_tick == if h.to_tick + shift > u32::MAX {
                    u32::MAX as int
                } else {
                    h.to_tick + shift
                }
            }
        }),
{
    let one = lanes_apart(p)[i];
    assert(lanes_in_turn(p)[i] == in_turn(p, one, i));
    assert((p.bars as u32) as int == p.bars as int);
    assert((i as u32) as int == i);
    lemma_playing_is_drawn_from(p.lanes, i);
    if i + 1 > u16::MAX {
        assert(p.bars * (i + 1) >= p.bars * u16::MAX) by (nonlinear_arith)
            requires
                i + 1 > u16::MAX,
                p.bars >= 0,
        ;
        if p.bars == 0 {
            assert(p.bars * (i + 1) == 0) by (nonlinear_arith)
                requires
                    p.bars == 0,
            ;
        }
    }
}

/// A per-lane cut gives one stem for each lane that has notes, in lane
/// order, and each stem is that lane alone, on the pattern's own grid, length
/// and clip; a lane without notes gives none.
pub proof fn a_stem_per_playing_lane(p: PatternView, i: int)
    requires
        0 <= i < lanes_apart(p).len(),
    ensures
        lanes_apart(p)[i].lanes.len() == 1,
        lanes_apart(p)[i].lanes[0].1.len() > 0,
        exists|m: int| 0 <= m < p.lanes.len() && p.lanes[m] == lanes_apart(p)[i].lanes[0],
        lanes_apart(p)[i].bars == p.bars,
        lanes_apart(p)[i].ticks_per_bar == p.ticks_per_bar,
        lanes_apart(p)[i].clip_region == p.clip_region,
        lanes_apart(p).len() <= p.lanes.len(),
{
    lemma_playing_is_drawn_from(p.lanes, i);
    lemma_playing_shorter(p.lanes);
}

proof fn lemma_playing_shorter(lanes: Seq<(u8, Seq<Note>)>)
    ensures
        playing(lanes).len() <= lanes.len(),
    decreases lanes.len(),
{
    if lanes.len() > 0 {
        lemma_playing_shorter(lanes.drop_last());
    }
}

/// In a sequential cut, the `i`th playing lane is moved exactly `i` clip
/// lengths later, and its clip grows to hold it: when nothing overflows and
/// every note started inside the original clip, every moved note starts
/// inside its own clip.
pub proof fn a_sequential_clip_holds_its_notes(p: PatternView, i: int, k: int)
    requires
        notes_inside(p),
        p.ticks_per_bar * p.bars * lanes_apart(p).len() <= u32::MAX,
        p.bars * lanes_apart(p).len() <= u16::MAX,
        0 <= i < lanes_in_turn(p).len(),
        0 <= k < lanes_apart(p)[i].lanes[0].1.len(),
    ensures
        lanes_in_turn(p)[i].lanes.len() == 1,
        lanes_in_turn(p)[i].lanes[0].1[k].start_tick == lanes_apart(p)[i].lanes[0].1[k].start_tick
            + i * (p.ticks_per_bar * p.bars),
        lanes_in_turn(p)[i].lanes[0].1[k].start_tick < p.ticks_per_bar * lanes_in_turn(p)[i].bars,
{
    let n = lanes_apart(p).len();
    let tb = p.ticks_per_bar * p.bars;
    let track = playing(p.lanes)[i];
    lemma_playing_is_drawn_from(p.lanes, i);
    let m = choose|m: int| 0 <= m < p.lanes.len() && p.lanes[m] == track;
    let note = track.1[k];
    assert(p.lanes[m].1[k] == note);
    assert(note.start_tick < tb);
    assert(p.bars >= 1 && p.ticks_per_bar >= 1) by (nonlinear_arith)
        requires
            0 <= note.start_tick < tb,
            tb == p.ticks_per_bar * p.bars,
    ;
    assert(n <= p.bars * n) by (nonlinear_arith)
        requires
            p.bars >= 1,
            n >= 0,
    ;
    assert(tb <= tb * n) by (nonlinear_arith)
        requires
            tb >= 0,
            n >= 1,
    ;
    assert((p.bars as u32) == p.bars);
    assert(span(p) == tb);
    assert(i * tb + tb <= tb * n) by (nonlinear_arith)
        requires
            0 <= i < n,
            tb >= 0,
    ;
    assert(0 <= i * tb) by (nonlinear_arith)
        requires
            0 <= i,
            tb >= 0,
    ;
    assert((i as u32) == i);
    assert(tb * i == i * tb) by (nonlinear_arith);
    assert(span(p) * (i as u32) == i * tb);
    assert(sat_mul(span(p), i as u32) == i * tb);
    assert(note.start_tick + i * tb <= u32::MAX);
    assert(p.bars * (i + 1) <= p.bars * n) by (nonlinear_arith)
        requires
            0 <= i < n,
            p.bars >= 0,
    ;
    assert(clamp16(i + 1) == i + 1);
    assert(sat_mul16(p.bars, clamp16(i + 1)) == p.bars * (i + 1));
    assert(note.start_tick + i * tb < p.ticks_per_bar * (p.bars * (i + 1))) by (nonlinear_arith)
        requires
            note.start_tick < tb,
            tb == p.ticks_per_bar * p.bars,
    ;
}

} // verus!

verus! {

// ---------------------------------------------------------------- naming a batch

/// The text of each stem name that may be absent.
pub open spec fn opt_texts(v: Seq<Option<String>>) -> Seq<Option<Seq<char>>> {
    v.map_values(|o: Option<String>| crate::text::opt_text(o))
}

/// The names taken after a batch has been named in order: a pattern that
/// makes a file takes [`distinct_name`] of its stem, one that makes none
/// (`None`) takes nothing.
pub open spec fn taken_after(stems: Seq<Option<Seq<char>>>) -> Seq<Seq<char>>
    decreases stems.len(),
{
    if stems.len() == 0 {
        Seq::<Seq<char>>::empty()
    } else {
        let prev = taken_after(stems.drop_last());
        match stems.last() {
            Some(s) => prev.push(distinct_name(prev, s)),
            None => prev,
        }
    }
}

/// The file names of a batch: the names taken, each with its extension.
pub open spec fn batch_file_names(stems: Seq<Option<Seq<char>>>, extension: Seq<char>) -> Seq<Seq<char>> {
    taken_after(stems).map_values(|n: Seq<char>| n + extension)
}

proof fn lemma_first_free_from(taken: Seq<Seq<char>>, name: Seq<char>, k: nat)
    requires
        taken.contains(name),
        k >= 2,
        forall|j: nat| 2 <= j < k ==> taken.contains(#[trigger] numbered(name, j)),
    ensures
        exists|n: nat| first_free(taken, name, n),
    decreases taken.len() + 2 - k,
{
    if !taken.contains(numbered(name, k)) {
        assert(first_free(taken, name, k));
    } else {
        lemma_taken_bounds_the_search(taken, name, k);
        assert forall|j: nat| 2 <= j < k + 1 implies taken.contains(#[trigger] numbered(name, j)) by {
            if j == k {
            }
        }
        lemma_first_free_from(taken, name, k + 1);
    }
}

/// However many names are taken, a free number is always found, and it is at
/// most one more than the number of names taken: `name (n)` for the least
/// `n` from 2 on that is not taken.
pub proof fn a_free_number_always_exists(taken: Seq<Seq<char>>, name: Seq<char>)
    requires
        taken.contains(name),
    ensures
        exists|n: nat| n <= taken.len() + 1 && #[trigger] first_free(taken, name, n),
        distinct_name(taken, name) == numbered(name, choose|n: nat| first_free(taken, name, n)),
{
    lemma_first_free_from(taken, name, 2);
    let n = choose|n: nat| first_free(taken, name, n);
    if n > taken.len() + 1 {
        assert forall|j: nat| 2 <= j < taken.len() + 2 implies taken.contains(#[trigger] numbered(name, j)) by {
            assert(j < n);
        }
        lemma_taken_bounds_the_search(taken, name, (taken.len() + 1) as nat);
        assert(false);
    }
    assert(n <= taken.len() + 1 && first_free(taken, name, n));
}

/// A batch never names a file after one it already named.
pub proof fn lemma_distinct_name_is_free(taken: Seq<Seq<char>>, name: Seq<char>)
    ensures
        !taken.contains(distinct_name(taken, name)),
{
    if taken.contains(name) {
        lemma_first_free_from(taken, name, 2);
    }
}

proof fn lemma_taken_after_distinct(stems: Seq<Option<Seq<char>>>)
    ensures
        taken_after(stems).no_duplicates(),
    decreases stems.len(),
{
    if stems.len() > 0 {
        let prev = taken_after(stems.drop_last());
        lemma_taken_after_distinct(stems.drop_last());
        if let Some(s) = stems.last() {
            lemma_distinct_name_is_free(prev, s);
            let all = prev.push(distinct_name(prev, s));
            assert forall|i: int, j: int| 0 <= i < all.len() && 0 <= j < all.len() && i != j implies all[i] != all[j] by {
                if i == prev.len() {
                    assert(prev.contains(all[j]));
                } else if j == prev.len() {
                    assert(prev.contains(all[i]));
                }
            }
        }
    }
}

/// No two files of a batch get the same name, whatever their stems: two
/// patterns that would share a name get two files.
pub proof fn stem_names_never_collide(stems: Seq<Option<Seq<char>>>, extension: Seq<char>)
    ensures
        batch_file_names(stems, extension).no_duplicates(),
{
    lemma_taken_after_distinct(stems);
    let names = taken_after(stems);
    let files = batch_file_names(stems, extension);
    assert forall|i: int, j: int| 0 <= i < files.len() && 0 <= j < files.len() && i != j implies files[i] != files[j] by {
        if files[i] == files[j] {
            assert(names[i] =~= files[i].subrange(0, names[i].len() as int));
            assert(names[j] =~= files[j].subrange(0, names[j].len() as int));
        }
    }
}

/// The file names a batch of stems is written under, in order: each stem
/// that makes a file is made distinct from the ones before it, then given
/// the extension.
pub fn stem_file_names(stems: &Vec<Option<String>>, extension: &str) -> (r: Vec<String>)
    requires
        stems.len() < usize::MAX,
    ensures
        strs(r@) == batch_file_names(opt_texts(stems@), extension@),
{
    let ghost all = opt_texts(stems@);
    let ext = chars_of(extension);
    let mut taken: Vec<String> = Vec::new();
    let mut r: Vec<String> = Vec::new();
    let mut i: usize = 0;
    while i < stems.len()
        invariant
            i <= stems.len() < usize::MAX,
            all == opt_texts(stems@),
            ext@ == extension@,
            taken.len() <= i,
            strs(taken@) == taken_after(all.subrange(0, i as int)),
            strs(r@) == taken_after(all.subrange(0, i as int)).map_values(|n: Seq<char>| n + extension@),
        decreases stems.len() - i,
    {
        let ghost seen = all.subrange(0, i + 1);
        assert(seen.drop_last() =~= all.subrange(0, i as int));
        assert(seen.last() == crate::text::opt_text(stems@[i as int]));
        match &stems[i] {
            Some(stem) => {
                let name = distinct(&mut taken, stem.clone());
                let mut file = chars_of(name.as_str());
                let mut k: usize = 0;
                let ghost head = file@;
                while k < ext.len()
                    invariant
                        k <= ext.len(),
                        file@ == head + ext@.subrange(0, k as int),
                    decreases ext.len() - k,
                {
                    file.push(ext[k]);
                    k = k + 1;
                }
                assert(file@ =~= name@ + extension@);
                let ghost before = r@;
                r.push(string_of(&file));
                proof {
                    assert(strs(r@) =~= strs(before).push(name@ + extension@));
                    lemma_map_push(taken_after(seen.drop_last()), name@, |n: Seq<char>| n + extension@);
                }
            },
            None => {},
        }
        i = i + 1;
    }
    assert(all.subrange(0, i as int) =~= all);
    r
}

} // verus!

verus! {

// ---------------------------------------------------------------- what a stem is called

/// `n` written in decimal, with a `-` in front when it is negative.
pub open spec fn signed_decimal(n: int) -> Seq<char> {
    if n < 0 {
        seq!['-'] + decimal((-n) as nat)
    } else {
        decimal(n as nat)
    }
}

/// `artist - what - bpm BPM - key`, made safe as a file name.
pub open spec fn stem_label(artist: Seq<char>, what: Seq<char>, bpm: int, key: Seq<char>) -> Seq<char> {
    crate::names::safe_named(
        artist + seq![' ', '-', ' '] + what + seq![' ', '-', ' '] + signed_decimal(bpm)
            + seq![' ', 'B', 'P', 'M', ' ', '-', ' '] + key,
    )
}

fn push_all(out: &mut Vec<char>, more: &Vec<char>)
    ensures
        final(out)@ == old(out)@ + more@,
{
    let ghost head = out@;
    let mut i: usize = 0;
    while i < more.len()
        invariant
            i <= more.len(),
            out@ == head + more@.subrange(0, i as int),
        decreases more.len() - i,
    {
        out.push(more[i]);
        i = i + 1;
    }
    assert(more@.subrange(0, i as int) =~= more@);
}

/// What a stem is called on disk: the artist, the lane or part it holds,
/// the tempo rounded to a whole number and the key, readable as a producer
/// would label it and safe as a file name.
pub fn stem_name(artist: &str, what: &str, bpm: i64, key: &str) -> (r: String)
    ensures
        r@ == stem_label(artist@, what@, bpm as int, key@),
{
    let mut text = chars_of(artist);
    let dash = vec![' ', '-', ' '];
    push_all(&mut text, &dash);
    push_all(&mut text, &chars_of(what));
    push_all(&mut text, &dash);
    let magnitude: u64 = if bpm < 0 { (0i128 - bpm as i128) as u64 } else { bpm as u64 };
    let digits = decimal_u64(magnitude);
    if bpm < 0 {
        text.push('-');
    }
    push_all(&mut text, &digits);
    let unit = vec![' ', 'B', 'P', 'M', ' ', '-', ' '];
    push_all(&mut text, &unit);
    push_all(&mut text, &chars_of(key));
    proof {
        assert(dash@ =~= seq![' ', '-', ' ']);
        assert(unit@ =~= seq![' ', 'B', 'P', 'M', ' ', '-', ' ']);
        if bpm < 0 {
            assert(seq!['-'] + decimal((-bpm) as nat) =~= seq!['-'].add(digits@));
        }
        assert(text@ =~= artist@ + seq![' ', '-', ' '] + what@ + seq![' ', '-', ' '] + signed_decimal(bpm as int)
            + seq![' ', 'B', 'P', 'M', ' ', '-', ' '] + key@);
    }
    crate::names::safe_file_name(string_of(&text).as_str())
}

/// [`decimal`], executable.
pub fn decimal_u64(n: u64) -> (r: Vec<char>)
    ensures
        r@ == decimal(n as nat),
    decreases n,
{
    if n < 10 {
        let r = vec![digit_of(n as usize)];
        assert(r@ =~= decimal(n as nat));
        r
    } else {
        let mut r = decimal_u64(n / 10);
        r.push(digit_of((n % 10) as usize));
        r
    }
}

} // verus!

verus! {

// ---------------------------------------------------------------- how patterns are carved into files

/// How a set of patterns is carved into files.
#[derive(Clone, Copy, Debug, PartialEq, Eq)]
pub enum Cut {
    /// One file per pattern.
    Parts,
    /// One file per lane that has notes.
    EveryLane,
    /// One file per lane, each starting where the last one ended — for MIDI;
    /// audio is stacked as [`Cut::EveryLane`] is.
    EveryLaneInSequence,
    /// Only this lane.
    OneLane(u8),
}

/// The one-lane patterns of `ps` whose lane is `lane`, in order.
pub open spec fn only_lane(ps: Seq<PatternView>, lane: u8) -> Seq<PatternView>
    decreases ps.len(),
{
    if ps.len() == 0 {
        ps
    } else if ps.last().lanes.len() > 0 && ps.last().lanes[0].0 == lane {
        only_lane(ps.drop_last(), lane).push(ps.last())
    } else {
        only_lane(ps.drop_last(), lane)
    }
}

/// The files one pattern becomes under `cut`; `audio` says whether they are
/// rendered, which stacks a sequential cut.
pub open spec fn cut_one(p: PatternView, cut: Cut, audio: bool) -> Seq<PatternView> {
    match cut {
        Cut::Parts => seq![p],
        Cut::EveryLane => lanes_apart(p),
        Cut::EveryLaneInSequence => if audio { lanes_apart(p) } else { lanes_in_turn(p) },
        Cut::OneLane(lane) => only_lane(lanes_apart(p), lane),
    }
}

/// The files a set of patterns becomes under `cut`, pattern by pattern.
pub open spec fn cut_all(ps: Seq<PatternView>, cut: Cut, audio: bool) -> Seq<PatternView>
    decreases ps.len(),
{
    if ps.len() == 0 {
        Seq::<PatternView>::empty()
    } else {
        cut_all(ps.drop_last(), cut, audio) + cut_one(ps.last(), cut, audio)
    }
}

fn copy_pattern(p: &Pattern) -> (r: Pattern)
    ensures
        r@ == p@,
{
    let mut lanes: Vec<LaneTrack> = Vec::new();
    let mut i: usize = 0;
    while i < p.lanes.len()
        invariant
            i <= p.lanes.len(),
            lanes@.map_values(|t: LaneTrack| t@) == p.lanes@.subrange(0, i as int).map_values(|t: LaneTrack| t@),
        decreases p.lanes.len() - i,
    {
        let ghost before = lanes@;
        let t = LaneTrack { lane: p.lanes[i].lane, notes: copy_notes(&p.lanes[i].notes) };
        lanes.push(t);
        proof {
            lemma_map_push(before, t, |t: LaneTrack| t@);
            assert(p.lanes@.subrange(0, i + 1) =~= p.lanes@.subrange(0, i as int).push(p.lanes@[i as int]));
            lemma_map_push(p.lanes@.subrange(0, i as int), p.lanes@[i as int], |t: LaneTrack| t@);
        }
        i = i + 1;
    }
    assert(p.lanes@.subrange(0, i as int) =~= p.lanes@);
    Pattern { bars: p.bars, ticks_per_bar: p.ticks_per_bar, lanes, clip_region: p.clip_region }
}

fn keep_lane(ps: Vec<Pattern>, lane: u8) -> (r: Vec<Pattern>)
    ensures
        pattern_views(r@) == only_lane(pattern_views(ps@), lane),
{
    let ghost all = pattern_views(ps@);
    let mut r: Vec<Pattern> = Vec::new();
    let mut rest = ps;
    let mut backwards: Vec<Pattern> = Vec::new();
    let ghost orig = rest@;
    let total = rest.len();
    while rest.len() > 0
        invariant
            rest@.len() + backwards@.len() == orig.len(),
            rest@ == orig.subrange(0, rest@.len() as int),
            forall|k: int| 0 <= k < backwards@.len() ==> #[trigger] backwards@[k] == orig[orig.len() - 1 - k],
        decreases rest@.len(),
    {
        let e = rest.pop().unwrap();
        backwards.push(e);
    }
    let mut n: usize = 0;
    while backwards.len() > 0
        invariant
            n + backwards@.len() == orig.len(),
            orig.len() == total,
            all == pattern_views(orig),
            forall|k: int| 0 <= k < backwards@.len() ==> #[trigger] backwards@[k] == orig[orig.len() - 1 - k],
            pattern_views(r@) == only_lane(all.subrange(0, n as int), lane),
        decreases backwards@.len(),
    {
        let e = backwards.pop().unwrap();
        assert(e == orig[n as int]);
        let ghost seen = all.subrange(0, n + 1);
        assert(seen.drop_last() =~= all.subrange(0, n as int));
        assert(seen.last() == e@);
        let matches = e.lanes.len() > 0 && e.lanes[0].lane == lane;
        if matches {
            assert(e@.lanes[0] == e.lanes@[0]@);
            let ghost before = r@;
            r.push(e);
            proof {
                lemma_map_push(before, e, |q: Pattern| q@);
            }
        } else {
            proof {
                if e.lanes.len() > 0 {
                    assert(e@.lanes[0] == e.lanes@[0]@);
                }
            }
        }
        n = n + 1;
    }
    assert(all.subrange(0, n as int) =~= all);
    r
}

fn cut_pattern(p: &Pattern, cut: Cut, audio: bool) -> (r: Vec<Pattern>)
    ensures
        pattern_views(r@) == cut_one(p@, cut, audio),
{
    match cut {
        Cut::Parts => {
            let one = vec![copy_pattern(p)];
            assert(pattern_views(one@) =~= seq![p@]);
            one
        },
        Cut::EveryLane => per_lane(p),
        Cut::EveryLaneInSequence => if audio {
            per_lane(p)
        } else {
            in_sequence(p)
        },
        Cut::OneLane(lane) => keep_lane(per_lane(p), lane),
    }
}

/// Whether any lane of a pattern has a note.
pub open spec fn sounds(p: PatternView) -> bool {
    exists|i: int| 0 <= i < p.lanes.len() && (#[trigger] p.lanes[i]).1.len() > 0
}

/// The patterns that become files, in order: a part nothing plays gets no
/// file, and a render's progress counts to how many are left.
pub open spec fn sounding(ps: Seq<PatternView>) -> Seq<PatternView>
    decreases ps.len(),
{
    if ps.len() == 0 {
        Seq::<PatternView>::empty()
    } else if sounds(ps.last()) {
        sounding(ps.drop_last()).push(ps.last())
    } else {
        sounding(ps.drop_last())
    }
}

fn has_notes(p: &Pattern) -> (r: bool)
    ensures
        r == sounds(p@),
{
    let mut i: usize = 0;
    while i < p.lanes.len()
        invariant
            i <= p.lanes.len(),
            forall|k: int| 0 <= k < i ==> (#[trigger] p@.lanes[k]).1.len() == 0,
        decreases p.lanes.len() - i,
    {
        if p.lanes[i].notes.len() > 0 {
            assert(p@.lanes[i as int].1.len() > 0);
            return true;
        }
        i = i + 1;
    }
    false
}

/// The patterns of a cut that become files, as [`sounding`] says; how many
/// there are is the total a render's progress counts to.
pub fn sounding_patterns(patterns: &Vec<Pattern>) -> (r: Vec<Pattern>)
    ensures
        pattern_views(r@) == sounding(pattern_views(patterns@)),
{
    let ghost all = pattern_views(patterns@);
    let mut r: Vec<Pattern> = Vec::new();
    let mut i: usize = 0;
    while i < patterns.len()
        invariant
            i <= patterns.len(),
            all == pattern_views(patterns@),
            pattern_views(r@) == sounding(all.subrange(0, i as int)),
        decreases patterns.len() - i,
    {
        let ghost seen = all.subrange(0, i + 1);
        assert(seen.drop_last() =~= all.subrange(0, i as int));
        assert(seen.last() == patterns@[i as int]@);
        if has_notes(&patterns[i]) {
            let ghost before = r@;
            r.push(copy_pattern(&patterns[i]));
            assert(pattern_views(r@) =~= pattern_views(before).push(seen.last()));
        }
        i = i + 1;
    }
    assert(all.subrange(0, i as int) =~= all);
    r
}

/// How many of a render's finished steps it keeps, given what the producer
/// answered after each: every step before the first answer to stop. The file
/// of the step that was answered with a stop is dropped, and no later step is
/// rendered.
pub fn kept_steps(answers: &Vec<bool>) -> (r: usize)
    ensures
        r <= answers.len(),
        forall|i: int| 0 <= i < r ==> answers@[i],
        r < answers.len() ==> !answers@[r as int],
{
    let mut i: usize = 0;
    while i < answers.len()
        invariant
            i <= answers.len(),
            forall|k: int| 0 <= k < i ==> answers@[k],
        decreases answers.len() - i,
    {
        if !answers[i] {
            return i;
        }
        i = i + 1;
    }
    i
}

/// The patterns a set becomes under `cut`, as [`cut_all`] says: one per
/// pattern, one per lane with notes, one per lane placed one after another
/// (stacked when `audio`), or only the lane asked for.
pub fn cut_patterns(patterns: &Vec<Pattern>, cut: Cut, audio: bool) -> (r: Vec<Pattern>)
    ensures
        pattern_views(r@) == cut_all(pattern_views(patterns@), cut, audio),
{
    let ghost all = pattern_views(patterns@);
    let mut r: Vec<Pattern> = Vec::new();
    let mut i: usize = 0;
    while i < patterns.len()
        invariant
            i <= patterns.len(),
            all == pattern_views(patterns@),
            pattern_views(r@) == cut_all(all.subrange(0, i as int), cut, audio),
        decreases patterns.len() - i,
    {
        let ghost seen = all.subrange(0, i + 1);
        assert(seen.drop_last() =~= all.subrange(0, i as int));
        assert(seen.last() == patterns@[i as int]@);
        let mut more = cut_pattern(&patterns[i], cut, audio);
        let ghost before = r@;
        let ghost extra = more@;
        r.append(&mut more);
        assert(pattern_views(r@) =~= pattern_views(before) + pattern_views(extra));
        i = i + 1;
    }
    assert(all.subrange(0, i as int) =~= all);
    r
}

} // verus!

verus! {

/// A part's track name with the engine's `FMM ` prefix gone, as many times as
/// it is there: the file name already says which artist it came from.
pub open spec fn part_label_of(name: Seq<char>) -> Seq<char>
    decreases name.len(),
{
    if name.len() >= 4 && name.subrange(0, 4) == "FMM "@ {
        part_label_of(name.skip(4))
    } else {
        name
    }
}

/// [`part_label_of`], executable: `str::trim_start_matches("FMM ")`.
pub fn part_label(track_name: &str) -> (r: String)
    ensures
        r@ == part_label_of(track_name@),
{
    proof {
        reveal_strlit("FMM ");
    }
    let cs = chars_of(track_name);
    let mut i: usize = 0;
    assert(cs@.skip(0) =~= cs@);
    while cs.len() - i >= 4 && cs[i] == 'F' && cs[i + 1] == 'M' && cs[i + 2] == 'M' && cs[i + 3] == ' '
        invariant
            i <= cs.len(),
            cs@ == track_name@,
            part_label_of(track_name@) == part_label_of(cs@.skip(i as int)),
        decreases cs.len() - i,
    {
        let ghost rest = cs@.skip(i as int);
        proof {
            reveal_strlit("FMM ");
        }
        assert("FMM "@ =~= seq!['F', 'M', 'M', ' ']);
        assert(rest.subrange(0, 4) =~= "FMM "@);
        assert(rest.skip(4) =~= cs@.skip(i + 4));
        i = i + 4;
    }
    let ghost rest = cs@.skip(i as int);
    proof {
        assert("FMM "@ =~= seq!['F', 'M', 'M', ' ']);
        if rest.len() >= 4 && rest.subrange(0, 4) == "FMM "@ {
            assert(rest.subrange(0, 4)[0] == 'F' && rest.subrange(0, 4)[1] == 'M');
            assert(rest.subrange(0, 4)[2] == 'M' && rest.subrange(0, 4)[3] == ' ');
            assert(false);
        }
    }
    let mut out: Vec<char> = Vec::new();
    let mut k = i;
    while k < cs.len()
        invariant
            i <= k <= cs.len(),
            out@ == cs@.subrange(i as int, k as int),
        decreases cs.len() - k,
    {
        out.push(cs[k]);
        k = k + 1;
    }
    assert(out@ =~= rest);
    string_of(&out)
}

} // verus!

verus! {

proof fn lemma_last_sep_facts(s: Seq<char>, sx: Syntax)
    ensures
        -1 <= last_sep(s, sx) < s.len(),
        last_sep(s, sx) >= 0 ==> is_sep_in(sx, s[last_sep(s, sx)]),
        forall|k: int| last_sep(s, sx) < k < s.len() ==> !is_sep_in(sx, s[k]),
    decreases s.len(),
{
    if s.len() > 0 && !is_sep_in(sx, s.last()) {
        lemma_last_sep_facts(s.drop_last(), sx);
        assert forall|k: int| last_sep(s, sx) < k < s.len() implies !is_sep_in(sx, s[k]) by {
            if k < s.len() - 1 {
                assert(s.drop_last()[k] == s[k]);
            }
        }
    }
}

proof fn lemma_last_sep_of_sep_free_tail(a: Seq<char>, b: Seq<char>, sx: Syntax)
    requires
        forall|k: int| 0 <= k < b.len() ==> !is_sep_in(sx, b[k]),
    ensures
        last_sep(a + b, sx) == last_sep(a, sx),
    decreases b.len(),
{
    if b.len() > 0 {
        assert((a + b).drop_last() =~= a + b.drop_last());
        assert((a + b).last() == b.last());
        lemma_last_sep_of_sep_free_tail(a, b.drop_last(), sx);
    } else {
        assert(a + b =~= a);
    }
}

/// The extension is added once: a path that has been given `.mid` is given
/// nothing more.
pub proof fn the_extension_is_added_once(s: Seq<char>, sx: Syntax)
    ensures
        mid_path(mid_path(s, sx), sx) == mid_path(s, sx),
{
    if names_a_file(s, sx) && !has_mid_extension(s, sx) {
        let t = without_tail(s, sx);
        let start = last_sep(t, sx) + 1;
        let name = last_piece(s, sx);
        let stem = stem_len(name);
        lemma_last_sep_facts(t, sx);
        crate::paths::lemma_last_dot_bounds(name);
        lemma_without_tail_prefix(s, sx);
        let p = t.subrange(0, start + stem);
        let mid = seq!['.', 'm', 'i', 'd'];
        let r = p + mid;
        assert(mid_path(s, sx) == r);
        assert(1 <= stem <= name.len());
        // What follows the last separator of `p` is the stem, which has none.
        let head = t.subrange(0, start);
        let tail = t.subrange(start, start + stem);
        assert(p =~= head + tail);
        assert forall|k: int| 0 <= k < tail.len() implies !is_sep_in(sx, tail[k]) by {
            assert(tail[k] == t[start + k]);
        }
        lemma_last_sep_of_sep_free_tail(head, tail, sx);
        assert forall|k: int| 0 <= k < mid.len() implies !is_sep_in(sx, mid[k]) by {}
        lemma_last_sep_of_sep_free_tail(p, mid, sx);
        if start > 0 {
            assert(is_sep_in(sx, head.last()));
            assert(head.drop_last() =~= t.subrange(0, start - 1));
        }
        assert(last_sep(head, sx) == start - 1);
        // `r` ends with `d`, so nothing is trimmed from it.
        assert(r.last() == 'd');
        assert(without_tail(r, sx) == r);
        let piece = last_piece(r, sx);
        assert(piece =~= tail + mid);
        // The last `.` of the piece is the one just added.
        assert(piece.drop_last().drop_last().drop_last() =~= tail.push('.'));
        assert(last_dot(piece) == last_dot(piece.drop_last()));
        assert(last_dot(piece.drop_last()) == last_dot(piece.drop_last().drop_last()));
        assert(last_dot(piece.drop_last().drop_last()) == last_dot(piece.drop_last().drop_last().drop_last()));
        assert(last_dot(piece) == stem);
        assert(piece.subrange(stem + 1, piece.len() as int) =~= seq!['m', 'i', 'd']);
        assert(crate::text::eq_ignore_ascii_case(seq!['m', 'i', 'd'], seq!['m', 'i', 'd']));
        assert(piece.len() > 2);
        assert(piece != seq!['.']);
        assert(piece != seq!['.', '.']);
        assert(!is_prefix(piece, sx));
        assert(names_a_file(r, sx));
        assert(has_mid_extension(r, sx));
    }
}

} // verus!
