//! The sample File Explorer: a library of saved folders, and a listing of one
//! of them.
//!
//! Browsing cannot leave the folders the producer added. A path the page sends
//! is refused first if it names another machine, and otherwise only shown when
//! its resolved form lies inside a saved root's resolved form.
//!
//! Resolving a path is a filesystem read, so it is done by the caller: each
//! operation that needs one takes the resolved form as an argument, `None`
//! where the path could not be resolved (it does not exist, or is not a
//! folder where a folder is asked for).

use vstd::prelude::*;
use crate::order::{
    keys_sorted, lemma_map_keeps_multiset, lemma_sorted_items_came_from_input, lex_le, sort_by_key, stable_order,
    values_of,
};
use crate::paths::{
    components, components_of, file_name_of, is_plausible_library, kind_label, kind_of, spec_file_name,
    spec_kind_of, is_remote, named_count, refuse_remote, same_or_inside, same_path, Syntax,
    spec_same_or_inside, spec_starts_with, starts_with, NETWORK_PATH, is_prefix, prefix_length, style_sep,
    style_sep_of,
};
use crate::text::{
    chars_of, copy_string, lowercase, opt_text, same_text, string_of, strs, texts, to_lowercase,
};

verus! {

broadcast use vstd::seq_lib::group_seq_properties;

/// How many entries one folder may list.
pub const MAX_ENTRIES: usize = 2000;

/// How many library folders a producer may add.
pub const MAX_ROOTS: usize = 8;

/// How many library folders a project or an older `library.json` may carry.
pub const MAX_STORED_ROOTS: usize = 24;

/// The one refusal every failed `open` and `list_one` gives, whatever went wrong.
pub const NOT_IN_LIBRARY: &'static str = "that is not a folder in your sample library";

/// What a ninth folder is refused with.
pub const TOO_MANY_FOLDERS: &'static str = "you can browse 8 folders at a time — close one to add another";

/// What a second dialog is refused with.
pub const DIALOG_OPEN: &'static str = "a folder dialog is already open";

// ---------------------------------------------------------------- merging

/// The machine's folders the project does not hold, each once, where it first
/// occurs, in the machine's order.
pub open spec fn fresh(p: Seq<Seq<char>>, m: Seq<Seq<char>>) -> Seq<Seq<char>>
    decreases m.len(),
{
    if m.len() == 0 {
        Seq::<Seq<char>>::empty()
    } else {
        let f = fresh(p, m.drop_last());
        if p.contains(m.last()) || f.contains(m.last()) {
            f
        } else {
            f.push(m.last())
        }
    }
}

/// The project's folders, then each of the machine's that is not already there.
pub open spec fn merged(p: Seq<Seq<char>>, m: Seq<Seq<char>>) -> Seq<Seq<char>>
    decreases m.len(),
{
    if m.len() == 0 {
        p
    } else {
        let r = merged(p, m.drop_last());
        if r.contains(m.last()) {
            r
        } else {
            r.push(m.last())
        }
    }
}

fn holds_text(list: &Vec<String>, item: &String) -> (r: bool)
    ensures
        r == strs(list@).contains(item@),
{
    let mut i: usize = 0;
    while i < list.len()
        invariant
            i <= list.len(),
            forall|k: int| 0 <= k < i ==> strs(list@)[k] != item@,
        decreases list.len() - i,
    {
        if same_text(list[i].as_str(), item.as_str()) {
            assert(strs(list@)[i as int] == item@);
            return true;
        }
        i = i + 1;
    }
    false
}

/// The library to restore: the project's folders first, then the machine's,
/// each folder once.
pub fn merge_folders(from_project: Vec<String>, from_machine: Vec<String>) -> (r: Vec<String>)
    ensures
        strs(r@) == merged(strs(from_project@), strs(from_machine@)),
{
    let mut folders = from_project;
    let ghost p = strs(folders@);
    let mut i: usize = 0;
    assert(strs(from_machine@).subrange(0, 0) =~= Seq::<Seq<char>>::empty());
    while i < from_machine.len()
        invariant
            i <= from_machine.len(),
            strs(folders@) == merged(p, strs(from_machine@).subrange(0, i as int)),
        decreases from_machine.len() - i,
    {
        let ghost m = strs(from_machine@).subrange(0, i + 1);
        assert(m.drop_last() =~= strs(from_machine@).subrange(0, i as int));
        assert(m.last() == from_machine@[i as int]@);
        if !holds_text(&folders, &from_machine[i]) {
            let ghost before = strs(folders@);
            folders.push(copy_string(&from_machine[i]));
            assert(strs(folders@) =~= before.push(m.last()));
        }
        i = i + 1;
    }
    assert(strs(from_machine@).subrange(0, i as int) =~= strs(from_machine@));
    folders
}

/// The project's folders come first, as written, then the machine's folders
/// the project does not hold, each once where it first occurs, in order.
pub proof fn the_project_comes_first_then_the_rest_once(p: Seq<Seq<char>>, m: Seq<Seq<char>>)
    ensures
        merged(p, m) == p + fresh(p, m),
    decreases m.len(),
{
    if m.len() > 0 {
        the_project_comes_first_then_the_rest_once(p, m.drop_last());
        let f = fresh(p, m.drop_last());
        let x = m.last();
        if (p + f).contains(x) {
            let k = choose|k: int| 0 <= k < (p + f).len() && (p + f)[k] == x;
            if k < p.len() {
                assert(p[k] == x);
            } else {
                assert(f[k - p.len()] == x);
            }
        } else {
            if p.contains(x) {
                let k = choose|k: int| 0 <= k < p.len() && p[k] == x;
                assert((p + f)[k] == x);
            }
            if f.contains(x) {
                let k = choose|k: int| 0 <= k < f.len() && f[k] == x;
                assert((p + f)[p.len() + k] == x);
            }
            assert((p + f).push(x) =~= p + f.push(x));
        }
    } else {
        assert(p + Seq::<Seq<char>>::empty() =~= p);
    }
}

/// The project's folders come first and unchanged, every folder of either list
/// is in the merged library, nothing else is, and a project list without
/// repeats gives a merged list without repeats.
pub proof fn merge_keeps_every_folder_once(p: Seq<Seq<char>>, m: Seq<Seq<char>>)
    ensures
        merged(p, m).len() >= p.len(),
        merged(p, m).subrange(0, p.len() as int) == p,
        forall|x: Seq<char>| #[trigger] merged(p, m).contains(x) <==> (p.contains(x) || m.contains(x)),
        p.no_duplicates() ==> merged(p, m).no_duplicates(),
    decreases m.len(),
{
    if m.len() == 0 {
        assert(p.subrange(0, p.len() as int) =~= p);
    } else {
        merge_keeps_every_folder_once(p, m.drop_last());
        let r = merged(p, m.drop_last());
        assert(m =~= m.drop_last().push(m.last()));
        if !r.contains(m.last()) {
            assert(r.push(m.last()).subrange(0, p.len() as int) =~= r.subrange(0, p.len() as int));
            assert forall|x: Seq<char>| #[trigger] merged(p, m).contains(x) <==> (p.contains(x) || m.contains(x)) by {
                if x == m.last() {
                    assert(merged(p, m)[r.len() as int] == x);
                } else if merged(p, m).contains(x) {
                    let k = choose|k: int| 0 <= k < merged(p, m).len() && merged(p, m)[k] == x;
                    assert(r[k] == x);
                } else if r.contains(x) {
                    let k = choose|k: int| 0 <= k < r.len() && r[k] == x;
                    assert(merged(p, m)[k] == x);
                }
                if m.drop_last().contains(x) {
                    let k = choose|k: int| 0 <= k < m.drop_last().len() && m.drop_last()[k] == x;
                    assert(m[k] == x);
                }
                if m.contains(x) && x != m.last() {
                    let k = choose|k: int| 0 <= k < m.len() && m[k] == x;
                    assert(m.drop_last()[k] == x);
                }
            }
        } else {
            assert forall|x: Seq<char>| #[trigger] merged(p, m).contains(x) <==> (p.contains(x) || m.contains(x)) by {
                if m.drop_last().contains(x) {
                    let k = choose|k: int| 0 <= k < m.drop_last().len() && m.drop_last()[k] == x;
                    assert(m[k] == x);
                }
                if m.contains(x) && x != m.last() {
                    let k = choose|k: int| 0 <= k < m.len() && m[k] == x;
                    assert(m.drop_last()[k] == x);
                }
            }
        }
    }
}

} // verus!

verus! {

// ---------------------------------------------------------------- the library

/// A root a project file may carry back: not a network path, and at least two
/// named components deep, so never a drive or a profile root.
pub open spec fn plausible_root(s: Seq<char>, sx: Syntax) -> bool {
    !is_remote(s) && named_count(components(s, sx), sx) >= 2
}

/// What a restore keeps: the plausible roots, in order, at most
/// [`MAX_STORED_ROOTS`] of them.
pub open spec fn restored(paths: Seq<Seq<char>>, sx: Syntax) -> Seq<Seq<char>>
    decreases paths.len(),
{
    if paths.len() == 0 {
        Seq::<Seq<char>>::empty()
    } else {
        let r = restored(paths.drop_last(), sx);
        if r.len() < MAX_STORED_ROOTS && plausible_root(paths.last(), sx) {
            r.push(paths.last())
        } else {
            r
        }
    }
}

/// The roots that are not the same path as `target`.
pub open spec fn without(roots: Seq<Seq<char>>, target: Seq<char>, sx: Syntax) -> Seq<Seq<char>>
    decreases roots.len(),
{
    if roots.len() == 0 {
        Seq::<Seq<char>>::empty()
    } else {
        let r = without(roots.drop_last(), target, sx);
        if components(roots.last(), sx) != components(target, sx) {
            r.push(roots.last())
        } else {
            r
        }
    }
}

/// The saved library folders, the folder being browsed, whether a folder
/// dialog is open, and the path rules of the platform — per plugin instance.
#[derive(Debug)]
pub struct Explorer {
    roots: Vec<String>,
    folder: Option<String>,
    picking: bool,
    syntax: Syntax,
}

impl View for Explorer {
    /// The roots as written, the folder being shown (resolved), whether a
    /// dialog is open, and how paths are read.
    type V = (Seq<Seq<char>>, Option<Seq<char>>, bool, Syntax);

    closed spec fn view(&self) -> Self::V {
        (strs(self.roots@), opt_text(self.folder), self.picking, self.syntax)
    }
}

impl Explorer {
    /// An empty library, browsing nothing, with no dialog open, reading paths
    /// as `syntax` says.
    pub fn new(syntax: Syntax) -> (r: Explorer)
        ensures
            r@.0 == Seq::<Seq<char>>::empty(),
            r@.1 is None,
            !r@.2,
            r@.3 == syntax,
    {
        let r = Explorer { roots: Vec::new(), folder: None, picking: false, syntax };
        assert(strs(r.roots@) =~= Seq::<Seq<char>>::empty());
        r
    }

    /// The saved roots, for writing into the project.
    pub fn snapshot(&self) -> (r: Vec<String>)
        ensures
            strs(r@) == self@.0,
    {
        let mut out: Vec<String> = Vec::new();
        let mut i: usize = 0;
        while i < self.roots.len()
            invariant
                i <= self.roots.len(),
                strs(out@) == strs(self.roots@).subrange(0, i as int),
            decreases self.roots.len() - i,
        {
            let ghost before = strs(out@);
            out.push(copy_string(&self.roots[i]));
            assert(strs(out@) =~= before.push(self.roots@[i as int]@));
            assert(strs(out@) =~= strs(self.roots@).subrange(0, i + 1));
            i = i + 1;
        }
        assert(strs(self.roots@).subrange(0, i as int) =~= strs(self.roots@));
        out
    }

    /// The folder being browsed, if any.
    pub fn folder(&self) -> (r: Option<String>)
        ensures
            opt_text(r) == self@.1,
    {
        match &self.folder {
            Some(f) => Some(copy_string(f)),
            None => None,
        }
    }

    /// Whether a folder dialog is open.
    pub fn picking(&self) -> (r: bool)
        ensures
            r == self@.2,
    {
        self.picking
    }

    /// How this library reads paths.
    pub fn syntax(&self) -> (r: Syntax)
        ensures
            r == self@.3,
    {
        self.syntax
    }

    /// Put the saved roots back when a project reopens: network paths and
    /// roots too shallow to be a library are dropped, a folder that does not
    /// exist is kept, and at most [`MAX_STORED_ROOTS`] are carried.
    pub fn restore(&mut self, paths: &Vec<String>)
        ensures
            final(self)@.0 == restored(strs(paths@), old(self)@.3),
            final(self)@.1 == old(self)@.1,
            final(self)@.2 == old(self)@.2,
            final(self)@.3 == old(self)@.3,
    {
        let mut kept: Vec<String> = Vec::new();
        let mut i: usize = 0;
        assert(strs(paths@).subrange(0, 0) =~= Seq::<Seq<char>>::empty());
        while i < paths.len()
            invariant
                i <= paths.len(),
                strs(kept@) == restored(strs(paths@).subrange(0, i as int), self.syntax),
            decreases paths.len() - i,
        {
            let ghost seen = strs(paths@).subrange(0, i + 1);
            assert(seen.drop_last() =~= strs(paths@).subrange(0, i as int));
            assert(seen.last() == paths@[i as int]@);
            let p = paths[i].as_str();
            if kept.len() < MAX_STORED_ROOTS && refuse_remote(p).is_ok() && is_plausible_library(p, self.syntax) {
                let ghost before = strs(kept@);
                kept.push(copy_string(&paths[i]));
                assert(strs(kept@) =~= before.push(seen.last()));
            }
            i = i + 1;
        }
        assert(strs(paths@).subrange(0, i as int) =~= strs(paths@));
        self.roots = kept;
    }

    /// Forget a saved root. Browsing moves out of it if that is where it was.
    ///
    /// `target_real` and `folder_real` are the resolved forms of `path` and of
    /// the folder being browsed.
    pub fn remove(&mut self, path: &str, target_real: &Option<String>, folder_real: &Option<String>)
        ensures
            final(self)@.0 == without(old(self)@.0, path@, old(self)@.3),
            final(self)@.2 == old(self)@.2,
            final(self)@.3 == old(self)@.3,
            final(self)@.1 == match old(self)@.1 {
                Some(at) => if spec_same_or_inside(path@, opt_text(*target_real), at, opt_text(*folder_real), old(self)@.3) {
                    None
                } else {
                    Some(at)
                },
                None => None,
            },
    {
        let mut kept: Vec<String> = Vec::new();
        let mut i: usize = 0;
        assert(strs(self.roots@).subrange(0, 0) =~= Seq::<Seq<char>>::empty());
        while i < self.roots.len()
            invariant
                i <= self.roots.len(),
                strs(kept@) == without(strs(self.roots@).subrange(0, i as int), path@, self.syntax),
            decreases self.roots.len() - i,
        {
            let ghost seen = strs(self.roots@).subrange(0, i + 1);
            assert(seen.drop_last() =~= strs(self.roots@).subrange(0, i as int));
            assert(seen.last() == self.roots@[i as int]@);
            if !same_path(self.roots[i].as_str(), path, self.syntax) {
                let ghost before = strs(kept@);
                kept.push(copy_string(&self.roots[i]));
                assert(strs(kept@) =~= before.push(seen.last()));
            }
            i = i + 1;
        }
        assert(strs(self.roots@).subrange(0, i as int) =~= strs(self.roots@));
        self.roots = kept;
        let leave = match &self.folder {
            Some(at) => same_or_inside(path, target_real, at.as_str(), folder_real, self.syntax),
            None => false,
        };
        if leave {
            self.folder = None;
        }
    }
}

} // verus!

verus! {

/// The resolved form of the `i`th root, if the caller resolved it.
pub open spec fn real_at(roots_real: Seq<Option<String>>, i: int) -> Option<Seq<char>> {
    if 0 <= i < roots_real.len() {
        opt_text(roots_real[i])
    } else {
        None
    }
}

/// Whether resolved folder `found` lies inside one of the roots.
pub open spec fn inside_some_root(
    roots: Seq<Seq<char>>,
    roots_real: Seq<Option<String>>,
    found: Seq<char>,
    sx: Syntax,
) -> bool {
    exists|i: int| 0 <= i < roots.len() && #[trigger] spec_same_or_inside(roots[i], real_at(roots_real, i), found, Some(found), sx)
}

/// Whether `dir`, resolved to `found`, may be shown: not a network path, a
/// folder that resolved, and inside a saved root.
pub open spec fn admitted(
    roots: Seq<Seq<char>>,
    roots_real: Seq<Option<String>>,
    dir: Seq<char>,
    found: Option<Seq<char>>,
    sx: Syntax,
) -> bool {
    &&& !is_remote(dir)
    &&& found is Some
    &&& inside_some_root(roots, roots_real, found->0, sx)
}

/// Whether the file `path`, resolved to `found`, lies inside a root that itself
/// resolves: a root that does not exist contains nothing.
pub open spec fn contained(
    roots: Seq<Seq<char>>,
    roots_real: Seq<Option<String>>,
    path: Seq<char>,
    found: Option<Seq<char>>,
    sx: Syntax,
) -> bool {
    &&& !is_remote(path)
    &&& found is Some
    &&& exists|i: int| 0 <= i < roots.len() && #[trigger] real_at(roots_real, i) is Some && spec_starts_with(found->0, real_at(roots_real, i)->0, sx)
}

fn real_of(roots_real: &Vec<Option<String>>, i: usize) -> (r: Option<String>)
    ensures
        opt_text(r) == real_at(roots_real@, i as int),
{
    if i < roots_real.len() {
        match &roots_real[i] {
            Some(s) => Some(copy_string(s)),
            None => None,
        }
    } else {
        None
    }
}

impl Explorer {
    /// The resolved folder `dir` may be shown as, or why not. Every refusal
    /// but the network one is the same words, and none repeats the path.
    pub fn resolve_folder(&self, dir: &str, found: &Option<String>, roots_real: &Vec<Option<String>>) -> (r: Result<String, String>)
        ensures
            is_remote(dir@) ==> (r matches Err(e) && e@ == NETWORK_PATH@),
            !is_remote(dir@) && !admitted(self@.0, roots_real@, dir@, opt_text(*found), self@.3) ==> (r matches Err(e) && e@ == NOT_IN_LIBRARY@),
            admitted(self@.0, roots_real@, dir@, opt_text(*found), self@.3) ==> (r matches Ok(f) && Some(f@) == opt_text(*found)),
    {
        if let Err(e) = refuse_remote(dir) {
            return Err(e);
        }
        let resolved = match found {
            Some(s) => s,
            None => return Err(NOT_IN_LIBRARY.to_string()),
        };
        let mut i: usize = 0;
        while i < self.roots.len()
            invariant
                i <= self.roots.len(),
                !is_remote(dir@),
                opt_text(*found) == Some(resolved@),
                forall|k: int| 0 <= k < i ==> !spec_same_or_inside(
                    #[trigger] strs(self.roots@)[k], real_at(roots_real@, k), resolved@, Some(resolved@), self.syntax),
            decreases self.roots.len() - i,
        {
            let root_real = real_of(roots_real, i);
            let as_real = Some(copy_string(resolved));
            if same_or_inside(self.roots[i].as_str(), &root_real, resolved.as_str(), &as_real, self.syntax) {
                assert(spec_same_or_inside(strs(self.roots@)[i as int], real_at(roots_real@, i as int), resolved@, Some(resolved@), self.syntax));
                return Ok(copy_string(resolved));
            }
            i = i + 1;
        }
        Err(NOT_IN_LIBRARY.to_string())
    }

    /// Show `dir` instead — how the page walks into a subfolder or back up.
    pub fn open(&mut self, dir: &str, found: &Option<String>, roots_real: &Vec<Option<String>>) -> (r: Result<(), String>)
        ensures
            is_remote(dir@) ==> (r matches Err(e) && e@ == NETWORK_PATH@),
            !is_remote(dir@) && !admitted(old(self)@.0, roots_real@, dir@, opt_text(*found), old(self)@.3) ==> (r matches Err(e) && e@ == NOT_IN_LIBRARY@),
            admitted(old(self)@.0, roots_real@, dir@, opt_text(*found), old(self)@.3) ==> r is Ok,
            r is Ok ==> final(self)@.1 == opt_text(*found),
            r is Err ==> final(self)@.1 == old(self)@.1,
            final(self)@.0 == old(self)@.0,
            final(self)@.2 == old(self)@.2,
            final(self)@.3 == old(self)@.3,
    {
        match self.resolve_folder(dir, found, roots_real) {
            Ok(f) => {
                self.folder = Some(f);
                Ok(())
            },
            Err(e) => Err(e),
        }
    }

    /// Is the file `path`, resolved to `found`, inside a folder the producer added?
    pub fn contains(&self, path: &str, found: &Option<String>, roots_real: &Vec<Option<String>>) -> (r: bool)
        ensures
            r == contained(self@.0, roots_real@, path@, opt_text(*found), self@.3),
    {
        if refuse_remote(path).is_err() {
            return false;
        }
        let resolved = match found {
            Some(s) => s,
            None => return false,
        };
        let mut i: usize = 0;
        while i < self.roots.len()
            invariant
                i <= self.roots.len(),
                !is_remote(path@),
                opt_text(*found) == Some(resolved@),
                forall|k: int| 0 <= k < i ==> !(#[trigger] real_at(roots_real@, k) is Some && spec_starts_with(resolved@, real_at(roots_real@, k)->0, self.syntax)),
            decreases self.roots.len() - i,
        {
            match real_of(roots_real, i) {
                Some(root) => {
                    if starts_with(resolved.as_str(), root.as_str(), self.syntax) {
                        assert(real_at(roots_real@, i as int) is Some);
                        return true;
                    }
                },
                None => {},
            }
            i = i + 1;
        }
        false
    }

    /// Claim the one folder dialog: refused at [`MAX_ROOTS`] folders, and
    /// while a dialog is already open.
    pub fn pick(&mut self) -> (r: Result<(), String>)
        ensures
            old(self)@.0.len() >= MAX_ROOTS ==> (r matches Err(e) && e@ == TOO_MANY_FOLDERS@),
            old(self)@.0.len() < MAX_ROOTS && old(self)@.2 ==> (r matches Err(e) && e@ == DIALOG_OPEN@),
            r is Ok <==> old(self)@.0.len() < MAX_ROOTS && !old(self)@.2,
            r is Ok ==> final(self)@.2,
            r is Err ==> final(self)@.2 == old(self)@.2,
            final(self)@.0 == old(self)@.0,
            final(self)@.1 == old(self)@.1,
            final(self)@.3 == old(self)@.3,
    {
        if self.roots.len() >= MAX_ROOTS {
            return Err(TOO_MANY_FOLDERS.to_string());
        }
        if self.picking {
            return Err(DIALOG_OPEN.to_string());
        }
        self.picking = true;
        Ok(())
    }

    /// The dialog closed, having picked `dir` or nothing. A new folder is added
    /// unless it is already there or the library is full, and is shown straight
    /// away; the dialog claim is released either way.
    pub fn picked(&mut self, dir: Option<String>)
        ensures
            !final(self)@.2,
            final(self)@.3 == old(self)@.3,
            match dir {
                None => final(self)@.0 == old(self)@.0 && final(self)@.1 == old(self)@.1,
                Some(d) => {
                    &&& final(self)@.1 == Some(d@)
                    &&& final(self)@.0 == if (exists|i: int| 0 <= i < old(self)@.0.len()
                        && components(#[trigger] old(self)@.0[i], old(self)@.3) == components(d@, old(self)@.3))
                        || old(self)@.0.len() >= MAX_ROOTS {
                        old(self)@.0
                    } else {
                        old(self)@.0.push(d@)
                    }
                },
            },
    {
        self.picking = false;
        if let Some(d) = dir {
            let mut known = false;
            let mut i: usize = 0;
            while i < self.roots.len()
                invariant
                    i <= self.roots.len(),
                    known == exists|k: int| 0 <= k < i && components(#[trigger] strs(self.roots@)[k], self.syntax) == components(d@, self.syntax),
                decreases self.roots.len() - i,
            {
                if same_path(self.roots[i].as_str(), d.as_str(), self.syntax) {
                    assert(components(strs(self.roots@)[i as int], self.syntax) == components(d@, self.syntax));
                    known = true;
                }
                i = i + 1;
            }
            if !known && self.roots.len() < MAX_ROOTS {
                let ghost before = strs(self.roots@);
                self.roots.push(copy_string(&d));
                assert(strs(self.roots@) =~= before.push(d@));
            }
            self.folder = Some(d);
        }
    }
}

} // verus!

verus! {

// ---------------------------------------------------------------- listing

/// One row in the explorer.
#[derive(Debug)]
pub struct Entry {
    /// What the producer reads.
    pub name: String,
    /// What a drop hands to the loader.
    pub path: String,
    /// Folders sort first and open on click; files are draggable.
    pub is_dir: bool,
    /// `"dir"`, `"audio"` or `"midi"`.
    pub kind: &'static str,
}

/// An entry as text: name, path, whether it is a folder, and its kind.
pub type EntryView = (Seq<char>, Seq<char>, bool, Seq<char>);

impl View for Entry {
    type V = EntryView;

    open spec fn view(&self) -> EntryView {
        (self.name@, self.path@, self.is_dir, self.kind@)
    }
}

/// One thing a folder read found: its file name, its full path, and whether it
/// is a folder. Names and paths that are not UTF-8 are not rows at all.
#[derive(Debug)]
pub struct Row {
    pub name: String,
    pub path: String,
    pub is_dir: bool,
}

/// What the page draws.
#[derive(Debug)]
pub struct State {
    /// The saved library folders, in the order they were added.
    pub roots: Vec<Entry>,
    /// The folder being shown, or `None` before one is chosen.
    pub folder: Option<String>,
    /// Its parent, so the page can offer "up"; `None` at a root.
    pub parent: Option<String>,
    pub entries: Vec<Entry>,
    /// Whether a folder dialog is open right now.
    pub picking: bool,
    /// Set when the folder held more than [`MAX_ENTRIES`] entries.
    pub truncated: bool,
}

/// `"dir"`.
pub open spec fn dir_label() -> Seq<char> {
    seq!['d', 'i', 'r']
}

/// What a row becomes, if anything: a folder unless it is hidden, or a file of
/// a kind the plugin uses.
pub open spec fn classify(row: Row, sx: Syntax) -> Option<EntryView> {
    if row.is_dir {
        if row.name@.len() > 0 && row.name@[0] == '.' {
            None
        } else {
            Some((row.name@, row.path@, true, dir_label()))
        }
    } else {
        match spec_kind_of(row.path@, sx) {
            Some(k) => Some((row.name@, row.path@, false, kind_label(k))),
            None => None,
        }
    }
}

/// The folders, the files, and whether the read stopped at [`MAX_ENTRIES`],
/// after reading `rows` in order.
pub open spec fn scan(rows: Seq<Row>, sx: Syntax) -> (Seq<EntryView>, Seq<EntryView>, bool)
    decreases rows.len(),
{
    if rows.len() == 0 {
        (Seq::<EntryView>::empty(), Seq::<EntryView>::empty(), false)
    } else {
        let (folders, files, stopped) = scan(rows.drop_last(), sx);
        if stopped {
            (folders, files, true)
        } else if folders.len() + files.len() >= MAX_ENTRIES {
            (folders, files, true)
        } else {
            match classify(rows.last(), sx) {
                Some(e) => if e.2 {
                    (folders.push(e), files, false)
                } else {
                    (folders, files.push(e), false)
                },
                None => (folders, files, false),
            }
        }
    }
}

/// The text of each entry, in order.
pub open spec fn views(s: Seq<Entry>) -> Seq<EntryView> {
    s.map_values(|e: Entry| e@)
}

/// The entries of sort-keyed pairs, as text.
pub open spec fn pair_views(s: Seq<(Vec<char>, Entry)>) -> Seq<EntryView> {
    s.map_values(|p: (Vec<char>, Entry)| p.1@)
}

/// Each entry is no later than every entry after it, comparing lower-cased names.
pub open spec fn names_sorted(s: Seq<Entry>) -> bool {
    forall|i: int, j: int| 0 <= i < j < s.len() ==> lex_le(lowercase(#[trigger] s[i].name@), lowercase(#[trigger] s[j].name@))
}

/// Whether `entries` is a reordering of `wanted`, sorted by lower-cased name.
pub open spec fn sorted_listing(entries: Seq<Entry>, wanted: Seq<EntryView>) -> bool {
    &&& views(entries).to_multiset() == wanted.to_multiset()
    &&& names_sorted(entries)
    &&& exists|idx: Seq<int>| kept_in_order(entries, wanted, idx)
}

/// `entries` is `wanted` rearranged as `idx` says: position `i` holds the
/// wanted entry `idx[i]`, none twice, and two entries whose lower-cased names
/// are the same stand in the order they were read.
pub open spec fn kept_in_order(entries: Seq<Entry>, wanted: Seq<EntryView>, idx: Seq<int>) -> bool {
    &&& idx.len() == entries.len()
    &&& forall|i: int| 0 <= i < idx.len() ==> 0 <= #[trigger] idx[i] < wanted.len() && entries[i]@ == wanted[idx[i]]
    &&& forall|i: int, j: int| 0 <= i < j < idx.len() ==> #[trigger] idx[i] != #[trigger] idx[j]
    &&& forall|i: int, j: int|
        0 <= i < j < idx.len() && lowercase((#[trigger] entries[i]).name@) == lowercase((#[trigger] entries[j]).name@)
            ==> idx[i] < idx[j]
}

/// Each pair's key is its entry's lower-cased name.
pub open spec fn keyed(s: Seq<(Vec<char>, Entry)>) -> bool {
    forall|i: int| 0 <= i < s.len() ==> #[trigger] s[i].0@ == lowercase(s[i].1.name@)
}

/// How a component is written back: the root as the separator, anything else
/// as itself.
pub open spec fn piece_text(c: Seq<char>, sep: char) -> Seq<char> {
    if c == seq!['/'] {
        seq![sep]
    } else {
        c
    }
}

/// The components of a path put back together with `sep` between them; none
/// goes after a drive or the root.
pub open spec fn join(cs: Seq<Seq<char>>, sep: char, sx: Syntax) -> Seq<char>
    decreases cs.len(),
{
    if cs.len() == 0 {
        Seq::<char>::empty()
    } else if cs.len() == 1 {
        piece_text(cs[0], sep)
    } else {
        let j = join(cs.drop_last(), sep, sx);
        let before = cs[cs.len() - 2];
        if before == seq!['/'] || is_prefix(before, sx) {
            j + piece_text(cs.last(), sep)
        } else {
            j + seq![sep] + piece_text(cs.last(), sep)
        }
    }
}

/// The separator the folder above `dir` is written with: `/` on POSIX; on
/// Windows the one `dir` is written with.
pub open spec fn written_sep(dir: Seq<char>, sx: Syntax) -> char {
    if sx == Syntax::Windows {
        style_sep(dir)
    } else {
        '/'
    }
}

/// The folder above `dir`: its components but the last, written in `dir`'s
/// own style, or nothing at the root, at a bare drive or for an empty path.
pub open spec fn parent_of(dir: Seq<char>, sx: Syntax) -> Option<Seq<char>> {
    let cs = components(dir, sx);
    if cs.len() == 0 || cs.last() == seq!['/'] || is_prefix(cs.last(), sx) {
        None
    } else {
        Some(join(cs.drop_last(), written_sep(dir, sx), sx))
    }
}

#[verifier::spinoff_prover]
fn sort_entries(pairs: Vec<(Vec<char>, Entry)>) -> (out: Vec<Entry>)
    requires
        keyed(pairs@),
    ensures
        views(out@).to_multiset() == pair_views(pairs@).to_multiset(),
        names_sorted(out@),
        out@.len() == pairs@.len(),
        exists|idx: Seq<int>| kept_in_order(out@, pair_views(pairs@), idx),
{
    let ghost orig = pairs@;
    let sorted = sort_by_key(pairs);
    let ghost s = sorted@;
    proof {
        assert forall|i: int| 0 <= i < s.len() implies #[trigger] s[i].0@ == lowercase(s[i].1.name@) by {
            lemma_sorted_items_came_from_input(s, pairs@, i);
            let k = choose|k: int| 0 <= k < pairs@.len() && pairs@[k] == s[i];
        }
        let f = |p: (Vec<char>, Entry)| p.1@;
        lemma_map_keeps_multiset(s, pairs@, f);
        assert(pair_views(s) =~= s.map_values(f));
        assert(pair_views(pairs@) =~= pairs@.map_values(f));
    }
    let out = values_of(sorted);
    proof {
        assert(views(out@) =~= pair_views(s));
        assert forall|i: int, j: int| 0 <= i < j < out@.len() implies lex_le(
            lowercase(#[trigger] out@[i].name@),
            lowercase(#[trigger] out@[j].name@),
        ) by {
            assert(keys_sorted(s));
            assert(lex_le(s[i].0@, s[j].0@));
        }
        let idx = choose|idx: Seq<int>| stable_order(s, orig, idx);
        let w = pair_views(orig);
        assert forall|i: int| 0 <= i < idx.len() implies 0 <= #[trigger] idx[i] < w.len() && out@[i]@ == w[idx[i]] by {
            assert(s[i] == orig[idx[i]]);
        }
        assert forall|i: int, j: int|
            0 <= i < j < idx.len() && lowercase((#[trigger] out@[i]).name@) == lowercase((#[trigger] out@[j]).name@)
                implies idx[i] < idx[j] by {
            assert(s[i].0@ == lowercase(s[i].1.name@));
            assert(s[j].0@ == lowercase(s[j].1.name@));
            assert(out@[i] == s[i].1 && out@[j] == s[j].1);
            assert(s[i].0@ == s[j].0@);
        }
        assert(kept_in_order(out@, w, idx));
    }
    out
}

fn entry_of(row: &Row, sx: Syntax) -> (r: Option<Entry>)
    ensures
        match r {
            Some(e) => classify(*row, sx) == Some(e@),
            None => classify(*row, sx) is None,
        },
{
    proof {
        reveal_strlit("dir");
    }
    if row.is_dir {
        let name = chars_of(row.name.as_str());
        if name.len() > 0 && name[0] == '.' {
            None
        } else {
            assert("dir"@ =~= dir_label());
            Some(Entry { name: copy_string(&row.name), path: copy_string(&row.path), is_dir: true, kind: "dir" })
        }
    } else {
        match kind_of(row.path.as_str(), sx) {
            Some(k) => Some(Entry {
                name: copy_string(&row.name),
                path: copy_string(&row.path),
                is_dir: false,
                kind: k.label(),
            }),
            None => None,
        }
    }
}

fn keyed_entry(e: Entry) -> (r: (Vec<char>, Entry))
    ensures
        r.1 == e,
        r.0@ == lowercase(e.name@),
{
    let key = chars_of(to_lowercase(e.name.as_str()).as_str());
    (key, e)
}

fn is_root_piece(c: &Vec<char>) -> (r: bool)
    ensures
        r == (c@ == seq!['/']),
{
    if c.len() == 1 && c[0] == '/' {
        assert(c@ =~= seq!['/']);
        true
    } else {
        false
    }
}

fn is_prefix_piece(c: &Vec<char>, sx: Syntax) -> (r: bool)
    ensures
        r == is_prefix(c@, sx),
{
    c.len() > 0 && prefix_length(c, sx) == c.len()
}

/// [`join`], executable.
pub fn join_components(cs: &Vec<Vec<char>>, sep: char, sx: Syntax) -> (r: Vec<char>)
    ensures
        r@ == join(texts(cs@), sep, sx),
{
    let mut out: Vec<char> = Vec::new();
    let mut i: usize = 0;
    assert(texts(cs@).subrange(0, 0) =~= Seq::<Seq<char>>::empty());
    while i < cs.len()
        invariant
            i <= cs.len(),
            out@ == join(texts(cs@).subrange(0, i as int), sep, sx),
        decreases cs.len() - i,
    {
        let ghost sub = texts(cs@).subrange(0, i + 1);
        assert(sub.drop_last() =~= texts(cs@).subrange(0, i as int));
        assert(sub.last() == cs@[i as int]@);
        let glued = i > 0 && (is_root_piece(&cs[i - 1]) || is_prefix_piece(&cs[i - 1], sx));
        proof {
            if i > 0 {
                assert(sub[i - 1] == cs@[i - 1]@);
            }
        }
        if i > 0 && !glued {
            out.push(sep);
        }
        let ghost base = out@;
        if is_root_piece(&cs[i]) {
            out.push(sep);
            assert(out@ =~= base + piece_text(sub.last(), sep));
        } else {
            let mut k: usize = 0;
            while k < cs[i].len()
                invariant
                    i < cs.len(),
                    k <= cs[i as int].len(),
                    out@ == base + cs[i as int]@.subrange(0, k as int),
                decreases cs[i as int].len() - k,
            {
                out.push(cs[i][k]);
                k = k + 1;
            }
            assert(cs[i as int]@.subrange(0, k as int) =~= cs[i as int]@);
            assert(out@ =~= base + piece_text(sub.last(), sep));
        }
        proof {
            if i == 0 {
                assert(out@ =~= piece_text(sub[0], sep));
            } else if glued {
                assert(out@ =~= join(sub.drop_last(), sep, sx) + piece_text(sub.last(), sep));
            } else {
                assert(out@ =~= join(sub.drop_last(), sep, sx) + seq![sep] + piece_text(sub.last(), sep));
            }
        }
        i = i + 1;
    }
    assert(texts(cs@).subrange(0, i as int) =~= texts(cs@));
    out
}

/// [`parent_of`], executable.
pub fn parent_text(dir: &str, sx: Syntax) -> (r: Option<String>)
    ensures
        opt_text(r) == parent_of(dir@, sx),
{
    let mut cs = components_of(dir, sx);
    if cs.len() == 0 {
        return None;
    }
    let ghost all = texts(cs@);
    let last = cs.pop().unwrap();
    assert(texts(cs@) =~= all.drop_last());
    assert(last@ == all.last());
    if is_root_piece(&last) || is_prefix_piece(&last, sx) {
        return None;
    }
    let sep = if crate::paths::is_windows(sx) { style_sep_of(&chars_of(dir)) } else { '/' };
    Some(string_of(&join_components(&cs, sep, sx)))
}

/// The entries are the rows' folders and then their files, each group sorted
/// by lower-cased name, and `truncated` says whether the read stopped at
/// [`MAX_ENTRIES`].
pub open spec fn lists_rows(s: State, rows: Seq<Row>, sx: Syntax) -> bool {
    let (folders, files, stopped) = scan(rows, sx);
    &&& s.entries@.len() == folders.len() + files.len()
    &&& sorted_listing(s.entries@.subrange(0, folders.len() as int), folders)
    &&& sorted_listing(s.entries@.subrange(folders.len() as int, s.entries@.len() as int), files)
    &&& s.truncated == stopped
}

/// Read one folder: subfolders first, then the files the plugin can use, each
/// group sorted by lower-cased name; at most [`MAX_ENTRIES`] rows, and
/// `truncated` says when there were more.
#[verifier::spinoff_prover]
pub fn list(dir: &str, rows: &Vec<Row>, sx: Syntax) -> (s: State)
    ensures
        lists_rows(s, rows@, sx),
        opt_text(s.folder) == Some(dir@),
        opt_text(s.parent) == parent_of(dir@, sx),
        s.roots@.len() == 0,
        !s.picking,
{
    let mut folders: Vec<(Vec<char>, Entry)> = Vec::new();
    let mut files: Vec<(Vec<char>, Entry)> = Vec::new();
    let mut truncated = false;
    let mut i: usize = 0;
    assert(rows@.subrange(0, 0) =~= Seq::<Row>::empty());
    assert(pair_views(folders@) =~= Seq::<EntryView>::empty());
    assert(pair_views(files@) =~= Seq::<EntryView>::empty());
    while i < rows.len()
        invariant
            i <= rows.len(),
            (pair_views(folders@), pair_views(files@), truncated) == scan(rows@.subrange(0, i as int), sx),
            keyed(folders@),
            keyed(files@),
            folders@.len() + files@.len() <= MAX_ENTRIES,
        decreases rows.len() - i,
    {
        let ghost seen = rows@.subrange(0, i + 1);
        assert(seen.drop_last() =~= rows@.subrange(0, i as int));
        assert(seen.last() == rows@[i as int]);
        if truncated {
            // Nothing after the bound is read.
        } else if folders.len() + files.len() >= MAX_ENTRIES {
            truncated = true;
        } else {
            match entry_of(&rows[i], sx) {
                Some(e) => {
                    if e.is_dir {
                        let ghost before = folders@;
                        let pair = keyed_entry(e);
                        folders.push(pair);
                        assert(pair_views(folders@) =~= pair_views(before).push(e@));
                        assert forall|k: int| 0 <= k < folders@.len() implies #[trigger] folders@[k].0@
                            == lowercase(folders@[k].1.name@) by {
                            if k < before.len() {
                                assert(folders@[k] == before[k]);
                            }
                        }
                    } else {
                        let ghost before = files@;
                        let pair = keyed_entry(e);
                        files.push(pair);
                        assert(pair_views(files@) =~= pair_views(before).push(e@));
                        assert forall|k: int| 0 <= k < files@.len() implies #[trigger] files@[k].0@
                            == lowercase(files@[k].1.name@) by {
                            if k < before.len() {
                                assert(files@[k] == before[k]);
                            }
                        }
                    }
                },
                None => {},
            }
        }
        i = i + 1;
    }
    assert(rows@.subrange(0, i as int) =~= rows@);
    let mut entries = sort_entries(folders);
    let ghost front = entries@;
    let mut sorted_files = sort_entries(files);
    let ghost back = sorted_files@;
    entries.append(&mut sorted_files);
    assert(entries@.subrange(0, front.len() as int) =~= front);
    assert(entries@.subrange(front.len() as int, entries@.len() as int) =~= back);
    State {
        roots: Vec::new(),
        folder: Some(copy_string(&dir.to_string())),
        parent: parent_text(dir, sx),
        entries,
        truncated,
        picking: false,
    }
}

} // verus!

verus! {

/// How the library lists a root: by its own name, not its whole path.
pub open spec fn root_view(root: Seq<char>, sx: Syntax) -> EntryView {
    let name = match spec_file_name(root, sx) {
        Some(n) => n,
        None => root,
    };
    (name, root, true, dir_label())
}

/// Whether the folder `dir` is a root or lies above one, so "up" would leave
/// the library.
pub open spec fn at_a_root(
    roots: Seq<Seq<char>>,
    roots_real: Seq<Option<String>>,
    dir: Seq<char>,
    dir_real: Option<Seq<char>>,
    sx: Syntax,
) -> bool {
    exists|i: int| 0 <= i < roots.len() && #[trigger] spec_same_or_inside(dir, dir_real, roots[i], real_at(roots_real, i), sx)
}

impl Explorer {
    /// Read one folder's rows without moving where the producer is browsing;
    /// guarded exactly as [`Explorer::open`] is.
    pub fn list_one(
        &self,
        dir: &str,
        found: &Option<String>,
        roots_real: &Vec<Option<String>>,
        rows: &Vec<Row>,
    ) -> (r: Result<State, String>)
        ensures
            is_remote(dir@) ==> (r matches Err(e) && e@ == NETWORK_PATH@),
            !is_remote(dir@) && !admitted(self@.0, roots_real@, dir@, opt_text(*found), self@.3) ==> (r matches Err(e) && e@ == NOT_IN_LIBRARY@),
            admitted(self@.0, roots_real@, dir@, opt_text(*found), self@.3) ==> (r matches Ok(s) && lists_rows(s, rows@, self@.3)
                && opt_text(s.folder) == opt_text(*found) && opt_text(s.parent) == parent_of((*found)->0@, self@.3)
                && s.roots@.len() == 0 && !s.picking),
    {
        match self.resolve_folder(dir, found, roots_real) {
            Ok(f) => Ok(list(f.as_str(), rows, self.syntax)),
            Err(e) => Err(e),
        }
    }

    fn named_roots(&self) -> (r: Vec<Entry>)
        ensures
            views(r@) == self@.0.map_values(|x: Seq<char>| root_view(x, self@.3)),
    {
        proof {
            reveal_strlit("dir");
        }
        let mut out: Vec<Entry> = Vec::new();
        let mut i: usize = 0;
        while i < self.roots.len()
            invariant
                i <= self.roots.len(),
                views(out@) == strs(self.roots@).subrange(0, i as int).map_values(|x: Seq<char>| root_view(x, self.syntax)),
            decreases self.roots.len() - i,
        {
            let root = self.roots[i].as_str();
            let name = match file_name_of(root, self.syntax) {
                Some(n) => string_of(&n),
                None => copy_string(&self.roots[i]),
            };
            proof {
                reveal_strlit("dir");
            }
            assert("dir"@ =~= dir_label());
            let e = Entry { name, path: copy_string(&self.roots[i]), is_dir: true, kind: "dir" };
            let ghost before = views(out@);
            out.push(e);
            assert(views(out@) =~= before.push(e@));
            assert(e@ == root_view(strs(self.roots@)[i as int], self.syntax));
            assert(views(out@) =~= strs(self.roots@).subrange(0, i + 1).map_values(|x: Seq<char>| root_view(x, self.syntax)));
            i = i + 1;
        }
        assert(strs(self.roots@).subrange(0, i as int) =~= strs(self.roots@));
        out
    }

    fn is_at_a_root(&self, dir: &str, dir_real: &Option<String>, roots_real: &Vec<Option<String>>) -> (r: bool)
        ensures
            r == at_a_root(self@.0, roots_real@, dir@, opt_text(*dir_real), self@.3),
    {
        let mut i: usize = 0;
        while i < self.roots.len()
            invariant
                i <= self.roots.len(),
                forall|k: int| 0 <= k < i ==> !spec_same_or_inside(dir@, opt_text(*dir_real), #[trigger] strs(self.roots@)[k], real_at(roots_real@, k), self.syntax),
            decreases self.roots.len() - i,
        {
            let root_real = real_of(roots_real, i);
            if same_or_inside(dir, dir_real, self.roots[i].as_str(), &root_real, self.syntax) {
                assert(spec_same_or_inside(dir@, opt_text(*dir_real), strs(self.roots@)[i as int], real_at(roots_real@, i as int), self.syntax));
                return true;
            }
            i = i + 1;
        }
        false
    }

    /// The library, and the folder being browsed inside it, read from `rows`.
    /// "Up" stops at a root. `folder_real` is the browsed folder resolved, and
    /// `roots_real` the roots resolved.
    pub fn state(&self, rows: &Vec<Row>, folder_real: &Option<String>, roots_real: &Vec<Option<String>>) -> (s: State)
        ensures
            views(s.roots@) == self@.0.map_values(|x: Seq<char>| root_view(x, self@.3)),
            s.picking == self@.2,
            opt_text(s.folder) == self@.1,
            match self@.1 {
                None => s.entries@.len() == 0 && s.parent is None && !s.truncated,
                Some(dir) => {
                    &&& lists_rows(s, rows@, self@.3)
                    &&& opt_text(s.parent) == if at_a_root(self@.0, roots_real@, dir, opt_text(*folder_real), self@.3) {
                        None
                    } else {
                        parent_of(dir, self@.3)
                    }
                },
            },
    {
        let named = self.named_roots();
        match &self.folder {
            None => State {
                roots: named,
                folder: None,
                parent: None,
                entries: Vec::new(),
                picking: self.picking,
                truncated: false,
            },
            Some(dir) => {
                let mut state = list(dir.as_str(), rows, self.syntax);
                state.picking = self.picking;
                if self.is_at_a_root(dir.as_str(), folder_real, roots_real) {
                    state.parent = None;
                }
                state.roots = named;
                state
            },
        }
    }
}

} // verus!

verus! {

// ---------------------------------------------------------------- reading one file of the library

/// Why a file outside the library is not previewed or drawn.
pub const SAMPLE_NOT_IN_LIBRARY: &'static str = "that sample is not in your sample library";

/// Why a file of another kind is not drawn as a waveform.
pub const NOT_A_READABLE_SAMPLE: &'static str = "that is not a sample this plugin can read";

/// Why a contained sample that is no longer a file is not previewed.
pub const SAMPLE_GONE: &'static str = "that sample is not there";

/// Every refusal of a MIDI read but the network one and the size one: one
/// message, so a page cannot tell a missing file from one outside the library.
pub const NOT_A_LIBRARY_MIDI: &'static str = "that is not a MIDI file in your sample library";

/// Why a MIDI file past [`MAX_MIDI_BYTES`] is not read.
pub const MIDI_TOO_LARGE: &'static str = "that MIDI file is too large to train from";

/// The longest MIDI file that is read, in bytes.
pub const MAX_MIDI_BYTES: u64 = 1048576;

/// The name a MIDI file with no stem is read under.
pub const IMPORTED: &'static str = "imported";

/// What a read of `path` as a waveform is refused with, in order, or the name
/// it is shown under: its file name, or the path itself when it has none.
pub open spec fn waveform_check(
    roots: Seq<Seq<char>>,
    roots_real: Seq<Option<String>>,
    path: Seq<char>,
    found: Option<Seq<char>>,
    sx: Syntax,
) -> Result<Seq<char>, Seq<char>> {
    if is_remote(path) {
        Err(NETWORK_PATH@)
    } else if !contained(roots, roots_real, path, found, sx) {
        Err(SAMPLE_NOT_IN_LIBRARY@)
    } else if spec_kind_of(path, sx) != Some(crate::paths::Kind::Audio) {
        Err(NOT_A_READABLE_SAMPLE@)
    } else {
        Ok(match spec_file_name(path, sx) {
            Some(n) => n,
            None => path,
        })
    }
}

/// The file name of `path`, or `path` itself when it has none.
fn name_or_path(path: &str, sx: Syntax) -> (r: String)
    ensures
        r@ == match spec_file_name(path@, sx) {
            Some(n) => n,
            None => path@,
        },
{
    match file_name_of(path, sx) {
        Some(n) => string_of(&n),
        None => path.to_string(),
    }
}

impl Explorer {
    /// Whether `path` may be decoded and drawn as a waveform, as
    /// [`waveform_check`] says: never a network path, only a file the library
    /// would list, and only audio.
    pub fn waveform_source(&self, path: &str, found: &Option<String>, roots_real: &Vec<Option<String>>) -> (r: Result<
        String,
        String,
    >)
        ensures
            match r {
                Ok(n) => waveform_check(self@.0, roots_real@, path@, opt_text(*found), self@.3) == Ok::<Seq<char>, Seq<char>>(n@),
                Err(e) => waveform_check(self@.0, roots_real@, path@, opt_text(*found), self@.3) == Err::<Seq<char>, Seq<char>>(e@),
            },
    {
        if let Err(e) = refuse_remote(path) {
            return Err(e);
        }
        if !self.contains(path, found, roots_real) {
            return Err(SAMPLE_NOT_IN_LIBRARY.to_string());
        }
        if !crate::paths::is_audio(path, self.syntax) {
            return Err(NOT_A_READABLE_SAMPLE.to_string());
        }
        Ok(name_or_path(path, self.syntax))
    }

    /// Whether the sample at `path` may be loaded into the preview player: never
    /// a network path, only a file the library would list, and only one that is
    /// still a file (`is_file`, asked only once the first two hold).
    pub fn preview_source(
        &self,
        path: &str,
        found: &Option<String>,
        roots_real: &Vec<Option<String>>,
        is_file: bool,
    ) -> (r: Result<(), String>)
        ensures
            is_remote(path@) ==> r is Err && r->Err_0@ == NETWORK_PATH@,
            !is_remote(path@) && !contained(self@.0, roots_real@, path@, opt_text(*found), self@.3) ==> r is Err
                && r->Err_0@ == SAMPLE_NOT_IN_LIBRARY@,
            contained(self@.0, roots_real@, path@, opt_text(*found), self@.3) && !is_file ==> r is Err && r->Err_0@ == SAMPLE_GONE@,
            contained(self@.0, roots_real@, path@, opt_text(*found), self@.3) && is_file ==> r is Ok,
    {
        if let Err(e) = refuse_remote(path) {
            return Err(e);
        }
        if !self.contains(path, found, roots_real) {
            return Err(SAMPLE_NOT_IN_LIBRARY.to_string());
        }
        if !is_file {
            return Err(SAMPLE_GONE.to_string());
        }
        Ok(())
    }

    /// Whether `path` may be read as a MIDI file: never a network path, and
    /// only a MIDI file the library would list; every other refusal is the one
    /// message. Its size is asked only once this holds.
    pub fn midi_source(&self, path: &str, found: &Option<String>, roots_real: &Vec<Option<String>>) -> (r: Result<
        (),
        String,
    >)
        ensures
            is_remote(path@) ==> r is Err && r->Err_0@ == NETWORK_PATH@,
            !is_remote(path@) && !(contained(self@.0, roots_real@, path@, opt_text(*found), self@.3) && spec_kind_of(path@, self@.3)
                == Some(crate::paths::Kind::Midi)) ==> r is Err && r->Err_0@ == NOT_A_LIBRARY_MIDI@,
            contained(self@.0, roots_real@, path@, opt_text(*found), self@.3) && spec_kind_of(path@, self@.3) == Some(
                crate::paths::Kind::Midi,
            ) ==> r is Ok,
    {
        if let Err(e) = refuse_remote(path) {
            return Err(e);
        }
        if !self.contains(path, found, roots_real) {
            return Err(NOT_A_LIBRARY_MIDI.to_string());
        }
        match kind_of(path, self.syntax) {
            Some(crate::paths::Kind::Midi) => Ok(()),
            _ => Err(NOT_A_LIBRARY_MIDI.to_string()),
        }
    }
}

/// Whether a MIDI file of `size` bytes (`None` when its size could not be
/// read) may be read, and the name what comes out of it is given: its stem, or
/// `imported`.
pub fn midi_read_name(path: &str, size: Option<u64>, sx: Syntax) -> (r: Result<String, String>)
    ensures
        size is None ==> r is Err && r->Err_0@ == NOT_A_LIBRARY_MIDI@,
        size matches Some(n) && n > MAX_MIDI_BYTES ==> r is Err && r->Err_0@ == MIDI_TOO_LARGE@,
        size matches Some(n) && n <= MAX_MIDI_BYTES ==> r is Ok && r->Ok_0@ == match crate::models::spec_file_stem(
            path@,
            sx,
        ) {
            Some(s) => s,
            None => IMPORTED@,
        },
{
    match size {
        None => Err(NOT_A_LIBRARY_MIDI.to_string()),
        Some(n) => if n > MAX_MIDI_BYTES {
            Err(MIDI_TOO_LARGE.to_string())
        } else {
            match crate::models::file_stem_of(path, sx) {
                Some(s) => Ok(s),
                None => Ok(IMPORTED.to_string()),
            }
        },
    }
}

} // verus!

verus! {

/// The name of the file this machine's library is kept in, under the per-user
/// data folder.
pub const LIBRARY_FILE: &'static str = "library.json";

/// Where this machine's library is kept: per user, beside the presets, so it
/// comes back with a standalone launch as well as with a project.
pub fn library_path(data_dir: Option<String>, sx: Syntax) -> (r: Option<String>)
    ensures
        match data_dir {
            Some(d) => r is Some && r->Some_0@ == crate::paths::joined(d@, LIBRARY_FILE@, sx),
            None => r is None,
        },
{
    match data_dir {
        Some(d) => Some(crate::paths::join_name(d.as_str(), LIBRARY_FILE, sx)),
        None => None,
    }
}

} // verus!

verus! {

/// What a project file puts back is never more than [`MAX_STORED_ROOTS`]
/// folders, each one of the folders it named, none on another machine and
/// none shallower than a library is.
pub proof fn a_restored_library_is_bounded_and_local(paths: Seq<Seq<char>>, sx: Syntax)
    ensures
        restored(paths, sx).len() <= MAX_STORED_ROOTS,
        forall|i: int| 0 <= i < restored(paths, sx).len() ==> {
            &&& paths.contains(#[trigger] restored(paths, sx)[i])
            &&& plausible_root(restored(paths, sx)[i], sx)
        },
    decreases paths.len(),
{
    if paths.len() > 0 {
        let rest = paths.drop_last();
        a_restored_library_is_bounded_and_local(rest, sx);
        let r = restored(rest, sx);
        assert forall|i: int| 0 <= i < restored(paths, sx).len() implies {
            &&& paths.contains(#[trigger] restored(paths, sx)[i])
            &&& plausible_root(restored(paths, sx)[i], sx)
        } by {
            if i < r.len() {
                assert(restored(paths, sx)[i] == r[i]);
                let k = choose|k: int| 0 <= k < rest.len() && rest[k] == r[i];
                assert(paths[k] == rest[k]);
            } else {
                assert(paths[paths.len() - 1] == paths.last());
            }
        }
    }
}

proof fn lemma_inside_is_transitive(a: Seq<char>, b: Seq<char>, c: Seq<char>, sx: Syntax)
    requires
        spec_starts_with(a, b, sx),
        spec_starts_with(b, c, sx),
    ensures
        spec_starts_with(a, c, sx),
{
    let ca = components(a, sx);
    let cb = components(b, sx);
    let cc = components(c, sx);
    assert(ca.subrange(0, cc.len() as int) =~= ca.subrange(0, cb.len() as int).subrange(0, cc.len() as int));
}

/// What the library hands the page is accepted back: a path that resolves
/// inside a folder the library admitted is admitted too (so a listed
/// subfolder opens), and one that resolves inside a folder lying in a root
/// that resolves is contained (so a listed file is allowed through).
pub proof fn what_lies_in_an_admitted_folder_is_accepted_back(
    roots: Seq<Seq<char>>,
    roots_real: Seq<Option<String>>,
    dir: Seq<char>,
    dir_real: Seq<char>,
    path: Seq<char>,
    path_real: Seq<char>,
    sx: Syntax,
)
    requires
        !is_remote(path),
        spec_starts_with(path_real, dir_real, sx),
    ensures
        admitted(roots, roots_real, dir, Some(dir_real), sx) ==> admitted(roots, roots_real, path, Some(path_real), sx),
        contained(roots, roots_real, dir, Some(dir_real), sx) ==> contained(roots, roots_real, path, Some(path_real), sx),
{
    if admitted(roots, roots_real, dir, Some(dir_real), sx) {
        let i = choose|i: int| 0 <= i < roots.len() && #[trigger] spec_same_or_inside(
            roots[i], real_at(roots_real, i), dir_real, Some(dir_real), sx);
        match real_at(roots_real, i) {
            Some(r) => lemma_inside_is_transitive(path_real, dir_real, r, sx),
            None => lemma_inside_is_transitive(path_real, dir_real, roots[i], sx),
        }
        assert(spec_same_or_inside(roots[i], real_at(roots_real, i), path_real, Some(path_real), sx));
    }
    if contained(roots, roots_real, dir, Some(dir_real), sx) {
        let i = choose|i: int| 0 <= i < roots.len() && #[trigger] real_at(roots_real, i) is Some && spec_starts_with(
            dir_real, real_at(roots_real, i)->0, sx);
        lemma_inside_is_transitive(path_real, dir_real, real_at(roots_real, i)->0, sx);
        assert(real_at(roots_real, i) is Some && spec_starts_with(path_real, real_at(roots_real, i)->0, sx));
    }
}

/// The plausible roots among `paths`, in order.
pub open spec fn plausible_roots(paths: Seq<Seq<char>>, sx: Syntax) -> Seq<Seq<char>>
    decreases paths.len(),
{
    if paths.len() == 0 {
        Seq::<Seq<char>>::empty()
    } else if plausible_root(paths.last(), sx) {
        plausible_roots(paths.drop_last(), sx).push(paths.last())
    } else {
        plausible_roots(paths.drop_last(), sx)
    }
}

/// A restore keeps the local paths at least two named components deep, in
/// the order the project wrote them, and of those the first
/// [`MAX_STORED_ROOTS`].
pub proof fn a_restore_keeps_the_first_plausible_roots(paths: Seq<Seq<char>>, sx: Syntax)
    ensures
        restored(paths, sx) == plausible_roots(paths, sx).take(
            if plausible_roots(paths, sx).len() < MAX_STORED_ROOTS {
                plausible_roots(paths, sx).len() as int
            } else {
                MAX_STORED_ROOTS as int
            },
        ),
    decreases paths.len(),
{
    let f = plausible_roots(paths, sx);
    if paths.len() == 0 {
        assert(f.take(0) =~= Seq::<Seq<char>>::empty());
    } else {
        let rest = paths.drop_last();
        a_restore_keeps_the_first_plausible_roots(rest, sx);
        let fr = plausible_roots(rest, sx);
        let r = restored(rest, sx);
        if plausible_root(paths.last(), sx) {
            if r.len() < MAX_STORED_ROOTS {
                assert(fr.len() < MAX_STORED_ROOTS);
                assert(fr.take(fr.len() as int) =~= fr);
                assert(f.take(f.len() as int) =~= f);
            } else {
                assert(fr.len() >= MAX_STORED_ROOTS);
                assert(f.take(MAX_STORED_ROOTS as int) =~= fr.take(MAX_STORED_ROOTS as int));
            }
        }
    }
}

} // verus!
