//! Starred samples, one-shots and MIDI files, kept by path: what a star
//! admits, what unstarring removes, and which paths may be shown in the
//! system's file manager.

use vstd::prelude::*;
use crate::paths::{Kind, NETWORK_PATH, Syntax, is_remote, joined, spec_file_name, spec_kind_of, kind_label};
use crate::text::{copy_string, opt_text, same_text};

verus! {

/// How many favourites a producer may keep.
pub const MAX_FAVOURITES: usize = 500;

/// Why a file of another kind cannot be starred.
pub const NOT_USABLE: &'static str = "that is not a file this plugin can use";

/// Why a star is refused when the list is full.
pub const FULL: &'static str = "you can keep 500 favourites — unstar one to add another";

/// Why only a starred path can be shown in the file manager.
pub const NOT_STARRED: &'static str = "that file is not one of your favourites";

/// The name of the file the favourites are kept in.
pub const STORE_NAME: &'static str = "favourites.json";

/// One starred file.
#[derive(Clone, Debug, PartialEq, Eq)]
pub struct Favourite {
    /// The full path: both the identity and the way back to it.
    pub path: String,
    /// The file's own name.
    pub name: String,
    /// `"audio"` or `"midi"`.
    pub kind: String,
}

impl View for Favourite {
    type V = (Seq<char>, Seq<char>, Seq<char>);

    open spec fn view(&self) -> (Seq<char>, Seq<char>, Seq<char>) {
        (self.path@, self.name@, self.kind@)
    }
}

/// The views of a list of favourites.
pub open spec fn favourite_views(v: Seq<Favourite>) -> Seq<(Seq<char>, Seq<char>, Seq<char>)> {
    v.map_values(|f: Favourite| f@)
}

/// Whether `path` is starred in `list`.
pub open spec fn starred(list: Seq<(Seq<char>, Seq<char>, Seq<char>)>, path: Seq<char>) -> bool {
    exists|i: int| 0 <= i < list.len() && (#[trigger] list[i]).0 == path
}

/// The entry a star on `path` adds: its path, its file name (the path itself
/// when it has none) and its kind.
pub open spec fn entry_for(path: Seq<char>, kind: Kind, sx: Syntax) -> (Seq<char>, Seq<char>, Seq<char>) {
    let name = match spec_file_name(path, sx) {
        Some(n) => n,
        None => path,
    };
    (path, name, kind_label(kind))
}

/// The entries of `list` whose path is not `path`, in order.
pub open spec fn without_path(
    list: Seq<(Seq<char>, Seq<char>, Seq<char>)>,
    path: Seq<char>,
) -> Seq<(Seq<char>, Seq<char>, Seq<char>)>
    decreases list.len(),
{
    if list.len() == 0 {
        list
    } else if list.last().0 == path {
        without_path(list.drop_last(), path)
    } else {
        without_path(list.drop_last(), path).push(list.last())
    }
}

/// Where the favourites are kept, under the per-user data folder.
pub fn path_of_store(data_dir: Option<String>, sx: Syntax) -> (r: Option<String>)
    ensures
        match data_dir {
            Some(d) => r is Some && r->Some_0@ == joined(d@, STORE_NAME@, sx),
            None => r is None,
        },
{
    match data_dir {
        Some(d) => Some(crate::paths::join_name(d.as_str(), STORE_NAME, sx)),
        None => None,
    }
}

/// The favourites as read from the store, capped at [`MAX_FAVOURITES`]: the
/// file arrives from disk, where anything could have edited it.
pub fn list(stored: Vec<Favourite>) -> (r: Vec<Favourite>)
    ensures
        r@ == stored@.subrange(0, if stored.len() < MAX_FAVOURITES { stored.len() as int } else { MAX_FAVOURITES as int }),
{
    let mut stored = stored;
    stored.truncate(MAX_FAVOURITES);
    stored
}

fn copy_favourite(f: &Favourite) -> (r: Favourite)
    ensures
        r@ == f@,
{
    Favourite { path: copy_string(&f.path), name: copy_string(&f.name), kind: copy_string(&f.kind) }
}

/// Whether `path` is starred in `list`.
pub fn is_starred(list: &Vec<Favourite>, path: &str) -> (r: bool)
    ensures
        r == starred(favourite_views(list@), path@),
{
    let ghost v = favourite_views(list@);
    let mut i: usize = 0;
    while i < list.len()
        invariant
            i <= list.len(),
            v == favourite_views(list@),
            forall|k: int| 0 <= k < i ==> v[k].0 != path@,
        decreases list.len() - i,
    {
        if same_text(list[i].path.as_str(), path) {
            assert(v[i as int].0 == path@);
            return true;
        }
        i = i + 1;
    }
    false
}

/// What starring `path` in `list` gives: refused, in this order, for a
/// network path, for a file that is neither audio nor MIDI, and for a new
/// star on a full list; a path already starred gives the list back as it was;
/// otherwise its entry is added at the end.
pub open spec fn starring(
    list: Seq<(Seq<char>, Seq<char>, Seq<char>)>,
    path: Seq<char>,
    sx: Syntax,
) -> Result<Seq<(Seq<char>, Seq<char>, Seq<char>)>, Seq<char>> {
    if is_remote(path) {
        Err(NETWORK_PATH@)
    } else if spec_kind_of(path, sx) is None {
        Err(NOT_USABLE@)
    } else if starred(list, path) {
        Ok(list)
    } else if list.len() >= MAX_FAVOURITES {
        Err(FULL@)
    } else {
        Ok(list.push(entry_for(path, spec_kind_of(path, sx)->Some_0, sx)))
    }
}

/// The view of a list of favourites or of the reason it was refused.
pub open spec fn outcome_view(r: Result<Vec<Favourite>, String>) -> Result<Seq<(Seq<char>, Seq<char>, Seq<char>)>, Seq<char>> {
    match r {
        Ok(v) => Ok(favourite_views(v@)),
        Err(e) => Err(e@),
    }
}

/// Stars `path` in `current`, as [`starring`] says.
pub fn add(current: Vec<Favourite>, path: &str, sx: Syntax) -> (r: Result<Vec<Favourite>, String>)
    ensures
        outcome_view(r) == starring(favourite_views(current@), path@, sx),
{
    if let Err(e) = crate::paths::refuse_remote(path) {
        return Err(e);
    }
    let kind = match crate::paths::kind_of(path, sx) {
        Some(k) => k,
        None => return Err(NOT_USABLE.to_string()),
    };
    if is_starred(&current, path) {
        return Ok(current);
    }
    if current.len() >= MAX_FAVOURITES {
        return Err(FULL.to_string());
    }
    let name = match crate::paths::file_name_of(path, sx) {
        Some(n) => crate::text::string_of(&n),
        None => path.to_string(),
    };
    let mut list = current;
    let ghost before = list@;
    let entry = Favourite { path: path.to_string(), name, kind: kind.label().to_string() };
    list.push(entry);
    assert(favourite_views(list@) =~= favourite_views(before).push(entry_for(path@, kind, sx)));
    Ok(list)
}

/// Unstars `path`: its entry goes and nothing else changes.
pub fn remove(current: &Vec<Favourite>, path: &str) -> (r: Vec<Favourite>)
    ensures
        favourite_views(r@) == without_path(favourite_views(current@), path@),
{
    let ghost all = favourite_views(current@);
    let mut r: Vec<Favourite> = Vec::new();
    let mut i: usize = 0;
    while i < current.len()
        invariant
            i <= current.len(),
            all == favourite_views(current@),
            favourite_views(r@) == without_path(all.subrange(0, i as int), path@),
        decreases current.len() - i,
    {
        let ghost seen = all.subrange(0, i + 1);
        assert(seen.drop_last() =~= all.subrange(0, i as int));
        if !same_text(current[i].path.as_str(), path) {
            let ghost before = r@;
            r.push(copy_favourite(&current[i]));
            assert(favourite_views(r@) =~= favourite_views(before).push(all[i as int]));
        }
        i = i + 1;
    }
    assert(all.subrange(0, i as int) =~= all);
    r
}

/// Whether `path` may be shown in the system's file manager: only a path that
/// is already starred, and never a network path.
pub fn reveal_favourite(current: &Vec<Favourite>, path: &str) -> (r: Result<(), String>)
    ensures
        !starred(favourite_views(current@), path@) ==> r is Err && r->Err_0@ == NOT_STARRED@,
        starred(favourite_views(current@), path@) && is_remote(path@) ==> r is Err && r->Err_0@ == NETWORK_PATH@,
        starred(favourite_views(current@), path@) && !is_remote(path@) ==> r is Ok,
{
    if !is_starred(current, path) {
        return Err(NOT_STARRED.to_string());
    }
    crate::paths::refuse_remote(path)
}

} // verus!

verus! {

/// Starring is idempotent: starring again what a star gave back changes
/// nothing, so starring twice is one entry.
pub proof fn starring_twice_is_one_entry(list: Seq<(Seq<char>, Seq<char>, Seq<char>)>, path: Seq<char>, sx: Syntax)
    requires
        starring(list, path, sx) is Ok,
    ensures
        starring(starring(list, path, sx)->Ok_0, path, sx) == starring(list, path, sx),
{
    let once = starring(list, path, sx)->Ok_0;
    if !starred(list, path) {
        assert(once[list.len() as int].0 == path);
    }
    assert(starred(once, path));
}

proof fn lemma_starred_push(
    list: Seq<(Seq<char>, Seq<char>, Seq<char>)>,
    x: (Seq<char>, Seq<char>, Seq<char>),
    q: Seq<char>,
)
    ensures
        starred(list.push(x), q) <==> (starred(list, q) || x.0 == q),
{
    let l = list.push(x);
    if starred(l, q) {
        let i = choose|i: int| 0 <= i < l.len() && (#[trigger] l[i]).0 == q;
        if i < list.len() {
            assert(list[i].0 == q);
        }
    }
    if starred(list, q) {
        let i = choose|i: int| 0 <= i < list.len() && (#[trigger] list[i]).0 == q;
        assert(l[i].0 == q);
    }
    if x.0 == q {
        assert(l[list.len() as int].0 == q);
    }
}

/// After unstarring, the path is no longer starred, so it can no longer be
/// shown in the file manager; every other path is starred exactly when it was.
pub proof fn unstarring_forgets_only_that_path(
    list: Seq<(Seq<char>, Seq<char>, Seq<char>)>,
    path: Seq<char>,
    other: Seq<char>,
)
    ensures
        starred(without_path(list, path), other) <==> (other != path && starred(list, other)),
    decreases list.len(),
{
    if list.len() == 0 {
    } else {
        let rest = list.drop_last();
        assert(list == rest.push(list.last()));
        unstarring_forgets_only_that_path(rest, path, other);
        lemma_starred_push(rest, list.last(), other);
        if list.last().0 != path {
            lemma_starred_push(without_path(rest, path), list.last(), other);
        }
    }
}

} // verus!

verus! {

/// Why a star outside the library is refused.
pub const NOT_IN_LIBRARY: &'static str = "that file is not in your sample library";

/// Stars `path` from the page: only a file the library would list may be
/// starred, since a star is what a reveal is later allowed on; then as
/// [`starring`] says.
pub fn star_from_library(
    explorer: &crate::explorer::Explorer,
    current: Vec<Favourite>,
    path: &str,
    found: &Option<String>,
    roots_real: &Vec<Option<String>>,
) -> (r: Result<Vec<Favourite>, String>)
    ensures
        !crate::explorer::contained(explorer@.0, roots_real@, path@, opt_text(*found), explorer@.3) ==> r is Err
            && r->Err_0@ == NOT_IN_LIBRARY@,
        crate::explorer::contained(explorer@.0, roots_real@, path@, opt_text(*found), explorer@.3) ==> outcome_view(r)
            == starring(favourite_views(current@), path@, explorer@.3),
{
    if !explorer.contains(path, found, roots_real) {
        return Err(NOT_IN_LIBRARY.to_string());
    }
    self::add(current, path, explorer.syntax())
}

} // verus!
