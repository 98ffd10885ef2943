//! The producer's own style models: which ids a saved model may take, which
//! files in the models folder reach the roster, where a style's copied
//! samples live, and what copying them costs.

use vstd::prelude::*;
use crate::names::{safe_stem, trim, Trim};
use crate::paths::{components, is_remote, joined, last_dot, spec_extension, spec_file_name, Syntax};
use crate::text::{chars_of, copy_string, opt_text, same_text, string_of, strs};

verus! {

/// The name of the folder user models are kept in, under the per-user data folder.
pub const MODELS_FOLDER: &'static str = "models";

/// The name of the folder a style keeps its own samples in.
pub const SAMPLES_FOLDER: &'static str = "samples";

/// Why a model without an id is refused.
pub const NEEDS_AN_ID: &'static str = "a model needs an `id`";

/// The most a single style's samples may come to: a quarter of a gigabyte.
pub const MAX_COPY_BYTES: u64 = 268435456;

/// What `serde_json` reads as the `id` field of a model file: the string under
/// `"id"` when the text is a JSON object that has one, and nothing otherwise.
/// It depends on the text alone.
pub uninterp spec fn declared_id(text: Seq<char>) -> Option<Seq<char>>;

/// `serde_json::from_str::<Value>`, then the `"id"` field as a string.
#[verifier::external_body]
fn id_of(text: &str) -> (r: Option<String>)
    ensures
        opt_text(r) == declared_id(text@),
{
    serde_json::from_str::<serde_json::Value>(text).ok()?.get("id")?.as_str().map(str::to_owned)
}

/// `a`, then `b`, then `c`.
pub open spec fn cat3(a: Seq<char>, b: Seq<char>, c: Seq<char>) -> Seq<char> {
    a + b + c
}

/// `` `id` cannot be a model id — … ``.
pub open spec fn not_an_id(id: Seq<char>) -> Seq<char> {
    cat3(seq!['`'], id, "` cannot be a model id — use lower-case letters, digits and hyphens"@)
}

/// `` `id` is reserved: … ``.
pub open spec fn reserved(id: Seq<char>) -> Seq<char> {
    cat3(seq!['`'], id, "` is reserved: ids beginning with `_` are internal"@)
}

/// `` `id` is a shipped model — … ``.
pub open spec fn shipped_id(id: Seq<char>) -> Seq<char> {
    cat3(
        seq!['`'],
        id,
        "` is a shipped model — choose another id, or your version would replace it everywhere without saying so"@,
    )
}

/// `` `id` is not a model id ``.
pub open spec fn not_a_model_id(id: Seq<char>) -> Seq<char> {
    cat3(seq!['`'], id, "` is not a model id"@)
}

/// `` `id` is a shipped model and cannot be deleted ``.
pub open spec fn shipped_cannot_go(id: Seq<char>) -> Seq<char> {
    cat3(seq!['`'], id, "` is a shipped model and cannot be deleted"@)
}

/// The id a candidate model may be saved or trained under: the declared id,
/// trimmed, which must not be empty, must be a safe file stem, must not begin
/// with `_`, and must not be one a shipped model uses.
pub open spec fn usable(raw: Seq<char>, shipped: Seq<Seq<char>>) -> Result<Seq<char>, Seq<char>> {
    match declared_id(raw) {
        None => Err(NEEDS_AN_ID@),
        Some(d) => {
            let id = trim(d, Trim::Space);
            if id.len() == 0 {
                Err(NEEDS_AN_ID@)
            } else if !safe_stem(id) {
                Err(not_an_id(id))
            } else if id[0] == '_' {
                Err(reserved(id))
            } else if shipped.contains(id) {
                Err(shipped_id(id))
            } else {
                Ok(id)
            }
        },
    }
}

fn join3(a: &str, b: &str, c: &str) -> (r: String)
    ensures
        r@ == cat3(a@, b@, c@),
{
    let mut out = chars_of(a);
    let more = chars_of(b);
    let last = chars_of(c);
    let ghost head = out@;
    let mut i: usize = 0;
    while i < more.len()
        invariant
            i <= more.len(),
            out@ == head + more@.subrange(0, i as int),
        decreases more.len() - i,
    {
        out.push(more[i]);
        i = i + 1;
    }
    let ghost mid = out@;
    let mut j: usize = 0;
    while j < last.len()
        invariant
            j <= last.len(),
            out@ == mid + last@.subrange(0, j as int),
        decreases last.len() - j,
    {
        out.push(last[j]);
        j = j + 1;
    }
    assert(out@ =~= cat3(a@, b@, c@));
    string_of(&out)
}

/// Whether `v` holds the text `s`.
fn holds(v: &Vec<String>, s: &str) -> (r: bool)
    ensures
        r == strs(v@).contains(s@),
{
    let mut i: usize = 0;
    while i < v.len()
        invariant
            i <= v.len(),
            forall|k: int| 0 <= k < i ==> strs(v@)[k] != s@,
        decreases v.len() - i,
    {
        if same_text(v[i].as_str(), s) {
            assert(strs(v@)[i as int] == s@);
            return true;
        }
        i = i + 1;
    }
    false
}

/// The id the model text `raw` may be saved or trained under, as [`usable`]
/// says, given the ids of the shipped models.
pub fn usable_id(raw: &str, shipped: &Vec<String>) -> (r: Result<String, String>)
    ensures
        match r {
            Ok(id) => usable(raw@, strs(shipped@)) == Ok::<Seq<char>, Seq<char>>(id@),
            Err(e) => usable(raw@, strs(shipped@)) == Err::<Seq<char>, Seq<char>>(e@),
        },
{
    proof {
        reveal_strlit("`");
        assert("`"@ =~= seq!['`']);
    }
    let declared = match id_of(raw) {
        Some(d) => d,
        None => return Err(NEEDS_AN_ID.to_string()),
    };
    let t = crate::names::trim_chars(&chars_of(declared.as_str()), Trim::Space);
    if t.len() == 0 {
        return Err(NEEDS_AN_ID.to_string());
    }
    let id = string_of(&t);
    if !crate::names::is_safe_stem(id.as_str()) {
        return Err(join3("`", id.as_str(), "` cannot be a model id — use lower-case letters, digits and hyphens"));
    }
    if t[0] == '_' {
        return Err(join3("`", id.as_str(), "` is reserved: ids beginning with `_` are internal"));
    }
    if holds(shipped, id.as_str()) {
        return Err(join3(
            "`",
            id.as_str(),
            "` is a shipped model — choose another id, or your version would replace it everywhere without saying so",
        ));
    }
    Ok(id)
}

/// Where user models are written, under the per-user data folder.
pub fn user_dir(data_dir: Option<String>, sx: Syntax) -> (r: Option<String>)
    ensures
        match data_dir {
            Some(d) => r is Some && r->Some_0@ == joined(d@, MODELS_FOLDER@, sx),
            None => r is None,
        },
{
    match data_dir {
        Some(d) => Some(crate::paths::join_name(d.as_str(), MODELS_FOLDER, sx)),
        None => None,
    }
}

/// `id.json`.
pub open spec fn json_name(id: Seq<char>) -> Seq<char> {
    id + ".json"@
}

fn json_name_of(id: &str) -> (r: String)
    ensures
        r@ == json_name(id@),
{
    let mut out = chars_of(id);
    let ext = chars_of(".json");
    let ghost head = out@;
    let mut i: usize = 0;
    while i < ext.len()
        invariant
            i <= ext.len(),
            out@ == head + ext@.subrange(0, i as int),
        decreases ext.len() - i,
    {
        out.push(ext[i]);
        i = i + 1;
    }
    assert(ext@.subrange(0, i as int) =~= ext@);
    string_of(&out)
}

/// The file of user model `id` that a delete removes: refused for an id that
/// could be a path, and for a shipped model, which is compiled in.
pub fn delete(dir: &str, id: &str, shipped: &Vec<String>, sx: Syntax) -> (r: Result<String, String>)
    ensures
        !safe_stem(id@) ==> r is Err && r->Err_0@ == not_a_model_id(id@),
        safe_stem(id@) && strs(shipped@).contains(id@) ==> r is Err && r->Err_0@ == shipped_cannot_go(id@),
        safe_stem(id@) && !strs(shipped@).contains(id@) ==> r is Ok && r->Ok_0@ == joined(dir@, json_name(id@), sx),
{
    proof {
        reveal_strlit("`");
        assert("`"@ =~= seq!['`']);
    }
    if !crate::names::is_safe_stem(id) {
        return Err(join3("`", id, "` is not a model id"));
    }
    if holds(shipped, id) {
        return Err(join3("`", id, "` is a shipped model and cannot be deleted"));
    }
    Ok(crate::paths::join_name(dir, json_name_of(id).as_str(), sx))
}

/// The file a model is exported from, so it can be backed up or handed on:
/// refused for an id that could be a path.
pub fn export(dir: &str, id: &str, sx: Syntax) -> (r: Result<String, String>)
    ensures
        !safe_stem(id@) ==> r is Err && r->Err_0@ == not_a_model_id(id@),
        safe_stem(id@) ==> r is Ok && r->Ok_0@ == joined(dir@, json_name(id@), sx),
{
    proof {
        reveal_strlit("`");
        assert("`"@ =~= seq!['`']);
    }
    if !crate::names::is_safe_stem(id) {
        return Err(join3("`", id, "` is not a model id"));
    }
    Ok(crate::paths::join_name(dir, json_name_of(id).as_str(), sx))
}

} // verus!

verus! {

// ---------------------------------------------------------------- which files reach the roster

/// The file name without its extension: `Path::file_stem`.
pub open spec fn spec_file_stem(path: Seq<char>, sx: Syntax) -> Option<Seq<char>> {
    match spec_file_name(path, sx) {
        Some(n) => Some(if last_dot(n) > 0 { n.subrange(0, last_dot(n)) } else { n }),
        None => None,
    }
}

/// How a user file is named to the loader: `<user>/stem.json`, so a problem
/// naming it says which half of the roster it came from.
pub open spec fn tagged(stem: Seq<char>) -> Seq<char> {
    "<user>/"@ + json_name(stem)
}

/// Whether a file of the models folder goes to the loader, and as what: a
/// `.json` file whose stem is a safe id and whose declared id, if it declares
/// one, is its own stem. A file that declares no id still goes, so the loader
/// can say what is wrong with it.
pub open spec fn admitted(file: (Seq<char>, Seq<char>), sx: Syntax) -> Option<(Seq<char>, Seq<char>)> {
    let (path, text) = file;
    if spec_extension(path, sx) != Some("json"@) {
        None
    } else {
        let stem = spec_file_stem(path, sx)->Some_0;
        if !safe_stem(stem) {
            None
        } else if declared_id(text) matches Some(id) && id != stem {
            None
        } else {
            Some((tagged(stem), text))
        }
    }
}

/// The admitted files of a listing, in listing order.
pub open spec fn user_files(listing: Seq<(Seq<char>, Seq<char>)>, sx: Syntax) -> Seq<(Seq<char>, Seq<char>)>
    decreases listing.len(),
{
    if listing.len() == 0 {
        Seq::<(Seq<char>, Seq<char>)>::empty()
    } else {
        match admitted(listing.last(), sx) {
            Some(f) => user_files(listing.drop_last(), sx).push(f),
            None => user_files(listing.drop_last(), sx),
        }
    }
}

/// The views of path-and-text pairs.
pub open spec fn pair_texts(v: Seq<(String, String)>) -> Seq<(Seq<char>, Seq<char>)> {
    v.map_values(|p: (String, String)| (p.0@, p.1@))
}

pub fn file_stem_of(path: &str, sx: Syntax) -> (r: Option<String>)
    ensures
        opt_text(r) == spec_file_stem(path@, sx),
{
    match crate::paths::file_name_of(path, sx) {
        None => None,
        Some(n) => match crate::paths::find_last_dot(&n) {
            Some(d) if d > 0 => {
                proof {
                    crate::paths::lemma_last_dot_bounds(n@);
                }
                let mut s: Vec<char> = Vec::new();
                let mut i: usize = 0;
                while i < d
                    invariant
                        i <= d < n.len(),
                        s@ == n@.subrange(0, i as int),
                    decreases d - i,
                {
                    s.push(n[i]);
                    i = i + 1;
                }
                Some(string_of(&s))
            },
            _ => Some(string_of(&n)),
        },
    }
}

fn take_in(path: &str, text: &str, sx: Syntax) -> (r: Option<(String, String)>)
    ensures
        match r {
            Some(f) => admitted((path@, text@), sx) == Some((f.0@, f.1@)),
            None => admitted((path@, text@), sx) is None,
        },
{
    proof {
        reveal_strlit("json");
    }
    let json = chars_of("json");
    let is_json = match crate::paths::extension_of(path, sx) {
        Some(e) => crate::text::same_chars(&e, &json),
        None => false,
    };
    if !is_json {
        return None;
    }
    let stem = match file_stem_of(path, sx) {
        Some(s) => s,
        None => return None,
    };
    if !crate::names::is_safe_stem(stem.as_str()) {
        return None;
    }
    if let Some(id) = id_of(text) {
        if !same_text(id.as_str(), stem.as_str()) {
            return None;
        }
    }
    let name = json_name_of(stem.as_str());
    let tag = join3("<user>/", name.as_str(), "");
    proof {
        reveal_strlit("");
        assert(""@ =~= Seq::<char>::empty());
        assert(tag@ =~= tagged(stem@));
    }
    Some((tag, text.to_string()))
}

/// The files of the models folder that go to the loader, as [`admitted`]
/// says, sorted by the name they are tagged with so that inheritance never
/// depends on the order the folder was read in.
pub fn read_files(listing: &Vec<(String, String)>, sx: Syntax) -> (r: Vec<(String, String)>)
    ensures
        pair_texts(r@).to_multiset() == user_files(pair_texts(listing@), sx).to_multiset(),
        forall|i: int, j: int| 0 <= i < j < r@.len() ==> crate::order::lex_le(#[trigger] r@[i].0@, #[trigger] r@[j].0@),
{
    let ghost all = pair_texts(listing@);
    let mut keyed: Vec<(Vec<char>, (String, String))> = Vec::new();
    let mut i: usize = 0;
    while i < listing.len()
        invariant
            i <= listing.len(),
            all == pair_texts(listing@),
            keyed@.map_values(|p: (Vec<char>, (String, String))| (p.1.0@, p.1.1@)) == user_files(all.subrange(0, i as int), sx),
            forall|k: int| 0 <= k < keyed@.len() ==> (#[trigger] keyed@[k]).0@ == keyed@[k].1.0@,
        decreases listing.len() - i,
    {
        let ghost seen = all.subrange(0, i + 1);
        assert(seen.drop_last() =~= all.subrange(0, i as int));
        assert(seen.last() == (listing@[i as int].0@, listing@[i as int].1@));
        match take_in(listing[i].0.as_str(), listing[i].1.as_str(), sx) {
            Some(f) => {
                let key = chars_of(f.0.as_str());
                let ghost before = keyed@;
                let ghost fv = (f.0@, f.1@);
                keyed.push((key, f));
                assert(keyed@.map_values(|p: (Vec<char>, (String, String))| (p.1.0@, p.1.1@)) =~= before.map_values(
                    |p: (Vec<char>, (String, String))| (p.1.0@, p.1.1@),
                ).push(fv));
            },
            None => {},
        }
        i = i + 1;
    }
    assert(all.subrange(0, i as int) =~= all);
    let sorted = crate::order::sort_by_key(keyed);
    let ghost s = sorted@;
    proof {
        assert forall|k: int| 0 <= k < s.len() implies #[trigger] s[k].0@ == s[k].1.0@ by {
            crate::order::lemma_sorted_items_came_from_input(s, keyed@, k);
        }
        crate::order::lemma_map_keeps_multiset(s, keyed@, |p: (Vec<char>, (String, String))| (p.1.0@, p.1.1@));
    }
    let out = crate::order::values_of(sorted);
    proof {
        assert(pair_texts(out@) =~= s.map_values(|p: (Vec<char>, (String, String))| (p.1.0@, p.1.1@)));
        assert forall|a: int, b: int| 0 <= a < b < out@.len() implies crate::order::lex_le(
            #[trigger] out@[a].0@,
            #[trigger] out@[b].0@,
        ) by {
            assert(crate::order::keys_sorted(s));
            assert(crate::order::lex_le(s[a].0@, s[b].0@));
        }
    }
    out
}

} // verus!

verus! {

// ---------------------------------------------------------------- a style's own samples

/// An ASCII letter or digit.
pub open spec fn is_alnum(c: char) -> bool {
    crate::names::is_ascii_alnum(c)
}

/// Whether `name` is the shape a copied sample is stored under: a safe stem,
/// a `.`, and a non-empty extension of ASCII letters and digits, split at the
/// last `.`. An index entry of any other shape is never joined to a path.
pub open spec fn sample_name_ok(name: Seq<char>) -> bool {
    let d = last_dot(name);
    &&& d >= 0
    &&& safe_stem(name.subrange(0, d))
    &&& d + 1 < name.len()
    &&& forall|i: int| d + 1 <= i < name.len() ==> is_alnum(#[trigger] name[i])
}

/// [`sample_name_ok`], executable.
pub fn is_safe_sample_name(name: &str) -> (r: bool)
    ensures
        r == sample_name_ok(name@),
{
    let cs = chars_of(name);
    let d = match crate::paths::find_last_dot(&cs) {
        Some(d) => d,
        None => return false,
    };
    proof {
        crate::paths::lemma_last_dot_bounds(cs@);
    }
    let mut stem: Vec<char> = Vec::new();
    let mut i: usize = 0;
    while i < d
        invariant
            i <= d < cs.len(),
            stem@ == cs@.subrange(0, i as int),
        decreases d - i,
    {
        stem.push(cs[i]);
        i = i + 1;
    }
    if !crate::names::is_safe_stem(string_of(&stem).as_str()) {
        return false;
    }
    if d + 1 >= cs.len() {
        return false;
    }
    let mut k = d + 1;
    while k < cs.len()
        invariant
            d + 1 <= k <= cs.len(),
            cs@ == name@,
            last_dot(name@) == d,
            forall|j: int| d + 1 <= j < k ==> is_alnum(#[trigger] cs@[j]),
        decreases cs.len() - k,
    {
        let c = cs[k];
        if !(('a' <= c && c <= 'z') || ('A' <= c && c <= 'Z') || ('0' <= c && c <= '9')) {
            return false;
        }
        k = k + 1;
    }
    true
}

/// Where a style keeps the samples it owns: `dir/id/samples`.
pub fn samples_dir(dir: &str, id: &str, sx: Syntax) -> (r: String)
    ensures
        r@ == joined(joined(dir@, id@, sx), SAMPLES_FOLDER@, sx),
{
    let style = crate::paths::join_name(dir, id, sx);
    crate::paths::join_name(style.as_str(), SAMPLES_FOLDER, sx)
}

/// The samples folder of style `id`, unless the id could be a path: then there
/// is nothing to read, and nothing is.
pub fn samples_folder(dir: &str, id: &str, sx: Syntax) -> (r: Option<String>)
    ensures
        !safe_stem(id@) ==> r is None,
        safe_stem(id@) ==> r is Some && r->Some_0@ == joined(joined(dir@, id@, sx), SAMPLES_FOLDER@, sx),
{
    if crate::names::is_safe_stem(id) {
        Some(samples_dir(dir, id, sx))
    } else {
        None
    }
}

/// The index entries that may be read back, each lane with the path of its
/// copy inside the samples folder `into`.
pub open spec fn indexed(into: Seq<char>, lanes: Seq<(u8, Seq<char>)>, sx: Syntax) -> Seq<(u8, Seq<char>)>
    decreases lanes.len(),
{
    if lanes.len() == 0 {
        Seq::<(u8, Seq<char>)>::empty()
    } else if sample_name_ok(lanes.last().1) {
        indexed(into, lanes.drop_last(), sx).push((lanes.last().0, joined(into, lanes.last().1, sx)))
    } else {
        indexed(into, lanes.drop_last(), sx)
    }
}

/// The lane-and-name pairs as values.
pub open spec fn lane_texts(v: Seq<(u8, String)>) -> Seq<(u8, Seq<char>)> {
    v.map_values(|p: (u8, String)| (p.0, p.1@))
}

/// The copies a style's index names, as paths inside its samples folder
/// `into`, in index order; an entry of any shape but a stored copy's is
/// dropped rather than joined.
pub fn indexed_samples(into: &str, lanes: &Vec<(u8, String)>, sx: Syntax) -> (r: Vec<(u8, String)>)
    ensures
        lane_texts(r@) == indexed(into@, lane_texts(lanes@), sx),
{
    let ghost all = lane_texts(lanes@);
    let mut r: Vec<(u8, String)> = Vec::new();
    let mut i: usize = 0;
    while i < lanes.len()
        invariant
            i <= lanes.len(),
            all == lane_texts(lanes@),
            lane_texts(r@) == indexed(into@, all.subrange(0, i as int), sx),
        decreases lanes.len() - i,
    {
        let ghost seen = all.subrange(0, i + 1);
        assert(seen.drop_last() =~= all.subrange(0, i as int));
        assert(seen.last() == (lanes@[i as int].0, lanes@[i as int].1@));
        if is_safe_sample_name(lanes[i].1.as_str()) {
            let ghost before = r@;
            let path = crate::paths::join_name(into, lanes[i].1.as_str(), sx);
            r.push((lanes[i].0, path));
            assert(lane_texts(r@) =~= lane_texts(before).push((lanes@[i as int].0, joined(into@, lanes@[i as int].1@, sx))));
        }
        i = i + 1;
    }
    assert(all.subrange(0, i as int) =~= all);
    r
}

} // verus!

verus! {

proof fn lemma_indexed_from(into: Seq<char>, lanes: Seq<(u8, Seq<char>)>, i: int, sx: Syntax)
    requires
        0 <= i < indexed(into, lanes, sx).len(),
    ensures
        exists|n: Seq<char>| sample_name_ok(n) && #[trigger] joined(into, n, sx) == indexed(into, lanes, sx)[i].1,
    decreases lanes.len(),
{
    let rest = lanes.drop_last();
    if sample_name_ok(lanes.last().1) && i == indexed(into, rest, sx).len() {
        assert(sample_name_ok(lanes.last().1) && joined(into, lanes.last().1, sx) == indexed(into, lanes, sx)[i].1);
    } else {
        lemma_indexed_from(into, rest, i, sx);
    }
}

/// A tampered index cannot reach outside the style's own folder: every path
/// read back is the samples folder joined with one name that holds no path
/// separator and is neither `.` nor `..`.
pub proof fn a_tampered_index_cannot_climb_out(into: Seq<char>, lanes: Seq<(u8, Seq<char>)>, i: int, sx: Syntax)
    requires
        0 <= i < indexed(into, lanes, sx).len(),
    ensures
        exists|n: Seq<char>|
            #[trigger] joined(into, n, sx) == indexed(into, lanes, sx)[i].1 && crate::names::no_separator(n) && n != seq!['.']
                && n != seq!['.', '.'],
{
    lemma_indexed_from(into, lanes, i, sx);
    let n = choose|n: Seq<char>| sample_name_ok(n) && #[trigger] joined(into, n, sx) == indexed(into, lanes, sx)[i].1;
    let d = last_dot(n);
    crate::paths::lemma_last_dot_bounds(n);
    assert forall|k: int| 0 <= k < n.len() implies #[trigger] n[k] != '/' && n[k] != '\\' by {
        if k < d {
            assert(crate::names::is_stem_char(n.subrange(0, d)[k]));
        } else if k > d {
            assert(is_alnum(n[k]));
        }
    }
    assert(crate::names::is_stem_char(n.subrange(0, d)[0]));
    assert(n[0] != '.');
}

// ---------------------------------------------------------------- what a copy costs

/// How much disk copying a style's samples would take: how many files, each
/// counted once, and how many bytes they come to.
#[derive(Clone, Debug, PartialEq, Eq)]
pub struct SampleCost {
    pub count: usize,
    pub bytes: u64,
}

/// The paths whose size is looked up: a network path is never touched, not
/// even to ask how big it is.
pub open spec fn local_paths(paths: Seq<Seq<char>>) -> Seq<Seq<char>>
    decreases paths.len(),
{
    if paths.len() == 0 {
        paths
    } else if is_remote(paths.last()) {
        local_paths(paths.drop_last())
    } else {
        local_paths(paths.drop_last()).push(paths.last())
    }
}

/// The paths that are looked up, in order; network paths are skipped.
pub fn measurable(paths: &Vec<String>) -> (r: Vec<String>)
    ensures
        strs(r@) == local_paths(strs(paths@)),
{
    let ghost all = strs(paths@);
    let mut r: Vec<String> = Vec::new();
    let mut i: usize = 0;
    while i < paths.len()
        invariant
            i <= paths.len(),
            all == strs(paths@),
            strs(r@) == local_paths(all.subrange(0, i as int)),
        decreases paths.len() - i,
    {
        let ghost seen = all.subrange(0, i + 1);
        assert(seen.drop_last() =~= all.subrange(0, i as int));
        if crate::paths::refuse_remote(paths[i].as_str()).is_ok() {
            let ghost before = r@;
            r.push(copy_string(&paths[i]));
            assert(strs(r@) =~= strs(before).push(all[i as int]));
        }
        i = i + 1;
    }
    assert(all.subrange(0, i as int) =~= all);
    r
}

/// The measured files, one entry per file: keyed by their components, so the
/// same sample on two lanes is one file, and its last measured size stands.
pub open spec fn by_file(m: Seq<(Seq<char>, u64)>, sx: Syntax) -> Seq<(Seq<Seq<char>>, u64)>
    decreases m.len(),
{
    if m.len() == 0 {
        Seq::<(Seq<Seq<char>>, u64)>::empty()
    } else {
        let key = components(m.last().0, sx);
        drop_key(by_file(m.drop_last(), sx), key).push((key, m.last().1))
    }
}

/// The entries not keyed `key`, in order.
pub open spec fn drop_key(l: Seq<(Seq<Seq<char>>, u64)>, key: Seq<Seq<char>>) -> Seq<(Seq<Seq<char>>, u64)>
    decreases l.len(),
{
    if l.len() == 0 {
        l
    } else if l.last().0 == key {
        drop_key(l.drop_last(), key)
    } else {
        drop_key(l.drop_last(), key).push(l.last())
    }
}

/// The sum of the sizes.
pub open spec fn total(l: Seq<(Seq<Seq<char>>, u64)>) -> int
    decreases l.len(),
{
    if l.len() == 0 {
        0
    } else {
        total(l.drop_last()) + l.last().1
    }
}

/// What copying would cost, given the size of each path that was measured.
pub open spec fn cost_of(m: Seq<(Seq<char>, u64)>, sx: Syntax) -> (int, int) {
    (by_file(m, sx).len() as int, total(by_file(m, sx)))
}

/// The measured paths as values.
pub open spec fn measured_texts(v: Seq<(String, u64)>) -> Seq<(Seq<char>, u64)> {
    v.map_values(|p: (String, u64)| (p.0@, p.1))
}

proof fn lemma_total_nonneg(l: Seq<(Seq<Seq<char>>, u64)>)
    ensures
        total(l) >= 0,
    decreases l.len(),
{
    if l.len() > 0 {
        lemma_total_nonneg(l.drop_last());
    }
}

fn same_components(a: &Vec<Vec<char>>, b: &Vec<Vec<char>>) -> (r: bool)
    ensures
        r == (crate::text::texts(a@) == crate::text::texts(b@)),
{
    if a.len() != b.len() {
        proof {
            assert(crate::text::texts(a@).len() != crate::text::texts(b@).len());
        }
        return false;
    }
    let mut i: usize = 0;
    while i < a.len()
        invariant
            a.len() == b.len(),
            i <= a.len(),
            forall|k: int| 0 <= k < i ==> a@[k]@ == b@[k]@,
        decreases a.len() - i,
    {
        if !crate::text::same_chars(&a[i], &b[i]) {
            assert(crate::text::texts(a@)[i as int] != crate::text::texts(b@)[i as int]);
            return false;
        }
        i = i + 1;
    }
    assert(crate::text::texts(a@) =~= crate::text::texts(b@));
    true
}

/// The per-file list as values.
spec fn file_texts(v: Seq<(Vec<Vec<char>>, u64)>) -> Seq<(Seq<Seq<char>>, u64)> {
    v.map_values(|p: (Vec<Vec<char>>, u64)| (crate::text::texts(p.0@), p.1))
}

fn without_key(l: Vec<(Vec<Vec<char>>, u64)>, key: &Vec<Vec<char>>) -> (r: Vec<(Vec<Vec<char>>, u64)>)
    ensures
        file_texts(r@) == drop_key(file_texts(l@), crate::text::texts(key@)),
{
    let ghost all = file_texts(l@);
    let mut r: Vec<(Vec<Vec<char>>, u64)> = Vec::new();
    let mut rest = l;
    let mut backwards: Vec<(Vec<Vec<char>>, u64)> = Vec::new();
    let ghost orig = rest@;
    let total_len = rest.len();
    while rest.len() > 0
        invariant
            rest@.len() + backwards@.len() == orig.len(),
            rest@ == orig.subrange(0, rest@.len() as int),
            forall|k: int| 0 <= k < backwards@.len() ==> #[trigger] backwards@[k] == orig[orig.len() - 1 - k],
        decreases rest@.len(),
    {
        let e = rest.pop().unwrap();
        backwards.push(e);
    }
    let mut n: usize = 0;
    while backwards.len() > 0
        invariant
            n + backwards@.len() == orig.len(),
            orig.len() == total_len,
            all == file_texts(orig),
            forall|k: int| 0 <= k < backwards@.len() ==> #[trigger] backwards@[k] == orig[orig.len() - 1 - k],
            file_texts(r@) == drop_key(all.subrange(0, n as int), crate::text::texts(key@)),
        decreases backwards@.len(),
    {
        let e = backwards.pop().unwrap();
        assert(e == orig[n as int]);
        let ghost seen = all.subrange(0, n + 1);
        assert(seen.drop_last() =~= all.subrange(0, n as int));
        if !same_components(&e.0, key) {
            let ghost before = r@;
            r.push(e);
            assert(file_texts(r@) =~= file_texts(before).push(seen.last()));
        }
        n = n + 1;
    }
    assert(all.subrange(0, n as int) =~= all);
    r
}

/// What copying would cost, given the size of each local path that was
/// measured: each file is counted once, however many lanes it is on, at the
/// last size measured for it. The byte count wraps as `u64` addition does
/// (it is exact for anything a disk can hold).
pub fn sample_cost(measured: &Vec<(String, u64)>, sx: Syntax) -> (r: SampleCost)
    ensures
        r.count as int == cost_of(measured_texts(measured@), sx).0,
        r.bytes as int == cost_of(measured_texts(measured@), sx).1 % 0x1_0000_0000_0000_0000,
        cost_of(measured_texts(measured@), sx).1 <= u64::MAX ==> r.bytes as int == cost_of(measured_texts(measured@), sx).1,
{
    let ghost all = measured_texts(measured@);
    let mut files: Vec<(Vec<Vec<char>>, u64)> = Vec::new();
    let mut i: usize = 0;
    while i < measured.len()
        invariant
            i <= measured.len(),
            all == measured_texts(measured@),
            file_texts(files@) == by_file(all.subrange(0, i as int), sx),
        decreases measured.len() - i,
    {
        let ghost seen = all.subrange(0, i + 1);
        assert(seen.drop_last() =~= all.subrange(0, i as int));
        let key = crate::paths::components_of(measured[i].0.as_str(), sx);
        let kept = without_key(files, &key);
        files = kept;
        let ghost before = files@;
        files.push((key, measured[i].1));
        assert(file_texts(files@) =~= file_texts(before).push((crate::text::texts(key@), measured@[i as int].1)));
        i = i + 1;
    }
    assert(all.subrange(0, i as int) =~= all);
    let ghost l = file_texts(files@);
    let mut bytes: u64 = 0;
    let mut k: usize = 0;
    while k < files.len()
        invariant
            k <= files.len(),
            l == file_texts(files@),
            bytes as int == total(l.subrange(0, k as int)) % 0x1_0000_0000_0000_0000,
        decreases files.len() - k,
    {
        let ghost before = bytes;
        let x = files[k].1;
        proof {
            assert(l.subrange(0, k + 1).drop_last() =~= l.subrange(0, k as int));
            assert(l[k as int].1 == x);
            let t = total(l.subrange(0, k as int));
            vstd::arithmetic::div_mod::lemma_add_mod_noop(t, x as int, 0x1_0000_0000_0000_0000);
            vstd::arithmetic::div_mod::lemma_small_mod(x as nat, 0x1_0000_0000_0000_0000);
        }
        bytes = bytes.wrapping_add(x);
        k = k + 1;
    }
    assert(l.subrange(0, k as int) =~= l);
    proof {
        lemma_total_nonneg(l);
        if total(l) <= u64::MAX {
            vstd::arithmetic::div_mod::lemma_small_mod(total(l) as nat, 0x1_0000_0000_0000_0000);
        }
    }
    SampleCost { count: files.len(), bytes }
}

} // verus!

verus! {

// ---------------------------------------------------------------- copying a style's samples

/// `those samples come to N MB, which is more than a style should carry`.
pub open spec fn too_big(megabytes: nat) -> Seq<char> {
    "those samples come to "@ + crate::export::decimal(megabytes) + " MB, which is more than a style should carry"@
}

/// Whether a copy of this many bytes may go ahead: refused past
/// [`MAX_COPY_BYTES`], saying how many whole megabytes it came to.
pub fn copy_budget(bytes: u64) -> (r: Result<(), String>)
    ensures
        bytes <= MAX_COPY_BYTES ==> r is Ok,
        bytes > MAX_COPY_BYTES ==> r is Err && r->Err_0@ == too_big((bytes / 1048576) as nat),
{
    if bytes <= MAX_COPY_BYTES {
        return Ok(());
    }
    let digits = crate::export::decimal_u64(bytes / 1048576);
    let mut text = chars_of("those samples come to ");
    let tail = chars_of(" MB, which is more than a style should carry");
    let ghost head = text@;
    let mut i: usize = 0;
    while i < digits.len()
        invariant
            i <= digits.len(),
            text@ == head + digits@.subrange(0, i as int),
        decreases digits.len() - i,
    {
        text.push(digits[i]);
        i = i + 1;
    }
    let ghost mid = text@;
    let mut j: usize = 0;
    while j < tail.len()
        invariant
            j <= tail.len(),
            text@ == mid + tail@.subrange(0, j as int),
        decreases tail.len() - j,
    {
        text.push(tail[j]);
        j = j + 1;
    }
    assert(text@ =~= too_big((bytes / 1048576) as nat));
    Err(string_of(&text))
}

/// A hexadecimal digit, in small case.
pub open spec fn hex_char(d: int) -> char {
    if d < 10 {
        crate::export::digit_char(d)
    } else if d == 10 {
        'a'
    } else if d == 11 {
        'b'
    } else if d == 12 {
        'c'
    } else if d == 13 {
        'd'
    } else if d == 14 {
        'e'
    } else {
        'f'
    }
}

/// The last `k` hexadecimal digits of `n`, zeros in front.
pub open spec fn hex_digits(n: nat, k: nat) -> Seq<char>
    decreases k,
{
    if k == 0 {
        Seq::<char>::empty()
    } else {
        hex_digits(n / 16, (k - 1) as nat).push(hex_char((n % 16) as int))
    }
}

fn hex_of(d: u64) -> (c: char)
    requires
        d < 16,
    ensures
        c == hex_char(d as int),
{
    if d < 10 {
        let c = crate::export::decimal_u64(d);
        assert(c@ == seq![crate::export::digit_char(d as int)]);
        c[0]
    } else if d == 10 {
        'a'
    } else if d == 11 {
        'b'
    } else if d == 12 {
        'c'
    } else if d == 13 {
        'd'
    } else if d == 14 {
        'e'
    } else {
        'f'
    }
}

fn hex16(n: u64) -> (r: Vec<char>)
    ensures
        r@ == hex_digits(n as nat, 16),
{
    let mut digits: Vec<char> = Vec::new();
    let mut m: u64 = n;
    let mut k: usize = 0;
    while k < 16
        invariant
            k <= 16,
            digits@.len() == k,
            hex_digits(n as nat, 16) == hex_digits(m as nat, (16 - k) as nat) + digits@,
        decreases 16 - k,
    {
        let ghost before = digits@;
        assert(hex_digits(m as nat, (16 - k) as nat) == hex_digits((m / 16) as nat, (16 - k - 1) as nat).push(
            hex_char((m % 16) as int),
        ));
        digits.insert(0, hex_of(m % 16));
        assert(digits@ =~= seq![hex_char((m % 16) as int)] + before);
        assert(hex_digits((m / 16) as nat, (16 - k - 1) as nat).push(hex_char((m % 16) as int)) + before =~= hex_digits(
            (m / 16) as nat,
            (16 - k - 1) as nat,
        ) + digits@);
        m = m / 16;
        k = k + 1;
    }
    assert(hex_digits(m as nat, 0) =~= Seq::<char>::empty());
    assert(hex_digits(n as nat, 16) =~= digits@);
    digits
}

/// The extension a copy keeps: the source's, in small case, when it is all
/// ASCII letters and digits; `wav` otherwise.
pub open spec fn copy_extension(path: Seq<char>, sx: Syntax) -> Seq<char> {
    match spec_extension(path, sx) {
        Some(e) => if forall|i: int| 0 <= i < e.len() ==> is_alnum(#[trigger] e[i]) {
            e.map_values(|c: char| crate::text::ascii_lower(c))
        } else {
            "wav"@
        },
        None => "wav"@,
    }
}

/// Where the 64-bit FNV-1a hash starts.
pub const FNV_OFFSET: u64 = 0xcbf29ce484222325;

/// What the 64-bit FNV-1a hash multiplies by after each byte.
pub const FNV_PRIME: u64 = 0x100000001b3;

/// The 64-bit FNV-1a hash of `bytes`: from [`FNV_OFFSET`], each byte in turn
/// is mixed in by exclusive or, then the hash is multiplied by [`FNV_PRIME`],
/// wrapping.
pub open spec fn fnv1a(bytes: Seq<u8>) -> u64
    decreases bytes.len(),
{
    if bytes.len() == 0 {
        FNV_OFFSET
    } else {
        let mixed = fnv1a(bytes.drop_last()) ^ (bytes.last() as u64);
        ((mixed as nat * FNV_PRIME as nat) % 0x1_0000_0000_0000_0000nat) as u64
    }
}

/// The 64-bit FNV-1a hash of a file's bytes, which names a stored copy by its
/// content.
pub fn content_hash(bytes: &[u8]) -> (r: u64)
    ensures
        r == fnv1a(bytes@),
{
    let mut hash: u64 = FNV_OFFSET;
    let mut i: usize = 0;
    while i < bytes.len()
        invariant
            i <= bytes@.len(),
            hash == fnv1a(bytes@.subrange(0, i as int)),
        decreases bytes@.len() - i,
    {
        assert(bytes@.subrange(0, i + 1).drop_last() =~= bytes@.subrange(0, i as int));
        assert(bytes@.subrange(0, i + 1).last() == bytes@[i as int]);
        let b: u64 = bytes[i] as u64;
        hash = (hash ^ b).wrapping_mul(FNV_PRIME);
        i = i + 1;
    }
    assert(bytes@.subrange(0, i as int) =~= bytes@);
    hash
}

/// The name a copy is stored under: its content hash as sixteen hexadecimal
/// digits, so the same file assigned twice is stored once, then its extension.
pub open spec fn copy_name(path: Seq<char>, hash: u64, sx: Syntax) -> Seq<char> {
    hex_digits(hash as nat, 16) + seq!['.'] + copy_extension(path, sx)
}

/// [`copy_name`], executable; `hash` is the content hash of the file's bytes.
pub fn copied_name(path: &str, hash: u64, sx: Syntax) -> (r: String)
    ensures
        r@ == copy_name(path@, hash, sx),
{
    let ext: Vec<char> = match crate::paths::extension_of(path, sx) {
        Some(e) => {
            let mut ok = true;
            let mut i: usize = 0;
            while i < e.len()
                invariant
                    i <= e.len(),
                    ok == (forall|k: int| 0 <= k < i ==> is_alnum(#[trigger] e@[k])),
                decreases e.len() - i,
            {
                let c = e[i];
                if !(('a' <= c && c <= 'z') || ('A' <= c && c <= 'Z') || ('0' <= c && c <= '9')) {
                    ok = false;
                }
                i = i + 1;
            }
            if ok {
                let mut low: Vec<char> = Vec::new();
                let mut j: usize = 0;
                while j < e.len()
                    invariant
                        j <= e.len(),
                        low@ == e@.subrange(0, j as int).map_values(|c: char| crate::text::ascii_lower(c)),
                    decreases e.len() - j,
                {
                    low.push(crate::text::lower_ascii(e[j]));
                    assert(low@ =~= e@.subrange(0, j + 1).map_values(|c: char| crate::text::ascii_lower(c)));
                    j = j + 1;
                }
                assert(e@.subrange(0, j as int) =~= e@);
                low
            } else {
                chars_of("wav")
            }
        },
        None => chars_of("wav"),
    };
    assert(ext@ == copy_extension(path@, sx));
    let mut out = hex16(hash);
    out.push('.');
    let ghost head = out@;
    let mut k: usize = 0;
    while k < ext.len()
        invariant
            k <= ext.len(),
            out@ == head + ext@.subrange(0, k as int),
        decreases ext.len() - k,
    {
        out.push(ext[k]);
        k = k + 1;
    }
    assert(out@ =~= copy_name(path@, hash, sx));
    string_of(&out)
}

/// The index entries for lanes other than `lane`, in order.
pub open spec fn other_lanes(index: Seq<(u8, Seq<char>)>, lane: u8) -> Seq<(u8, Seq<char>)>
    decreases index.len(),
{
    if index.len() == 0 {
        index
    } else if index.last().0 == lane {
        other_lanes(index.drop_last(), lane)
    } else {
        other_lanes(index.drop_last(), lane).push(index.last())
    }
}

/// The index with `lane` pointing at `name`, replacing what it pointed at.
pub open spec fn point_lane(index: Seq<(u8, Seq<char>)>, lane: u8, name: Seq<char>) -> Seq<(u8, Seq<char>)> {
    other_lanes(index, lane).push((lane, name))
}

/// Records one stored copy: the lane points at it in the index (two lanes
/// sharing a sample both point at the one copy), and it joins the names that
/// landed unless it is already among them.
pub fn note_copy(index: &mut Vec<(u8, String)>, landed: &mut Vec<String>, lane: u8, name: String)
    ensures
        lane_texts(final(index)@) == point_lane(lane_texts(old(index)@), lane, name@),
        strs(old(landed)@).contains(name@) ==> final(landed)@ == old(landed)@,
        !strs(old(landed)@).contains(name@) ==> strs(final(landed)@) == strs(old(landed)@).push(name@),
{
    let ghost all = lane_texts(index@);
    let mut kept: Vec<(u8, String)> = Vec::new();
    let mut i: usize = 0;
    while i < index.len()
        invariant
            i <= index.len(),
            all == lane_texts(index@),
            lane_texts(kept@) == other_lanes(all.subrange(0, i as int), lane),
        decreases index.len() - i,
    {
        proof {
            assert(all.subrange(0, i + 1).drop_last() =~= all.subrange(0, i as int));
        }
        if index[i].0 != lane {
            let ghost before = kept@;
            kept.push((index[i].0, copy_string(&index[i].1)));
            assert(lane_texts(kept@) =~= lane_texts(before).push(all[i as int]));
        }
        i = i + 1;
    }
    assert(all.subrange(0, i as int) =~= all);
    let ghost filtered = lane_texts(kept@);
    let seen = holds(landed, name.as_str());
    let entry_name = copy_string(&name);
    kept.push((lane, entry_name));
    assert(lane_texts(kept@) =~= filtered.push((lane, name@)));
    *index = kept;
    if !seen {
        let ghost before = landed@;
        landed.push(name);
        assert(strs(landed@) =~= strs(before).push(name@));
    }
}

} // verus!

verus! {

proof fn lemma_drop_key(l: Seq<(Seq<Seq<char>>, u64)>, key: Seq<Seq<char>>, other: Seq<Seq<char>>)
    ensures
        forall|j: int| 0 <= j < drop_key(l, key).len() ==> (#[trigger] drop_key(l, key)[j]).0 != key,
        other != key ==> ((exists|j: int| 0 <= j < l.len() && (#[trigger] l[j]).0 == other)
            <==> (exists|j: int| 0 <= j < drop_key(l, key).len() && (#[trigger] drop_key(l, key)[j]).0 == other)),
        (forall|a: int, b: int| 0 <= a < b < l.len() ==> (#[trigger] l[a]).0 != (#[trigger] l[b]).0) ==> (forall|
            a: int,
            b: int,
        | 0 <= a < b < drop_key(l, key).len() ==> (#[trigger] drop_key(l, key)[a]).0 != (#[trigger] drop_key(
            l,
            key,
        )[b]).0),
    decreases l.len(),
{
    if l.len() > 0 {
        let rest = l.drop_last();
        lemma_drop_key(rest, key, other);
        let d = drop_key(rest, key);
        if l.last().0 != key {
            let e = d.push(l.last());
            assert(drop_key(l, key) == e);
            if other != key {
                if exists|j: int| 0 <= j < l.len() && (#[trigger] l[j]).0 == other {
                    let j = choose|j: int| 0 <= j < l.len() && (#[trigger] l[j]).0 == other;
                    if j < rest.len() {
                        assert(rest[j].0 == other);
                        let k = choose|k: int| 0 <= k < d.len() && (#[trigger] d[k]).0 == other;
                        assert(e[k].0 == other);
                    } else {
                        assert(e[d.len() as int].0 == other);
                    }
                }
                if exists|j: int| 0 <= j < e.len() && (#[trigger] e[j]).0 == other {
                    let j = choose|j: int| 0 <= j < e.len() && (#[trigger] e[j]).0 == other;
                    if j < d.len() {
                        assert(d[j].0 == other);
                        let k = choose|k: int| 0 <= k < rest.len() && (#[trigger] rest[k]).0 == other;
                        assert(l[k].0 == other);
                    } else {
                        assert(l[l.len() - 1].0 == other);
                    }
                }
            }
            if forall|a: int, b: int| 0 <= a < b < l.len() ==> (#[trigger] l[a]).0 != (#[trigger] l[b]).0 {
                assert forall|a: int, b: int| 0 <= a < b < rest.len() implies (#[trigger] rest[a]).0 != (
                #[trigger] rest[b]).0 by {
                    assert(l[a] == rest[a] && l[b] == rest[b]);
                }
                assert forall|a: int, b: int| 0 <= a < b < e.len() implies (#[trigger] e[a]).0 != (#[trigger] e[b]).0 by {
                    if b == d.len() {
                        if d[a].0 == l.last().0 {
                            assert(exists|j: int| 0 <= j < d.len() && (#[trigger] d[j]).0 == l.last().0);
                            lemma_drop_key(rest, key, l.last().0);
                            let k = choose|k: int| 0 <= k < rest.len() && (#[trigger] rest[k]).0 == l.last().0;
                            assert(l[k].0 == l[l.len() - 1].0);
                        }
                    } else {
                        assert(e[a] == d[a] && e[b] == d[b]);
                    }
                }
            }
        } else {
            assert(drop_key(l, key) == d);
            if other != key {
                if exists|j: int| 0 <= j < l.len() && (#[trigger] l[j]).0 == other {
                    let j = choose|j: int| 0 <= j < l.len() && (#[trigger] l[j]).0 == other;
                    assert(j < rest.len());
                    assert(rest[j].0 == other);
                }
                if exists|j: int| 0 <= j < d.len() && (#[trigger] d[j]).0 == other {
                    let k = choose|k: int| 0 <= k < rest.len() && (#[trigger] rest[k]).0 == other;
                    assert(l[k].0 == other);
                }
            }
            if forall|a: int, b: int| 0 <= a < b < l.len() ==> (#[trigger] l[a]).0 != (#[trigger] l[b]).0 {
                assert forall|a: int, b: int| 0 <= a < b < rest.len() implies (#[trigger] rest[a]).0 != (
                #[trigger] rest[b]).0 by {
                    assert(l[a] == rest[a] && l[b] == rest[b]);
                }
            }
        }
    }
}

/// The size last measured for the file `key` names, if any path measured
/// names it.
pub open spec fn last_size(m: Seq<(Seq<char>, u64)>, key: Seq<Seq<char>>, sx: Syntax) -> Option<u64>
    decreases m.len(),
{
    if m.len() == 0 {
        None
    } else if components(m.last().0, sx) == key {
        Some(m.last().1)
    } else {
        last_size(m.drop_last(), key, sx)
    }
}

/// The files the measured paths name: two paths with the same components are
/// one file.
pub open spec fn measured_files(m: Seq<(Seq<char>, u64)>, sx: Syntax) -> Set<Seq<Seq<char>>> {
    Set::new(|key: Seq<Seq<char>>| last_size(m, key, sx) is Some)
}

/// The files of a per-file list.
pub open spec fn file_keys(l: Seq<(Seq<Seq<char>>, u64)>) -> Seq<Seq<Seq<char>>> {
    l.map_values(|e: (Seq<Seq<char>>, u64)| e.0)
}

proof fn lemma_drop_key_from(l: Seq<(Seq<Seq<char>>, u64)>, key: Seq<Seq<char>>)
    ensures
        forall|j: int| 0 <= j < drop_key(l, key).len() ==> l.contains(#[trigger] drop_key(l, key)[j]),
    decreases l.len(),
{
    if l.len() > 0 {
        let rest = l.drop_last();
        lemma_drop_key_from(rest, key);
        let d = drop_key(rest, key);
        assert forall|j: int| 0 <= j < drop_key(l, key).len() implies l.contains(#[trigger] drop_key(l, key)[j]) by {
            if j < d.len() {
                let k = choose|k: int| 0 <= k < rest.len() && rest[k] == d[j];
                assert(l[k] == rest[k]);
            } else {
                assert(l[l.len() - 1] == l.last());
            }
        }
    }
}

proof fn lemma_entries_carry_last_sizes(m: Seq<(Seq<char>, u64)>, sx: Syntax)
    ensures
        forall|j: int| 0 <= j < by_file(m, sx).len() ==> last_size(m, (#[trigger] by_file(m, sx)[j]).0, sx) == Some(by_file(m, sx)[j].1),
        forall|key: Seq<Seq<char>>| last_size(m, key, sx) is Some ==> exists|j: int| 0 <= j < by_file(m, sx).len() && (#[trigger] by_file(m, sx)[j]).0 == key,
    decreases m.len(),
{
    if m.len() > 0 {
        let rest = m.drop_last();
        lemma_entries_carry_last_sizes(rest, sx);
        let key = components(m.last().0, sx);
        let prev = by_file(rest, sx);
        let d = drop_key(prev, key);
        let all = d.push((key, m.last().1));
        assert(by_file(m, sx) == all);
        lemma_drop_key_from(prev, key);
        lemma_drop_key(prev, key, key);
        assert forall|j: int| 0 <= j < all.len() implies last_size(m, (#[trigger] all[j]).0, sx) == Some(all[j].1) by {
            if j < d.len() {
                let k = choose|k: int| 0 <= k < prev.len() && prev[k] == d[j];
                assert(last_size(rest, prev[k].0, sx) == Some(prev[k].1));
                assert(d[j].0 != key);
            }
        }
        assert forall|other: Seq<Seq<char>>| last_size(m, other, sx) is Some implies exists|j: int| 0 <= j < all.len() && (#[trigger] all[j]).0 == other by {
            if other == key {
                assert(all[d.len() as int].0 == other);
            } else {
                lemma_drop_key(prev, key, other);
                assert(last_size(rest, other, sx) is Some);
                let i = choose|i: int| 0 <= i < prev.len() && (#[trigger] prev[i]).0 == other;
                assert(exists|i: int| 0 <= i < prev.len() && (#[trigger] prev[i]).0 == other);
                let k = choose|k: int| 0 <= k < d.len() && (#[trigger] d[k]).0 == other;
                assert(all[k].0 == other);
            }
        }
    }
}

/// What a cost is made of: one entry for each file the measured paths name,
/// whichever lanes named it, carrying the size last measured for that file;
/// so the count is the number of different files, and the bytes are the sum
/// of their sizes.
pub proof fn a_cost_is_the_sum_over_the_files(m: Seq<(Seq<char>, u64)>, sx: Syntax)
    ensures
        file_keys(by_file(m, sx)).to_set() == measured_files(m, sx),
        by_file(m, sx).len() == measured_files(m, sx).len(),
        forall|j: int| 0 <= j < by_file(m, sx).len() ==> last_size(m, (#[trigger] by_file(m, sx)[j]).0, sx) == Some(by_file(m, sx)[j].1),
{
    lemma_entries_carry_last_sizes(m, sx);
    let keys = file_keys(by_file(m, sx));
    assert forall|k: Seq<Seq<char>>| #[trigger] keys.to_set().contains(k) <==> measured_files(m, sx).contains(k) by {
        if keys.contains(k) {
            let j = choose|j: int| 0 <= j < keys.len() && keys[j] == k;
            assert(by_file(m, sx)[j].0 == k);
        }
        if last_size(m, k, sx) is Some {
            let j = choose|j: int| 0 <= j < by_file(m, sx).len() && (#[trigger] by_file(m, sx)[j]).0 == k;
            assert(keys[j] == k);
        }
    }
    assert(keys.to_set() =~= measured_files(m, sx));
    if m.len() > 0 {
        each_file_is_counted_once(m, 0, sx);
        assert forall|a: int, b: int| 0 <= a < keys.len() && 0 <= b < keys.len() && a != b implies keys[a] != keys[b] by {
            if a < b {
                assert(by_file(m, sx)[a].0 != by_file(m, sx)[b].0);
            } else {
                assert(by_file(m, sx)[b].0 != by_file(m, sx)[a].0);
            }
        }
    }
    assert(keys.no_duplicates());
    keys.unique_seq_to_set();
}

/// Each file is counted once: the files a cost is made of are all different,
/// and every path that was measured is among them, however many lanes share it.
pub proof fn each_file_is_counted_once(m: Seq<(Seq<char>, u64)>, i: int, sx: Syntax)
    requires
        0 <= i < m.len(),
    ensures
        forall|a: int, b: int| 0 <= a < b < by_file(m, sx).len() ==> (#[trigger] by_file(m, sx)[a]).0 != (
        #[trigger] by_file(m, sx)[b]).0,
        exists|j: int| 0 <= j < by_file(m, sx).len() && (#[trigger] by_file(m, sx)[j]).0 == components(m[i].0, sx),
    decreases m.len(),
{
    let rest = m.drop_last();
    let key = components(m.last().0, sx);
    let prev = by_file(rest, sx);
    let d = drop_key(prev, key);
    let all = d.push((key, m.last().1));
    assert(by_file(m, sx) == all);
    if rest.len() > 0 {
        each_file_is_counted_once(rest, if i < rest.len() { i } else { 0 }, sx);
    }
    lemma_drop_key(prev, key, components(m[i].0, sx));
    assert forall|a: int, b: int| 0 <= a < b < all.len() implies (#[trigger] all[a]).0 != (#[trigger] all[b]).0 by {
        if b == d.len() {
            assert(d[a].0 != key);
        } else {
            assert(all[a] == d[a] && all[b] == d[b]);
        }
    }
    if i == m.len() - 1 {
        assert(all[d.len() as int].0 == components(m[i].0, sx));
    } else {
        assert(m[i] == rest[i]);
        if components(m[i].0, sx) == key {
            assert(all[d.len() as int].0 == components(m[i].0, sx));
        } else {
            let k = choose|k: int| 0 <= k < d.len() && (#[trigger] d[k]).0 == components(m[i].0, sx);
            assert(all[k].0 == components(m[i].0, sx));
        }
    }
}

} // verus!

verus! {

// ---------------------------------------------------------------- the resolved models, cached

/// The resolved user models, built once and kept until something is written:
/// read cheaply by every generation, rebuilt only after a save, a delete or an
/// import.
pub struct Cache<T> {
    built: Option<T>,
}

impl<T> Cache<T> {
    /// What the cache holds.
    pub closed spec fn held(&self) -> Option<T> {
        self.built
    }

    /// An empty cache: the first read builds.
    pub fn new() -> (r: Cache<T>)
        ensures
            r.held() is None,
    {
        Cache { built: None }
    }

    /// What was built last, if it is still current.
    pub fn cached(&self) -> (r: Option<&T>)
        ensures
            match r {
                Some(v) => self.held() == Some(*v),
                None => self.held() is None,
            },
    {
        match &self.built {
            Some(v) => Some(v),
            None => None,
        }
    }

    /// Keeps what was just built.
    pub fn store(&mut self, value: T)
        ensures
            final(self).held() == Some(value),
    {
        self.built = Some(value);
    }

    /// Drops what was built, so the next read rebuilds: called after every
    /// write to the models folder.
    pub fn invalidate(&mut self)
        ensures
            final(self).held() is None,
    {
        self.built = None;
    }
}

} // verus!

verus! {

// ---------------------------------------------------------------- the user half of a combined load

/// The ids the folder's files declare that no shipped model uses, in order:
/// the part of a load that is the producer's own.
pub open spec fn mine(files: Seq<(Seq<char>, Seq<char>)>, shipped: Seq<Seq<char>>) -> Seq<Seq<char>>
    decreases files.len(),
{
    if files.len() == 0 {
        Seq::<Seq<char>>::empty()
    } else {
        let rest = mine(files.drop_last(), shipped);
        match declared_id(files.last().1) {
            Some(id) => if !shipped.contains(id) {
                rest.push(id)
            } else {
                rest
            },
            None => rest,
        }
    }
}

/// [`mine`], executable, over the files as [`read_files`] gives them.
pub fn mine_ids(files: &Vec<(String, String)>, shipped: &Vec<String>) -> (r: Vec<String>)
    ensures
        strs(r@) == mine(pair_texts(files@), strs(shipped@)),
{
    let ghost all = pair_texts(files@);
    let mut r: Vec<String> = Vec::new();
    let mut i: usize = 0;
    while i < files.len()
        invariant
            i <= files.len(),
            all == pair_texts(files@),
            strs(r@) == mine(all.subrange(0, i as int), strs(shipped@)),
        decreases files.len() - i,
    {
        let ghost seen = all.subrange(0, i + 1);
        assert(seen.drop_last() =~= all.subrange(0, i as int));
        assert(seen.last().1 == files@[i as int].1@);
        match id_of(files[i].1.as_str()) {
            Some(id) => {
                if !holds(shipped, id.as_str()) {
                    let ghost before = r@;
                    r.push(id);
                    assert(strs(r@) =~= strs(before).push(r@[r@.len() - 1]@));
                }
            },
            None => {},
        }
        i = i + 1;
    }
    assert(all.subrange(0, i as int) =~= all);
    r
}

/// Whether `t` occurs in `s`.
pub open spec fn has_infix(s: Seq<char>, t: Seq<char>) -> bool {
    exists|i: int| 0 <= i && i + t.len() <= s.len() && #[trigger] s.subrange(i, i + t.len()) == t
}

/// [`has_infix`], executable: `str::contains`.
pub fn contains_text(s: &str, t: &str) -> (r: bool)
    ensures
        r == has_infix(s@, t@),
{
    let a = chars_of(s);
    let b = chars_of(t);
    if b.len() > a.len() {
        return false;
    }
    let last = a.len() - b.len();
    let mut i: usize = 0;
    loop
        invariant
            a@ == s@,
            b@ == t@,
            b.len() <= a.len(),
            last == a.len() - b.len(),
            i <= last,
            forall|k: int| 0 <= k < i ==> #[trigger] a@.subrange(k, k + b.len()) != b@,
        decreases last - i,
    {
        let mut j: usize = 0;
        while j < b.len() && a[i + j] == b[j]
            invariant
                j <= b.len(),
                i + b.len() <= a.len(),
                forall|m: int| 0 <= m < j ==> a@[i + m] == b@[m],
            decreases b.len() - j,
        {
            j = j + 1;
        }
        if j == b.len() {
            assert(a@.subrange(i as int, i + b.len()) =~= b@);
            return true;
        }
        assert(a@.subrange(i as int, i + b.len())[j as int] != b@[j as int]);
        if i == last {
            proof {
                assert forall|k: int| 0 <= k && k + t@.len() <= s@.len() implies #[trigger] s@.subrange(
                    k,
                    k + t@.len(),
                ) != t@ by {
                    assert(k <= i);
                }
            }
            return false;
        }
        i = i + 1;
    }
}

/// Whether a problem the loader reports about `source` belongs to the user
/// half of the roster: it names one of the user's ids, or a `<user>` file.
pub fn is_ours(mine: &Vec<String>, source: &str) -> (r: bool)
    ensures
        r == (strs(mine@).contains(source@) || has_infix(source@, "<user>"@)),
{
    holds(mine, source) || contains_text(source, "<user>")
}

/// Whether a problem about `source` is about the candidate model `id` being
/// saved: it names the id, or the candidate's own file.
pub fn names_candidate(source: &str, id: &str) -> (r: bool)
    ensures
        r == (source@ == id@ || has_infix(source@, seq!['/'] + json_name(id@))),
{
    proof {
        reveal_strlit("/");
        assert("/"@ =~= seq!['/']);
    }
    if same_text(source, id) {
        return true;
    }
    let file = join3("/", json_name_of(id).as_str(), "");
    proof {
        reveal_strlit("");
        assert(""@ =~= Seq::<char>::empty());
        assert(file@ =~= seq!['/'] + json_name(id@));
    }
    contains_text(source, file.as_str())
}

} // verus!
