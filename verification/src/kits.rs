//! Named kits: a set of one-shot assignments kept under a name, outside any
//! project. The folder of saved kits is held as a shelf of files, each read
//! as a kit or as text that did not read as one; saving, renaming, copying,
//! loading and deleting are decisions over that shelf.

use vstd::prelude::*;
use crate::names::{safe_stem, slug, trim, Trim};
use crate::order::{keys_sorted, lex_le};
use crate::paths::{joined, Syntax};
use crate::text::{chars_of, copy_string, same_text, string_of};

verus! {

/// A kit as a value: its name and, per lane, the sample assigned to it.
pub type KitView = (Seq<char>, Seq<(u8, Seq<char>)>);

/// What a file on the shelf holds, as a value: a kit, or why it did not read.
pub type FileView = Result<KitView, Seq<char>>;

/// The shelf as a value: each file's id and what it holds.
pub type ShelfView = Seq<(Seq<char>, FileView)>;

/// A kit as it is stored: the name the producer reads (not its id), and the
/// sample assigned to each lane, lanes named by the engine's lane number.
#[derive(Clone, Debug, PartialEq, Eq)]
pub struct Kit {
    pub name: String,
    pub lanes: Vec<(u8, String)>,
}

/// A kit as the panel lists it.
#[derive(Clone, Debug, PartialEq, Eq)]
pub struct KitSummary {
    pub id: String,
    pub name: String,
    /// How many lanes it carries.
    pub lanes: usize,
}

/// What one file in the kits folder holds.
pub enum Stored {
    /// A kit that read.
    Kit(Kit),
    /// Text that did not read as a kit, and why.
    Unreadable(String),
}

/// The files of the kits folder, by id.
pub struct Shelf {
    pub files: Vec<(String, Stored)>,
}

/// The lanes as values.
pub open spec fn lanes_view(v: Seq<(u8, String)>) -> Seq<(u8, Seq<char>)> {
    v.map_values(|p: (u8, String)| (p.0, p.1@))
}

impl View for Kit {
    type V = KitView;

    open spec fn view(&self) -> KitView {
        (self.name@, lanes_view(self.lanes@))
    }
}

impl View for KitSummary {
    type V = (Seq<char>, Seq<char>, usize);

    open spec fn view(&self) -> (Seq<char>, Seq<char>, usize) {
        (self.id@, self.name@, self.lanes)
    }
}

impl View for Stored {
    type V = FileView;

    open spec fn view(&self) -> FileView {
        match self {
            Stored::Kit(k) => Ok(k@),
            Stored::Unreadable(why) => Err(why@),
        }
    }
}

impl View for Shelf {
    type V = ShelfView;

    open spec fn view(&self) -> ShelfView {
        self.files@.map_values(|f: (String, Stored)| (f.0@, f.1@))
    }
}

/// The views of a list of summaries.
pub open spec fn summary_views(v: Seq<KitSummary>) -> Seq<(Seq<char>, Seq<char>, usize)> {
    v.map_values(|s: KitSummary| s@)
}

/// What the shelf holds under `id`: the last file with that id, if any.
pub open spec fn lookup(f: ShelfView, id: Seq<char>) -> Option<FileView>
    decreases f.len(),
{
    if f.len() == 0 {
        None
    } else if f.last().0 == id {
        Some(f.last().1)
    } else {
        lookup(f.drop_last(), id)
    }
}

/// The shelf without the files called `id`.
pub open spec fn without_id(f: ShelfView, id: Seq<char>) -> ShelfView
    decreases f.len(),
{
    if f.len() == 0 {
        f
    } else if f.last().0 == id {
        without_id(f.drop_last(), id)
    } else {
        without_id(f.drop_last(), id).push(f.last())
    }
}

/// The shelf with `v` written under `id`, replacing what was there.
pub open spec fn put(f: ShelfView, id: Seq<char>, v: FileView) -> ShelfView {
    without_id(f, id).push((id, v))
}

/// `a`, then `b`, then `c`.
pub open spec fn cat3(a: Seq<char>, b: Seq<char>, c: Seq<char>) -> Seq<char> {
    a + b + c
}

/// Why a kit with no name is refused.
pub const NO_NAME: &'static str = "a kit needs a name";

/// Why a kit with no lanes is refused.
pub const NO_SAMPLES: &'static str = "there are no samples of your own to save yet";

/// The name of the folder kits are kept in, under the per-user data folder.
pub const KITS_FOLDER: &'static str = "kits";

/// The fallback id for a name with nothing usable in it.
pub const FALLBACK_ID: &'static str = "kit";

/// `` `id` is not a kit name ``.
pub open spec fn not_a_kit_name(id: Seq<char>) -> Seq<char> {
    cat3(seq!['`'], id, "` is not a kit name"@)
}

/// `` no kit `id` ``.
pub open spec fn no_kit(id: Seq<char>) -> Seq<char> {
    cat3("no kit `"@, id, seq!['`'])
}

/// `` kit `id` is malformed: why ``.
pub open spec fn malformed(id: Seq<char>, why: Seq<char>) -> Seq<char> {
    cat3("kit `"@, id, "` is malformed: "@) + why
}

/// `` a kit called `name` already goes by that name — pick another ``.
pub open spec fn taken_by(name: Seq<char>) -> Seq<char> {
    cat3("a kit called `"@, name, "` already goes by that name — pick another"@)
}

/// `` there is already a kit called `name` — pick another name ``.
pub open spec fn already_called(name: Seq<char>) -> Seq<char> {
    cat3("there is already a kit called `"@, name, "` — pick another name"@)
}

/// `` could not delete `id` ``.
pub open spec fn could_not_delete(id: Seq<char>) -> Seq<char> {
    cat3("could not delete `"@, id, seq!['`'])
}

/// The lanes a kit restores: refused for an id that could be a path, for a
/// missing kit and for a file that did not read.
pub open spec fn loading(f: ShelfView, id: Seq<char>) -> Result<Seq<(u8, Seq<char>)>, Seq<char>> {
    if !safe_stem(id) {
        Err(not_a_kit_name(id))
    } else {
        match lookup(f, id) {
            None => Err(no_kit(id)),
            Some(Err(why)) => Err(malformed(id, why)),
            Some(Ok(k)) => Ok(k.1),
        }
    }
}

/// Saving `lanes` under `name`: the name is trimmed and must not be empty,
/// there must be lanes, and the kit goes under the slug of the name — unless
/// a kit that read is there under another name, which is refused. Saving over
/// the same name replaces it. The answer is the new shelf and the summary.
pub open spec fn saving(
    f: ShelfView,
    name: Seq<char>,
    lanes: Seq<(u8, Seq<char>)>,
) -> Result<(ShelfView, (Seq<char>, Seq<char>, int)), Seq<char>> {
    let t = trim(name, Trim::Space);
    let id = slug(t, FALLBACK_ID@);
    if t.len() == 0 {
        Err(NO_NAME@)
    } else if lanes.len() == 0 {
        Err(NO_SAMPLES@)
    } else if lookup(f, id) matches Some(Ok(k)) && k.0 != t {
        Err(taken_by(lookup(f, id)->Some_0->Ok_0.0))
    } else {
        Ok((put(f, id, Ok((t, lanes))), (id, t, lanes.len() as int)))
    }
}

/// A rename or copy of `from` to `name` is refused when it would land on a
/// file other than `from`.
pub open spec fn landing(f: ShelfView, from: Seq<char>, name: Seq<char>) -> Result<(), Seq<char>> {
    let target = slug(name, FALLBACK_ID@);
    if target == from {
        Ok(())
    } else if lookup(f, target) is Some {
        Err(already_called(name))
    } else {
        Ok(())
    }
}

/// Renaming kit `id` to `name`: its lanes are loaded, the new name must not
/// land on another kit, they are saved under the new name, and the old file
/// goes when the id changed.
pub open spec fn renaming(
    f: ShelfView,
    id: Seq<char>,
    name: Seq<char>,
) -> Result<(ShelfView, (Seq<char>, Seq<char>, int)), Seq<char>> {
    match loading(f, id) {
        Err(e) => Err(e),
        Ok(lanes) => match landing(f, id, name) {
            Err(e) => Err(e),
            Ok(()) => match saving(f, name, lanes) {
                Err(e) => Err(e),
                Ok((g, s)) => Ok((if s.0 != id { without_id(g, id) } else { g }, s)),
            },
        },
    }
}

/// Copying kit `id` under `name`: its lanes are loaded, the copy must not land
/// on any kit at all (the original included), and they are saved under the
/// new name.
pub open spec fn duplicating(
    f: ShelfView,
    id: Seq<char>,
    name: Seq<char>,
) -> Result<(ShelfView, (Seq<char>, Seq<char>, int)), Seq<char>> {
    match loading(f, id) {
        Err(e) => Err(e),
        Ok(lanes) => match landing(f, Seq::<char>::empty(), name) {
            Err(e) => Err(e),
            Ok(()) => saving(f, name, lanes),
        },
    }
}

/// Forgetting kit `id`: refused for an id that could be a path and for a
/// missing kit; the samples themselves are never touched.
pub open spec fn deleting(f: ShelfView, id: Seq<char>) -> Result<ShelfView, Seq<char>> {
    if !safe_stem(id) {
        Err(not_a_kit_name(id))
    } else if lookup(f, id) is None {
        Err(could_not_delete(id))
    } else {
        Ok(without_id(f, id))
    }
}

/// The summary of a file, when it is listed: a kit that read, under an id
/// that is safe.
pub open spec fn summary_of(file: (Seq<char>, FileView)) -> Option<(Seq<char>, Seq<char>, usize)> {
    match file.1 {
        Ok(k) => if safe_stem(file.0) && k.1.len() <= usize::MAX {
            Some((file.0, k.0, k.1.len() as usize))
        } else {
            None
        },
        Err(_) => None,
    }
}

/// The summaries of the files that are listed, in shelf order.
pub open spec fn listed(f: ShelfView) -> Seq<(Seq<char>, Seq<char>, usize)>
    decreases f.len(),
{
    if f.len() == 0 {
        Seq::<(Seq<char>, Seq<char>, usize)>::empty()
    } else {
        match summary_of(f.last()) {
            Some(s) => listed(f.drop_last()).push(s),
            None => listed(f.drop_last()),
        }
    }
}

/// What a call that changes the shelf answered, as a value.
pub open spec fn answer_view(r: Result<KitSummary, String>, after: ShelfView) -> Result<
    (ShelfView, (Seq<char>, Seq<char>, int)),
    Seq<char>,
> {
    match r {
        Ok(s) => Ok((after, (s.id@, s.name@, s.lanes as int))),
        Err(e) => Err(e@),
    }
}

} // verus!

verus! {

// ---------------------------------------------------------------- facts about the shelf

proof fn lemma_without_id(f: ShelfView, id: Seq<char>, other: Seq<char>)
    ensures
        lookup(without_id(f, id), id) is None,
        other != id ==> lookup(without_id(f, id), other) == lookup(f, other),
    decreases f.len(),
{
    if f.len() > 0 {
        let rest = f.drop_last();
        lemma_without_id(rest, id, other);
        if f.last().0 != id {
            let w = without_id(rest, id);
            assert(w.push(f.last()).drop_last() =~= w);
        }
    }
}

/// Lanes in ascending order, each lane once: how a kit file keeps them.
pub open spec fn lanes_ordered(l: Seq<(u8, Seq<char>)>) -> bool {
    forall|i: int, j: int| 0 <= i < j < l.len() ==> (#[trigger] l[i]).0 < (#[trigger] l[j]).0
}

/// A file that, if it read as a kit, keeps its lanes in order.
pub open spec fn file_ordered(v: FileView) -> bool {
    v is Ok ==> lanes_ordered(v->Ok_0.1)
}

/// Every kit on the shelf keeps its lanes in order, each lane once.
pub open spec fn shelf_ordered(f: ShelfView) -> bool {
    forall|k: int| 0 <= k < f.len() ==> file_ordered(#[trigger] f[k].1)
}

proof fn lemma_without_id_ordered(f: ShelfView, id: Seq<char>)
    requires
        shelf_ordered(f),
    ensures
        shelf_ordered(without_id(f, id)),
    decreases f.len(),
{
    if f.len() > 0 {
        let rest = f.drop_last();
        assert forall|k: int| 0 <= k < rest.len() implies file_ordered(#[trigger] rest[k].1) by {
            assert(rest[k] == f[k]);
        }
        lemma_without_id_ordered(rest, id);
        if f.last().0 != id {
            let w = without_id(rest, id);
            assert forall|k: int| 0 <= k < w.push(f.last()).len() implies file_ordered(#[trigger] w.push(f.last())[k].1) by {
                if k == w.len() {
                    assert(f[f.len() - 1] == f.last());
                }
            }
        }
    }
}

proof fn lemma_put_ordered(f: ShelfView, id: Seq<char>, v: FileView)
    requires
        shelf_ordered(f),
        file_ordered(v),
    ensures
        shelf_ordered(put(f, id, v)),
{
    lemma_without_id_ordered(f, id);
    let w = without_id(f, id);
    assert forall|k: int| 0 <= k < put(f, id, v).len() implies file_ordered(#[trigger] put(f, id, v)[k].1) by {
        if k < w.len() {
            assert(put(f, id, v)[k] == w[k]);
        }
    }
}

proof fn lemma_lookup_ordered(f: ShelfView, id: Seq<char>)
    requires
        shelf_ordered(f),
    ensures
        lookup(f, id) matches Some(v) ==> file_ordered(v),
    decreases f.len(),
{
    if f.len() > 0 {
        let rest = f.drop_last();
        assert forall|k: int| 0 <= k < rest.len() implies file_ordered(#[trigger] rest[k].1) by {
            assert(rest[k] == f[k]);
        }
        lemma_lookup_ordered(rest, id);
        assert(f[f.len() - 1] == f.last());
    }
}

/// Every kit the shelf keeps has its lanes in order, each lane once, as the
/// kit file's map of lanes has them: loading such a shelf gives ordered lanes,
/// saving ordered lanes keeps the shelf so, and so do renaming, copying and
/// deleting.
pub proof fn the_shelf_keeps_each_lane_once_in_order(
    f: ShelfView,
    id: Seq<char>,
    name: Seq<char>,
    lanes: Seq<(u8, Seq<char>)>,
)
    requires
        shelf_ordered(f),
    ensures
        loading(f, id) matches Ok(l) ==> lanes_ordered(l),
        lanes_ordered(lanes) ==> (saving(f, name, lanes) matches Ok((g, _)) ==> shelf_ordered(g)),
        renaming(f, id, name) matches Ok((g, _)) ==> shelf_ordered(g),
        duplicating(f, id, name) matches Ok((g, _)) ==> shelf_ordered(g),
        deleting(f, id) matches Ok(g) ==> shelf_ordered(g),
{
    lemma_lookup_ordered(f, id);
    lemma_without_id_ordered(f, id);
    let t = trim(name, Trim::Space);
    let nid = slug(t, FALLBACK_ID@);
    if lanes_ordered(lanes) {
        lemma_put_ordered(f, nid, Ok((t, lanes)));
    }
    if loading(f, id) is Ok {
        let l = loading(f, id)->Ok_0;
        lemma_put_ordered(f, nid, Ok((t, l)));
        let g = put(f, nid, Ok((t, l)));
        lemma_without_id_ordered(g, id);
    }
}

/// What is written under an id is what the shelf then holds there, and no
/// other id changes.
pub proof fn put_then_lookup(f: ShelfView, id: Seq<char>, v: FileView, other: Seq<char>)
    ensures
        lookup(put(f, id, v), id) == Some(v),
        other != id ==> lookup(put(f, id, v), other) == lookup(f, other),
{
    lemma_without_id(f, id, other);
    assert(put(f, id, v).drop_last() == without_id(f, id));
}

/// What is removed under an id is gone, and no other id changes.
pub proof fn remove_then_lookup(f: ShelfView, id: Seq<char>, other: Seq<char>)
    ensures
        lookup(without_id(f, id), id) is None,
        other != id ==> lookup(without_id(f, id), other) == lookup(f, other),
{
    lemma_without_id(f, id, other);
}

// ---------------------------------------------------------------- executable pieces

fn join3(a: &str, b: &str, c: &str) -> (r: String)
    ensures
        r@ == cat3(a@, b@, c@),
{
    let mut out = chars_of(a);
    let more = chars_of(b);
    let last = chars_of(c);
    let ghost head = out@;
    let mut i: usize = 0;
    while i < more.len()
        invariant
            i <= more.len(),
            out@ == head + more@.subrange(0, i as int),
        decreases more.len() - i,
    {
        out.push(more[i]);
        i = i + 1;
    }
    let ghost mid = out@;
    let mut j: usize = 0;
    while j < last.len()
        invariant
            j <= last.len(),
            out@ == mid + last@.subrange(0, j as int),
        decreases last.len() - j,
    {
        out.push(last[j]);
        j = j + 1;
    }
    assert(out@ =~= cat3(a@, b@, c@));
    string_of(&out)
}

fn copy_lanes(lanes: &Vec<(u8, String)>) -> (r: Vec<(u8, String)>)
    ensures
        lanes_view(r@) == lanes_view(lanes@),
{
    let mut r: Vec<(u8, String)> = Vec::new();
    let mut i: usize = 0;
    while i < lanes.len()
        invariant
            i <= lanes.len(),
            lanes_view(r@) == lanes_view(lanes@.subrange(0, i as int)),
        decreases lanes.len() - i,
    {
        let ghost before = r@;
        r.push((lanes[i].0, copy_string(&lanes[i].1)));
        assert(lanes_view(r@) =~= lanes_view(before).push((lanes@[i as int].0, lanes@[i as int].1@)));
        assert(lanes@.subrange(0, i + 1) =~= lanes@.subrange(0, i as int).push(lanes@[i as int]));
        assert(lanes_view(r@) =~= lanes_view(lanes@.subrange(0, i + 1)));
        i = i + 1;
    }
    assert(lanes@.subrange(0, i as int) =~= lanes@);
    r
}

/// Where named kits are written, under the per-user data folder.
pub fn kits_dir(data_dir: Option<String>, sx: Syntax) -> (r: Option<String>)
    ensures
        match data_dir {
            Some(d) => r is Some && r->Some_0@ == joined(d@, KITS_FOLDER@, sx),
            None => r is None,
        },
{
    match data_dir {
        Some(d) => Some(crate::paths::join_name(d.as_str(), KITS_FOLDER, sx)),
        None => None,
    }
}

impl Shelf {
    /// An empty shelf: no kit saved yet.
    pub fn new() -> (r: Shelf)
        ensures
            r@ == Seq::<(Seq<char>, FileView)>::empty(),
    {
        let r = Shelf { files: Vec::new() };
        assert(r@ =~= Seq::<(Seq<char>, FileView)>::empty());
        r
    }

    /// The index of the file the shelf holds under `id`, if any.
    fn find(&self, id: &str) -> (r: Option<usize>)
        ensures
            match r {
                Some(i) => i < self.files.len() && lookup(self@, id@) == Some(self@[i as int].1)
                    && self@[i as int].0 == id@,
                None => lookup(self@, id@) is None,
            },
    {
        let ghost f = self@;
        let mut i: usize = self.files.len();
        assert(f.subrange(0, i as int) =~= f);
        while i > 0
            invariant
                i <= self.files.len(),
                f == self@,
                lookup(f, id@) == lookup(f.subrange(0, i as int), id@),
            decreases i,
        {
            let ghost sub = f.subrange(0, i as int);
            assert(sub.drop_last() =~= f.subrange(0, i - 1));
            assert(sub.last() == f[i - 1]);
            if same_text(self.files[i - 1].0.as_str(), id) {
                return Some(i - 1);
            }
            i = i - 1;
        }
        None
    }

    /// Removes every file called `id`.
    fn drop_id(&mut self, id: &str)
        ensures
            final(self)@ == without_id(old(self)@, id@),
    {
        let ghost f = old(self)@;
        let mut kept: Vec<(String, Stored)> = Vec::new();
        let mut rest: Vec<(String, Stored)> = Vec::new();
        std::mem::swap(&mut rest, &mut self.files);
        let ghost all = rest@;
        let total = rest.len();
        assert(f == all.map_values(|e: (String, Stored)| (e.0@, e.1@)));
        // Walk from the front, moving each file out of `rest` in turn.
        let mut backwards: Vec<(String, Stored)> = Vec::new();
        while rest.len() > 0
            invariant
                rest@.len() + backwards@.len() == all.len(),
                rest@ == all.subrange(0, rest@.len() as int),
                forall|k: int| 0 <= k < backwards@.len() ==> #[trigger] backwards@[k] == all[all.len() - 1 - k],
            decreases rest@.len(),
        {
            let e = rest.pop().unwrap();
            backwards.push(e);
        }
        let mut n: usize = 0;
        while backwards.len() > 0
            invariant
                n + backwards@.len() == all.len(),
                all.len() == total,
                forall|k: int| 0 <= k < backwards@.len() ==> #[trigger] backwards@[k] == all[all.len() - 1 - k],
                kept@.map_values(|e: (String, Stored)| (e.0@, e.1@)) == without_id(
                    all.subrange(0, n as int).map_values(|e: (String, Stored)| (e.0@, e.1@)),
                    id@,
                ),
            decreases backwards@.len(),
        {
            let e = backwards.pop().unwrap();
            let ghost seen = all.subrange(0, n + 1).map_values(|e: (String, Stored)| (e.0@, e.1@));
            assert(seen.drop_last() =~= all.subrange(0, n as int).map_values(|e: (String, Stored)| (e.0@, e.1@)));
            assert(e == all[n as int]);
            if !same_text(e.0.as_str(), id) {
                let ghost before = kept@;
                kept.push(e);
                assert(kept@.map_values(|e: (String, Stored)| (e.0@, e.1@)) =~= before.map_values(
                    |e: (String, Stored)| (e.0@, e.1@),
                ).push(seen.last()));
            }
            n = n + 1;
        }
        assert(all.subrange(0, n as int) =~= all);
        self.files = kept;
    }

    /// Writes `stored` under `id`, replacing what was there.
    fn put_file(&mut self, id: String, stored: Stored)
        ensures
            final(self)@ == put(old(self)@, id@, stored@),
    {
        self.drop_id(id.as_str());
        let ghost mid = self@;
        self.files.push((id, stored));
        assert(self@ =~= mid.push((id@, stored@)));
    }

    /// Adds a file the folder holds, as the folder is read.
    pub fn insert(&mut self, id: String, stored: Stored)
        ensures
            final(self)@ == put(old(self)@, id@, stored@),
            shelf_ordered(old(self)@) && file_ordered(stored@) ==> shelf_ordered(final(self)@),
    {
        proof {
            if shelf_ordered(old(self)@) && file_ordered(stored@) {
                lemma_put_ordered(old(self)@, id@, stored@);
            }
        }
        self.put_file(id, stored);
    }
}

} // verus!

verus! {

// ---------------------------------------------------------------- the operations

/// The lanes kit `id` restores, as [`loading`] says.
pub fn load(shelf: &Shelf, id: &str) -> (r: Result<Vec<(u8, String)>, String>)
    ensures
        match r {
            Ok(v) => loading(shelf@, id@) == Ok::<Seq<(u8, Seq<char>)>, Seq<char>>(lanes_view(v@)),
            Err(e) => loading(shelf@, id@) == Err::<Seq<(u8, Seq<char>)>, Seq<char>>(e@),
        },
        shelf_ordered(shelf@) ==> (r matches Ok(v) ==> lanes_ordered(lanes_view(v@))),
{
    proof {
        if shelf_ordered(shelf@) {
            the_shelf_keeps_each_lane_once_in_order(shelf@, id@, Seq::empty(), Seq::empty());
        }
    }
    proof {
        reveal_strlit("`");
    }
    if !crate::names::is_safe_stem(id) {
        assert("`"@ =~= seq!['`']);
        return Err(join3("`", id, "` is not a kit name"));
    }
    match shelf.find(id) {
        None => {
            assert("`"@ =~= seq!['`']);
            Err(join3("no kit `", id, "`"))
        },
        Some(i) => match &shelf.files[i].1 {
            Stored::Unreadable(why) => {
                let mut text = chars_of(join3("kit `", id, "` is malformed: ").as_str());
                let w = chars_of(why.as_str());
                let ghost head = text@;
                let mut k: usize = 0;
                while k < w.len()
                    invariant
                        k <= w.len(),
                        text@ == head + w@.subrange(0, k as int),
                    decreases w.len() - k,
                {
                    text.push(w[k]);
                    k = k + 1;
                }
                assert(text@ =~= malformed(id@, why@));
                Err(string_of(&text))
            },
            Stored::Kit(kit) => Ok(copy_lanes(&kit.lanes)),
        },
    }
}

/// Saves `lanes` under `name`, as [`saving`] says; a refusal leaves the shelf
/// as it was.
pub fn save(shelf: &mut Shelf, name: &str, lanes: Vec<(u8, String)>) -> (r: Result<KitSummary, String>)
    ensures
        answer_view(r, final(shelf)@) == saving(old(shelf)@, name@, lanes_view(lanes@)),
        r is Err ==> final(shelf)@ == old(shelf)@,
        shelf_ordered(old(shelf)@) && lanes_ordered(lanes_view(lanes@)) ==> shelf_ordered(final(shelf)@),
{
    proof {
        if shelf_ordered(old(shelf)@) {
            the_shelf_keeps_each_lane_once_in_order(old(shelf)@, Seq::empty(), name@, lanes_view(lanes@));
        }
    }
    let t = crate::names::trim_chars(&chars_of(name), Trim::Space);
    if t.len() == 0 {
        return Err(NO_NAME.to_string());
    }
    if lanes.len() == 0 {
        return Err(NO_SAMPLES.to_string());
    }
    let tname = string_of(&t);
    let id = crate::names::slug_with(tname.as_str(), FALLBACK_ID);
    match shelf.find(id.as_str()) {
        Some(i) => match &shelf.files[i].1 {
            Stored::Kit(k) => {
                if !same_text(k.name.as_str(), tname.as_str()) {
                    return Err(join3("a kit called `", k.name.as_str(), "` already goes by that name — pick another"));
                }
            },
            Stored::Unreadable(_) => {},
        },
        None => {},
    }
    let count = lanes.len();
    let ghost lv = lanes_view(lanes@);
    shelf.put_file(copy_string(&id), Stored::Kit(Kit { name: copy_string(&tname), lanes }));
    Ok(KitSummary { id, name: tname, lanes: count })
}

/// Refuses a rename or copy of `from` that would land on another kit, as
/// [`landing`] says.
pub fn refuse_landing_on_another(shelf: &Shelf, from: &str, name: &str) -> (r: Result<(), String>)
    ensures
        match r {
            Ok(()) => landing(shelf@, from@, name@) == Ok::<(), Seq<char>>(()),
            Err(e) => landing(shelf@, from@, name@) == Err::<(), Seq<char>>(e@),
        },
{
    let target = crate::names::slug_with(name, FALLBACK_ID);
    if same_text(target.as_str(), from) {
        return Ok(());
    }
    match shelf.find(target.as_str()) {
        Some(_) => Err(join3("there is already a kit called `", name, "` — pick another name")),
        None => Ok(()),
    }
}

/// Gives kit `id` another name, as [`renaming`] says; a refusal leaves the
/// shelf as it was.
pub fn rename(shelf: &mut Shelf, id: &str, name: &str) -> (r: Result<KitSummary, String>)
    ensures
        answer_view(r, final(shelf)@) == renaming(old(shelf)@, id@, name@),
        r is Err ==> final(shelf)@ == old(shelf)@,
        shelf_ordered(old(shelf)@) ==> shelf_ordered(final(shelf)@),
{
    proof {
        if shelf_ordered(old(shelf)@) {
            the_shelf_keeps_each_lane_once_in_order(old(shelf)@, id@, name@, Seq::empty());
        }
    }
    let lanes = match load(shelf, id) {
        Ok(l) => l,
        Err(e) => return Err(e),
    };
    if let Err(e) = refuse_landing_on_another(shelf, id, name) {
        return Err(e);
    }
    let saved = match save(shelf, name, lanes) {
        Ok(s) => s,
        Err(e) => return Err(e),
    };
    if !same_text(saved.id.as_str(), id) {
        shelf.drop_id(id);
    }
    Ok(saved)
}

/// Copies kit `id` under a new name, as [`duplicating`] says; a refusal
/// leaves the shelf as it was.
pub fn duplicate(shelf: &mut Shelf, id: &str, name: &str) -> (r: Result<KitSummary, String>)
    ensures
        answer_view(r, final(shelf)@) == duplicating(old(shelf)@, id@, name@),
        r is Err ==> final(shelf)@ == old(shelf)@,
        shelf_ordered(old(shelf)@) ==> shelf_ordered(final(shelf)@),
{
    proof {
        if shelf_ordered(old(shelf)@) {
            the_shelf_keeps_each_lane_once_in_order(old(shelf)@, id@, name@, Seq::empty());
        }
    }
    let lanes = match load(shelf, id) {
        Ok(l) => l,
        Err(e) => return Err(e),
    };
    proof {
        reveal_strlit("");
        assert(""@ =~= Seq::<char>::empty());
    }
    if let Err(e) = refuse_landing_on_another(shelf, "", name) {
        return Err(e);
    }
    save(shelf, name, lanes)
}

/// Forgets kit `id`, as [`deleting`] says; a refusal leaves the shelf as it
/// was.
pub fn delete(shelf: &mut Shelf, id: &str) -> (r: Result<(), String>)
    ensures
        match r {
            Ok(()) => deleting(old(shelf)@, id@) == Ok::<ShelfView, Seq<char>>(final(shelf)@),
            Err(e) => deleting(old(shelf)@, id@) == Err::<ShelfView, Seq<char>>(e@) && final(shelf)@ == old(shelf)@,
        },
        shelf_ordered(old(shelf)@) ==> shelf_ordered(final(shelf)@),
{
    proof {
        if shelf_ordered(old(shelf)@) {
            the_shelf_keeps_each_lane_once_in_order(old(shelf)@, id@, Seq::empty(), Seq::empty());
        }
    }
    proof {
        reveal_strlit("`");
        assert("`"@ =~= seq!['`']);
    }
    if !crate::names::is_safe_stem(id) {
        return Err(join3("`", id, "` is not a kit name"));
    }
    match shelf.find(id) {
        None => Err(join3("could not delete `", id, "`")),
        Some(_) => {
            shelf.drop_id(id);
            Ok(())
        },
    }
}

} // verus!

verus! {

/// `out` is `wanted` rearranged as `idx` says: position `i` holds summary
/// `idx[i]`, none twice, and two kits with the same name stand in shelf order.
pub open spec fn listed_in_order(
    out: Seq<(Seq<char>, Seq<char>, usize)>,
    wanted: Seq<(Seq<char>, Seq<char>, usize)>,
    idx: Seq<int>,
) -> bool {
    &&& idx.len() == out.len()
    &&& forall|i: int| 0 <= i < idx.len() ==> 0 <= #[trigger] idx[i] < wanted.len() && out[i] == wanted[idx[i]]
    &&& forall|i: int, j: int| 0 <= i < j < idx.len() ==> #[trigger] idx[i] != #[trigger] idx[j]
    &&& forall|i: int, j: int| 0 <= i < j < idx.len() && (#[trigger] out[i]).1 == (#[trigger] out[j]).1 ==> idx[i] < idx[j]
}

/// Every kit on the shelf that reads and has a safe id, sorted by name; kits
/// with the same name keep their shelf order.
pub fn list(shelf: &Shelf) -> (r: Vec<KitSummary>)
    ensures
        summary_views(r@).to_multiset() == listed(shelf@).to_multiset(),
        forall|i: int, j: int| 0 <= i < j < r@.len() ==> lex_le(#[trigger] r@[i].name@, #[trigger] r@[j].name@),
        exists|idx: Seq<int>| listed_in_order(summary_views(r@), listed(shelf@), idx),
{
    let ghost f = shelf@;
    let mut pairs: Vec<(Vec<char>, KitSummary)> = Vec::new();
    let mut i: usize = 0;
    while i < shelf.files.len()
        invariant
            i <= shelf.files.len(),
            f == shelf@,
            pairs@.map_values(|p: (Vec<char>, KitSummary)| p.1@) == listed(f.subrange(0, i as int)),
            forall|k: int| 0 <= k < pairs@.len() ==> (#[trigger] pairs@[k]).0@ == pairs@[k].1.name@,
        decreases shelf.files.len() - i,
    {
        let ghost seen = f.subrange(0, i + 1);
        assert(seen.drop_last() =~= f.subrange(0, i as int));
        assert(seen.last() == f[i as int]);
        let (id, stored) = &shelf.files[i];
        match stored {
            Stored::Kit(kit) => {
                if crate::names::is_safe_stem(id.as_str()) {
                    let s = KitSummary { id: copy_string(id), name: copy_string(&kit.name), lanes: kit.lanes.len() };
                    let key = chars_of(kit.name.as_str());
                    let ghost before = pairs@;
                    pairs.push((key, s));
                    assert(pairs@.map_values(|p: (Vec<char>, KitSummary)| p.1@) =~= before.map_values(
                        |p: (Vec<char>, KitSummary)| p.1@,
                    ).push(s@));
                }
            },
            Stored::Unreadable(_) => {},
        }
        i = i + 1;
    }
    assert(f.subrange(0, i as int) =~= f);
    let ghost orig = pairs@;
    let sorted = crate::order::sort_by_key(pairs);
    let ghost s = sorted@;
    proof {
        assert forall|k: int| 0 <= k < s.len() implies #[trigger] s[k].0@ == s[k].1.name@ by {
            crate::order::lemma_sorted_items_came_from_input(s, pairs@, k);
        }
        crate::order::lemma_map_keeps_multiset(s, pairs@, |p: (Vec<char>, KitSummary)| p.1@);
    }
    let out = crate::order::values_of(sorted);
    proof {
        assert(summary_views(out@) =~= s.map_values(|p: (Vec<char>, KitSummary)| p.1@));
        assert forall|a: int, b: int| 0 <= a < b < out@.len() implies lex_le(
            #[trigger] out@[a].name@,
            #[trigger] out@[b].name@,
        ) by {
            assert(keys_sorted(s));
            assert(lex_le(s[a].0@, s[b].0@));
        }
        let idx = choose|idx: Seq<int>| crate::order::stable_order(s, orig, idx);
        let w = orig.map_values(|p: (Vec<char>, KitSummary)| p.1@);
        let o = summary_views(out@);
        assert forall|i: int| 0 <= i < idx.len() implies 0 <= #[trigger] idx[i] < w.len() && o[i] == w[idx[i]] by {
            assert(s[i] == orig[idx[i]]);
        }
        assert forall|a: int, b: int| 0 <= a < b < idx.len() && (#[trigger] o[a]).1 == (#[trigger] o[b]).1 implies idx[a] < idx[b] by {
            assert(s[a].0@ == s[a].1.name@);
            assert(s[b].0@ == s[b].1.name@);
        }
        assert(listed_in_order(o, w, idx));
    }
    out
}

} // verus!

verus! {

// ---------------------------------------------------------------- what the store promises

proof fn lemma_fallback_is_safe()
    ensures
        safe_stem(FALLBACK_ID@),
{
    reveal_strlit("kit");
    assert(FALLBACK_ID@ =~= seq!['k', 'i', 't']);
}

/// A saved kit comes back with the lanes it was saved with, under an id that
/// can never be a path.
pub proof fn a_saved_kit_comes_back(f: ShelfView, name: Seq<char>, lanes: Seq<(u8, Seq<char>)>)
    requires
        saving(f, name, lanes) is Ok,
    ensures
        ({
            let (g, s) = saving(f, name, lanes)->Ok_0;
            &&& safe_stem(s.0)
            &&& loading(g, s.0) == Ok::<Seq<(u8, Seq<char>)>, Seq<char>>(lanes)
        }),
{
    let t = trim(name, Trim::Space);
    let id = slug(t, FALLBACK_ID@);
    lemma_fallback_is_safe();
    crate::names::slug_is_a_safe_stem(t, FALLBACK_ID@);
    put_then_lookup(f, id, Ok((t, lanes)), id);
}

/// Saving the same name twice replaces the kit rather than leaving two: the
/// second save is never refused, lands on the same id, and is the one that
/// stands; every other file is as the first save left it.
pub proof fn saving_the_same_name_twice_replaces_it(
    f: ShelfView,
    name: Seq<char>,
    first: Seq<(u8, Seq<char>)>,
    second: Seq<(u8, Seq<char>)>,
    other: Seq<char>,
)
    requires
        saving(f, name, first) is Ok,
        second.len() > 0,
    ensures
        ({
            let (g, s) = saving(f, name, first)->Ok_0;
            &&& saving(g, name, second) is Ok
            &&& saving(g, name, second)->Ok_0.1.0 == s.0
            &&& lookup(saving(g, name, second)->Ok_0.0, s.0) == Some(
                Ok::<KitView, Seq<char>>((trim(name, Trim::Space), second)),
            )
            &&& other != s.0 ==> lookup(saving(g, name, second)->Ok_0.0, other) == lookup(g, other)
        }),
{
    let t = trim(name, Trim::Space);
    let id = slug(t, FALLBACK_ID@);
    put_then_lookup(f, id, Ok((t, first)), id);
    let g = put(f, id, Ok((t, first)));
    put_then_lookup(g, id, Ok((t, second)), other);
}

/// Two names that make the same id cannot become one kit: saving a different
/// name over a kit that reads is refused, naming the kit that is there.
pub proof fn two_names_that_slug_alike_cannot_become_one_kit(
    f: ShelfView,
    name: Seq<char>,
    lanes: Seq<(u8, Seq<char>)>,
)
    requires
        trim(name, Trim::Space).len() > 0,
        lanes.len() > 0,
        lookup(f, slug(trim(name, Trim::Space), FALLBACK_ID@)) matches Some(Ok(k)) && k.0 != trim(name, Trim::Space),
    ensures
        saving(f, name, lanes) == Err::<(ShelfView, (Seq<char>, Seq<char>, int)), Seq<char>>(
            taken_by(lookup(f, slug(trim(name, Trim::Space), FALLBACK_ID@))->Some_0->Ok_0.0),
        ),
{
}

/// Renaming keeps the samples and leaves one kit behind: the kit is under its
/// new id with the new name and its old lanes, the old id is gone when it
/// changed, and every other file is untouched.
pub proof fn renaming_leaves_one_kit_behind(f: ShelfView, id: Seq<char>, name: Seq<char>, other: Seq<char>)
    requires
        renaming(f, id, name) is Ok,
    ensures
        ({
            let (g, s) = renaming(f, id, name)->Ok_0;
            &&& lookup(g, s.0) == Some(Ok::<KitView, Seq<char>>((trim(name, Trim::Space), loading(f, id)->Ok_0)))
            &&& s.0 != id ==> lookup(g, id) is None
            &&& other != s.0 && other != id ==> lookup(g, other) == lookup(f, other)
        }),
{
    let lanes = loading(f, id)->Ok_0;
    let t = trim(name, Trim::Space);
    let new_id = slug(t, FALLBACK_ID@);
    let g = put(f, new_id, Ok((t, lanes)));
    put_then_lookup(f, new_id, Ok((t, lanes)), other);
    if new_id != id {
        remove_then_lookup(g, id, new_id);
        remove_then_lookup(g, id, other);
        put_then_lookup(f, new_id, Ok((t, lanes)), new_id);
    } else {
        put_then_lookup(f, new_id, Ok((t, lanes)), new_id);
    }
}

/// Renaming onto another kit's name is refused rather than destroying it: when
/// the new name makes an id other than the kit's own and a file is already
/// there, nothing is saved.
pub proof fn renaming_onto_another_kit_is_refused(f: ShelfView, id: Seq<char>, name: Seq<char>)
    requires
        loading(f, id) is Ok,
        slug(name, FALLBACK_ID@) != id,
        lookup(f, slug(name, FALLBACK_ID@)) is Some,
    ensures
        renaming(f, id, name) == Err::<(ShelfView, (Seq<char>, Seq<char>, int)), Seq<char>>(already_called(name)),
{
}

/// A deleted kit is gone and no other file changes.
pub proof fn a_deleted_kit_is_gone(f: ShelfView, id: Seq<char>, other: Seq<char>)
    requires
        deleting(f, id) is Ok,
    ensures
        loading(deleting(f, id)->Ok_0, id) is Err,
        forall|j: int| 0 <= j < listed(deleting(f, id)->Ok_0).len() ==> (#[trigger] listed(deleting(f, id)->Ok_0)[j]).0 != id,
        other != id ==> lookup(deleting(f, id)->Ok_0, other) == lookup(f, other),
{
    remove_then_lookup(f, id, other);
    lemma_without_id_holds_none(f, id);
    lemma_listed_ids(without_id(f, id), id);
}

proof fn lemma_without_id_holds_none(f: ShelfView, id: Seq<char>)
    ensures
        forall|k: int| 0 <= k < without_id(f, id).len() ==> (#[trigger] without_id(f, id)[k]).0 != id,
    decreases f.len(),
{
    if f.len() > 0 {
        lemma_without_id_holds_none(f.drop_last(), id);
        let w = without_id(f.drop_last(), id);
        if f.last().0 != id {
            assert forall|k: int| 0 <= k < w.push(f.last()).len() implies (#[trigger] w.push(f.last())[k]).0 != id by {
                if k < w.len() {
                    assert(w.push(f.last())[k] == w[k]);
                }
            }
        }
    }
}

proof fn lemma_listed_ids(f: ShelfView, id: Seq<char>)
    requires
        forall|k: int| 0 <= k < f.len() ==> (#[trigger] f[k]).0 != id,
    ensures
        forall|j: int| 0 <= j < listed(f).len() ==> (#[trigger] listed(f)[j]).0 != id,
    decreases f.len(),
{
    if f.len() > 0 {
        let rest = f.drop_last();
        assert forall|k: int| 0 <= k < rest.len() implies (#[trigger] rest[k]).0 != id by {
            assert(rest[k] == f[k]);
        }
        lemma_listed_ids(rest, id);
        assert(f[f.len() - 1] == f.last());
        let l = listed(rest);
        if let Some(x) = summary_of(f.last()) {
            assert forall|j: int| 0 <= j < l.push(x).len() implies (#[trigger] l.push(x)[j]).0 != id by {
                if j < l.len() {
                    assert(l.push(x)[j] == l[j]);
                }
            }
        }
    }
}

} // verus!

verus! {

/// Duplicating leaves the original alone: the copy lands under a new id, the
/// original's file is untouched, and the copy carries the original's lanes
/// under the new name.
pub proof fn duplicating_leaves_the_original_alone(f: ShelfView, id: Seq<char>, name: Seq<char>)
    requires
        duplicating(f, id, name) is Ok,
    ensures
        ({
            let (g, s) = duplicating(f, id, name)->Ok_0;
            &&& s.0 != id
            &&& lookup(g, id) == lookup(f, id)
            &&& lookup(g, s.0) == Some(Ok::<KitView, Seq<char>>((trim(name, Trim::Space), loading(f, id)->Ok_0)))
        }),
{
    let lanes = loading(f, id)->Ok_0;
    let t = trim(name, Trim::Space);
    let target = slug(name, FALLBACK_ID@);
    lemma_fallback_is_safe();
    crate::names::slug_is_a_safe_stem(name, FALLBACK_ID@);
    crate::names::slug_ignores_surrounding_space(name, FALLBACK_ID@);
    assert(target != Seq::<char>::empty());
    assert(lookup(f, target) is None);
    assert(slug(t, FALLBACK_ID@) == target);
    put_then_lookup(f, target, Ok((t, lanes)), id);
}

} // verus!
