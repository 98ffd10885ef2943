//! What the bridge answers before anything runs: which commands a plugin whose
//! licence has not been accepted may still answer, and which content type a
//! bundled file is served as.

use vstd::prelude::*;
use crate::text::{chars_of, same_text};

verus! {

/// What the page is told when a command is refused for want of acceptance, phrased as the next action.
pub const NOT_ACCEPTED: &'static str = "Freally MIDI Master is waiting for you to accept its licence agreement. Read it in the window and choose Agree — everything works immediately after that.";

/// The only commands answerable before the licence is accepted.
pub open spec fn before_acceptance() -> Seq<Seq<char>> {
    seq![
        "eula_status"@,
        "eula_accept"@,
        "eula_decline"@,
        "app_info"@,
        "editor_size"@,
        "set_editor_size"@,
    ]
}

/// Whether `command` is one of [`before_acceptance`].
pub fn allowed_before_acceptance(command: &str) -> (r: bool)
    ensures
        r == before_acceptance().contains(command@),
{
    let names = ["eula_status", "eula_accept", "eula_decline", "app_info", "editor_size", "set_editor_size"];
    let ghost all = before_acceptance();
    let mut i: usize = 0;
    while i < 6
        invariant
            i <= 6,
            all == before_acceptance(),
            forall|k: int| 0 <= k < 6 ==> (#[trigger] names@[k])@ == all[k],
            forall|k: int| 0 <= k < i ==> all[k] != command@,
        decreases 6 - i,
    {
        if same_text(names[i], command) {
            assert(all[i as int] == command@);
            return true;
        }
        i = i + 1;
    }
    false
}

/// Whether `command` is refused: it is not on the list, and the
/// licence has not been accepted. An allowlist, so a command nobody listed is
/// refused until the agreement is accepted.
pub fn licence_blocks(command: &str, accepted: bool) -> (r: bool)
    ensures
        r == (!before_acceptance().contains(command@) && !accepted),
{
    !allowed_before_acceptance(command) && !accepted
}

/// The text after the last `.` of `path`, or all of it when there is none:
/// the first piece of `str::rsplit('.')`.
pub open spec fn after_last_dot(path: Seq<char>) -> Seq<char> {
    path.subrange(crate::paths::last_dot(path) + 1, path.len() as int)
}

/// The content type each extension Vite emits is served as.
pub open spec fn content_type(ext: Seq<char>) -> Seq<char> {
    if ext == "html"@ { "text/html; charset=utf-8"@ }
    else if ext == "js"@ || ext == "mjs"@ { "text/javascript; charset=utf-8"@ }
    else if ext == "css"@ { "text/css; charset=utf-8"@ }
    else if ext == "json"@ { "application/json; charset=utf-8"@ }
    else if ext == "svg"@ { "image/svg+xml"@ }
    else if ext == "png"@ { "image/png"@ }
    else if ext == "jpg"@ || ext == "jpeg"@ { "image/jpeg"@ }
    else if ext == "webp"@ { "image/webp"@ }
    else if ext == "woff2"@ { "font/woff2"@ }
    else if ext == "woff"@ { "font/woff"@ }
    else if ext == "ttf"@ { "font/ttf"@ }
    else if ext == "otf"@ { "font/otf"@ }
    else if ext == "ico"@ { "image/x-icon"@ }
    else { "application/octet-stream"@ }
}

/// The content type a bundled file is served as, by what follows its last `.`;
/// anything unknown is a plain byte stream.
pub fn mime_for(path: &str) -> (r: &'static str)
    ensures
        r@ == content_type(after_last_dot(path@)),
{
    let cs = chars_of(path);
    proof {
        crate::paths::lemma_last_dot_bounds(cs@);
    }
    let start = match crate::paths::find_last_dot(&cs) {
        Some(d) => {
            assert(d < cs.len());
            d + 1
        },
        None => 0,
    };
    let mut ext: Vec<char> = Vec::new();
    let mut i = start;
    while i < cs.len()
        invariant
            start <= i <= cs.len(),
            ext@ == cs@.subrange(start as int, i as int),
        decreases cs.len() - i,
    {
        ext.push(cs[i]);
        i = i + 1;
    }
    let e = crate::text::string_of(&ext);
    let e = e.as_str();
    if same_text(e, "html") { "text/html; charset=utf-8" }
    else if same_text(e, "js") || same_text(e, "mjs") { "text/javascript; charset=utf-8" }
    else if same_text(e, "css") { "text/css; charset=utf-8" }
    else if same_text(e, "json") { "application/json; charset=utf-8" }
    else if same_text(e, "svg") { "image/svg+xml" }
    else if same_text(e, "png") { "image/png" }
    else if same_text(e, "jpg") || same_text(e, "jpeg") { "image/jpeg" }
    else if same_text(e, "webp") { "image/webp" }
    else if same_text(e, "woff2") { "font/woff2" }
    else if same_text(e, "woff") { "font/woff" }
    else if same_text(e, "ttf") { "font/ttf" }
    else if same_text(e, "otf") { "font/otf" }
    else if same_text(e, "ico") { "image/x-icon" }
    else { "application/octet-stream" }
}

} // verus!
