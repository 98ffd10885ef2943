//! The editor's named sizes: which one a project opens at, and which one the
//! size button goes to next. The sizes themselves are measured in app code,
//! from the display; this is the choice made over them.

use vstd::prelude::*;
use crate::text::same_text;

verus! {

/// How many named sizes there are.
pub const SCALE_COUNT: usize = 2;

/// The size the editor opens at: the smaller one, so the button's first press
/// grows the window and its second returns it here.
pub const DEFAULT_SCALE: &'static str = "large";

/// The named sizes, smallest first.
pub open spec fn scale_names() -> Seq<Seq<char>> {
    seq!["large"@, "xl"@]
}

fn scale_name(i: usize) -> (r: &'static str)
    requires
        i < SCALE_COUNT,
    ensures
        r@ == scale_names()[i as int],
{
    if i == 0 {
        "large"
    } else {
        "xl"
    }
}

/// Where `name` stands among the named sizes, if it is one of them.
pub open spec fn position_of(name: Seq<char>) -> Option<int> {
    if name == scale_names()[0] {
        Some(0)
    } else if name == scale_names()[1] {
        Some(1)
    } else {
        None
    }
}

/// The index of `name` among the named sizes, if it is one of them.
pub fn scale_index(name: &str) -> (r: Option<usize>)
    ensures
        match r {
            Some(i) => position_of(name@) == Some(i as int),
            None => position_of(name@) is None,
        },
{
    if same_text(name, scale_name(0)) {
        Some(0)
    } else if same_text(name, scale_name(1)) {
        Some(1)
    } else {
        None
    }
}

/// The size a session is at: the one it was saved at when that is still one
/// of the named sizes, and the default otherwise, so a project saved at a size
/// that no longer exists still opens.
pub fn current_scale(saved: &Option<String>) -> (r: String)
    ensures
        match saved {
            Some(s) => if position_of(s@) is Some { r@ == s@ } else { r@ == DEFAULT_SCALE@ },
            None => r@ == DEFAULT_SCALE@,
        },
{
    match saved {
        Some(s) => match scale_index(s.as_str()) {
            Some(_) => crate::text::copy_string(s),
            None => DEFAULT_SCALE.to_string(),
        },
        None => DEFAULT_SCALE.to_string(),
    }
}

/// The first size after `at`, wrapping, whose window differs from the one at
/// `at`: the number of steps taken, or `None` when every size has the same
/// window.
pub open spec fn first_different(windows: Seq<(u32, u32)>, at: int) -> Option<int> {
    if windows[(at + 1) % 2] != windows[at] {
        Some(1)
    } else {
        None
    }
}

/// What the size button goes to from `name`, and whether that is smaller.
/// `windows` holds the window each named size would open, in the same order.
/// The next size that is a different window is chosen, wrapping; when every
/// size collapses onto the same window the button stays where it is rather
/// than claim to change something.
pub open spec fn next_size(name: Seq<char>, windows: Seq<(u32, u32)>) -> (Seq<char>, bool) {
    let at = match position_of(name) {
        Some(i) => i,
        None => 0,
    };
    match first_different(windows, at) {
        Some(step) => {
            let to = (at + step) % 2;
            (scale_names()[to], to < at)
        },
        None => (scale_names()[at], false),
    }
}

/// [`next_size`], executable.
pub fn next_among(name: &str, windows: &Vec<(u32, u32)>) -> (r: (&'static str, bool))
    requires
        windows.len() == SCALE_COUNT,
    ensures
        (r.0@, r.1) == next_size(name@, windows@),
{
    let at = match scale_index(name) {
        Some(i) => i,
        None => 0,
    };
    let here = windows[at];
    let to = (at + 1) % SCALE_COUNT;
    let there = windows[to];
    if there.0 != here.0 || there.1 != here.1 {
        return (scale_name(to), to < at);
    }
    (scale_name(at), false)
}

} // verus!
