//! Who drives the pattern's schedule, and the meter the host reports.

use vstd::prelude::*;

verus! {

/// Whether the host's transport has just *started*: an edge, not a level.
pub fn host_takes_over(host_playing: bool, host_was_playing: bool) -> (r: bool)
    ensures
        r == (host_playing && !host_was_playing),
{
    host_playing && !host_was_playing
}

/// Whether the schedule advances this block: the standalone follows only its
/// own flag; a plugin runs when the host or its own preview does.
pub fn transport_runs(standalone: bool, host_playing: bool, preview: bool) -> (r: bool)
    ensures
        r == (if standalone { preview } else { host_playing || preview }),
{
    if standalone {
        preview
    } else {
        host_playing || preview
    }
}

} // verus!

verus! {

/// One side of the meter after a block: what the host reports when it is
/// positive (as its low eight bits, which is what the conversion keeps), and
/// otherwise what was held, since a host that stops saying has not changed it.
pub open spec fn meter_part(held: u8, reported: Option<i32>) -> u8 {
    match reported {
        Some(n) => if n > 0 { n as u8 } else { held },
        None => held,
    }
}

/// The time signature after a block, from the one held and what the host
/// reported for each side.
pub fn host_meter(held: (u8, u8), numerator: Option<i32>, denominator: Option<i32>) -> (r: (u8, u8))
    ensures
        r.0 == meter_part(held.0, numerator),
        r.1 == meter_part(held.1, denominator),
{
    let num = match numerator {
        Some(n) => if n > 0 { #[verifier::truncate] (n as u8) } else { held.0 },
        None => held.0,
    };
    let den = match denominator {
        Some(d) => if d > 0 { #[verifier::truncate] (d as u8) } else { held.1 },
        None => held.1,
    };
    (num, den)
}

} // verus!

verus! {

/// Where the tempo a generation runs at comes from.
#[derive(Clone, Copy, Debug, PartialEq, Eq)]
pub enum TempoSource {
    /// The producer pinned one: an instruction, whatever else is true.
    Pin,
    /// The host's, while auto-sync is on and the host has said one.
    Host,
    /// The model's own.
    Model,
}

/// The precedence: a pin, then the host when auto-sync is on and it has
/// reported a tempo it can be believed about, then the model.
pub open spec fn tempo_from(pinned: bool, auto_sync: bool, host_said: bool) -> TempoSource {
    if pinned {
        TempoSource::Pin
    } else if auto_sync && host_said {
        TempoSource::Host
    } else {
        TempoSource::Model
    }
}

/// The precedence of tempos: a pin wins whatever else is true; the host's
/// tempo is used exactly when nothing is pinned, auto-sync is on and the host
/// has reported one, so a host that said nothing, or auto-sync turned off,
/// never decides it; in every other unpinned case the model's own is used.
pub proof fn the_tempo_precedence(pinned: bool, auto_sync: bool, host_said: bool)
    ensures
        (tempo_from(pinned, auto_sync, host_said) == TempoSource::Pin) <==> pinned,
        (tempo_from(pinned, auto_sync, host_said) == TempoSource::Host) <==> (!pinned && auto_sync && host_said),
        (tempo_from(pinned, auto_sync, host_said) == TempoSource::Model) <==> (!pinned && !(auto_sync && host_said)),
        !host_said ==> tempo_from(pinned, auto_sync, host_said) != TempoSource::Host,
        !auto_sync ==> tempo_from(pinned, auto_sync, host_said) != TempoSource::Host,
        tempo_from(pinned, false, host_said) == tempo_from(pinned, auto_sync, false),
{
}

/// [`tempo_from`], executable.
pub fn tempo_source(pinned: bool, auto_sync: bool, host_said: bool) -> (r: TempoSource)
    ensures
        r == tempo_from(pinned, auto_sync, host_said),
        (r == TempoSource::Pin) <==> pinned,
        (r == TempoSource::Host) <==> (!pinned && auto_sync && host_said),
        (r == TempoSource::Model) <==> (!pinned && !(auto_sync && host_said)),
{
    if pinned {
        TempoSource::Pin
    } else if auto_sync && host_said {
        TempoSource::Host
    } else {
        TempoSource::Model
    }
}

} // verus!
