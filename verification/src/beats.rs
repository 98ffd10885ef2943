//! Where the beats of a bar fall, in sixteenths, for reading a drum loop: how
//! many sixteenths a bar of a meter holds, which of them carry the backbeat,
//! and which snare lane a broadband hit lands on.

use vstd::prelude::*;

verus! {

/// How many sixteenths one bar of `num`/`den` holds (at least one).
pub open spec fn sixteenths_in_bar(num: u8, den: u8) -> int {
    let d = if den == 0 { 1 } else { den as int };
    let n = (num as int) * 16 / d;
    if n < 1 { 1 } else { n }
}

/// [`sixteenths_in_bar`], executable.
pub fn sixteenths_per_bar(num: u8, den: u8) -> (r: u32)
    ensures
        r as int == sixteenths_in_bar(num, den),
{
    let d: u32 = if den == 0 { 1 } else { den as u32 };
    let n = (num as u32) * 16 / d;
    if n < 1 { 1 } else { n }
}

/// The sixteenths of one beat of `num`/`den` (at least one).
pub open spec fn beat_length(num: u8, den: u8) -> int {
    let d = if den == 0 { 1 } else { den as int };
    let per_bar = (num as int) * 16 / d;
    let beats = if num == 0 { 1 } else { num as int };
    let b = per_bar / beats;
    if b < 1 { 1 } else { b }
}

/// The sixteenths the backbeat is on: every second beat of the bar, starting
/// with the second (two and four in 4/4), derived from the meter rather than
/// written down.
pub open spec fn backbeat(num: u8, den: u8) -> Seq<u32> {
    Seq::new((num / 2) as nat, |i: int| ((2 * i + 1) * beat_length(num, den)) as u32)
}

/// [`backbeat`], executable.
pub fn backbeat_steps(num: u8, den: u8) -> (r: Vec<u32>)
    ensures
        r@ == backbeat(num, den),
{
    let d: u32 = if den == 0 { 1 } else { den as u32 };
    let per_bar = (num as u32) * 16 / d;
    let beats: u32 = if num == 0 { 1 } else { num as u32 };
    let b = per_bar / beats;
    let per_beat: u32 = if b < 1 { 1 } else { b };
    assert(per_beat as int == beat_length(num, den));
    assert(per_bar <= 4080) by (nonlinear_arith)
        requires
            per_bar as int == (num as int) * 16 / (d as int),
            d >= 1,
            num <= 255,
    ;
    assert(per_beat <= 4080);
    let mut r: Vec<u32> = Vec::new();
    let mut beat: u32 = 0;
    while beat < num as u32
        invariant
            beat <= num as u32,
            per_beat as int == beat_length(num, den),
            1 <= per_beat <= 4080,
            r@.len() == beat as int / 2,
            forall|i: int| 0 <= i < r@.len() ==> r@[i] == ((2 * i + 1) * per_beat) as u32,
        decreases num as u32 - beat,
    {
        if beat % 2 == 1 {
            assert(beat * per_beat <= 255 * 4080) by (nonlinear_arith)
                requires
                    beat <= 255,
                    per_beat <= 4080,
            ;
            let ghost k = r@.len() as int;
            assert(2 * k + 1 == beat);
            assert((2 * k + 1) * per_beat == beat * per_beat);
            r.push(beat * per_beat);
            assert(r@[k] == ((2 * k + 1) * per_beat) as u32);
        }
        beat = beat + 1;
    }
    assert(r@ =~= backbeat(num, den));
    r
}

/// The snare lanes a broadband hit can land on.
#[derive(Clone, Copy, Debug, PartialEq, Eq)]
pub enum SnareLane {
    /// On the backbeat.
    Snare,
    /// The quiet answering snare on the e and a of a beat.
    GhostSnare,
    /// A second snare voice on the off-beats.
    OffSnare,
}

/// Which snare lane a broadband hit on `sixteenth` lands on: the backbeat's
/// own, a ghost on an odd sixteenth, and the off-beat snare otherwise.
pub open spec fn snare_lane(sixteenth: u32, steps: Seq<u32>) -> SnareLane {
    if steps.contains(sixteenth) {
        SnareLane::Snare
    } else if sixteenth % 2 == 1 {
        SnareLane::GhostSnare
    } else {
        SnareLane::OffSnare
    }
}

/// Which snare a broadband hit is read as: on a backbeat step it is the
/// snare; anywhere else it is a ghost exactly on the odd sixteenths (the e
/// and a of a beat) and the off-beat snare exactly on the even ones, so two
/// neighbouring sixteenths off the backbeat never land on the same lane.
pub proof fn a_snare_lane_follows_the_beat(sixteenth: u32, steps: Seq<u32>)
    ensures
        steps.contains(sixteenth) ==> snare_lane(sixteenth, steps) == SnareLane::Snare,
        (snare_lane(sixteenth, steps) == SnareLane::Snare) ==> steps.contains(sixteenth),
        !steps.contains(sixteenth) ==> ((snare_lane(sixteenth, steps) == SnareLane::GhostSnare) <==> sixteenth % 2 == 1),
        !steps.contains(sixteenth) ==> ((snare_lane(sixteenth, steps) == SnareLane::OffSnare) <==> sixteenth % 2 == 0),
        sixteenth < u32::MAX && !steps.contains(sixteenth) && !steps.contains((sixteenth + 1) as u32) ==> snare_lane(
            sixteenth,
            steps,
        ) != snare_lane((sixteenth + 1) as u32, steps),
{
}

/// [`snare_lane`], executable.
pub fn backbeat_lane(sixteenth: u32, steps: &Vec<u32>) -> (r: SnareLane)
    ensures
        r == snare_lane(sixteenth, steps@),
        (r == SnareLane::Snare) <==> steps@.contains(sixteenth),
        !steps@.contains(sixteenth) ==> ((r == SnareLane::GhostSnare) <==> sixteenth % 2 == 1),
        !steps@.contains(sixteenth) ==> ((r == SnareLane::OffSnare) <==> sixteenth % 2 == 0),
{
    let mut i: usize = 0;
    while i < steps.len()
        invariant
            i <= steps.len(),
            forall|k: int| 0 <= k < i ==> steps@[k] != sixteenth,
        decreases steps.len() - i,
    {
        if steps[i] == sixteenth {
            assert(steps@[i as int] == sixteenth);
            return SnareLane::Snare;
        }
        i = i + 1;
    }
    if sixteenth % 2 == 1 {
        SnareLane::GhostSnare
    } else {
        SnareLane::OffSnare
    }
}

} // verus!
