//! Scripted scenes between two pets: a time line of who does what, second
//! by second, rather than two state machines negotiating.
//!
//! Times are milliseconds from the start of the scene and distances are
//! hundredths of a body length, so that a script is plain integers.
use vstd::prelude::*;

verus! {

/// What one role does at one point of the time line.
#[derive(Debug, Clone, Copy)]
pub enum Beat {
    /// Turn towards the other role.
    Face,
    /// Play a logical clip of the manifest; skipped by a pet that lacks it.
    Play(&'static str),
    /// Walk up to the other role and stop `gap_pct` hundredths of a body
    /// length from it, on the side it already stands on.
    Approach { gap_pct: u32, running: bool },
    /// Go back to where the scene found it.
    GoHome { running: bool },
}

/// One entry of a time line.
#[derive(Debug, Clone, Copy)]
pub struct Step {
    /// Milliseconds from the start of the scene.
    pub at_ms: u32,
    /// Index into [`Script::cast`].
    pub role: usize,
    pub beat: Beat,
}

/// One scene.
#[derive(Debug, Clone)]
pub struct Script {
    pub id: &'static str,
    pub name: &'static str,
    /// The form ids of the two roles.
    pub cast: [i64; 2],
    /// How far apart (hundredths of a body length) the two may stand for
    /// the scene to start.
    pub max_distance_pct: u32,
    /// How long after the end before it may play again.
    pub cooldown_ms: u32,
    /// Total length; the scene ends there.
    pub length_ms: u32,
    pub steps: Vec<Step>,
}

/// A script can be run front to back: its steps come in time order, each
/// names one of the two roles, the last one falls inside the length, and
/// the two roles are different forms.
pub open spec fn well_formed(s: Script) -> bool {
    &&& forall|i: int, j: int|
        0 <= i <= j < s.steps@.len() ==> #[trigger] s.steps@[i].at_ms <= #[trigger] s.steps@[j].at_ms
    &&& forall|i: int| 0 <= i < s.steps@.len() ==> #[trigger] s.steps@[i].role < 2
    &&& s.steps@.len() > 0 ==> s.steps@.last().at_ms < s.length_ms
    &&& s.cast[0] != s.cast[1]
}

pub open spec fn is_face(b: Beat) -> bool {
    b is Face
}

pub open spec fn is_play(b: Beat, clip: Seq<char>) -> bool {
    b matches Beat::Play(n) && n@ == clip
}

pub open spec fn is_approach(b: Beat, gap_pct: u32, running: bool) -> bool {
    b == Beat::Approach { gap_pct, running }
}

pub open spec fn is_go_home(b: Beat, running: bool) -> bool {
    b == Beat::GoHome { running }
}

pub open spec fn step_is(s: Step, at_ms: u32, role: usize) -> bool {
    s.at_ms == at_ms && s.role == role
}

/// The time line of "the weasel sends the duster to sweep": the weasel
/// calls out, the duster answers, runs over, shows off twice (there is no
/// sweeping clip), goes home, and the weasel is pleased.
pub open spec fn is_sweep_time_line(t: Seq<Step>) -> bool {
    &&& t.len() == 11
    &&& step_is(t[0], 0, 0) && is_face(t[0].beat)
    &&& step_is(t[1], 200, 0) && is_play(t[1].beat, "CallOut"@)
    &&& step_is(t[2], 900, 1) && is_face(t[2].beat)
    &&& step_is(t[3], 1100, 1) && is_play(t[3].beat, "Alert"@)
    &&& step_is(t[4], 2000, 1) && is_approach(t[4].beat, 130, true)
    &&& step_is(t[5], 3600, 1) && is_play(t[5].beat, "Show"@)
    &&& step_is(t[6], 5200, 1) && is_approach(t[6].beat, 210, false)
    &&& step_is(t[7], 6200, 1) && is_play(t[7].beat, "Show"@)
    &&& step_is(t[8], 7800, 1) && is_go_home(t[8].beat, false)
    &&& step_is(t[9], 9400, 0) && is_face(t[9].beat)
    &&& step_is(t[10], 9600, 0) && is_play(t[10].beat, "Happy"@)
}

fn step(at_ms: u32, role: usize, beat: Beat) -> (r: Step)
    ensures
        r == (Step { at_ms, role, beat }),
{
    Step { at_ms, role, beat }
}

/// "The weasel sends the duster to sweep" (forms 3758 and 3604).
pub fn peel_commands_cleaner() -> (r: Script)
    ensures
        r.id@ == "peel_commands_cleaner"@,
        r.name@ == "珀尔鼬指挥捕尘长绒清扫"@,
        r.cast == [3758i64, 3604i64],
        r.max_distance_pct == 250,
        r.cooldown_ms == 90_000,
        r.length_ms == 11_500,
        is_sweep_time_line(r.steps@),
        well_formed(r),
{
    let mut steps: Vec<Step> = Vec::new();
    steps.push(step(0, 0, Beat::Face));
    steps.push(step(200, 0, Beat::Play("CallOut")));
    steps.push(step(900, 1, Beat::Face));
    steps.push(step(1100, 1, Beat::Play("Alert")));
    steps.push(step(2000, 1, Beat::Approach { gap_pct: 130, running: true }));
    steps.push(step(3600, 1, Beat::Play("Show")));
    steps.push(step(5200, 1, Beat::Approach { gap_pct: 210, running: false }));
    steps.push(step(6200, 1, Beat::Play("Show")));
    steps.push(step(7800, 1, Beat::GoHome { running: false }));
    steps.push(step(9400, 0, Beat::Face));
    steps.push(step(9600, 0, Beat::Play("Happy")));
    let r = Script {
        id: "peel_commands_cleaner",
        name: "珀尔鼬指挥捕尘长绒清扫",
        cast: [3758, 3604],
        max_distance_pct: 250,
        cooldown_ms: 90_000,
        length_ms: 11_500,
        steps,
    };
    assert(r.cast[0] != r.cast[1]);
    assert forall|i: int, j: int|
        0 <= i <= j < r.steps@.len() implies #[trigger] r.steps@[i].at_ms <= #[trigger] r.steps@[j].at_ms by {
        let t = r.steps@;
        assert(t[0].at_ms <= t[1].at_ms <= t[2].at_ms <= t[3].at_ms <= t[4].at_ms <= t[5].at_ms);
        assert(t[5].at_ms <= t[6].at_ms <= t[7].at_ms <= t[8].at_ms <= t[9].at_ms <= t[10].at_ms);
    }
    r
}

/// Every scene the pets know.
pub fn scripts() -> (r: Vec<Script>)
    ensures
        r@.len() == 1,
        r@[0].id@ == "peel_commands_cleaner"@,
        is_sweep_time_line(r@[0].steps@),
        forall|k: int| 0 <= k < r@.len() ==> well_formed(#[trigger] r@[k]),
{
    let mut r: Vec<Script> = Vec::new();
    r.push(peel_commands_cleaner());
    r
}

} // verus!
