//! Commands from outside the stage (tray menu, hotkeys, another instance)
//! and their encoding as window messages: the event loop only ever sees a
//! [`Control`], whichever way it arrived.
use vstd::prelude::*;

verus! {

/// Which page the settings window opens on.
#[derive(Debug, Clone, Copy, PartialEq, Eq, Structural)]
pub enum SettingsPage {
    /// Pack management.
    Packs,
    /// Common settings (size, volume, frame rate).
    Common,
}

/// A command that can be issued from outside.
#[derive(Debug, Clone, Copy, PartialEq, Eq, Structural)]
pub enum Control {
    /// Toggle mouse pass-through.
    TogglePassthrough,
    /// Toggle the voice mute.
    ToggleMute,
    /// Call the pets back to the middle of the screen.
    Recall,
    /// Switch roster slot `slot` to form `form` of its evolution chain.
    SwitchForm { slot: usize, form: usize },
    /// Add the pack at this index of the available list.
    AddPet(usize),
    /// Remove the pet in this roster slot.
    RemovePet(usize),
    /// Quit.
    Quit,
    /// Re-read the configuration and the roster.
    Reload,
    /// Open the settings window on a page.
    OpenSettings(SettingsPage),
    /// Have roster slot `.0` play clip `.1` of its clip table.
    Play(u32, u32),
    /// Set the target frame rate.
    SetFps(u32),
    /// Set the logical pixels per centimetre, in thousandths.
    SetPxPerCm(u32),
    /// Set the voice volume, in thousandths of full volume.
    SetVolume(u32),
}

/// One pet of the tray menu.
#[derive(Debug, Clone)]
pub struct TrayPet {
    /// Name of the current form (the menu line).
    pub name: String,
    /// Form names along the evolution chain; `current_form` indexes it.
    pub forms: Vec<String>,
    pub current_form: usize,
}

/// `WM_APP`, the first message number free for applications.
pub const WM_APP: u32 = 0x8000;
/// Tray icon callbacks.
pub const WM_TRAY: u32 = 0x8001;
/// A command from another instance; `wparam` holds its code.
pub const WM_CONTROL: u32 = 0x8002;
/// Message code of [`Control::Play`]; its arguments travel in `lparam`.
pub const PLAY_CODE: u32 = 7;

/// The cross-process number of a command; commands with arguments other
/// than `Play` only travel inside one process and have none.
pub open spec fn spec_code_of(c: Control) -> Option<u32> {
    match c {
        Control::TogglePassthrough => Some(1),
        Control::ToggleMute => Some(2),
        Control::Recall => Some(3),
        Control::Quit => Some(4),
        Control::Reload => Some(5),
        Control::OpenSettings(_) => Some(6),
        Control::Play(..) => Some(7),
        _ => None,
    }
}

/// The command a plain (argument-free) code stands for.
pub open spec fn spec_control_of(code: u32) -> Option<Control> {
    if code == 1 {
        Some(Control::TogglePassthrough)
    } else if code == 2 {
        Some(Control::ToggleMute)
    } else if code == 3 {
        Some(Control::Recall)
    } else if code == 4 {
        Some(Control::Quit)
    } else if code == 5 {
        Some(Control::Reload)
    } else if code == 6 {
        Some(Control::OpenSettings(SettingsPage::Packs))
    } else {
        None
    }
}

/// `slot` in the high and `clip` in the low 16 bits.
pub open spec fn spec_pack_play(slot: u32, clip: u32) -> u32 {
    ((slot & 0xffffu32) << 16u32) | (clip & 0xffffu32)
}

/// The command carried by a `WM_CONTROL` message.
pub open spec fn spec_control_from_message(wparam: usize, lparam: isize) -> Option<Control> {
    if wparam as u32 == PLAY_CODE {
        let packed = lparam as u32;
        Some(Control::Play(packed >> 16u32, packed & 0xffffu32))
    } else {
        spec_control_of(wparam as u32)
    }
}

/// The cross-process number of a command.
pub fn code_of(control: Control) -> (r: Option<u32>)
    ensures
        r == spec_code_of(control),
{
    match control {
        Control::TogglePassthrough => Some(1),
        Control::ToggleMute => Some(2),
        Control::Recall => Some(3),
        Control::Quit => Some(4),
        Control::Reload => Some(5),
        Control::OpenSettings(_) => Some(6),
        Control::Play(..) => Some(7),
        _ => None,
    }
}

/// The command a plain code stands for (`Play` is read by [`control_from_message`]).
pub fn control_of(code: u32) -> (r: Option<Control>)
    ensures
        r == spec_control_of(code),
{
    if code == 1 {
        Some(Control::TogglePassthrough)
    } else if code == 2 {
        Some(Control::ToggleMute)
    } else if code == 3 {
        Some(Control::Recall)
    } else if code == 4 {
        Some(Control::Quit)
    } else if code == 5 {
        Some(Control::Reload)
    } else if code == 6 {
        Some(Control::OpenSettings(SettingsPage::Packs))
    } else {
        None
    }
}

/// Packs the arguments of `Play` into one `lparam` word.
pub fn pack_play(slot: u32, clip: u32) -> (r: u32)
    ensures
        r == spec_pack_play(slot, clip),
{
    ((slot & 0xffff) << 16) | (clip & 0xffff)
}

/// Whether a window message is a tray icon callback.
pub fn is_tray_message(message: u32) -> (r: bool)
    ensures
        r == (message == WM_TRAY),
{
    message == WM_TRAY
}

/// The command in a `WM_CONTROL` message (`wparam` is the code; `Play`
/// carries its slot and clip in `lparam`).
pub fn control_from_message(wparam: usize, lparam: isize) -> (r: Option<Control>)
    ensures
        r == spec_control_from_message(wparam, lparam),
{
    if wparam as u32 == PLAY_CODE {
        let packed = lparam as u32;
        return Some(Control::Play(packed >> 16, packed & 0xffff));
    }
    control_of(wparam as u32)
}

/// A plain command sent across processes arrives as itself, except that
/// opening the settings window always opens the pack page.
pub proof fn lemma_code_round_trip(c: Control)
    requires
        spec_code_of(c) is Some,
        !(c is Play),
    ensures
        spec_control_from_message(spec_code_of(c)->0 as usize, 0) == Some(match c {
            Control::OpenSettings(_) => Control::OpenSettings(SettingsPage::Packs),
            other => other,
        }),
{
    let k = spec_code_of(c)->0;
    assert((k as usize) as u32 == k) by (bit_vector)
        requires
            1 <= k <= 7,
    ;
}

/// `Play` arguments below 65536 survive the trip through one message.
pub proof fn lemma_play_round_trip(slot: u32, clip: u32)
    requires
        slot < 0x1_0000,
        clip < 0x1_0000,
    ensures
        spec_control_from_message(PLAY_CODE as usize, spec_pack_play(slot, clip) as isize) == Some(
            Control::Play(slot, clip),
        ),
{
    let p = spec_pack_play(slot, clip);
    assert((p as isize) as u32 == p) by (bit_vector);
    assert(p >> 16u32 == slot && p & 0xffffu32 == clip) by (bit_vector)
        requires
            slot < 0x1_0000u32,
            clip < 0x1_0000u32,
            p == ((slot & 0xffffu32) << 16u32) | (clip & 0xffffu32),
    ;
    assert((PLAY_CODE as usize) as u32 == PLAY_CODE) by (bit_vector);
}

/// The UTF-16 code units of one char: itself in the basic plane, a
/// surrogate pair beyond it.
pub open spec fn units(c: char) -> Seq<u16> {
    let v = c as u32;
    if v < 0x1_0000 {
        seq![v as u16]
    } else {
        let w = (v - 0x1_0000) as u32;
        seq![(0xd800u32 + (w >> 10u32)) as u16, (0xdc00u32 + (w & 0x3ffu32)) as u16]
    }
}

/// The UTF-16 code units of a char sequence.
pub open spec fn utf16(s: Seq<char>) -> Seq<u16>
    decreases s.len(),
{
    if s.len() == 0 {
        Seq::empty()
    } else {
        units(s[0]) + utf16(s.drop_first())
    }
}

proof fn lemma_utf16_push(s: Seq<char>, c: char)
    ensures
        utf16(s.push(c)) == utf16(s) + units(c),
    decreases s.len(),
{
    if s.len() == 0 {
        assert(s.push(c).drop_first() == Seq::<char>::empty());
        assert(utf16(s.push(c)) == units(c) + utf16(Seq::<char>::empty()));
    } else {
        lemma_utf16_push(s.drop_first(), c);
        assert(s.push(c).drop_first() == s.drop_first().push(c));
        assert(s.push(c)[0] == s[0]);
    }
}

/// The text's UTF-16 code units, as `str::encode_utf16` gives them.
fn encode_utf16(text: &str) -> (r: Vec<u16>)
    ensures
        r@ == utf16(text@),
{
    let cs = crate::text::chars_of(text);
    let mut out: Vec<u16> = Vec::new();
    let mut i: usize = 0;
    while i < cs.len()
        invariant
            i <= cs@.len(),
            out@ == utf16(cs@.take(i as int)),
        decreases cs.len() - i,
    {
        let c = cs[i];
        let v = c as u32;
        if v < 0x1_0000 {
            out.push(v as u16);
        } else {
            let w = v - 0x1_0000;
            assert(w >> 10u32 <= 0x3f_ffffu32) by (bit_vector);
            assert(w & 0x3ffu32 <= 0x3ffu32) by (bit_vector);
            out.push((0xd800u32 + (w >> 10u32)) as u16);
            out.push((0xdc00u32 + (w & 0x3ffu32)) as u16);
        }
        proof {
            lemma_utf16_push(cs@.take(i as int), c);
            assert(cs@.take(i + 1) == cs@.take(i as int).push(c));
        }
        assert(out@ =~= utf16(cs@.take(i + 1)));
        i = i + 1;
    }
    assert(cs@.take(cs@.len() as int) == cs@);
    out
}

/// Writes `text` into a fixed-size, NUL-terminated tooltip buffer,
/// truncated so that the terminator still fits.
pub fn write_tip(tip: &mut Vec<u16>, text: &str)
    requires
        old(tip)@.len() >= 1,
    ensures
        ({
            let units = utf16(text@);
            let n = if units.len() < old(tip)@.len() - 1 { units.len() as int } else { old(tip)@.len() - 1 };
            &&& final(tip)@.len() == old(tip)@.len()
            &&& final(tip)@.take(n) == units.take(n)
            &&& final(tip)@[n] == 0
            &&& final(tip)@.skip(n + 1) == old(tip)@.skip(n + 1)
        }),
{
    let wide = encode_utf16(text);
    let cap = tip.len() - 1;
    let n = if wide.len() < cap { wide.len() } else { cap };
    let mut i: usize = 0;
    while i < n
        invariant
            n <= wide@.len(),
            n < tip@.len(),
            tip@.len() == old(tip)@.len(),
            i <= n,
            forall|j: int| 0 <= j < i ==> #[trigger] tip@[j] == wide@[j],
            forall|j: int| i <= j < tip@.len() ==> #[trigger] tip@[j] == old(tip)@[j],
        decreases n - i,
    {
        tip.set(i, wide[i]);
        i = i + 1;
    }
    tip.set(n, 0);
    assert(tip@.take(n as int) =~= wide@.take(n as int));
    assert(tip@.skip(n + 1) =~= old(tip)@.skip(n + 1));
}

} // verus!
