//! What a material slot of the manifest is, judged from its name and its
//! parent chain: whether it is part of the face and which face curve drives
//! it, and whether the glassy overlay paints it. Material names drift in
//! letter case between asset files and objects, so the checks fold ASCII case.
use vstd::prelude::*;
use crate::text::{
    chars_of, ends_with, has_infix, has_suffix, is_digit, lower, lower_chars, slice_chars, starts_with,
    has_prefix, contains_chars, string_of,
};
use crate::pack::{face_slot_chars, spec_face_slot};

verus! {

/// The last position at or before `i` where `p` occurs in `s`.
pub open spec fn rfind_from(s: Seq<char>, p: Seq<char>, i: int) -> Option<int>
    decreases i + 1,
{
    if i < 0 {
        None
    } else if i + p.len() <= s.len() && s.subrange(i, i + p.len()) == p {
        Some(i)
    } else {
        rfind_from(s, p, i - 1)
    }
}

/// The last occurrence of `p` in `s`.
pub open spec fn rfind(s: Seq<char>, p: Seq<char>) -> Option<int> {
    rfind_from(s, p, s.len() - p.len())
}

fn rfind_exec(s: &Vec<char>, p: &Vec<char>) -> (r: Option<usize>)
    ensures
        match r {
            Some(i) => rfind(s@, p@) == Some(i as int) && i + p@.len() <= s@.len(),
            None => rfind(s@, p@) is None,
        },
{
    if p.len() > s.len() {
        assert(rfind_from(s@, p@, s@.len() - p@.len()) is None);
        return None;
    }
    let n = s.len();
    let m = p.len();
    let mut i: usize = n - m;
    loop
        invariant
            n == s@.len(),
            m == p@.len(),
            i + p@.len() <= s@.len(),
            rfind(s@, p@) == rfind_from(s@, p@, i as int),
        decreases i,
    {
        let piece = slice_chars(s, i, i + m);
        if crate::text::same_chars(&piece, p) {
            return Some(i);
        }
        if i == 0 {
            assert(rfind_from(s@, p@, -1) is None);
            return None;
        }
        i = i - 1;
    }
}

pub open spec fn by_mark() -> Seq<char> {
    seq!['_', 'b', 'y']
}

pub open spec fn object_root() -> Seq<char> {
    seq!['M', '_', 'P', '_', 'O', 'b', 'j', 'e', 'c', 't']
}

pub open spec fn eyes_root() -> Seq<char> {
    seq!['P', '_', 'E', 'y', 'e', 's']
}

pub open spec fn eyes_mesh_root() -> Seq<char> {
    seq!['P', '_', 'E', 'y', 'e', 's', '_', 'M', 'e', 's', 'h']
}

/// Some parent in the chain contains `root`.
pub open spec fn any_parent_has(parents: Seq<String>, root: Seq<char>) -> bool {
    exists|k: int| 0 <= k < parents.len() && has_infix(#[trigger] parents[k]@, root)
}

/// Whether the glassy overlay paints this material: its name ends in `_by`
/// or `_by<digit>` (any case), and it derives from `M_P_Object`.
pub open spec fn spec_is_glassy_target(name: Seq<char>, parents: Seq<String>) -> bool {
    let low = lower(name);
    let suffix_ok = has_suffix(low, by_mark()) || (match rfind(low, by_mark()) {
        Some(i) => low.len() == i + 4 && is_digit(low[i + 3]) && (low[i + 3] as u32) < 128,
        None => false,
    });
    suffix_ok && any_parent_has(parents, object_root())
}

fn any_parent_contains(parents: &Vec<String>, root: &Vec<char>) -> (r: bool)
    ensures
        r == any_parent_has(parents@, root@),
{
    let mut k: usize = 0;
    while k < parents.len()
        invariant
            k <= parents@.len(),
            forall|j: int| 0 <= j < k ==> !has_infix(#[trigger] parents@[j]@, root@),
        decreases parents.len() - k,
    {
        if contains_chars(&chars_of(parents[k].as_str()), root) {
            return true;
        }
        k = k + 1;
    }
    false
}

/// See [`spec_is_glassy_target`].
pub fn is_glassy_target(name: &str, parents: &Vec<String>) -> (r: bool)
    ensures
        r == spec_is_glassy_target(name@, parents@),
{
    let low = lower_chars(&chars_of(name));
    let by = vec!['_', 'b', 'y'];
    assert(by@ == by_mark());
    let suffix_ok = if ends_with(&low, &by) {
        true
    } else {
        match rfind_exec(&low, &by) {
            Some(i) => low.len() - i == 4 && '0' <= low[i + 3] && low[i + 3] <= '9',
            None => false,
        }
    };
    if !suffix_ok {
        return false;
    }
    let root = vec!['M', '_', 'P', '_', 'O', 'b', 'j', 'e', 'c', 't'];
    assert(root@ == object_root());
    any_parent_contains(parents, &root)
}

/// The part of `s` after its last `_` (all of `s` when it has none).
pub open spec fn after_last_underscore(s: Seq<char>) -> Seq<char> {
    match rfind(s, seq!['_']) {
        Some(i) => s.skip(i + 1),
        None => s,
    }
}

pub open spec fn all_ascii_digits(s: Seq<char>) -> bool {
    forall|k: int| 0 <= k < s.len() ==> #[trigger] is_digit(s[k])
}

pub open spec fn mh_mark() -> Seq<char> {
    seq!['m', 'h']
}

pub open spec fn dynamic_mark() -> Seq<char> {
    seq!['d', 'y', 'n', 'a', 'm', 'i', 'c']
}

/// Which face curve a face slot follows: the exporter's `face_track` when
/// it names a known slot; otherwise guessed from the name's last `_` piece
/// (`Mh<digits>` is the mouth, `Dynamic<n>` dynamic slot n, empty n meaning
/// 1), and slot 0 for everything else.
pub open spec fn spec_face_slot_of(name: Seq<char>, track: Option<Seq<char>>) -> usize {
    match (match track {
        Some(t) => spec_face_slot(t),
        None => None,
    }) {
        Some(slot) => slot,
        None => {
            let suffix = after_last_underscore(lower(name));
            if has_prefix(suffix, mh_mark()) && all_ascii_digits(suffix.skip(2)) {
                2
            } else if has_prefix(suffix, dynamic_mark()) && all_ascii_digits(suffix.skip(7)) {
                let n = suffix.skip(7);
                match spec_face_slot(dynamic_mark() + (if n.len() == 0 { seq!['1'] } else { n })) {
                    Some(slot) => slot,
                    None => 0,
                }
            } else {
                0
            }
        },
    }
}

fn digits_only(s: &Vec<char>) -> (r: bool)
    ensures
        r == all_ascii_digits(s@),
{
    let mut k: usize = 0;
    while k < s.len()
        invariant
            k <= s@.len(),
            forall|j: int| 0 <= j < k ==> #[trigger] is_digit(s@[j]),
        decreases s.len() - k,
    {
        if !('0' <= s[k] && s[k] <= '9') {
            assert(!is_digit(s@[k as int]));
            return false;
        }
        k = k + 1;
    }
    true
}

/// See [`spec_face_slot_of`].
pub fn face_slot_of(name: &str, track: Option<&str>) -> (r: usize)
    ensures
        r == spec_face_slot_of(
            name@,
            match track {
                Some(t) => Some(t@),
                None => None,
            },
        ),
{
    if let Some(t) = track {
        if let Some(slot) = face_slot_chars(&chars_of(t)) {
            return slot;
        }
    }
    let low = lower_chars(&chars_of(name));
    let us = vec!['_'];
    assert(us@ == seq!['_']);
    let suffix = match rfind_exec(&low, &us) {
        Some(i) => {
            let n = low.len();
            slice_chars(&low, i + 1, n)
        },
        None => slice_chars(&low, 0, low.len()),
    };
    assert(suffix@ == after_last_underscore(lower(name@)));
    let mh = vec!['m', 'h'];
    let dynamic = vec!['d', 'y', 'n', 'a', 'm', 'i', 'c'];
    assert(mh@ == mh_mark() && dynamic@ == dynamic_mark());
    if starts_with(&suffix, &mh) {
        let tail = slice_chars(&suffix, 2, suffix.len());
        assert(tail@ == suffix@.skip(2));
        if digits_only(&tail) {
            return 2;
        }
    }
    if starts_with(&suffix, &dynamic) {
        let tail = slice_chars(&suffix, 7, suffix.len());
        assert(tail@ == suffix@.skip(7));
        if digits_only(&tail) {
            let mut key = dynamic;
            if tail.len() == 0 {
                key.push('1');
                assert(key@ == dynamic_mark() + seq!['1']);
            } else {
                crate::text::push_all(&mut key, &tail);
                assert(key@ == dynamic_mark() + tail@);
            }
            return match face_slot_chars(&key) {
                Some(slot) => slot,
                None => 0,
            };
        }
    }
    0
}

/// The non-numeric side of a manifest material entry.
#[derive(Debug, Clone)]
pub struct MaterialRole {
    /// Lookup key: the name in ASCII lower case.
    pub key: String,
    /// A face slot: some parent contains `P_Eyes`.
    pub face: bool,
    /// The face curve it follows, see [`face_slot_of`].
    pub face_slot: u8,
    /// A mesh face drawn as one card out of eight: some parent contains `P_Eyes_Mesh`.
    pub face_cards: bool,
    /// Painted by the glassy overlay, see [`is_glassy_target`].
    pub glassy_target: bool,
}

/// Classifies one entry of a material table.
pub fn material_role(name: &str, parents: &Vec<String>, face_track: Option<&str>) -> (r: MaterialRole)
    ensures
        r.key@ == lower(name@),
        r.face == any_parent_has(parents@, eyes_root()),
        r.face_slot as usize == spec_face_slot_of(
            name@,
            match face_track {
                Some(t) => Some(t@),
                None => None,
            },
        ),
        r.face_cards == any_parent_has(parents@, eyes_mesh_root()),
        r.glassy_target == spec_is_glassy_target(name@, parents@),
{
    let eyes = vec!['P', '_', 'E', 'y', 'e', 's'];
    let mesh = vec!['P', '_', 'E', 'y', 'e', 's', '_', 'M', 'e', 's', 'h'];
    assert(eyes@ == eyes_root() && mesh@ == eyes_mesh_root());
    let slot = face_slot_of(name, face_track);
    assert(slot < 8) by {
        let t = match face_track {
            Some(t) => Some(t@),
            None => None,
        };
        lemma_face_slot_small(name@, t);
    }
    MaterialRole {
        key: string_of(&lower_chars(&chars_of(name))),
        face: any_parent_contains(parents, &eyes),
        face_slot: slot as u8,
        face_cards: any_parent_contains(parents, &mesh),
        glassy_target: is_glassy_target(name, parents),
    }
}

proof fn lemma_face_slot_small(name: Seq<char>, track: Option<Seq<char>>)
    ensures
        spec_face_slot_of(name, track) < 8,
{
}


/// The glassy overlay paints a material whose name ends in `_by`, or in
/// `_by` and one digit (in any letter case), as soon as one of its parents'
/// names contains `M_P_Object` anywhere: `M_P_Object_Trans` and the other
/// derived families count as much as `M_P_Object` itself.
pub proof fn lemma_glassy_target_by_family(name: Seq<char>, parents: Seq<String>, stem: Seq<char>, tail: Seq<char>, k: int)
    requires
        lower(name) == stem + seq!['_', 'b', 'y'] + tail,
        tail.len() == 0 || (tail.len() == 1 && '0' <= tail[0] && tail[0] <= '9'),
        0 <= k < parents.len(),
        has_infix(parents[k]@, seq!['M', '_', 'P', '_', 'O', 'b', 'j', 'e', 'c', 't']),
    ensures
        spec_is_glassy_target(name, parents),
{
    let low = lower(name);
    let mark = seq!['_', 'b', 'y'];
    assert(mark == by_mark());
    assert(any_parent_has(parents, object_root()));
    let n = low.len() as int;
    if tail.len() == 0 {
        assert(low.skip(n - 3) =~= mark);
        assert(has_suffix(low, by_mark()));
    } else {
        assert(low.subrange(n - 3, n) != mark) by {
            assert(low.subrange(n - 3, n)[0] == 'b');
        }
        assert(rfind_from(low, mark, n - 4) == Some(n - 4)) by {
            assert(low.subrange(n - 4, n - 1) =~= mark);
        }
        assert(rfind_from(low, mark, n - 3) == Some(n - 4));
        assert(rfind(low, by_mark()) == Some(n - 4));
        assert(low[n - 1] == tail[0]);
        assert(is_digit(low[n - 1]));
    }
}

/// Without a parent whose name contains `M_P_Object`, nothing is a glassy
/// target, whatever its name.
pub proof fn lemma_glassy_target_needs_family(name: Seq<char>, parents: Seq<String>)
    requires
        forall|k: int| 0 <= k < parents.len() ==> !has_infix(
            #[trigger] parents[k]@,
            seq!['M', '_', 'P', '_', 'O', 'b', 'j', 'e', 'c', 't'],
        ),
    ensures
        !spec_is_glassy_target(name, parents),
{
    assert(seq!['M', '_', 'P', '_', 'O', 'b', 'j', 'e', 'c', 't'] == object_root());
}


proof fn lemma_rfind_found(s: Seq<char>, p: Seq<char>, i: int)
    ensures
        rfind_from(s, p, i) matches Some(j) ==> 0 <= j && j + p.len() <= s.len() && s.subrange(j, j + p.len()) == p,
    decreases i + 1,
{
    if i >= 0 {
        lemma_rfind_found(s, p, i - 1);
    }
}

/// A name in which `_by` (in any letter case) does not occur is never a
/// glassy target, whatever its parents.
pub proof fn lemma_glassy_target_needs_by(name: Seq<char>, parents: Seq<String>)
    requires
        !has_infix(lower(name), seq!['_', 'b', 'y']),
    ensures
        !spec_is_glassy_target(name, parents),
{
    let low = lower(name);
    assert(seq!['_', 'b', 'y'] == by_mark());
    if has_suffix(low, by_mark()) {
        assert(low.subrange(low.len() - 3, low.len() as int) =~= low.skip(low.len() - 3));
    }
    lemma_rfind_found(low, by_mark(), low.len() - 3);
    if let Some(j) = rfind(low, by_mark()) {
        assert(low.subrange(j, j + 3) == by_mark());
    }
}

} // verus!
