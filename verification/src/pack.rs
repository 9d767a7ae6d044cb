//! Pack bookkeeping that does not need the manifest's numbers: face slots
//! and cards, the pack list's entries, and finding a pack or a form by name.
use vstd::prelude::*;
use crate::text::{
    chars_of, join, join_chars, same_chars, split, split_chars, string_of, views,
};
use crate::assets::{extension, last_dot};
use crate::glassy::{first_at, lemma_first_at, lemma_first_at_is};

verus! {

/// How many face slots a form can have.
pub const MAX_FACE_SLOTS: usize = 8;

/// The newest manifest schema this runtime reads; newer ones are refused.
pub const SUPPORTED_SCHEMA: u32 = 1;

pub open spec fn spec_face_slot(key: Seq<char>) -> Option<usize> {
    if key == seq!['e', 'y', 'e'] {
        Some(0)
    } else if key == seq!['e', 'y', 'e', '_', '1'] {
        Some(1)
    } else if key == seq!['m', 'o', 'u', 't', 'h'] {
        Some(2)
    } else if key == seq!['m', 'o', 'u', 't', 'h', '_', '1'] {
        Some(3)
    } else if key == seq!['d', 'y', 'n', 'a', 'm', 'i', 'c', '1'] {
        Some(4)
    } else if key == seq!['d', 'y', 'n', 'a', 'm', 'i', 'c', '2'] {
        Some(5)
    } else if key == seq!['d', 'y', 'n', 'a', 'm', 'i', 'c', '3'] {
        Some(6)
    } else if key == seq!['d', 'y', 'n', 'a', 'm', 'i', 'c', '4'] {
        Some(7)
    } else {
        None
    }
}

/// Slot name to slot number (fixed: new slots may only be added at the end).
/// Unknown names are not faces.
pub fn face_slot(key: &str) -> (r: Option<usize>)
    ensures
        r == spec_face_slot(key@),
        r matches Some(s) ==> s < MAX_FACE_SLOTS,
{
    face_slot_chars(&chars_of(key))
}

/// [`face_slot`] over chars.
pub fn face_slot_chars(k: &Vec<char>) -> (r: Option<usize>)
    ensures
        r == spec_face_slot(k@),
        r matches Some(s) ==> s < MAX_FACE_SLOTS,
{
    let eye = vec!['e', 'y', 'e'];
    let eye1 = vec!['e', 'y', 'e', '_', '1'];
    let mouth = vec!['m', 'o', 'u', 't', 'h'];
    let mouth1 = vec!['m', 'o', 'u', 't', 'h', '_', '1'];
    let d1 = vec!['d', 'y', 'n', 'a', 'm', 'i', 'c', '1'];
    let d2 = vec!['d', 'y', 'n', 'a', 'm', 'i', 'c', '2'];
    let d3 = vec!['d', 'y', 'n', 'a', 'm', 'i', 'c', '3'];
    let d4 = vec!['d', 'y', 'n', 'a', 'm', 'i', 'c', '4'];
    assert(eye@ == seq!['e', 'y', 'e'] && eye1@ == seq!['e', 'y', 'e', '_', '1']);
    assert(mouth@ == seq!['m', 'o', 'u', 't', 'h'] && mouth1@ == seq!['m', 'o', 'u', 't', 'h', '_', '1']);
    assert(d1@ == seq!['d', 'y', 'n', 'a', 'm', 'i', 'c', '1'] && d2@ == seq!['d', 'y', 'n', 'a', 'm', 'i', 'c', '2']);
    assert(d3@ == seq!['d', 'y', 'n', 'a', 'm', 'i', 'c', '3'] && d4@ == seq!['d', 'y', 'n', 'a', 'm', 'i', 'c', '4']);
    if same_chars(k, &eye) {
        Some(0)
    } else if same_chars(k, &eye1) {
        Some(1)
    } else if same_chars(k, &mouth) {
        Some(2)
    } else if same_chars(k, &mouth1) {
        Some(3)
    } else if same_chars(k, &d1) {
        Some(4)
    } else if same_chars(k, &d2) {
        Some(5)
    } else if same_chars(k, &d3) {
        Some(6)
    } else if same_chars(k, &d4) {
        Some(7)
    } else {
        None
    }
}

/// An atlas card from a face curve, clamped to 1..=8.
pub fn face_card(card: i64) -> (r: u32)
    ensures
        1 <= r <= 8,
        r == (if card < 1 { 1 } else if card > 8 { 8 } else { card }),
{
    if card < 1 {
        1
    } else if card > 8 {
        8
    } else {
        card as u32
    }
}

pub open spec fn spec_face_card(card: i64) -> u32 {
    if card < 1 { 1 } else if card > 8 { 8 } else { card as u32 }
}

/// One face curve of the manifest, `[ms, card]` pairs, with each card
/// clamped to the atlas (times stay in milliseconds).
pub open spec fn spec_face_track(raw: Seq<(i64, i64)>) -> Seq<(i64, u32)> {
    raw.map_values(|step: (i64, i64)| (step.0, spec_face_card(step.1)))
}

/// The entry of `raw`, among the first `upto`, that last names slot `slot`.
pub open spec fn last_for_slot(raw: Seq<(String, Vec<(i64, i64)>)>, slot: usize, upto: int) -> Option<int>
    decreases upto,
{
    if upto <= 0 {
        None
    } else if spec_face_slot(raw[upto - 1].0@) == Some(slot) {
        Some(upto - 1)
    } else {
        last_for_slot(raw, slot, upto - 1)
    }
}

/// The curve of slot `slot`: that of the entry naming it (the last one, if
/// several do), or none at all.
pub open spec fn spec_slot_track(raw: Seq<(String, Vec<(i64, i64)>)>, slot: usize) -> Seq<(i64, u32)> {
    match last_for_slot(raw, slot, raw.len() as int) {
        Some(i) => spec_face_track(raw[i].1@),
        None => Seq::empty(),
    }
}

/// One face curve with its cards clamped to the atlas.
pub fn face_track(raw: &Vec<(i64, i64)>) -> (r: Vec<(i64, u32)>)
    ensures
        r@ == spec_face_track(raw@),
{
    let mut out: Vec<(i64, u32)> = Vec::new();
    let mut i: usize = 0;
    while i < raw.len()
        invariant
            i <= raw@.len(),
            out@ == spec_face_track(raw@.take(i as int)),
        decreases raw.len() - i,
    {
        let (ms, card) = raw[i];
        out.push((ms, face_card(card)));
        assert(raw@.take(i + 1) == raw@.take(i as int).push(raw@[i as int]));
        assert(out@ =~= spec_face_track(raw@.take(i + 1)));
        i = i + 1;
    }
    assert(raw@.take(raw@.len() as int) == raw@);
    out
}

/// A clip's `[forms.face]` table, slot name to curve, laid out by slot
/// number. Names that are no known slot are dropped (a newer exporter may
/// write slots this runtime does not draw); a slot nobody names stays empty.
pub fn face_tracks(raw: &Vec<(String, Vec<(i64, i64)>)>) -> (r: Vec<Vec<(i64, u32)>>)
    ensures
        r@.len() == MAX_FACE_SLOTS,
        forall|s: int| 0 <= s < MAX_FACE_SLOTS ==> #[trigger] r@[s]@ == spec_slot_track(raw@, s as usize),
{
    let mut tracks: Vec<Vec<(i64, u32)>> = Vec::new();
    let mut s: usize = 0;
    while s < MAX_FACE_SLOTS
        invariant
            s <= MAX_FACE_SLOTS,
            tracks@.len() == s,
            forall|t: int| 0 <= t < s ==> #[trigger] tracks@[t]@ == spec_slot_track(raw@, t as usize),
        decreases MAX_FACE_SLOTS - s,
    {
        // the last entry naming slot `s`
        let mut found: Option<usize> = None;
        let mut i: usize = 0;
        while i < raw.len()
            invariant
                i <= raw@.len(),
                s < MAX_FACE_SLOTS,
                match found {
                    Some(j) => j < i && last_for_slot(raw@, s, i as int) == Some(j as int),
                    None => last_for_slot(raw@, s, i as int) is None,
                },
            decreases raw.len() - i,
        {
            if face_slot(raw[i].0.as_str()) == Some(s) {
                found = Some(i);
            }
            i = i + 1;
        }
        let track = match found {
            Some(j) => face_track(&raw[j].1),
            None => Vec::new(),
        };
        tracks.push(track);
        s = s + 1;
    }
    tracks
}

/// The mesh-face card to draw when `want` may be missing from the cards this
/// form has (`cards`, ascending): `want` itself if present, else card 2 (the
/// default face), else the smallest card. Not a mesh face (no cards): `want`.
pub open spec fn spec_resolve_face_card(cards: Seq<u32>, want: u32) -> u32 {
    if cards.len() == 0 || cards.contains(want) {
        want
    } else if cards.contains(2) {
        2
    } else {
        cards[0]
    }
}

pub fn resolve_face_card(cards: &[u32], want: u32) -> (r: u32)
    ensures
        r == spec_resolve_face_card(cards@, want),
        cards@.len() > 0 ==> cards@.contains(r),
{
    if cards.len() == 0 || slice_contains(cards, want) {
        return want;
    }
    if slice_contains(cards, 2) {
        return 2;
    }
    cards[0]
}

fn slice_contains(cards: &[u32], x: u32) -> (r: bool)
    ensures
        r == cards@.contains(x),
{
    let mut i: usize = 0;
    while i < cards.len()
        invariant
            i <= cards@.len(),
            forall|j: int| 0 <= j < i ==> cards@[j] != x,
        decreases cards.len() - i,
    {
        if cards[i] == x {
            assert(cards@[i as int] == x);
            return true;
        }
        i = i + 1;
    }
    false
}

/// One row of the pack list: enough to show, without clip or material tables.
pub struct PackEntry {
    /// Species name (the head of the chain).
    pub name: String,
    /// Form names along the evolution chain.
    pub forms: Vec<String>,
    /// Location: a directory or a `.rkpet` file, its components separated
    /// by `/` (where the system also separates by `\`, those are written
    /// as `/` before the path reaches this library).
    pub path: String,
    /// Size in bytes.
    pub size: u64,
}

/// The arrow between forms in a chain.
pub open spec fn chain_arrow() -> Seq<char> {
    seq![' ', '→', ' ']
}

impl PackEntry {
    /// "喵喵 → 喵呜 → 魔力猫"; a pack without forms shows its species name.
    pub fn chain(&self) -> (r: String)
        ensures
            r@ == (if self.forms@.len() == 0 {
                self.name@
            } else {
                join(self.forms@.map_values(|f: String| f@), chain_arrow())
            }),
    {
        if self.forms.len() == 0 {
            return string_of(&chars_of(self.name.as_str()));
        }
        let mut parts: Vec<Vec<char>> = Vec::new();
        let mut i: usize = 0;
        while i < self.forms.len()
            invariant
                i <= self.forms@.len(),
                parts@.len() == i,
                forall|j: int| 0 <= j < i ==> #[trigger] parts@[j]@ == self.forms@[j]@,
            decreases self.forms.len() - i,
        {
            parts.push(chars_of(self.forms[i].as_str()));
            i = i + 1;
        }
        assert(views(parts@) =~= self.forms@.map_values(|f: String| f@));
        let arrow = vec![' ', '→', ' '];
        assert(arrow@ == chain_arrow());
        string_of(&join_chars(&parts, &arrow))
    }
}

/// The last component of a `/`-separated path (the library's spelling of
/// every path), as `Path::file_name` gives it: trailing separators and `.` components are skipped; `..` or no
/// component at all gives `None`.
pub open spec fn file_name(path: Seq<char>) -> Option<Seq<char>> {
    last_name(split(path, '/'), split(path, '/').len() as int)
}

pub open spec fn last_name(pieces: Seq<Seq<char>>, end: int) -> Option<Seq<char>>
    decreases end,
{
    if end <= 0 || end > pieces.len() {
        None
    } else {
        let p = pieces[end - 1];
        if p.len() == 0 || p == seq!['.'] {
            last_name(pieces, end - 1)
        } else if p == seq!['.', '.'] {
            None
        } else {
            Some(p)
        }
    }
}

/// The file name without its extension (`Path::file_stem`).
pub open spec fn file_stem(path: Seq<char>) -> Option<Seq<char>> {
    match file_name(path) {
        None => None,
        Some(n) => match extension(n) {
            None => Some(n),
            Some(_) => Some(n.take(last_dot(n, n.len() as int)->0)),
        },
    }
}

fn find_last_name(pieces: &Vec<Vec<char>>, end: usize) -> (r: Option<Vec<char>>)
    requires
        end <= pieces@.len(),
    ensures
        match r {
            Some(n) => last_name(views(pieces@), end as int) == Some(n@),
            None => last_name(views(pieces@), end as int) is None,
        },
    decreases end,
{
    if end == 0 {
        return None;
    }
    let p = &pieces[end - 1];
    let dot = vec!['.'];
    let dots = vec!['.', '.'];
    assert(dot@ == seq!['.'] && dots@ == seq!['.', '.']);
    assert(views(pieces@)[end - 1] == p@);
    if p.len() == 0 || same_chars(p, &dot) {
        find_last_name(pieces, end - 1)
    } else if same_chars(p, &dots) {
        None
    } else {
        Some(crate::text::slice_chars(p, 0, p.len()))
    }
}

/// [`file_name`], computed.
pub fn file_name_of(path: &str) -> (r: Option<Vec<char>>)
    ensures
        match r {
            Some(n) => file_name(path@) == Some(n@),
            None => file_name(path@) is None,
        },
{
    let cs = chars_of(path);
    let pieces = split_chars(&cs, '/');
    assert(views(pieces@) =~= split(path@, '/'));
    find_last_name(&pieces, pieces.len())
}

/// [`file_stem`], computed.
pub fn file_stem_of(path: &str) -> (r: Option<Vec<char>>)
    ensures
        match r {
            Some(n) => file_stem(path@) == Some(n@),
            None => file_stem(path@) is None,
        },
{
    match file_name_of(path) {
        None => None,
        Some(n) => {
            match last_dot_of(&n, n.len()) {
                None => Some(n),
                Some(k) => {
                    let dots = vec!['.', '.'];
                    assert(dots@ == seq!['.', '.']);
                    if k == 0 || same_chars(&n, &dots) {
                        Some(n)
                    } else {
                        Some(crate::text::slice_chars(&n, 0, k))
                    }
                },
            }
        },
    }
}

fn last_dot_of(name: &Vec<char>, end: usize) -> (r: Option<usize>)
    requires
        end <= name@.len(),
    ensures
        match r {
            Some(k) => last_dot(name@, end as int) == Some(k as int) && k < end,
            None => last_dot(name@, end as int) is None,
        },
    decreases end,
{
    if end == 0 {
        None
    } else if name[end - 1] == '.' {
        Some(end - 1)
    } else {
        last_dot_of(name, end - 1)
    }
}

/// A list entry answers to `value` by species name, by file name, or by
/// file name without the `.rkpet` extension.
pub open spec fn entry_answers(entry: PackEntry, value: Seq<char>) -> bool {
    ||| entry.name@ == value
    ||| file_name(entry.path@) == Some(value)
    ||| file_stem(entry.path@) == Some(value)
}

/// Whether a list entry answers to `value`.
pub fn entry_matches(entry: &PackEntry, value: &str) -> (r: bool)
    ensures
        r == entry_answers(*entry, value@),
{
    let want = chars_of(value);
    if same_chars(&chars_of(entry.name.as_str()), &want) {
        return true;
    }
    let by_file = match file_name_of(entry.path.as_str()) {
        Some(n) => same_chars(&n, &want),
        None => false,
    };
    if by_file {
        return true;
    }
    match file_stem_of(entry.path.as_str()) {
        Some(n) => same_chars(&n, &want),
        None => false,
    }
}

/// The first list entry that answers to `value`: the part of resolving a
/// pack by name that happens once `value` is known not to be a path.
pub fn find_entry(entries: &Vec<PackEntry>, value: &str) -> (r: Option<usize>)
    ensures
        match r {
            Some(i) => first_at(entries@, |e: PackEntry| entry_answers(e, value@), 0) == Some(i as int),
            None => first_at(entries@, |e: PackEntry| entry_answers(e, value@), 0) is None,
        },
{
    let ghost p = |e: PackEntry| entry_answers(e, value@);
    proof {
        lemma_first_at(entries@, p, 0);
    }
    let mut i: usize = 0;
    while i < entries.len()
        invariant
            i <= entries@.len(),
            p == (|e: PackEntry| entry_answers(e, value@)),
            forall|j: int| 0 <= j < i ==> !p(#[trigger] entries@[j]),
        decreases entries.len() - i,
    {
        if entry_matches(&entries[i], value) {
            proof {
                lemma_first_at_is(entries@, p, 0, i as int);
            }
            return Some(i);
        }
        i = i + 1;
    }
    proof {
        if let Some(k) = first_at(entries@, p, 0) {
            assert(!p(entries@[k]));
        }
    }
    None
}

/// The name a pack is listed under when its manifest cannot be read: the
/// file name without extension for an archive, the directory name
/// otherwise, `?` when the path has no name at all.
pub fn fallback_name(path: &str, is_file: bool) -> (r: String)
    ensures
        r@ == (match (if is_file { file_stem(path@) } else { file_name(path@) }) {
            Some(n) => n,
            None => seq!['?'],
        }),
{
    let n = if is_file { file_stem_of(path) } else { file_name_of(path) };
    match n {
        Some(n) => string_of(&n),
        None => string_of(&vec!['?']),
    }
}

/// A form is named by its asset name or its display name.
pub open spec fn form_answers(form: (String, String), want: Seq<char>) -> bool {
    form.0@ == want || form.1@ == want
}

/// Index of a form given as (asset name, display name) pairs: the first one
/// named `want`, or 0 when no form is asked for.
pub fn form_index(forms: &Vec<(String, String)>, asset: Option<&str>) -> (r: Option<usize>)
    ensures
        match asset {
            None => r == Some(0usize),
            Some(want) => match r {
                Some(i) => first_at(forms@, |f: (String, String)| form_answers(f, want@), 0) == Some(i as int),
                None => first_at(forms@, |f: (String, String)| form_answers(f, want@), 0) is None,
            },
        },
{
    match asset {
        None => Some(0),
        Some(want) => {
            let ghost p = |f: (String, String)| form_answers(f, want@);
            proof {
                lemma_first_at(forms@, p, 0);
            }
            let w = chars_of(want);
            let mut i: usize = 0;
            while i < forms.len()
                invariant
                    asset == Some(want),
                    i <= forms@.len(),
                    w@ == want@,
                    p == (|f: (String, String)| form_answers(f, want@)),
                    forall|j: int| 0 <= j < i ==> !p(#[trigger] forms@[j]),
                decreases forms.len() - i,
            {
                let hit = same_chars(&chars_of(forms[i].0.as_str()), &w) || same_chars(
                    &chars_of(forms[i].1.as_str()),
                    &w,
                );
                if hit {
                    proof {
                        lemma_first_at_is(forms@, p, 0, i as int);
                    }
                    return Some(i);
                }
                i = i + 1;
            }
            proof {
                if let Some(k) = first_at(forms@, p, 0) {
                    assert(!p(forms@[k]));
                }
            }
            None
        },
    }
}

/// Whether a manifest of this schema can be read.
pub fn schema_supported(schema: u32) -> (r: bool)
    ensures
        r == (schema <= SUPPORTED_SCHEMA),
{
    schema <= SUPPORTED_SCHEMA
}


/// `a` comes strictly before `b` in code-point order, which is also the
/// order of their UTF-8 bytes: the first differing char decides, and a
/// proper prefix comes first.
pub open spec fn chars_before(a: Seq<char>, b: Seq<char>) -> bool
    decreases a.len(),
{
    if a.len() == 0 {
        b.len() > 0
    } else if b.len() == 0 {
        false
    } else if a[0] != b[0] {
        (a[0] as int) < (b[0] as int)
    } else {
        chars_before(a.drop_first(), b.drop_first())
    }
}

/// Nothing comes before itself.
pub proof fn lemma_before_irreflexive(a: Seq<char>)
    ensures
        !chars_before(a, a),
    decreases a.len(),
{
    if a.len() > 0 {
        lemma_before_irreflexive(a.drop_first());
    }
}

/// The order is transitive.
pub proof fn lemma_before_transitive(a: Seq<char>, b: Seq<char>, c: Seq<char>)
    requires
        chars_before(a, b),
        chars_before(b, c),
    ensures
        chars_before(a, c),
    decreases a.len(),
{
    if a.len() > 0 && b.len() > 0 && c.len() > 0 && a[0] == b[0] && b[0] == c[0] {
        lemma_before_transitive(a.drop_first(), b.drop_first(), c.drop_first());
    }
}

/// With a common prefix of `k` chars, the rest decides.
proof fn lemma_before_skip(a: Seq<char>, b: Seq<char>, k: int)
    requires
        0 <= k <= a.len(),
        k <= b.len(),
        forall|j: int| 0 <= j < k ==> a[j] == b[j],
    ensures
        chars_before(a, b) == chars_before(a.skip(k), b.skip(k)),
    decreases k,
{
    if k > 0 {
        assert(a[0] == b[0]);
        assert(chars_before(a, b) == chars_before(a.drop_first(), b.drop_first()));
        lemma_before_skip(a.drop_first(), b.drop_first(), k - 1);
        assert(a.drop_first().skip(k - 1) =~= a.skip(k));
        assert(b.drop_first().skip(k - 1) =~= b.skip(k));
    } else {
        assert(a.skip(0) =~= a && b.skip(0) =~= b);
    }
}

/// [`chars_before`] on two strings, computed.
pub fn str_before(a: &str, b: &str) -> (r: bool)
    ensures
        r == chars_before(a@, b@),
{
    let x = chars_of(a);
    let y = chars_of(b);
    let mut k: usize = 0;
    while k < x.len() && k < y.len() && x[k] == y[k]
        invariant
            x@ == a@,
            y@ == b@,
            k <= x@.len(),
            k <= y@.len(),
            forall|j: int| 0 <= j < k ==> x@[j] == y@[j],
        decreases x.len() - k,
    {
        k = k + 1;
    }
    proof {
        lemma_before_skip(x@, y@, k as int);
    }
    let ghost xs = x@.skip(k as int);
    let ghost ys = y@.skip(k as int);
    if k == x.len() {
        assert(xs.len() == 0);
        assert(chars_before(xs, ys) == (ys.len() > 0));
        k < y.len()
    } else if k == y.len() {
        assert(xs.len() > 0 && ys.len() == 0);
        assert(!chars_before(xs, ys));
        false
    } else {
        assert(xs[0] == x@[k as int] && ys[0] == y@[k as int]);
        assert(x@[k as int] != y@[k as int]);
        assert(chars_before(xs, ys) == ((xs[0] as int) < (ys[0] as int)));
        let r = x[k] < y[k];
        assert(r == chars_before(xs, ys));
        r
    }
}

/// No entry of `s` comes before an earlier one by name.
pub open spec fn sorted_by_name(s: Seq<PackEntry>) -> bool {
    forall|i: int, j: int|
        0 <= i < j < s.len() ==> !chars_before(#[trigger] s[j].name@, #[trigger] s[i].name@)
}

/// `out` is `input` sorted by name, stably: `perm[k]` is the place in
/// `input` that `out[k]` came from, no place is taken twice, and entries of
/// equal name keep their order.
pub open spec fn stable_sort_by_name(input: Seq<PackEntry>, out: Seq<PackEntry>, perm: Seq<int>) -> bool {
    &&& out.len() == input.len()
    &&& perm.len() == out.len()
    &&& forall|k: int| 0 <= k < perm.len() ==> 0 <= #[trigger] perm[k] < input.len() && out[k] == input[perm[k]]
    &&& forall|k1: int, k2: int| 0 <= k1 < k2 < perm.len() ==> #[trigger] perm[k1] != #[trigger] perm[k2]
    &&& sorted_by_name(out)
    &&& forall|k1: int, k2: int|
        0 <= k1 < k2 < out.len() && (#[trigger] out[k1]).name@ == (#[trigger] out[k2]).name@ ==> perm[k1] < perm[k2]
}

/// The pack list in name order; entries of equal name keep their order.
pub fn sort_by_name(entries: Vec<PackEntry>) -> (r: Vec<PackEntry>)
    ensures
        exists|perm: Seq<int>| stable_sort_by_name(entries@, r@, perm),
{
    let ghost input = entries@;
    let n: usize = entries.len();
    assert(input.len() == n);
    let mut rest = entries;
    let mut out: Vec<PackEntry> = Vec::new();
    let ghost mut perm: Seq<int> = Seq::empty();
    let mut i: usize = 0;
    while rest.len() > 0
        invariant
            i + rest@.len() == input.len(),
            input.len() <= usize::MAX,
            rest@ == input.skip(i as int),
            out@.len() == i,
            perm.len() == i,
            forall|k: int| 0 <= k < i ==> 0 <= #[trigger] perm[k] < i && out@[k] == input[perm[k]],
            forall|k1: int, k2: int| 0 <= k1 < k2 < i ==> #[trigger] perm[k1] != #[trigger] perm[k2],
            sorted_by_name(out@),
            forall|k1: int, k2: int|
                0 <= k1 < k2 < i && (#[trigger] out@[k1]).name@ == (#[trigger] out@[k2]).name@ ==> perm[k1] < perm[k2],
        decreases rest.len(),
    {
        let x = rest.remove(0);
        assert(x == input[i as int]);
        let mut p: usize = 0;
        while p < out.len() && !str_before(x.name.as_str(), out[p].name.as_str())
            invariant
                p <= out@.len(),
                forall|k: int| 0 <= k < p ==> !chars_before(x.name@, #[trigger] out@[k].name@),
            decreases out.len() - p,
        {
            p = p + 1;
        }
        let ghost old_out = out@;
        let ghost old_perm = perm;
        proof {
            // every entry from `p` on comes after `x`
            assert forall|k: int| p <= k < old_out.len() implies chars_before(x.name@, #[trigger] old_out[k].name@) by {
                if k > p {
                    assert(!chars_before(old_out[k].name@, old_out[p as int].name@));
                    if !chars_before(x.name@, old_out[k].name@) {
                        // x would then not come before out[p] either
                        if chars_before(old_out[k].name@, x.name@) {
                            lemma_before_transitive(old_out[k].name@, x.name@, old_out[p as int].name@);
                        } else {
                            assert(old_out[k].name@ =~= x.name@) by {
                                lemma_before_total(old_out[k].name@, x.name@);
                            }
                        }
                    }
                }
            }
        }
        out.insert(p, x);
        proof {
            perm = old_perm.insert(p as int, i as int);
            let n = out@;
            assert forall|a: int, b: int| 0 <= a < b < n.len() implies !chars_before(#[trigger] n[b].name@, #[trigger] n[a].name@) by {
                if a == p {
                    assert(chars_before(x.name@, old_out[b - 1].name@));
                    if chars_before(n[b].name@, n[a].name@) {
                        lemma_before_transitive(x.name@, old_out[b - 1].name@, x.name@);
                        lemma_before_irreflexive(x.name@);
                    }
                } else if b == p {
                    assert(!chars_before(x.name@, old_out[a].name@));
                } else {
                    let a0 = if a < p { a } else { a - 1 };
                    let b0 = if b < p { b } else { b - 1 };
                    assert(n[a] == old_out[a0] && n[b] == old_out[b0]);
                }
            }
            assert forall|k1: int, k2: int|
                0 <= k1 < k2 < n.len() && (#[trigger] n[k1]).name@ == (#[trigger] n[k2]).name@ implies perm[k1] < perm[k2] by {
                if k1 == p {
                    assert(chars_before(x.name@, old_out[k2 - 1].name@));
                    lemma_before_irreflexive(x.name@);
                } else if k2 == p {
                    assert(old_perm[k1] < i);
                } else {
                    let a0 = if k1 < p { k1 } else { k1 - 1 };
                    let b0 = if k2 < p { k2 } else { k2 - 1 };
                    assert(n[k1] == old_out[a0] && n[k2] == old_out[b0]);
                    assert(perm[k1] == old_perm[a0] && perm[k2] == old_perm[b0]);
                }
            }
            assert forall|k: int| 0 <= k < i + 1 implies 0 <= #[trigger] perm[k] < i + 1 && n[k] == input[perm[k]] by {
                if k < p {
                    assert(perm[k] == old_perm[k]);
                } else if k > p {
                    assert(perm[k] == old_perm[k - 1]);
                }
            }
            assert forall|k1: int, k2: int| 0 <= k1 < k2 < i + 1 implies #[trigger] perm[k1] != #[trigger] perm[k2] by {
                let a0 = if k1 < p { k1 } else { k1 - 1 };
                let b0 = if k2 < p { k2 } else { k2 - 1 };
                if k1 != p && k2 != p {
                    assert(perm[k1] == old_perm[a0] && perm[k2] == old_perm[b0]);
                } else if k1 == p {
                    assert(perm[k2] == old_perm[b0]);
                } else {
                    assert(perm[k1] == old_perm[a0]);
                }
            }
        }
        i = i + 1;
        assert(rest@ =~= input.skip(i as int));
    }
    proof {
        assert(stable_sort_by_name(input, out@, perm));
    }
    out
}

/// Two names, neither before the other, are the same.
pub proof fn lemma_before_total(a: Seq<char>, b: Seq<char>)
    requires
        !chars_before(a, b),
        !chars_before(b, a),
    ensures
        a == b,
    decreases a.len(),
{
    if a.len() > 0 && b.len() > 0 {
        assert(a[0] == b[0]) by {
            if a[0] != b[0] {
                assert((a[0] as int) != (b[0] as int));
            }
        }
        lemma_before_total(a.drop_first(), b.drop_first());
        assert(a =~= seq![a[0]] + a.drop_first());
        assert(b =~= seq![b[0]] + b.drop_first());
    } else {
        assert(a =~= b);
    }
}

} // verus!
