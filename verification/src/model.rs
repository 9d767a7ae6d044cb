//! Integer parts of a loaded pet model: mesh ranges, decoded images,
//! animation channel kinds, and the split of a mesh into loose pieces.
use vstd::prelude::*;
use std::collections::HashMap;

verus! {

/// One range of the index buffer, drawn with one material slot (a pet has
/// two or three: body, eyes, mouth).
#[derive(Debug, Clone, Copy, PartialEq, Eq)]
pub struct Primitive {
    pub first_index: u32,
    pub index_count: u32,
    pub material: usize,
}

/// A decoded RGBA8 image.
#[derive(Debug, Clone)]
pub struct Image {
    pub width: u32,
    pub height: u32,
    pub rgba: Vec<u8>,
}

/// Which part of a node's transform a channel drives.
#[derive(Debug, Clone, Copy, PartialEq, Eq, Structural)]
pub enum Property {
    Translation,
    Rotation,
    Scale,
}

/// How a channel moves between keys.
#[derive(Debug, Clone, Copy, PartialEq, Eq, Structural)]
pub enum Interpolation {
    Linear,
    Step,
}

/// The image crate's file-format tag.
#[verifier::external_type_specification]
#[verifier::external_body]
pub struct ExImageFormat(image::ImageFormat);

/// The format `image::guess_format` reads off the leading magic bytes, or
/// `None` when no built-in signature matches.
pub uninterp spec fn guessed_format(bytes: Seq<u8>) -> Option<image::ImageFormat>;

/// What `image::load_from_memory_with_format` decodes from `bytes` read as
/// `format`, converted to RGBA8: `(width, height, texels)`, or `None` when
/// the bytes do not decode as that format.
pub uninterp spec fn decoded_rgba(bytes: Seq<u8>, format: image::ImageFormat) -> Option<(u32, u32, Seq<u8>)>;

/// `image::guess_format`: matches the bytes against the crate's table of
/// built-in signatures (no registered hooks are consulted). The contract
/// only names the result.
#[verifier::external_body]
fn guess_format(bytes: &[u8]) -> (r: Option<image::ImageFormat>)
    ensures
        r == guessed_format(bytes@),
{
    image::guess_format(bytes).ok()
}

/// `image::load_from_memory_with_format`, then `DynamicImage::to_rgba8`,
/// taken apart into width, height and the raw texel buffer. With a built-in
/// format the decoder is chosen without consulting any registered hooks.
/// The contract names the result and states that the buffer holds exactly
/// four bytes per texel.
#[verifier::external_body]
fn decode_rgba(bytes: &[u8], format: image::ImageFormat) -> (r: Option<(u32, u32, Vec<u8>)>)
    ensures
        match r {
            Some((w, h, px)) => decoded_rgba(bytes@, format) == Some((w, h, px@)) && px@.len() == 4 * w * h,
            None => decoded_rgba(bytes@, format) is None,
        },
{
    match image::load_from_memory_with_format(bytes, format) {
        Ok(img) => {
            let rgba = img.to_rgba8();
            Some((rgba.width(), rgba.height(), rgba.into_raw()))
        },
        Err(_) => None,
    }
}

/// What a texture file decodes to: the guessed format's decoding, or
/// `None` when the format is not recognised.
pub open spec fn texture_of(bytes: Seq<u8>) -> Option<(u32, u32, Seq<u8>)> {
    match guessed_format(bytes) {
        Some(format) => decoded_rgba(bytes, format),
        None => None,
    }
}

/// Decodes a texture file's bytes (PNG in packs) into RGBA8, guessing the
/// format from the leading bytes; `None` when they do not decode, in which
/// case the material is drawn white.
pub fn decode_texture(bytes: &[u8]) -> (r: Option<Image>)
    ensures
        match texture_of(bytes@) {
            Some((w, h, px)) => r matches Some(img) && img.width == w && img.height == h && img.rgba@ == px
                && img.rgba@.len() == 4 * w * h,
            None => r is None,
        },
{
    match guess_format(bytes) {
        Some(format) => match decode_rgba(bytes, format) {
            Some((width, height, rgba)) => Some(Image { width, height, rgba }),
            None => None,
        },
        None => None,
    }
}

/// How many of the first `n` texels of `rgba` have an alpha above 128.
pub open spec fn count_high_alpha(rgba: Seq<u8>, n: int) -> nat
    decreases n,
{
    if n <= 0 {
        0
    } else {
        count_high_alpha(rgba, n - 1) + if rgba[4 * (n - 1) + 3] > 128 { 1nat } else { 0nat }
    }
}

impl Image {
    /// `(texels with an alpha above 128, all whole texels)`: the coverage of
    /// the alpha channel, from which the renderer decides whether it holds
    /// line detail at all.
    pub fn alpha_coverage(&self) -> (r: (usize, usize))
        ensures
            r.1 == self.rgba@.len() / 4,
            r.0 == count_high_alpha(self.rgba@, r.1 as int),
            r.0 <= r.1,
    {
        let len = self.rgba.len();
        let total = len / 4;
        let mut high: usize = 0;
        let mut k: usize = 0;
        while k < total
            invariant
                len == self.rgba@.len(),
                total == len / 4,
                k <= total,
                high == count_high_alpha(self.rgba@, k as int),
                high <= k,
            decreases total - k,
        {
            if self.rgba[4 * k + 3] > 128 {
                high = high + 1;
            }
            k = k + 1;
        }
        (high, total)
    }
}

/// Number of edges that join vertices of `idx` read as a triangle list:
/// two per whole triangle (a trailing partial triangle joins nothing).
pub open spec fn edge_count(idx: Seq<u32>) -> int {
    2 * (idx.len() as int / 3)
}

/// Where edge `e` starts: edge `2t` joins the first two corners of
/// triangle `t`, edge `2t + 1` its last two.
pub open spec fn edge_from(idx: Seq<u32>, e: int) -> u32 {
    idx[3 * (e / 2) + e % 2]
}

/// Where edge `e` ends.
pub open spec fn edge_to(idx: Seq<u32>, e: int) -> u32 {
    idx[3 * (e / 2) + e % 2 + 1]
}

/// `f` gives both ends of each of the first `upto` edges the same value.
pub open spec fn respects(f: spec_fn(u32) -> int, idx: Seq<u32>, upto: int) -> bool {
    forall|e: int| 0 <= e < upto ==> f(#[trigger] edge_from(idx, e)) == f(edge_to(idx, e))
}

/// Some part of `parts` holds `x`.
pub open spec fn in_some_part(parts: Seq<Vec<usize>>, x: usize) -> bool {
    exists|g: int| 0 <= g < parts.len() && #[trigger] parts[g]@.contains(x)
}

/// Position of the first occurrence of `v` in `idx` (`idx.len()` if none).
pub open spec fn first_pos(idx: Seq<u32>, v: u32) -> int
    decreases idx.len(),
{
    if idx.len() == 0 {
        0
    } else if idx[0] == v {
        0
    } else {
        1 + first_pos(idx.drop_first(), v)
    }
}

pub open spec fn first_occurrence(idx: Seq<u32>, v: u32, p: int) -> bool {
    &&& 0 <= p < idx.len()
    &&& idx[p] == v
    &&& forall|q: int| 0 <= q < p ==> idx[q] != v
}

proof fn lemma_first_pos(idx: Seq<u32>, v: u32, p: int)
    requires
        first_occurrence(idx, v, p),
    ensures
        first_pos(idx, v) == p,
    decreases p,
{
    if p > 0 {
        assert(idx[0] != v);
        let rest = idx.drop_first();
        assert forall|q: int| 0 <= q < p - 1 implies rest[q] != v by {
            assert(rest[q] == idx[q + 1]);
        }
        lemma_first_pos(rest, v, p - 1);
    }
}

proof fn lemma_edge_in_range(idx: Seq<u32>, e: int)
    requires
        0 <= e < edge_count(idx),
    ensures
        0 <= 3 * (e / 2) + e % 2,
        3 * (e / 2) + e % 2 + 1 < idx.len(),
{
}

/// `fp[k]` is where `verts[k]` first occurs in `idx`, below `p`, in
/// increasing order.
spec fn firsts_ok(idx: Seq<u32>, verts: Seq<u32>, fp: Seq<int>, p: int) -> bool {
    &&& fp.len() == verts.len()
    &&& forall|k: int| 0 <= k < verts.len() ==> first_occurrence(idx, #[trigger] verts[k], fp[k]) && fp[k] < p
    &&& forall|k1: int, k2: int| 0 <= k1 < k2 < verts.len() ==> #[trigger] fp[k1] < #[trigger] fp[k2]
}

/// Every vertex of `idx` has a place `pos[v]` in `verts`.
spec fn well_placed(idx: Seq<u32>, verts: Seq<u32>, pos: Map<u32, usize>) -> bool {
    forall|p: int|
        0 <= p < idx.len() ==> {
            &&& pos.contains_key(#[trigger] idx[p])
            &&& (pos[idx[p]] as int) < verts.len()
            &&& verts[pos[idx[p]] as int] == idx[p]
        }
}

/// Both ends of each of the first `upto` edges carry the same label.
spec fn joined(label: Seq<usize>, pos: Map<u32, usize>, idx: Seq<u32>, upto: int) -> bool {
    forall|e: int|
        0 <= e < upto ==> label[pos[#[trigger] edge_from(idx, e)] as int] == label[pos[edge_to(
            idx,
            e,
        )] as int]
}

/// Vertices with one label get one value from `f`.
spec fn agree(label: Seq<usize>, verts: Seq<u32>, f: spec_fn(u32) -> int) -> bool {
    forall|k1: int, k2: int|
        0 <= k1 < label.len() && 0 <= k2 < label.len() && #[trigger] label[k1] == #[trigger] label[k2]
            ==> f(verts[k1]) == f(verts[k2])
}

/// The positions below `upto` whose label is `l`, in increasing order.
spec fn keys(label: Seq<usize>, l: usize, upto: int) -> Seq<int>
    decreases upto,
{
    if upto <= 0 {
        Seq::empty()
    } else if label[upto - 1] == l {
        keys(label, l, upto - 1).push(upto - 1)
    } else {
        keys(label, l, upto - 1)
    }
}

/// The vertices labelled `l`, in order.
spec fn members(verts: Seq<u32>, label: Seq<usize>, l: usize, upto: int) -> Seq<usize> {
    keys(label, l, upto).map_values(|k: int| verts[k] as usize)
}

proof fn lemma_keys(label: Seq<usize>, l: usize, upto: int)
    requires
        0 <= upto <= label.len(),
    ensures
        forall|i: int|
            0 <= i < keys(label, l, upto).len() ==> 0 <= #[trigger] keys(label, l, upto)[i] < upto
                && label[keys(label, l, upto)[i]] == l,
        forall|i: int, j: int|
            0 <= i < j < keys(label, l, upto).len() ==> #[trigger] keys(label, l, upto)[i]
                < #[trigger] keys(label, l, upto)[j],
        forall|k: int|
            0 <= k < upto && #[trigger] label[k] == l ==> keys(label, l, upto).contains(k),
    decreases upto,
{
    if upto > 0 {
        lemma_keys(label, l, upto - 1);
        let prev = keys(label, l, upto - 1);
        let cur = keys(label, l, upto);
        if label[upto - 1] == l {
            assert(cur == prev.push(upto - 1));
            assert forall|k: int| 0 <= k < upto && #[trigger] label[k] == l implies cur.contains(k) by {
                if k < upto - 1 {
                    let i = choose|i: int| 0 <= i < prev.len() && prev[i] == k;
                    assert(cur[i] == k);
                } else {
                    assert(cur[cur.len() - 1] == k);
                }
            }
        }
    }
}

fn merge(label: &mut Vec<usize>, ka: usize, kb: usize)
    requires
        ka < old(label)@.len(),
        kb < old(label)@.len(),
    ensures
        final(label)@.len() == old(label)@.len(),
        forall|k: int|
            0 <= k < old(label)@.len() ==> #[trigger] final(label)@[k] == (if old(label)@[k] == old(
                label,
            )@[kb as int] {
                old(label)@[ka as int]
            } else {
                old(label)@[k]
            }),
{
    let la = label[ka];
    let lb = label[kb];
    if la != lb {
        let ghost before = label@;
        let n = label.len();
        let mut k: usize = 0;
        while k < n
            invariant
                n == label@.len(),
                before.len() == n,
                k <= n,
                la == before[ka as int],
                lb == before[kb as int],
                forall|j: int|
                    0 <= j < k ==> #[trigger] label@[j] == (if before[j] == lb {
                        la
                    } else {
                        before[j]
                    }),
                forall|j: int| k <= j < n ==> #[trigger] label@[j] == before[j],
            decreases n - k,
        {
            if label[k] == lb {
                label.set(k, la);
            }
            k = k + 1;
        }
    }
}

proof fn lemma_merge_keeps(
    l0: Seq<usize>,
    l1: Seq<usize>,
    verts: Seq<u32>,
    pos: Map<u32, usize>,
    idx: Seq<u32>,
    e: int,
    ka: int,
    kb: int,
)
    requires
        l1.len() == l0.len() == verts.len(),
        0 <= ka < l0.len(),
        0 <= kb < l0.len(),
        forall|k: int|
            0 <= k < l0.len() ==> #[trigger] l1[k] == (if l0[k] == l0[kb] {
                l0[ka]
            } else {
                l0[k]
            }),
        0 <= e < edge_count(idx),
        well_placed(idx, verts, pos),
        pos[edge_from(idx, e)] == ka,
        pos[edge_to(idx, e)] == kb,
        joined(l0, pos, idx, e),
        forall|f: spec_fn(u32) -> int| #[trigger] respects(f, idx, e) ==> agree(l0, verts, f),
    ensures
        joined(l1, pos, idx, e + 1),
        forall|f: spec_fn(u32) -> int| #[trigger] respects(f, idx, e + 1) ==> agree(l1, verts, f),
{
    assert forall|e2: int| 0 <= e2 < e + 1 implies l1[pos[#[trigger] edge_from(idx, e2)] as int]
        == l1[pos[edge_to(idx, e2)] as int] by {
        lemma_edge_in_range(idx, e2);
        let pa = 3 * (e2 / 2) + e2 % 2;
        assert(pos.contains_key(idx[pa]) && (pos[idx[pa]] as int) < verts.len());
        assert(pos.contains_key(idx[pa + 1]) && (pos[idx[pa + 1]] as int) < verts.len());
        let x = pos[edge_from(idx, e2)] as int;
        let y = pos[edge_to(idx, e2)] as int;
        assert(l1[x] == (if l0[x] == l0[kb] { l0[ka] } else { l0[x] }));
        assert(l1[y] == (if l0[y] == l0[kb] { l0[ka] } else { l0[y] }));
    }
    assert forall|f: spec_fn(u32) -> int| #[trigger] respects(f, idx, e + 1) implies agree(l1, verts, f) by {
        assert(respects(f, idx, e));
        assert(agree(l0, verts, f));
        lemma_edge_in_range(idx, e);
        let pa = 3 * (e / 2) + e % 2;
        assert(verts[ka] == edge_from(idx, e));
        assert(verts[kb] == edge_to(idx, e));
        assert(f(verts[ka]) == f(verts[kb]));
        assert forall|k1: int, k2: int|
            0 <= k1 < l1.len() && 0 <= k2 < l1.len() && #[trigger] l1[k1] == #[trigger] l1[k2]
            implies f(verts[k1]) == f(verts[k2]) by {
            assert(l1[k1] == (if l0[k1] == l0[kb] { l0[ka] } else { l0[k1] }));
            assert(l1[k2] == (if l0[k2] == l0[kb] { l0[ka] } else { l0[k2] }));
            if l0[k1] == l0[kb] {
                assert(f(verts[k1]) == f(verts[kb]));
            } else if l0[k1] == l0[ka] {
                assert(f(verts[k1]) == f(verts[ka]));
            }
            if l0[k2] == l0[kb] {
                assert(f(verts[k2]) == f(verts[kb]));
            } else if l0[k2] == l0[ka] {
                assert(f(verts[k2]) == f(verts[ka]));
            }
        }
    }
}

fn place_of(pos: &HashMap<u32, usize>, v: u32) -> (r: usize)
    requires
        pos@.contains_key(v),
    ensures
        r == pos@[v],
{
    broadcast use vstd::std_specs::hash::group_hash_axioms;

    match pos.get(&v) {
        Some(k) => *k,
        None => 0,
    }
}

fn collect(verts: &Vec<u32>, label: &Vec<usize>, l: usize) -> (r: Vec<usize>)
    requires
        verts@.len() == label@.len(),
    ensures
        r@ == members(verts@, label@, l, label@.len() as int),
{
    let n = label.len();
    let mut out: Vec<usize> = Vec::new();
    let mut j: usize = 0;
    while j < n
        invariant
            n == label@.len(),
            verts@.len() == n,
            j <= n,
            out@ == members(verts@, label@, l, j as int),
        decreases n - j,
    {
        if label[j] == l {
            out.push(verts[j] as usize);
        }
        proof {
            let ks = keys(label@, l, j as int);
            if label@[j as int] == l {
                assert(keys(label@, l, j + 1) == ks.push(j as int));
            } else {
                assert(keys(label@, l, j + 1) == ks);
            }
        }
        assert(out@ =~= members(verts@, label@, l, j + 1));
        j = j + 1;
    }
    out
}

proof fn lemma_member(verts: Seq<u32>, label: Seq<usize>, l: usize, n: int, i: int)
    requires
        n == label.len() == verts.len(),
        0 <= i < members(verts, label, l, n).len(),
    ensures
        members(verts, label, l, n).len() == keys(label, l, n).len(),
        members(verts, label, l, n)[i] == verts[keys(label, l, n)[i]] as usize,
        0 <= keys(label, l, n)[i] < n,
        label[keys(label, l, n)[i]] == l,
{
    lemma_keys(label, l, n);
}

proof fn lemma_parts(
    idx: Seq<u32>,
    verts: Seq<u32>,
    fp: Seq<int>,
    pos: Map<u32, usize>,
    label: Seq<usize>,
    gl: Seq<usize>,
    groups: Seq<Vec<usize>>,
)
    requires
        verts.len() == label.len() == fp.len(),
        forall|k: int| 0 <= k < verts.len() ==> first_occurrence(idx, #[trigger] verts[k], fp[k]),
        forall|k1: int, k2: int| 0 <= k1 < k2 < verts.len() ==> #[trigger] fp[k1] < #[trigger] fp[k2],
        forall|k: int| 0 <= k < verts.len() ==> pos.contains_key(#[trigger] verts[k]) && pos[verts[k]] == k,
        well_placed(idx, verts, pos),
        joined(label, pos, idx, edge_count(idx)),
        forall|f: spec_fn(u32) -> int| #[trigger] respects(f, idx, edge_count(idx)) ==> agree(label, verts, f),
        groups.len() == gl.len(),
        forall|g: int| 0 <= g < gl.len() ==> #[trigger] groups[g]@ == members(verts, label, gl[g], label.len() as int),
        forall|g: int| 0 <= g < gl.len() ==> keys(label, #[trigger] gl[g], label.len() as int).len() > 0,
        forall|g1: int, g2: int| 0 <= g1 < g2 < gl.len() ==> #[trigger] gl[g1] != #[trigger] gl[g2],
        forall|k: int| 0 <= k < label.len() ==> gl.contains(#[trigger] label[k]),
    ensures
        forall|g: int| 0 <= g < groups.len() ==> #[trigger] groups[g]@.len() > 0,
        forall|g: int, i: int|
            0 <= g < groups.len() && 0 <= i < groups[g]@.len() ==> #[trigger] groups[g]@[i] <= u32::MAX
                && idx.contains(groups[g]@[i] as u32),
        forall|p: int| 0 <= p < idx.len() ==> in_some_part(groups, #[trigger] idx[p] as usize),
        forall|g1: int, i1: int, g2: int, i2: int|
            0 <= g1 < groups.len() && 0 <= i1 < groups[g1]@.len() && 0 <= g2 < groups.len() && 0 <= i2
                < groups[g2]@.len() && #[trigger] groups[g1]@[i1] == #[trigger] groups[g2]@[i2] ==> g1 == g2
                && i1 == i2,
        forall|e: int, g: int|
            0 <= e < edge_count(idx) && 0 <= g < groups.len() ==> (#[trigger] groups[g]@.contains(
                edge_from(idx, e) as usize,
            ) <==> groups[g]@.contains(edge_to(idx, e) as usize)),
        forall|f: spec_fn(u32) -> int|
            #[trigger] respects(f, idx, edge_count(idx)) ==> forall|g: int, i: int, j: int|
                0 <= g < groups.len() && 0 <= i < groups[g]@.len() && 0 <= j < groups[g]@.len() ==> f(
                    #[trigger] groups[g]@[i] as u32,
                ) == f(#[trigger] groups[g]@[j] as u32),
        forall|g: int, i: int, j: int|
            0 <= g < groups.len() && 0 <= i < j < groups[g]@.len() ==> first_pos(
                idx,
                #[trigger] groups[g]@[i] as u32,
            ) < first_pos(idx, #[trigger] groups[g]@[j] as u32),
{
    let n = label.len() as int;
    assert forall|g: int| 0 <= g < groups.len() implies #[trigger] groups[g]@.len() > 0 by {
        assert(groups[g]@ == members(verts, label, gl[g], n));
    }
    assert forall|g: int, i: int|
        0 <= g < groups.len() && 0 <= i < groups[g]@.len() implies #[trigger] groups[g]@[i] <= u32::MAX
            && idx.contains(groups[g]@[i] as u32) by {
        assert(groups[g]@ == members(verts, label, gl[g], n));
        lemma_member(verts, label, gl[g], n, i);
        let k = keys(label, gl[g], n)[i];
        assert(first_occurrence(idx, verts[k], fp[k]));
        assert(idx[fp[k]] == verts[k]);
    }
    assert forall|p: int| 0 <= p < idx.len() implies in_some_part(groups, #[trigger] idx[p] as usize) by {
        assert(pos.contains_key(idx[p]));
        let k = pos[idx[p]] as int;
        assert(gl.contains(label[k]));
        let g = choose|g: int| 0 <= g < gl.len() && gl[g] == label[k];
        lemma_keys(label, gl[g], n);
        let ks = keys(label, gl[g], n);
        assert(ks.contains(k));
        let i = choose|i: int| 0 <= i < ks.len() && ks[i] == k;
        assert(groups[g]@ == members(verts, label, gl[g], n));
        lemma_member(verts, label, gl[g], n, i);
        assert(groups[g]@[i] == idx[p] as usize);
        assert(groups[g]@.contains(idx[p] as usize));
    }
    assert forall|g1: int, i1: int, g2: int, i2: int|
        0 <= g1 < groups.len() && 0 <= i1 < groups[g1]@.len() && 0 <= g2 < groups.len() && 0 <= i2
            < groups[g2]@.len() && #[trigger] groups[g1]@[i1] == #[trigger] groups[g2]@[i2] implies g1
        == g2 && i1 == i2 by {
        assert(groups[g1]@ == members(verts, label, gl[g1], n));
        assert(groups[g2]@ == members(verts, label, gl[g2], n));
        lemma_member(verts, label, gl[g1], n, i1);
        lemma_member(verts, label, gl[g2], n, i2);
        let k1 = keys(label, gl[g1], n)[i1];
        let k2 = keys(label, gl[g2], n)[i2];
        assert(verts[k1] == verts[k2]);
        assert(pos[verts[k1]] == k1 && pos[verts[k2]] == k2);
        if g1 != g2 {
            if g1 < g2 {
                assert(gl[g1] != gl[g2]);
            } else {
                assert(gl[g2] != gl[g1]);
            }
        }
        lemma_keys(label, gl[g1], n);
        if i1 < i2 {
            assert(keys(label, gl[g1], n)[i1] < keys(label, gl[g1], n)[i2]);
        } else if i2 < i1 {
            assert(keys(label, gl[g1], n)[i2] < keys(label, gl[g1], n)[i1]);
        }
    }
    assert forall|e: int, g: int|
        0 <= e < edge_count(idx) && 0 <= g < groups.len() implies (#[trigger] groups[g]@.contains(
            edge_from(idx, e) as usize,
        ) <==> groups[g]@.contains(edge_to(idx, e) as usize)) by {
        lemma_edge_in_range(idx, e);
        let pa = 3 * (e / 2) + e % 2;
        let a = edge_from(idx, e);
        let b = edge_to(idx, e);
        assert(a == idx[pa] && b == idx[pa + 1]);
        let x = pos[a] as int;
        let y = pos[b] as int;
        assert(0 <= x < n && verts[x] == a);
        assert(0 <= y < n && verts[y] == b);
        assert(label[x] == label[y]);
        assert(groups[g]@ == members(verts, label, gl[g], n));
        lemma_keys(label, gl[g], n);
        let ks = keys(label, gl[g], n);
        let m = groups[g]@;
        if m.contains(a as usize) {
            let i = choose|i: int| 0 <= i < m.len() && m[i] == a as usize;
            lemma_member(verts, label, gl[g], n, i);
            assert(verts[ks[i]] == a);
            assert(pos[verts[ks[i]]] == ks[i]);
            assert(label[y] == gl[g]);
            assert(ks.contains(y));
            let i2 = choose|i2: int| 0 <= i2 < ks.len() && ks[i2] == y;
            lemma_member(verts, label, gl[g], n, i2);
            assert(m[i2] == b as usize);
        }
        if m.contains(b as usize) {
            let i = choose|i: int| 0 <= i < m.len() && m[i] == b as usize;
            lemma_member(verts, label, gl[g], n, i);
            assert(verts[ks[i]] == b);
            assert(pos[verts[ks[i]]] == ks[i]);
            assert(label[x] == gl[g]);
            assert(ks.contains(x));
            let i2 = choose|i2: int| 0 <= i2 < ks.len() && ks[i2] == x;
            lemma_member(verts, label, gl[g], n, i2);
            assert(m[i2] == a as usize);
        }
    }
    assert forall|f: spec_fn(u32) -> int| #[trigger] respects(f, idx, edge_count(idx)) implies forall|
        g: int,
        i: int,
        j: int,
    |
        0 <= g < groups.len() && 0 <= i < groups[g]@.len() && 0 <= j < groups[g]@.len() ==> f(
            #[trigger] groups[g]@[i] as u32,
        ) == f(#[trigger] groups[g]@[j] as u32) by {
        assert(agree(label, verts, f));
        assert forall|g: int, i: int, j: int|
            0 <= g < groups.len() && 0 <= i < groups[g]@.len() && 0 <= j < groups[g]@.len() implies f(
                #[trigger] groups[g]@[i] as u32,
            ) == f(#[trigger] groups[g]@[j] as u32) by {
            assert(groups[g]@ == members(verts, label, gl[g], n));
            lemma_member(verts, label, gl[g], n, i);
            lemma_member(verts, label, gl[g], n, j);
            let ki = keys(label, gl[g], n)[i];
            let kj = keys(label, gl[g], n)[j];
            assert(label[ki] == label[kj]);
            assert(f(verts[ki]) == f(verts[kj]));
        }
    }
    assert forall|g: int, i: int, j: int|
        0 <= g < groups.len() && 0 <= i < j < groups[g]@.len() implies first_pos(
            idx,
            #[trigger] groups[g]@[i] as u32,
        ) < first_pos(idx, #[trigger] groups[g]@[j] as u32) by {
        assert(groups[g]@ == members(verts, label, gl[g], n));
        lemma_member(verts, label, gl[g], n, i);
        lemma_member(verts, label, gl[g], n, j);
        lemma_keys(label, gl[g], n);
        let ki = keys(label, gl[g], n)[i];
        let kj = keys(label, gl[g], n)[j];
        assert(ki < kj);
        assert(fp[ki] < fp[kj]);
        lemma_first_pos(idx, verts[ki], fp[ki]);
        lemma_first_pos(idx, verts[kj], fp[kj]);
    }
}

/// Splits a triangle list into its loose pieces: vertices that share a
/// triangle are in one piece. Each piece lists its vertices in the order in
/// which they first appear in `indices`.
pub fn connected_parts(indices: &[u32]) -> (r: Vec<Vec<usize>>)
    ensures
        // no piece is empty, and each holds vertices of the mesh
        forall|g: int| 0 <= g < r@.len() ==> #[trigger] r@[g]@.len() > 0,
        forall|g: int, i: int|
            0 <= g < r@.len() && 0 <= i < r@[g]@.len() ==> #[trigger] r@[g]@[i] <= u32::MAX
                && indices@.contains(r@[g]@[i] as u32),
        // every vertex of the mesh is in some piece ...
        forall|p: int| 0 <= p < indices@.len() ==> in_some_part(r@, #[trigger] indices@[p] as usize),
        // ... and in one place only
        forall|g1: int, i1: int, g2: int, i2: int|
            0 <= g1 < r@.len() && 0 <= i1 < r@[g1]@.len() && 0 <= g2 < r@.len() && 0 <= i2
                < r@[g2]@.len() && #[trigger] r@[g1]@[i1] == #[trigger] r@[g2]@[i2] ==> g1 == g2
                && i1 == i2,
        // the two ends of every edge of a whole triangle lie in one piece
        forall|e: int, g: int|
            0 <= e < edge_count(indices@) && 0 <= g < r@.len() ==> (#[trigger] r@[g]@.contains(
                edge_from(indices@, e) as usize,
            ) <==> r@[g]@.contains(edge_to(indices@, e) as usize)),
        // and no more is joined: whatever gives the ends of every edge one
        // value gives all the vertices of a piece one value
        forall|f: spec_fn(u32) -> int|
            #[trigger] respects(f, indices@, edge_count(indices@)) ==> forall|g: int, i: int, j: int|
                0 <= g < r@.len() && 0 <= i < r@[g]@.len() && 0 <= j < r@[g]@.len() ==> f(
                    #[trigger] r@[g]@[i] as u32,
                ) == f(#[trigger] r@[g]@[j] as u32),
        // within a piece, vertices come in order of first appearance
        forall|g: int, i: int, j: int|
            0 <= g < r@.len() && 0 <= i < j < r@[g]@.len() ==> first_pos(
                indices@,
                #[trigger] r@[g]@[i] as u32,
            ) < first_pos(indices@, #[trigger] r@[g]@[j] as u32),
{
    broadcast use vstd::std_specs::hash::group_hash_axioms;

    let idx = Ghost(indices@);
    let len = indices.len();
    // the distinct vertices, in order of first appearance
    let mut verts: Vec<u32> = Vec::new();
    let mut pos: HashMap<u32, usize> = HashMap::new();
    let ghost mut fp: Seq<int> = Seq::empty();
    let mut p: usize = 0;
    while p < len
        invariant
            len == idx@.len(),
            idx@ == indices@,
            p <= len,
            verts@.len() <= p,
            firsts_ok(idx@, verts@, fp, p as int),
            forall|k: int|
                0 <= k < verts@.len() ==> pos@.contains_key(#[trigger] verts@[k]) && pos@[verts@[k]] == k,
            forall|v: u32|
                #[trigger] pos@.contains_key(v) ==> (pos@[v] as int) < verts@.len() && verts@[pos@[v] as int]
                    == v,
            forall|q: int| 0 <= q < p ==> pos@.contains_key(#[trigger] idx@[q]),
        decreases len - p,
    {
        let v = indices[p];
        let ghost vs0 = verts@;
        let ghost fp0 = fp;
        if !pos.contains_key(&v) {
            proof {
                assert forall|q: int| 0 <= q < p implies idx@[q] != v by {
                    assert(pos@.contains_key(idx@[q]));
                }
                fp = fp.push(p as int);
            }
            let ghost n0 = verts@.len();
            pos.insert(v, verts.len());
            verts.push(v);
            proof {
                assert(verts@[n0 as int] == v);
                assert(first_occurrence(idx@, verts@[n0 as int], fp[n0 as int]));
                assert forall|k: int| 0 <= k < verts@.len() implies first_occurrence(
                    idx@,
                    #[trigger] verts@[k],
                    fp[k],
                ) && fp[k] < p + 1 by {
                    if k < n0 {
                        assert(vs0[k] == verts@[k] && fp0[k] == fp[k]);
                        assert(first_occurrence(idx@, vs0[k], fp0[k]) && fp0[k] < p);
                    }
                }
                assert forall|k1: int, k2: int| 0 <= k1 < k2 < verts@.len() implies #[trigger] fp[k1]
                    < #[trigger] fp[k2] by {
                    assert(vs0[k1] == verts@[k1] && fp0[k1] == fp[k1]);
                    assert(first_occurrence(idx@, vs0[k1], fp0[k1]) && fp0[k1] < p);
                    if k2 < n0 {
                        assert(fp0[k1] < fp0[k2]);
                    }
                }
                assert(firsts_ok(idx@, verts@, fp, p + 1));
            }
        } else {
            proof {
                assert(firsts_ok(idx@, verts@, fp, p + 1));
            }
        }
        p = p + 1;
    }
    let n = verts.len();
    assert(well_placed(idx@, verts@, pos@));
    // one label per vertex; an edge merges the labels of its ends
    let mut label: Vec<usize> = Vec::new();
    let mut k: usize = 0;
    while k < n
        invariant
            n == verts@.len(),
            k <= n,
            label@.len() == k,
            forall|j: int| 0 <= j < k ==> #[trigger] label@[j] == j,
        decreases n - k,
    {
        label.push(k);
        k = k + 1;
    }
    assert forall|f: spec_fn(u32) -> int| #[trigger] respects(f, idx@, 0) implies agree(label@, verts@, f) by {
        assert forall|k1: int, k2: int|
            0 <= k1 < label@.len() && 0 <= k2 < label@.len() && #[trigger] label@[k1]
                == #[trigger] label@[k2] implies f(verts@[k1]) == f(verts@[k2]) by {
            assert(k1 == k2);
        }
    }
    let tris = len / 3;
    let mut t: usize = 0;
    while t < tris
        invariant
            len == idx@.len(),
            idx@ == indices@,
            tris == len / 3,
            n == verts@.len(),
            t <= tris,
            label@.len() == n,
            forall|j: int| 0 <= j < n ==> #[trigger] label@[j] < n,
            well_placed(idx@, verts@, pos@),
            joined(label@, pos@, idx@, 2 * t),
            forall|f: spec_fn(u32) -> int| #[trigger] respects(f, idx@, 2 * t) ==> agree(label@, verts@, f),
        decreases tris - t,
    {
        assert(3 * t + 2 < len);
        let a = indices[3 * t];
        let b = indices[3 * t + 1];
        let c = indices[3 * t + 2];
        assert(pos@.contains_key(idx@[3 * t]));
        assert(pos@.contains_key(idx@[3 * t + 1]));
        assert(pos@.contains_key(idx@[3 * t + 2]));
        let ka = place_of(&pos, a);
        let kb = place_of(&pos, b);
        let kc = place_of(&pos, c);
        let ghost l0 = label@;
        merge(&mut label, ka, kb);
        proof {
            let e = 2 * t as int;
            assert(e / 2 == t && e % 2 == 0);
            assert(edge_from(idx@, e) == a && edge_to(idx@, e) == b);
            lemma_merge_keeps(l0, label@, verts@, pos@, idx@, e, ka as int, kb as int);
        }
        let ghost l1 = label@;
        merge(&mut label, kb, kc);
        proof {
            let e = 2 * t + 1;
            assert(e / 2 == t && e % 2 == 1);
            assert(edge_from(idx@, e) == b && edge_to(idx@, e) == c);
            lemma_merge_keeps(l1, label@, verts@, pos@, idx@, e, kb as int, kc as int);
            assert(2 * (t + 1) == e + 1);
        }
        t = t + 1;
    }
    assert(2 * tris == edge_count(idx@));
    // one piece per label, in order of the first vertex that carries it
    let mut done: Vec<bool> = Vec::new();
    let mut j: usize = 0;
    while j < n
        invariant
            j <= n,
            done@.len() == j,
            forall|i: int| 0 <= i < j ==> !#[trigger] done@[i],
        decreases n - j,
    {
        done.push(false);
        j = j + 1;
    }
    let mut groups: Vec<Vec<usize>> = Vec::new();
    let ghost mut gl: Seq<usize> = Seq::empty();
    let mut k: usize = 0;
    while k < n
        invariant
            n == verts@.len(),
            label@.len() == n,
            done@.len() == n,
            forall|j: int| 0 <= j < n ==> #[trigger] label@[j] < n,
            k <= n,
            groups@.len() == gl.len(),
            forall|g: int| 0 <= g < gl.len() ==> #[trigger] groups@[g]@ == members(verts@, label@, gl[g], n as int),
            forall|g: int| 0 <= g < gl.len() ==> (#[trigger] gl[g] as int) < n && done@[gl[g] as int],
            forall|g: int| 0 <= g < gl.len() ==> keys(label@, #[trigger] gl[g], n as int).len() > 0,
            forall|l: int| 0 <= l < n && #[trigger] done@[l] ==> gl.contains(l as usize),
            forall|g1: int, g2: int| 0 <= g1 < g2 < gl.len() ==> #[trigger] gl[g1] != #[trigger] gl[g2],
            forall|i: int| 0 <= i < k ==> #[trigger] done@[label@[i] as int],
        decreases n - k,
    {
        let l = label[k];
        if !done[l] {
            let group = collect(&verts, &label, l);
            proof {
                lemma_keys(label@, l, n as int);
                assert(keys(label@, l, n as int).contains(k as int));
                assert forall|g: int| 0 <= g < gl.len() implies gl[g] != l by {
                    assert(done@[gl[g] as int]);
                }
            }
            groups.push(group);
            let ghost done0 = done@;
            let ghost gl0 = gl;
            done.set(l, true);
            proof {
                gl = gl.push(l);
                assert(gl[gl.len() - 1] == l);
                assert forall|l2: int| 0 <= l2 < n && #[trigger] done@[l2] implies gl.contains(l2 as usize) by {
                    if l2 != l as int {
                        assert(done0[l2]);
                        assert(gl0.contains(l2 as usize));
                        let g = choose|g: int| 0 <= g < gl0.len() && gl0[g] == l2 as usize;
                        assert(gl[g] == l2 as usize);
                    } else {
                        assert(gl[gl.len() - 1] == l2 as usize);
                    }
                }
            }
        }
        k = k + 1;
    }
    proof {
        assert forall|k: int| 0 <= k < label@.len() implies gl.contains(#[trigger] label@[k]) by {
            assert(done@[label@[k] as int]);
        }
        lemma_parts(idx@, verts@, fp, pos@, label@, gl, groups@);
    }
    groups
}

} // verus!
