//! Which render pass draws each primitive of a pet, decided from the
//! material's flags alone, and how a face slot is marked for the shader.
//!
//! A draw is `(first_index, index_count, material)`. The passes take the
//! draws one after another, each keeping the order of what the previous
//! ones left: the glassy inner shells (own opaque pass), the special opaque
//! pieces, the paint-order pieces, then the rest split into opaque and
//! blended; blended ones split into glass (with a base colour) and effect
//! layers; effect layers split into inner (non-additive, drawn before the
//! glass) and additive ones (drawn last). Outlines go round the opaque
//! draws that keep theirs and the glass draws that ask for one and have a
//! MatCap.
use vstd::prelude::*;

verus! {

/// One primitive to draw: first index, index count, material slot.
pub type Draw = (u32, u32, usize);

/// What the routing reads of a material.
#[derive(Debug, Clone, Copy)]
pub struct DrawFlags {
    /// The glassy inner shell family (drawn opaque in its own pass).
    pub glassy_inner: bool,
    /// The special opaque family (the ear liquid shell).
    pub special_opaque: bool,
    /// Painted in order, without writing depth.
    pub paint_order: bool,
    /// A pure effect layer (no base colour).
    pub effect: bool,
    /// Marked `BLEND_Translucent`.
    pub translucent: bool,
    /// The base colour's alpha is opacity.
    pub alpha_opacity: bool,
    /// The fake fluid family.
    pub fake_fluid: bool,
    /// An effect layer whose colour adds light (only read for effect layers).
    pub additive: bool,
    /// Whether the material has an outline material; `None` when the pack does not say.
    pub outline: Option<bool>,
    /// Has a MatCap texture.
    pub matcap: bool,
}

impl DrawFlags {
    pub open spec fn spec_blended(self) -> bool {
        self.effect || self.translucent || self.alpha_opacity || self.fake_fluid
    }

    /// Drawn after the opaque passes, blended and without writing depth.
    pub fn blended(&self) -> (r: bool)
        ensures
            r == self.spec_blended(),
    {
        self.effect || self.translucent || self.alpha_opacity || self.fake_fluid
    }
}

/// The tests the routing splits by.
#[derive(Debug, Clone, Copy, PartialEq, Eq, Structural)]
pub enum Route {
    GlassyInner,
    SpecialOpaque,
    PaintOrder,
    Blended,
    Effect,
    InnerEffect,
    OutlineOpaque,
    OutlineGlass,
}

/// Whether a material passes test `route`.
pub open spec fn passes(route: Route, f: DrawFlags) -> bool {
    match route {
        Route::GlassyInner => f.glassy_inner,
        Route::SpecialOpaque => f.special_opaque,
        Route::PaintOrder => f.paint_order,
        Route::Blended => f.spec_blended(),
        Route::Effect => f.effect,
        Route::InnerEffect => f.effect && !f.additive,
        Route::OutlineOpaque => f.outline != Some(false),
        Route::OutlineGlass => f.outline == Some(true) && f.matcap,
    }
}

/// The draws of `s` whose material passes (`want`) or fails (`!want`)
/// test `route`, in their order.
pub open spec fn keep(s: Seq<Draw>, flags: Seq<DrawFlags>, route: Route, want: bool) -> Seq<Draw>
    decreases s.len(),
{
    if s.len() == 0 {
        Seq::empty()
    } else {
        let prev = keep(s.drop_last(), flags, route, want);
        if passes(route, flags[s.last().2 as int]) == want {
            prev.push(s.last())
        } else {
            prev
        }
    }
}

/// What is left for the opaque and blended passes.
pub open spec fn after_special(d: Seq<Draw>, f: Seq<DrawFlags>) -> Seq<Draw> {
    keep(keep(keep(d, f, Route::GlassyInner, false), f, Route::SpecialOpaque, false), f, Route::PaintOrder, false)
}

pub open spec fn blended_draws(d: Seq<Draw>, f: Seq<DrawFlags>) -> Seq<Draw> {
    keep(after_special(d, f), f, Route::Blended, true)
}

pub open spec fn effect_draws(d: Seq<Draw>, f: Seq<DrawFlags>) -> Seq<Draw> {
    keep(blended_draws(d, f), f, Route::Effect, true)
}

/// The draw lists of one pet, one per pass.
#[derive(Debug)]
pub struct DrawLists {
    pub glassy_inner: Vec<Draw>,
    pub special_opaque: Vec<Draw>,
    pub paint_order: Vec<Draw>,
    pub opaque: Vec<Draw>,
    pub glass: Vec<Draw>,
    pub inner_effect: Vec<Draw>,
    pub effect: Vec<Draw>,
    pub outline: Vec<Draw>,
}

/// A test splits a list into the draws that pass and those that fail.
pub proof fn lemma_keep_splits(s: Seq<Draw>, flags: Seq<DrawFlags>, route: Route)
    ensures
        keep(s, flags, route, true).len() + keep(s, flags, route, false).len() == s.len(),
    decreases s.len(),
{
    if s.len() > 0 {
        lemma_keep_splits(s.drop_last(), flags, route);
    }
}

fn split(draws: &Vec<Draw>, flags: &Vec<DrawFlags>, route: Route) -> (r: (Vec<Draw>, Vec<Draw>))
    requires
        forall|i: int| 0 <= i < draws@.len() ==> #[trigger] draws@[i].2 < flags@.len(),
    ensures
        r.0@ == keep(draws@, flags@, route, true),
        r.1@ == keep(draws@, flags@, route, false),
{
    let mut yes: Vec<Draw> = Vec::new();
    let mut no: Vec<Draw> = Vec::new();
    let mut i: usize = 0;
    while i < draws.len()
        invariant
            i <= draws@.len(),
            forall|j: int| 0 <= j < draws@.len() ==> #[trigger] draws@[j].2 < flags@.len(),
            yes@ == keep(draws@.take(i as int), flags@, route, true),
            no@ == keep(draws@.take(i as int), flags@, route, false),
        decreases draws.len() - i,
    {
        let d = draws[i];
        let f = flags[d.2];
        let pass = match route {
            Route::GlassyInner => f.glassy_inner,
            Route::SpecialOpaque => f.special_opaque,
            Route::PaintOrder => f.paint_order,
            Route::Blended => f.blended(),
            Route::Effect => f.effect,
            Route::InnerEffect => f.effect && !f.additive,
            Route::OutlineOpaque => match f.outline {
                Some(false) => false,
                _ => true,
            },
            Route::OutlineGlass => match f.outline {
                Some(true) => f.matcap,
                _ => false,
            },
        };
        assert(pass == passes(route, flags@[d.2 as int]));
        if pass {
            yes.push(d);
        } else {
            no.push(d);
        }
        proof {
            let t = draws@.take(i + 1);
            assert(t.drop_last() == draws@.take(i as int));
            assert(t.last() == d);
        }
        i = i + 1;
    }
    assert(draws@.take(draws@.len() as int) == draws@);
    (yes, no)
}

proof fn lemma_keep_in_range(s: Seq<Draw>, flags: Seq<DrawFlags>, route: Route, want: bool)
    requires
        forall|i: int| 0 <= i < s.len() ==> #[trigger] s[i].2 < flags.len(),
    ensures
        forall|i: int|
            0 <= i < keep(s, flags, route, want).len() ==> #[trigger] keep(s, flags, route, want)[i].2
                < flags.len(),
    decreases s.len(),
{
    if s.len() > 0 {
        let init = s.drop_last();
        assert forall|i: int| 0 <= i < init.len() implies #[trigger] init[i].2 < flags.len() by {
            assert(init[i] == s[i]);
        }
        lemma_keep_in_range(init, flags, route, want);
        assert(s.last() == s[s.len() - 1]);
        let prev = keep(init, flags, route, want);
        let r = keep(s, flags, route, want);
        assert forall|i: int| 0 <= i < r.len() implies #[trigger] r[i].2 < flags.len() by {
            if i < prev.len() {
                assert(r[i] == prev[i]);
            }
        }
    }
}

/// Routes the draws of a pet into its passes (see the module doc). Every
/// draw lands in exactly one of the first seven lists; `outline` repeats
/// the draws that get an outline.
pub fn partition_draws(draws: &Vec<Draw>, flags: &Vec<DrawFlags>) -> (r: DrawLists)
    requires
        forall|i: int| 0 <= i < draws@.len() ==> #[trigger] draws@[i].2 < flags@.len(),
    ensures
        r.glassy_inner@ == keep(draws@, flags@, Route::GlassyInner, true),
        r.special_opaque@ == keep(keep(draws@, flags@, Route::GlassyInner, false), flags@, Route::SpecialOpaque, true),
        r.paint_order@ == keep(
            keep(keep(draws@, flags@, Route::GlassyInner, false), flags@, Route::SpecialOpaque, false),
            flags@,
            Route::PaintOrder,
            true,
        ),
        r.opaque@ == keep(after_special(draws@, flags@), flags@, Route::Blended, false),
        r.glass@ == keep(blended_draws(draws@, flags@), flags@, Route::Effect, false),
        r.inner_effect@ == keep(effect_draws(draws@, flags@), flags@, Route::InnerEffect, true),
        r.effect@ == keep(effect_draws(draws@, flags@), flags@, Route::InnerEffect, false),
        r.outline@ == keep(r.opaque@, flags@, Route::OutlineOpaque, true) + keep(
            r.glass@,
            flags@,
            Route::OutlineGlass,
            true,
        ),
        r.glassy_inner@.len() + r.special_opaque@.len() + r.paint_order@.len() + r.opaque@.len()
            + r.glass@.len() + r.inner_effect@.len() + r.effect@.len() == draws@.len(),
{
    let (glassy_inner, rest) = split(draws, flags, Route::GlassyInner);
    proof {
        lemma_keep_in_range(draws@, flags@, Route::GlassyInner, false);
    }
    let (special_opaque, rest) = split(&rest, flags, Route::SpecialOpaque);
    proof {
        lemma_keep_in_range(keep(draws@, flags@, Route::GlassyInner, false), flags@, Route::SpecialOpaque, false);
    }
    let (paint_order, rest) = split(&rest, flags, Route::PaintOrder);
    proof {
        lemma_keep_in_range(
            keep(keep(draws@, flags@, Route::GlassyInner, false), flags@, Route::SpecialOpaque, false),
            flags@,
            Route::PaintOrder,
            false,
        );
    }
    let (blended, opaque) = split(&rest, flags, Route::Blended);
    proof {
        lemma_keep_in_range(after_special(draws@, flags@), flags@, Route::Blended, true);
        lemma_keep_in_range(after_special(draws@, flags@), flags@, Route::Blended, false);
    }
    let (effects, glass) = split(&blended, flags, Route::Effect);
    proof {
        lemma_keep_in_range(blended_draws(draws@, flags@), flags@, Route::Effect, true);
        lemma_keep_in_range(blended_draws(draws@, flags@), flags@, Route::Effect, false);
    }
    let (inner_effect, effect) = split(&effects, flags, Route::InnerEffect);
    let (mut outline, _) = split(&opaque, flags, Route::OutlineOpaque);
    let (glass_outline, _) = split(&glass, flags, Route::OutlineGlass);
    let ghost before = outline@;
    let mut k: usize = 0;
    while k < glass_outline.len()
        invariant
            k <= glass_outline@.len(),
            outline@ == before + glass_outline@.take(k as int),
        decreases glass_outline.len() - k,
    {
        outline.push(glass_outline[k]);
        assert(glass_outline@.take(k + 1) == glass_outline@.take(k as int).push(glass_outline@[k as int]));
        k = k + 1;
    }
    assert(glass_outline@.take(glass_outline@.len() as int) == glass_outline@);
    proof {
        let d = draws@;
        let f = flags@;
        let a = keep(d, f, Route::GlassyInner, false);
        let b = keep(a, f, Route::SpecialOpaque, false);
        let c = keep(b, f, Route::PaintOrder, false);
        let bl = keep(c, f, Route::Blended, true);
        let ef = keep(bl, f, Route::Effect, true);
        lemma_keep_splits(d, f, Route::GlassyInner);
        lemma_keep_splits(a, f, Route::SpecialOpaque);
        lemma_keep_splits(b, f, Route::PaintOrder);
        lemma_keep_splits(c, f, Route::Blended);
        lemma_keep_splits(bl, f, Route::Effect);
        lemma_keep_splits(ef, f, Route::InnerEffect);
    }
    DrawLists { glassy_inner, special_opaque, paint_order, opaque, glass, inner_effect, effect, outline }
}

/// How the shader is told what kind of face a material is: 0 none, 1 an
/// atlas face (shifted UVs), 2 a mesh face (one card of eight drawn).
pub fn face_kind(face: bool, face_cards: bool) -> (r: u32)
    ensures
        r == (if face_cards { 2u32 } else if face { 1u32 } else { 0u32 }),
{
    if face_cards {
        2
    } else if face {
        1
    } else {
        0
    }
}


/// Every draw a test keeps answers the test as asked.
proof fn lemma_keep_members(s: Seq<Draw>, flags: Seq<DrawFlags>, route: Route, want: bool)
    ensures
        forall|i: int|
            0 <= i < keep(s, flags, route, want).len() ==> passes(
                route,
                flags[(#[trigger] keep(s, flags, route, want)[i]).2 as int],
            ) == want,
    decreases s.len(),
{
    if s.len() > 0 {
        lemma_keep_members(s.drop_last(), flags, route, want);
        let prev = keep(s.drop_last(), flags, route, want);
        let r = keep(s, flags, route, want);
        assert forall|i: int| 0 <= i < r.len() implies passes(route, flags[(#[trigger] r[i]).2 as int]) == want by {
            if i < prev.len() {
                assert(r[i] == prev[i]);
            }
        }
    }
}

/// The opaque pass holds only solid materials: no draw in it is an effect
/// layer, translucent, alpha-as-opacity or fake fluid. The glass pass holds
/// only blended materials with a base colour (some of those four flags
/// set, but not the effect flag), and both effect passes only effect layers.
pub proof fn lemma_passes_by_material(draws: Seq<Draw>, flags: Seq<DrawFlags>)
    ensures
        forall|i: int| 0 <= i < keep(after_special(draws, flags), flags, Route::Blended, false).len() ==> {
            let f = flags[(#[trigger] keep(after_special(draws, flags), flags, Route::Blended, false)[i]).2 as int];
            !f.effect && !f.translucent && !f.alpha_opacity && !f.fake_fluid
        },
        forall|i: int| 0 <= i < keep(blended_draws(draws, flags), flags, Route::Effect, false).len() ==> {
            let f = flags[(#[trigger] keep(blended_draws(draws, flags), flags, Route::Effect, false)[i]).2 as int];
            !f.effect && (f.translucent || f.alpha_opacity || f.fake_fluid)
        },
        forall|i: int| 0 <= i < effect_draws(draws, flags).len() ==> flags[(#[trigger] effect_draws(draws, flags)[i]).2 as int].effect,
{
    let a = after_special(draws, flags);
    let bl = blended_draws(draws, flags);
    lemma_keep_members(a, flags, Route::Blended, false);
    lemma_keep_members(a, flags, Route::Blended, true);
    lemma_keep_members(bl, flags, Route::Effect, false);
    lemma_keep_members(bl, flags, Route::Effect, true);
    let glass = keep(bl, flags, Route::Effect, false);
    assert forall|i: int| 0 <= i < glass.len() implies {
        let f = flags[(#[trigger] glass[i]).2 as int];
        !f.effect && (f.translucent || f.alpha_opacity || f.fake_fluid)
    } by {
        lemma_keep_subseq(bl, flags, Route::Effect, false, i);
        let j = choose|j: int| 0 <= j < bl.len() && bl[j] == glass[i];
        assert(passes(Route::Blended, flags[bl[j].2 as int]));
    }
}

/// What a test keeps comes from the list it tested.
proof fn lemma_keep_subseq(s: Seq<Draw>, flags: Seq<DrawFlags>, route: Route, want: bool, i: int)
    requires
        0 <= i < keep(s, flags, route, want).len(),
    ensures
        exists|j: int| 0 <= j < s.len() && s[j] == keep(s, flags, route, want)[i],
    decreases s.len(),
{
    let prev = keep(s.drop_last(), flags, route, want);
    if i < prev.len() {
        lemma_keep_subseq(s.drop_last(), flags, route, want, i);
        let j = choose|j: int| 0 <= j < s.drop_last().len() && s.drop_last()[j] == prev[i];
        assert(s[j] == keep(s, flags, route, want)[i]);
    } else {
        assert(s[s.len() - 1] == keep(s, flags, route, want)[i]);
    }
}

} // verus!
