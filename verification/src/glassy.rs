//! Appearance mutations: the shiny variant (a whole alternative material set
//! shipped in the pack) and the glassy overlay, in its common (colour scheme ×
//! particle) and hidden/seasonal kinds.
//!
//! The two axes are independent: a pet can be shiny, glassy, both or neither.
//! This module holds the protocol encoding (`glass_value`), the roster
//! spelling (`to_config` / `from_config`), display labels, and which shared
//! textures a look needs. The colour tables come in as a [`GlassyCatalog`].
use vstd::prelude::*;
use crate::text::{
    all_digits, is_digit, is_space, lemma_decimal_digits, lemma_parse_decimal, lemma_split_join,
    lemma_trim_fixed_ends, lemma_trim_noop, split_chars, starts_with, views, join_chars, chars_of, decimal, decimal_chars, find_char, find_from, has_prefix, join, parse_u32, parse_u32_chars,
    push_all, same_chars, slice_chars, split, split_once, string_of, trim, trim_chars,
};

verus! {

/// One common colour scheme (`COLOR_RANDOM_CONF`).
pub struct GlassyColor {
    pub id: u32,
    /// Display name of the scheme.
    pub name: String,
    /// The two swatches the picker shows (0xRRGGBB).
    pub ui_color_1: u32,
    pub ui_color_2: u32,
}

/// One particle shape of the common kind (`PARTICLE_RANDOM_CONF`).
pub struct GlassyParticle {
    pub id: u32,
    pub name: String,
    /// Shared texture name (no directory, no extension).
    pub tex: String,
}

/// One hidden or seasonal look (`HIDDEN_GLASS_CONF`).
pub struct HiddenGlass {
    pub id: u32,
    pub name: String,
    /// Seasonal (`type == 2`) rather than permanent.
    pub season: bool,
    /// Texture that replaces the shared pattern texture.
    pub main_tex: String,
    pub star_tex: String,
    /// Pets (`petbase_id`) that have dedicated seasonal art.
    pub season_pets: Vec<u32>,
}

/// The three configuration tables the glassy looks are drawn from.
pub struct GlassyCatalog {
    pub colors: Vec<GlassyColor>,
    pub particles: Vec<GlassyParticle>,
    pub hidden: Vec<HiddenGlass>,
}

/// Which glassy look. Common looks pick a colour scheme and a particle;
/// hidden looks are one complete preset.
#[derive(Debug, Clone, Copy, PartialEq, Eq, Hash, Structural)]
pub enum Glassy {
    Common { color: u32, particle: u32 },
    Hidden { id: u32 },
}

/// The look chosen for a pet: shiny and glassy are independent.
#[derive(Debug, Clone, Copy, PartialEq, Eq, Hash, Structural)]
pub struct Mutation {
    pub shiny: bool,
    pub glassy: Option<Glassy>,
}

impl Default for Mutation {
    fn default() -> (r: Self)
        ensures
            r == (Mutation { shiny: false, glassy: None }),
    {
        Mutation { shiny: false, glassy: None }
    }
}

/// The shared pattern texture every glassy look draws its outline with.
pub open spec fn default_main_tex() -> Seq<char> {
    seq!['T', 'e', 'x', '_', 'P', 'e', 't', 'G', 'l', 'a', 's', 's', 'y', '_', '0', '0', '7', '_', 'D']
}

pub fn default_main_tex_chars() -> (r: Vec<char>)
    ensures
        r@ == default_main_tex(),
{
    let r = vec!['T', 'e', 'x', '_', 'P', 'e', 't', 'G', 'l', 'a', 's', 's', 'y', '_', '0', '0', '7', '_', 'D'];
    assert(r@ == default_main_tex());
    r
}

/// The roster word for "shiny".
pub open spec fn shiny_word() -> Seq<char> {
    seq!['异', '色']
}

/// The roster prefix of a glassy look.
pub open spec fn glassy_prefix() -> Seq<char> {
    seq!['炫', '彩', ':']
}

/// Separator between the particle and the colour name in a label.
pub open spec fn label_dot() -> Seq<char> {
    seq![' ', '\u{b7}', ' ']
}

/// Stand-in for a table entry that does not exist.
pub open spec fn unknown_mark() -> Seq<char> {
    seq!['?']
}

/// Label of a hidden look whose id is not in the table (followed by the id).
pub open spec fn hidden_fallback() -> Seq<char> {
    seq!['隐', '藏', '炫', '彩', ' ']
}

/// The first position in `s` at or after `from` whose entry satisfies `p`.
pub open spec fn first_at<T>(s: Seq<T>, p: spec_fn(T) -> bool, from: int) -> Option<int>
    decreases s.len() - from,
{
    if from < 0 || from >= s.len() {
        None
    } else if p(s[from]) {
        Some(from)
    } else {
        first_at(s, p, from + 1)
    }
}

pub proof fn lemma_first_at<T>(s: Seq<T>, p: spec_fn(T) -> bool, from: int)
    requires
        0 <= from,
    ensures
        first_at(s, p, from) matches Some(i) ==> from <= i < s.len() && p(s[i]) && forall|j: int|
            from <= j < i ==> !p(#[trigger] s[j]),
        first_at(s, p, from) is None ==> forall|j: int| from <= j < s.len() ==> !p(#[trigger] s[j]),
    decreases s.len() - from,
{
    if from < s.len() && !p(s[from]) {
        lemma_first_at(s, p, from + 1);
    }
}

pub proof fn lemma_first_at_is<T>(s: Seq<T>, p: spec_fn(T) -> bool, from: int, i: int)
    requires
        0 <= from <= i < s.len(),
        p(s[i]),
        forall|j: int| from <= j < i ==> !p(#[trigger] s[j]),
    ensures
        first_at(s, p, from) == Some(i),
    decreases i - from,
{
    if from < i {
        lemma_first_at_is(s, p, from + 1, i);
    }
}

impl GlassyCatalog {
    pub open spec fn color_index(&self, id: u32) -> Option<int> {
        first_at(self.colors@, |c: GlassyColor| c.id == id, 0)
    }

    pub open spec fn particle_index(&self, id: u32) -> Option<int> {
        first_at(self.particles@, |p: GlassyParticle| p.id == id, 0)
    }

    pub open spec fn hidden_index(&self, id: u32) -> Option<int> {
        first_at(self.hidden@, |h: HiddenGlass| h.id == id, 0)
    }

    pub open spec fn hidden_name_index(&self, name: Seq<char>) -> Option<int> {
        first_at(self.hidden@, named(name), 0)
    }

    /// The tables can be read back from what the roster writes: hidden looks
    /// have distinct ids and distinct names, and no name contains `+` or `/`
    /// or starts or ends with white space.
    pub open spec fn wf(&self) -> bool {
        &&& forall|i: int, j: int|
            0 <= i < j < self.hidden@.len() ==> #[trigger] self.hidden@[i].id != #[trigger] self.hidden@[j].id
                && self.hidden@[i].name@ != self.hidden@[j].name@
        &&& forall|i: int| 0 <= i < self.hidden@.len() ==> plain_name(#[trigger] self.hidden@[i].name@)
    }

    /// The colour scheme with this id (the first, should there be several).
    pub fn color(&self, id: u32) -> (r: Option<&GlassyColor>)
        ensures
            r is Some == self.color_index(id) is Some,
            r matches Some(c) ==> *c == self.colors@[self.color_index(id)->0],
    {
        proof {
            lemma_first_at(self.colors@, |c: GlassyColor| c.id == id, 0);
        }
        let mut i: usize = 0;
        while i < self.colors.len()
            invariant
                i <= self.colors@.len(),
                forall|j: int| 0 <= j < i ==> #[trigger] self.colors@[j].id != id,
            decreases self.colors.len() - i,
        {
            if self.colors[i].id == id {
                proof {
                    lemma_first_at_is(self.colors@, |c: GlassyColor| c.id == id, 0, i as int);
                }
                return Some(&self.colors[i]);
            }
            i = i + 1;
        }
        None
    }

    /// The particle with this id.
    pub fn particle(&self, id: u32) -> (r: Option<&GlassyParticle>)
        ensures
            r is Some == self.particle_index(id) is Some,
            r matches Some(p) ==> *p == self.particles@[self.particle_index(id)->0],
    {
        proof {
            lemma_first_at(self.particles@, |p: GlassyParticle| p.id == id, 0);
        }
        let mut i: usize = 0;
        while i < self.particles.len()
            invariant
                i <= self.particles@.len(),
                forall|j: int| 0 <= j < i ==> #[trigger] self.particles@[j].id != id,
            decreases self.particles.len() - i,
        {
            if self.particles[i].id == id {
                proof {
                    lemma_first_at_is(self.particles@, |p: GlassyParticle| p.id == id, 0, i as int);
                }
                return Some(&self.particles[i]);
            }
            i = i + 1;
        }
        None
    }

    /// The hidden look with this id.
    pub fn hidden_by_id(&self, id: u32) -> (r: Option<&HiddenGlass>)
        ensures
            r is Some == self.hidden_index(id) is Some,
            r matches Some(h) ==> *h == self.hidden@[self.hidden_index(id)->0],
    {
        proof {
            lemma_first_at(self.hidden@, |h: HiddenGlass| h.id == id, 0);
        }
        let mut i: usize = 0;
        while i < self.hidden.len()
            invariant
                i <= self.hidden@.len(),
                forall|j: int| 0 <= j < i ==> #[trigger] self.hidden@[j].id != id,
            decreases self.hidden.len() - i,
        {
            if self.hidden[i].id == id {
                proof {
                    lemma_first_at_is(self.hidden@, |h: HiddenGlass| h.id == id, 0, i as int);
                }
                return Some(&self.hidden[i]);
            }
            i = i + 1;
        }
        None
    }

    /// The hidden look with this name.
    pub fn hidden_by_name(&self, name: &Vec<char>) -> (r: Option<&HiddenGlass>)
        ensures
            r is Some == self.hidden_name_index(name@) is Some,
            r matches Some(h) ==> *h == self.hidden@[self.hidden_name_index(name@)->0],
    {
        proof {
            lemma_first_at(self.hidden@, named(name@), 0);
        }
        let mut i: usize = 0;
        while i < self.hidden.len()
            invariant
                i <= self.hidden@.len(),
                forall|j: int| 0 <= j < i ==> #[trigger] self.hidden@[j].name@ != name@,
            decreases self.hidden.len() - i,
        {
            let candidate = chars_of(self.hidden[i].name.as_str());
            if same_chars(&candidate, name) {
                proof {
                    lemma_first_at_is(self.hidden@, named(name@), 0, i as int);
                }
                return Some(&self.hidden[i]);
            }
            i = i + 1;
        }
        None
    }
}

/// Table entries stored under `key`.
pub open spec fn keyed(key: Seq<char>) -> spec_fn((String, Vec<u8>)) -> bool {
    |e: (String, Vec<u8>)| e.0@ == key
}

/// The hidden looks called `name`.
pub open spec fn named(name: Seq<char>) -> spec_fn(HiddenGlass) -> bool {
    |h: HiddenGlass| h.name@ == name
}

/// A name that survives being written into and read back from the roster.
pub open spec fn plain_name(name: Seq<char>) -> bool {
    &&& forall|k: int| 0 <= k < name.len() ==> #[trigger] name[k] != '+' && name[k] != '/'
    &&& trim(name) == name
}

/// `(particle << 20) | color` for common looks, the table id for hidden ones.
pub open spec fn spec_glass_value(g: Glassy) -> u32 {
    match g {
        Glassy::Common { color, particle } => (particle << 20u32) | color,
        Glassy::Hidden { id } => id,
    }
}

/// The look encoded by the game's `(glass_type, glass_value)` pair.
pub open spec fn spec_from_glass_info(glass_type: u32, glass_value: u32) -> Option<Glassy> {
    if glass_type == 1 {
        Some(Glassy::Common { color: glass_value & 0xf_ffffu32, particle: glass_value >> 20u32 })
    } else if glass_type == 2 {
        Some(Glassy::Hidden { id: glass_value })
    } else {
        None
    }
}

/// The two textures a look draws with, when its table entries exist.
pub open spec fn spec_textures(g: Glassy, cat: GlassyCatalog) -> Option<(Seq<char>, Seq<char>)> {
    match g {
        Glassy::Common { color, particle } => match (cat.color_index(color), cat.particle_index(particle)) {
            (Some(_), Some(p)) => Some((default_main_tex(), cat.particles@[p].tex@)),
            _ => None,
        },
        Glassy::Hidden { id } => match cat.hidden_index(id) {
            Some(h) => Some((cat.hidden@[h].main_tex@, cat.hidden@[h].star_tex@)),
            None => None,
        },
    }
}

/// `s` with runs of equal neighbours collapsed to one (`Vec::dedup`).
pub open spec fn dedup(s: Seq<Seq<char>>) -> Seq<Seq<char>>
    decreases s.len(),
{
    if s.len() <= 1 {
        s
    } else if s[s.len() - 1] == s[s.len() - 2] {
        dedup(s.drop_last())
    } else {
        dedup(s.drop_last()).push(s.last())
    }
}

/// The shared textures a look needs: its two textures, plus the shared
/// pattern texture when it is not one of them, with neighbours deduplicated.
pub open spec fn spec_shared_assets(m: Mutation, cat: GlassyCatalog) -> Seq<Seq<char>> {
    match m.glassy {
        None => Seq::empty(),
        Some(g) => match spec_textures(g, cat) {
            None => Seq::empty(),
            Some((main, star)) => {
                let two = seq![main, star];
                let all = if main == default_main_tex() || star == default_main_tex() {
                    two
                } else {
                    two.push(default_main_tex())
                };
                dedup(all)
            },
        },
    }
}

/// Display label of a look.
pub open spec fn spec_glassy_label(g: Glassy, cat: GlassyCatalog) -> Seq<char> {
    match g {
        Glassy::Common { color, particle } => {
            let c = match cat.color_index(color) {
                Some(i) => cat.colors@[i].name@,
                None => unknown_mark(),
            };
            let p = match cat.particle_index(particle) {
                Some(i) => cat.particles@[i].name@,
                None => unknown_mark(),
            };
            p + label_dot() + c
        },
        Glassy::Hidden { id } => match cat.hidden_index(id) {
            Some(i) => cat.hidden@[i].name@,
            None => hidden_fallback() + decimal(id as nat),
        },
    }
}

/// The roster spelling of a glassy look: `particle/color` for common looks,
/// the name (or the bare id, when the table lacks it) for hidden ones.
pub open spec fn spec_config_part(g: Glassy, cat: GlassyCatalog) -> Seq<char> {
    match g {
        Glassy::Common { color, particle } => decimal(particle as nat) + seq!['/'] + decimal(color as nat),
        Glassy::Hidden { id } => match cat.hidden_index(id) {
            Some(i) => cat.hidden@[i].name@,
            None => decimal(id as nat),
        },
    }
}

/// The pieces the roster entry is made of.
pub open spec fn config_parts(m: Mutation, cat: GlassyCatalog) -> Seq<Seq<char>> {
    let shiny: Seq<Seq<char>> = if m.shiny { seq![shiny_word()] } else { Seq::empty() };
    match m.glassy {
        Some(g) => shiny.push(glassy_prefix() + spec_config_part(g, cat)),
        None => shiny,
    }
}

/// The roster entry of a look; nothing for the plain look.
pub open spec fn spec_to_config(m: Mutation, cat: GlassyCatalog) -> Option<Seq<char>> {
    let parts = config_parts(m, cat);
    if parts.len() == 0 {
        None
    } else {
        Some(join(parts, seq!['+']))
    }
}

/// A glassy look read back from its roster spelling.
pub open spec fn spec_parse_part(rest: Seq<char>, cat: GlassyCatalog) -> Option<Glassy> {
    match split_once(rest, '/') {
        Some((p, c)) => match (parse_u32(trim(c)), parse_u32(trim(p))) {
            (Some(color), Some(particle)) => Some(Glassy::Common { color, particle }),
            _ => None,
        },
        None => match cat.hidden_name_index(rest) {
            Some(i) => Some(Glassy::Hidden { id: cat.hidden@[i].id }),
            None => match parse_u32(rest) {
                Some(id) => if cat.hidden_index(id) is Some {
                    Some(Glassy::Hidden { id })
                } else {
                    None
                },
                None => None,
            },
        },
    }
}

/// Reading the roster pieces one by one into `acc`; `None` as soon as a piece
/// is unknown or an axis is given twice.
pub open spec fn read_parts(parts: Seq<Seq<char>>, acc: Mutation, cat: GlassyCatalog) -> Option<Mutation>
    decreases parts.len(),
{
    if parts.len() == 0 {
        Some(acc)
    } else {
        let part = trim(parts[0]);
        if part == shiny_word() {
            if acc.shiny {
                None
            } else {
                read_parts(parts.drop_first(), Mutation { shiny: true, glassy: acc.glassy }, cat)
            }
        } else if has_prefix(part, glassy_prefix()) {
            if acc.glassy is Some {
                None
            } else {
                match spec_parse_part(trim(part.skip(3)), cat) {
                    Some(g) => read_parts(parts.drop_first(), Mutation { shiny: acc.shiny, glassy: Some(g) }, cat),
                    None => None,
                }
            }
        } else {
            None
        }
    }
}

/// The look a roster entry spells; the plain look is never spelled out.
pub open spec fn spec_from_config(s: Seq<char>, cat: GlassyCatalog) -> Option<Mutation> {
    match read_parts(split(s, '+'), Mutation { shiny: false, glassy: None }, cat) {
        Some(m) => if !m.shiny && m.glassy is None {
            None
        } else {
            Some(m)
        },
        None => None,
    }
}

/// Display label of a mutation.
pub open spec fn spec_mutation_label(m: Mutation, cat: GlassyCatalog) -> Seq<char> {
    match m.glassy {
        None => if m.shiny {
            shiny_word()
        } else {
            seq!['原', '样']
        },
        Some(g) => if m.shiny {
            shiny_word() + label_dot() + spec_glassy_label(g, cat)
        } else {
            spec_glassy_label(g, cat)
        },
    }
}

impl Glassy {
    /// The protocol encoding: `(particle << 20) | color`, or the hidden id.
    pub fn glass_value(&self) -> (r: u32)
        ensures
            r == spec_glass_value(*self),
    {
        match self {
            Glassy::Common { color, particle } => (*particle << 20u32) | *color,
            Glassy::Hidden { id } => *id,
        }
    }

    /// Decodes the game's `(glass_type, glass_value)`: type 1 is common, 2 hidden.
    pub fn from_glass_info(glass_type: u32, glass_value: u32) -> (r: Option<Glassy>)
        ensures
            r == spec_from_glass_info(glass_type, glass_value),
    {
        if glass_type == 1 {
            Some(Glassy::Common { color: glass_value & 0xf_ffff, particle: glass_value >> 20 })
        } else if glass_type == 2 {
            Some(Glassy::Hidden { id: glass_value })
        } else {
            None
        }
    }

    /// Display label, such as "particle · colour scheme".
    pub fn label(&self, catalog: &GlassyCatalog) -> (r: String)
        ensures
            r@ == spec_glassy_label(*self, *catalog),
    {
        string_of(&self.label_chars(catalog))
    }

    fn label_chars(&self, catalog: &GlassyCatalog) -> (r: Vec<char>)
        ensures
            r@ == spec_glassy_label(*self, *catalog),
    {
        match self {
            Glassy::Common { color, particle } => {
                let c = match catalog.color(*color) {
                    Some(entry) => chars_of(entry.name.as_str()),
                    None => vec!['?'],
                };
                let p = match catalog.particle(*particle) {
                    Some(entry) => chars_of(entry.name.as_str()),
                    None => vec!['?'],
                };
                let mut out = p;
                let dot = vec![' ', '\u{b7}', ' '];
                push_all(&mut out, &dot);
                push_all(&mut out, &c);
                out
            },
            Glassy::Hidden { id } => match catalog.hidden_by_id(*id) {
                Some(h) => chars_of(h.name.as_str()),
                None => {
                    let mut out = vec!['隐', '藏', '炫', '彩', ' '];
                    let digits = decimal_chars(*id);
                    push_all(&mut out, &digits);
                    out
                },
            },
        }
    }

    /// The roster spelling of this look (the part after the glassy prefix).
    pub fn config_part(&self, catalog: &GlassyCatalog) -> (r: Vec<char>)
        ensures
            r@ == spec_config_part(*self, *catalog),
    {
        match self {
            Glassy::Common { color, particle } => {
                let mut out = decimal_chars(*particle);
                out.push('/');
                let c = decimal_chars(*color);
                push_all(&mut out, &c);
                out
            },
            Glassy::Hidden { id } => match catalog.hidden_by_id(*id) {
                Some(h) => chars_of(h.name.as_str()),
                None => decimal_chars(*id),
            },
        }
    }

    /// Reads a look back from its roster spelling.
    pub fn parse_part(rest: &Vec<char>, catalog: &GlassyCatalog) -> (r: Option<Glassy>)
        ensures
            r == spec_parse_part(rest@, *catalog),
    {
        let n = rest.len();
        match find_char(rest, '/', 0) {
            Some(k) => {
                proof {
                    lemma_find_range(rest@, '/', 0);
                }
                let p = slice_chars(rest, 0, k);
                let c = slice_chars(rest, k + 1, rest.len());
                assert(p@ == rest@.take(k as int));
                assert(c@ == rest@.skip(k + 1));
                let color = parse_u32_chars(&trim_chars(&c));
                let particle = parse_u32_chars(&trim_chars(&p));
                match (color, particle) {
                    (Some(color), Some(particle)) => Some(Glassy::Common { color, particle }),
                    _ => None,
                }
            },
            None => match catalog.hidden_by_name(rest) {
                Some(h) => Some(Glassy::Hidden { id: h.id }),
                None => match parse_u32_chars(rest) {
                    Some(id) => if catalog.hidden_by_id(id).is_some() {
                        Some(Glassy::Hidden { id })
                    } else {
                        None
                    },
                    None => None,
                },
            },
        }
    }

    /// Whether this pet wears the dedicated seasonal art of this look: only
    /// seasonal hidden looks, and only for the pets on their list.
    pub fn uses_season_art(&self, catalog: &GlassyCatalog, petbase_id: i64) -> (r: bool)
        ensures
            r == (match *self {
                Glassy::Hidden { id } => match catalog.hidden_index(id) {
                    Some(i) => catalog.hidden@[i].season && exists|k: int|
                        0 <= k < catalog.hidden@[i].season_pets@.len()
                            && #[trigger] catalog.hidden@[i].season_pets@[k] as int == petbase_id as int,
                    None => false,
                },
                Glassy::Common { .. } => false,
            }),
    {
        match self {
            Glassy::Common { .. } => false,
            Glassy::Hidden { id } => match catalog.hidden_by_id(*id) {
                None => false,
                Some(h) => {
                    if !h.season {
                        return false;
                    }
                    let mut k: usize = 0;
                    while k < h.season_pets.len()
                        invariant
                            catalog.hidden_index(*id) is Some,
                            *h == catalog.hidden@[catalog.hidden_index(*id)->0],
                            h.season,
                            *self == (Glassy::Hidden { id: *id }),
                            k <= h.season_pets@.len(),
                            forall|j: int| 0 <= j < k ==> #[trigger] h.season_pets@[j] as int != petbase_id as int,
                        decreases h.season_pets.len() - k,
                    {
                        if h.season_pets[k] as i64 == petbase_id {
                            assert(h.season_pets@[k as int] as int == petbase_id as int);
                            return true;
                        }
                        k = k + 1;
                    }
                    false
                },
            },
        }
    }

    /// The two textures this look draws with, when its table entries exist.
    fn textures(&self, catalog: &GlassyCatalog) -> (r: Option<(Vec<char>, Vec<char>)>)
        ensures
            match r {
                Some((a, b)) => spec_textures(*self, *catalog) == Some((a@, b@)),
                None => spec_textures(*self, *catalog) is None,
            },
    {
        match self {
            Glassy::Common { color, particle } => {
                if catalog.color(*color).is_none() {
                    return None;
                }
                match catalog.particle(*particle) {
                    Some(p) => Some((default_main_tex_chars(), chars_of(p.tex.as_str()))),
                    None => None,
                }
            },
            Glassy::Hidden { id } => match catalog.hidden_by_id(*id) {
                Some(h) => Some((chars_of(h.main_tex.as_str()), chars_of(h.star_tex.as_str()))),
                None => None,
            },
        }
    }
}

impl Mutation {
    pub open spec fn spec_is_plain(self) -> bool {
        !self.shiny && self.glassy is None
    }

    /// Nothing chosen: drawn as the pack ships it.
    pub fn is_plain(&self) -> (r: bool)
        ensures
            r == self.spec_is_plain(),
    {
        !self.shiny && self.glassy.is_none()
    }

    /// The roster entry for this look, `None` for the plain look: `异色`,
    /// `炫彩:<part>`, or both joined with `+`.
    pub fn to_config(&self, catalog: &GlassyCatalog) -> (r: Option<String>)
        ensures
            match r {
                Some(s) => spec_to_config(*self, *catalog) == Some(s@),
                None => spec_to_config(*self, *catalog) is None,
            },
            r is None <==> self.spec_is_plain(),
    {
        let mut parts: Vec<Vec<char>> = Vec::new();
        if self.shiny {
            parts.push(vec!['异', '色']);
        }
        if let Some(g) = self.glassy {
            let mut piece = vec!['炫', '彩', ':'];
            let tail = g.config_part(catalog);
            push_all(&mut piece, &tail);
            parts.push(piece);
        }
        assert(views(parts@) =~= config_parts(*self, *catalog));
        if parts.len() == 0 {
            None
        } else {
            let sep = vec!['+'];
            assert(sep@ == seq!['+']);
            let joined = join_chars(&parts, &sep);
            Some(string_of(&joined))
        }
    }

    /// Reads a roster entry back. Unknown pieces, an axis given twice, and the
    /// plain look all give `None`.
    pub fn from_config(s: &str, catalog: &GlassyCatalog) -> (r: Option<Mutation>)
        ensures
            r == spec_from_config(s@, *catalog),
    {
        let cs = chars_of(s);
        let parts = split_chars(&cs, '+');
        let ghost all = split(cs@, '+');
        assert(views(parts@) =~= all);
        let shiny_word_v = vec!['异', '色'];
        let prefix_v = vec!['炫', '彩', ':'];
        let mut out = Mutation { shiny: false, glassy: None };
        let mut i: usize = 0;
        assert(all.skip(0) == all);
        while i < parts.len()
            invariant
                views(parts@) == all,
                all == split(s@, '+'),
                shiny_word_v@ == shiny_word(),
                prefix_v@ == glassy_prefix(),
                i <= parts@.len(),
                read_parts(all, Mutation { shiny: false, glassy: None }, *catalog) == read_parts(
                    all.skip(i as int),
                    out,
                    *catalog,
                ),
            decreases parts.len() - i,
        {
            let ghost rest = all.skip(i as int);
            assert(rest[0] == parts@[i as int]@);
            assert(rest.drop_first() == all.skip(i + 1));
            let part = trim_chars(&parts[i]);
            if same_chars(&part, &shiny_word_v) {
                if out.shiny {
                    return None;
                }
                out = Mutation { shiny: true, glassy: out.glassy };
            } else if starts_with(&part, &prefix_v) {
                if out.glassy.is_some() {
                    return None;
                }
                let after = slice_chars(&part, 3, part.len());
                assert(after@ == part@.skip(3));
                let rest_part = trim_chars(&after);
                match Glassy::parse_part(&rest_part, catalog) {
                    Some(g) => {
                        out = Mutation { shiny: out.shiny, glassy: Some(g) };
                    },
                    None => {
                        return None;
                    },
                }
            } else {
                return None;
            }
            i = i + 1;
        }
        assert(all.skip(i as int) =~= Seq::<Seq<char>>::empty());
        if out.is_plain() {
            None
        } else {
            Some(out)
        }
    }

    /// Display label, such as "异色 · particle · colour scheme".
    pub fn label(&self, catalog: &GlassyCatalog) -> (r: String)
        ensures
            r@ == spec_mutation_label(*self, *catalog),
    {
        match self.glassy {
            None => if self.shiny {
                string_of(&vec!['异', '色'])
            } else {
                string_of(&vec!['原', '样'])
            },
            Some(g) => {
                if self.shiny {
                    let mut out = vec!['异', '色', ' ', '\u{b7}', ' '];
                    let tail = g.label_chars(catalog);
                    push_all(&mut out, &tail);
                    string_of(&out)
                } else {
                    g.label(catalog)
                }
            },
        }
    }

    /// The shared textures this look needs (no directory, no extension). The
    /// shiny axis needs none: its materials ship inside the pack.
    pub fn shared_assets(&self, catalog: &GlassyCatalog) -> (r: Vec<String>)
        ensures
            r@.map_values(|t: String| t@) == spec_shared_assets(*self, *catalog),
    {
        let g = match self.glassy {
            Some(g) => g,
            None => {
                let e: Vec<String> = Vec::new();
                assert(e@.map_values(|t: String| t@) =~= Seq::<Seq<char>>::empty());
                return e;
            },
        };
        let (main, star) = match g.textures(catalog) {
            Some(pair) => pair,
            None => {
                let e: Vec<String> = Vec::new();
                assert(e@.map_values(|t: String| t@) =~= Seq::<Seq<char>>::empty());
                return e;
            },
        };
        let d = default_main_tex_chars();
        let needs_default = !same_chars(&main, &d) && !same_chars(&star, &d);
        let mut names: Vec<Vec<char>> = Vec::new();
        names.push(main);
        names.push(star);
        if needs_default {
            names.push(d);
        }
        proof {
            let two = seq![main@, star@];
            let all = if main@ == default_main_tex() || star@ == default_main_tex() {
                two
            } else {
                two.push(default_main_tex())
            };
            assert(views(names@) =~= all);
        }
        let kept = dedup_chars(&names);
        let mut out: Vec<String> = Vec::new();
        let mut k: usize = 0;
        while k < kept.len()
            invariant
                k <= kept@.len(),
                out@.len() == k,
                forall|j: int| 0 <= j < k ==> #[trigger] out@[j]@ == kept@[j]@,
            decreases kept.len() - k,
        {
            out.push(string_of(&kept[k]));
            k = k + 1;
        }
        assert(out@.map_values(|t: String| t@) =~= views(kept@));
        out
    }

    /// The needed shared textures that `store` does not hold yet; empty when
    /// the look can be drawn now.
    pub fn missing_assets(&self, catalog: &GlassyCatalog, store: &SharedTextures) -> (r: Vec<String>)
        ensures
            r@.map_values(|t: String| t@) == spec_shared_assets(*self, *catalog).filter(
                |name: Seq<char>| store.lookup(name) is None,
            ),
    {
        let needed = self.shared_assets(catalog);
        let ghost want = spec_shared_assets(*self, *catalog);
        let ghost missing = |name: Seq<char>| store.lookup(name) is None;
        let mut out: Vec<String> = Vec::new();
        let mut k: usize = 0;
        while k < needed.len()
            invariant
                needed@.map_values(|t: String| t@) == want,
                k <= needed@.len(),
                missing == (|name: Seq<char>| store.lookup(name) is None),
                out@.map_values(|t: String| t@) == want.take(k as int).filter(missing),
            decreases needed.len() - k,
        {
            assert(want.take(k + 1) == want.take(k as int).push(want[k as int]));
            proof {
                want.take(k as int).lemma_filter_push(want[k as int], missing);
            }
            if !store.has(needed[k].as_str()) {
                let name = needed[k].clone();
                out.push(name);
                assert(out@.map_values(|t: String| t@) =~= want.take(k as int).filter(missing).push(want[k as int]));
            } else {
                assert(out@.map_values(|t: String| t@) =~= want.take(k + 1).filter(missing));
            }
            k = k + 1;
        }
        assert(want.take(needed@.len() as int) == want);
        out
    }
}

/// Equal neighbours collapsed, as `Vec::dedup` does.
fn dedup_chars(names: &Vec<Vec<char>>) -> (r: Vec<Vec<char>>)
    ensures
        views(r@) == dedup(views(names@)),
{
    let mut out: Vec<Vec<char>> = Vec::new();
    let mut i: usize = 0;
    while i < names.len()
        invariant
            i <= names@.len(),
            views(out@) == dedup(views(names@).take(i as int)),
            i > 0 ==> out@.len() > 0 && out@.last()@ == names@[i - 1]@,
        decreases names.len() - i,
    {
        let ghost prefix = views(names@).take(i as int);
        let ghost next = views(names@).take(i + 1);
        assert(next.drop_last() == prefix);
        assert(next.last() == names@[i as int]@);
        if i > 0 && same_chars(&out[out.len() - 1], &names[i]) {
            assert(next[next.len() - 2] == names@[i - 1]@);
        } else {
            let copy = copy_chars(&names[i]);
            out.push(copy);
            proof {
                if i > 0 {
                    assert(next[next.len() - 2] == names@[i - 1]@);
                }
                lemma_dedup_push(prefix, names@[i as int]@);
            }
            assert(views(out@) =~= dedup(prefix).push(names@[i as int]@));
        }
        i = i + 1;
    }
    assert(views(names@).take(names@.len() as int) == views(names@));
    out
}

proof fn lemma_dedup_push(prefix: Seq<Seq<char>>, x: Seq<char>)
    requires
        prefix.len() > 0 ==> prefix.last() != x,
    ensures
        dedup(prefix.push(x)) == dedup(prefix).push(x),
{
    let s = prefix.push(x);
    assert(s.drop_last() == prefix);
    if prefix.len() == 0 {
        assert(dedup(prefix) == prefix);
        assert(s == seq![x]);
    } else {
        assert(s[s.len() - 2] == prefix.last());
    }
}

fn copy_chars(v: &Vec<char>) -> (r: Vec<char>)
    ensures
        r@ == v@,
{
    let mut out: Vec<char> = Vec::new();
    let mut i: usize = 0;
    while i < v.len()
        invariant
            i <= v@.len(),
            out@ == v@.take(i as int),
        decreases v.len() - i,
    {
        out.push(v[i]);
        i = i + 1;
        assert(out@ == v@.take(i as int));
    }
    assert(v@.take(v@.len() as int) == v@);
    out
}

/// A copy of a byte buffer.
pub fn copy_bytes(v: &Vec<u8>) -> (r: Vec<u8>)
    ensures
        r@ == v@,
{
    let mut out: Vec<u8> = Vec::new();
    let mut i: usize = 0;
    while i < v.len()
        invariant
            i <= v@.len(),
            out@ == v@.take(i as int),
        decreases v.len() - i,
    {
        out.push(v[i]);
        i = i + 1;
        assert(out@ == v@.take(i as int));
    }
    assert(v@.take(v@.len() as int) == v@);
    out
}

/// The shared glassy textures on hand, by name. The desktop build fills it
/// once from the textures it embeds; the browser feeds it as they download.
pub struct SharedTextures {
    entries: Vec<(String, Vec<u8>)>,
}

impl SharedTextures {
    /// The bytes stored under `name`, if any.
    pub closed spec fn lookup(&self, name: Seq<char>) -> Option<Seq<u8>> {
        match first_at(self.entries@, keyed(name), 0) {
            Some(i) => Some(self.entries@[i].1@),
            None => None,
        }
    }

    /// How many textures are held.
    pub closed spec fn count(&self) -> nat {
        self.entries@.len()
    }

    /// An empty store.
    pub fn new() -> (r: Self)
        ensures
            forall|name: Seq<char>| r.lookup(name) is None,
            r.count() == 0,
    {
        SharedTextures { entries: Vec::new() }
    }

    fn position(&self, name: &Vec<char>) -> (r: Option<usize>)
        ensures
            match r {
                Some(i) => first_at(self.entries@, keyed(name@), 0) == Some(i as int)
                    && i < self.entries@.len(),
                None => first_at(self.entries@, keyed(name@), 0) is None,
            },
    {
        let ghost p = keyed(name@);
        proof {
            lemma_first_at(self.entries@, p, 0);
        }
        let mut i: usize = 0;
        while i < self.entries.len()
            invariant
                i <= self.entries@.len(),
                p == (keyed(name@)),
                forall|j: int| 0 <= j < i ==> !p(#[trigger] self.entries@[j]),
            decreases self.entries.len() - i,
        {
            let key = chars_of(self.entries[i].0.as_str());
            if same_chars(&key, name) {
                proof {
                    lemma_first_at_is(self.entries@, p, 0, i as int);
                }
                return Some(i);
            }
            i = i + 1;
        }
        proof {
            lemma_first_at(self.entries@, p, 0);
            if let Some(k) = first_at(self.entries@, p, 0) {
                assert(!p(self.entries@[k]));
            }
        }
        None
    }

    /// Stores (or replaces) the texture called `name`.
    pub fn put(&mut self, name: &str, bytes: Vec<u8>)
        ensures
            final(self).lookup(name@) == Some(bytes@),
            forall|other: Seq<char>| other != name@ ==> final(self).lookup(other) == old(self).lookup(other),
    {
        let key = chars_of(name);
        let ghost before = self.entries@;
        let entry = (string_of(&key), bytes);
        match self.position(&key) {
            Some(i) => {
                proof {
                    lemma_first_at(before, keyed(name@), 0);
                }
                self.entries.set(i, entry);
                proof {
                    let now = self.entries@;
                    lemma_first_at_is(now, keyed(name@), 0, i as int);
                    assert forall|other: Seq<char>| other != name@ implies self.lookup(other) == old(self).lookup(other) by {
                        let q = keyed(other);
                        lemma_first_at(before, q, 0);
                        lemma_first_at(now, q, 0);
                        assert(!q(now[i as int]));
                        if let Some(k) = first_at(before, q, 0) {
                            assert(k != i);
                            assert forall|j: int| 0 <= j < k implies !q(#[trigger] now[j]) by {
                                if j != i {
                                    assert(now[j] == before[j]);
                                }
                            }
                            lemma_first_at_is(now, q, 0, k);
                        } else {
                            if let Some(k) = first_at(now, q, 0) {
                                if k != i {
                                    assert(now[k] == before[k]);
                                }
                            }
                        }
                    }
                }
            },
            None => {
                self.entries.push(entry);
                proof {
                    let now = self.entries@;
                    let p = keyed(name@);
                    lemma_first_at(before, p, 0);
                    assert forall|j: int| 0 <= j < before.len() implies !p(#[trigger] now[j]) by {
                        assert(now[j] == before[j]);
                    }
                    lemma_first_at_is(now, p, 0, before.len() as int);
                    assert forall|other: Seq<char>| other != name@ implies self.lookup(other) == old(self).lookup(other) by {
                        let q = keyed(other);
                        lemma_first_at(before, q, 0);
                        lemma_first_at(now, q, 0);
                        if let Some(k) = first_at(before, q, 0) {
                            assert forall|j: int| 0 <= j < k implies !q(#[trigger] now[j]) by {
                                assert(now[j] == before[j]);
                            }
                            assert(now[k] == before[k]);
                            lemma_first_at_is(now, q, 0, k);
                        } else {
                            if let Some(k) = first_at(now, q, 0) {
                                if k < before.len() {
                                    assert(now[k] == before[k]);
                                } else {
                                    assert(now[k] == entry);
                                }
                            }
                        }
                    }
                }
            },
        }
    }

    /// A copy of the texture called `name`.
    pub fn get(&self, name: &str) -> (r: Option<Vec<u8>>)
        ensures
            match r {
                Some(b) => self.lookup(name@) == Some(b@),
                None => self.lookup(name@) is None,
            },
    {
        let key = chars_of(name);
        match self.position(&key) {
            Some(i) => Some(copy_bytes(&self.entries[i].1)),
            None => None,
        }
    }

    /// Whether the texture called `name` is on hand.
    pub fn has(&self, name: &str) -> (r: bool)
        ensures
            r == self.lookup(name@) is Some,
    {
        let key = chars_of(name);
        self.position(&key).is_some()
    }

    /// Same as [`SharedTextures::put`]; the entry point the browser feeds.
    pub fn put_shared(&mut self, name: &str, bytes: Vec<u8>)
        ensures
            final(self).lookup(name@) == Some(bytes@),
            forall|other: Seq<char>| other != name@ ==> final(self).lookup(other) == old(self).lookup(other),
    {
        self.put(name, bytes)
    }

    /// The shared texture called `name`, the one entry point both loaders use.
    pub fn shared(&self, name: &str) -> (r: Option<Vec<u8>>)
        ensures
            match r {
                Some(b) => self.lookup(name@) == Some(b@),
                None => self.lookup(name@) is None,
            },
    {
        self.get(name)
    }

    /// Whether the texture called `name` is on hand, without copying it.
    pub fn has_shared(&self, name: &str) -> (r: bool)
        ensures
            r == self.lookup(name@) is Some,
    {
        self.has(name)
    }

    /// How many textures the store holds.
    pub fn embedded_count(&self) -> (r: usize)
        ensures
            r == self.count(),
            (r == 0) == (forall|name: Seq<char>| #[trigger] self.lookup(name) is None),
    {
        proof {
            if self.entries@.len() > 0 {
                let name = self.entries@[0].0@;
                lemma_first_at_is(self.entries@, keyed(name), 0, 0);
                assert(self.lookup(name) is Some);
            }
        }
        self.entries.len()
    }

    /// The stored bytes of the texture called `name`, borrowed.
    pub fn embedded(&self, name: &str) -> (r: Option<&Vec<u8>>)
        ensures
            match r {
                Some(b) => self.lookup(name@) == Some(b@),
                None => self.lookup(name@) is None,
            },
    {
        let key = chars_of(name);
        match self.position(&key) {
            Some(i) => Some(&self.entries[i].1),
            None => None,
        }
    }
}

/// The textures the common looks use: the shared pattern and every particle.
pub open spec fn spec_common_assets(cat: GlassyCatalog) -> Seq<Seq<char>> {
    seq![default_main_tex()] + cat.particles@.map_values(|p: GlassyParticle| p.tex@)
}

/// The common-look textures, in table order after the shared pattern.
pub fn common_assets(catalog: &GlassyCatalog) -> (r: Vec<String>)
    ensures
        r@.map_values(|t: String| t@) == spec_common_assets(*catalog),
{
    let mut out: Vec<String> = Vec::new();
    out.push(string_of(&default_main_tex_chars()));
    let mut i: usize = 0;
    while i < catalog.particles.len()
        invariant
            i <= catalog.particles@.len(),
            out@.len() == i + 1,
            out@[0]@ == default_main_tex(),
            forall|j: int| 0 <= j < i ==> #[trigger] out@[j + 1]@ == catalog.particles@[j].tex@,
        decreases catalog.particles.len() - i,
    {
        out.push(string_of(&chars_of(catalog.particles[i].tex.as_str())));
        i = i + 1;
    }
    assert(out@.map_values(|t: String| t@) =~= spec_common_assets(*catalog)) by {
        assert forall|j: int| 0 <= j < out@.len() implies out@.map_values(|t: String| t@)[j] == spec_common_assets(*catalog)[j] by {
            if j > 0 {
                assert(out@[(j - 1) + 1]@ == catalog.particles@[j - 1].tex@);
            }
        }
    }
    out
}

/// A store that holds no texture is never ready for the common looks: a
/// build without embedded textures greys the glassy options out.
pub proof fn lemma_empty_store_not_ready(catalog: GlassyCatalog, store: SharedTextures)
    requires
        store.count() == 0,
    ensures
        !(forall|k: int| 0 <= k < spec_common_assets(catalog).len() ==> #[trigger] store.lookup(
            spec_common_assets(catalog)[k],
        ) is Some),
{
    assert(spec_common_assets(catalog)[0] == default_main_tex());
    assert(store.lookup(default_main_tex()) is None);
}

/// Whether every texture the common looks need is on hand; when not, the
/// glassy options are greyed out with a reason.
pub fn assets_ready(catalog: &GlassyCatalog, store: &SharedTextures) -> (r: bool)
    ensures
        r == (forall|k: int| 0 <= k < spec_common_assets(*catalog).len() ==> #[trigger] store.lookup(
            spec_common_assets(*catalog)[k],
        ) is Some),
{
    let names = common_assets(catalog);
    let ghost want = spec_common_assets(*catalog);
    let mut k: usize = 0;
    while k < names.len()
        invariant
            names@.map_values(|t: String| t@) == want,
            want == spec_common_assets(*catalog),
            k <= names@.len(),
            forall|j: int| 0 <= j < k ==> #[trigger] store.lookup(want[j]) is Some,
        decreases names.len() - k,
    {
        assert(names@[k as int]@ == want[k as int]);
        if !store.has(names[k].as_str()) {
            return false;
        }
        k = k + 1;
    }
    true
}

/// The game's `glass_type` of a look: 1 for common, 2 for hidden.
pub open spec fn glass_type(g: Glassy) -> u32 {
    match g {
        Glassy::Common { .. } => 1,
        Glassy::Hidden { .. } => 2,
    }
}

/// Encoding a look as `(glass_type, glass_value)` and decoding it gives the
/// look back, as long as the colour id fits in 20 bits and the particle id in 12.
pub proof fn lemma_glass_value_round_trip(g: Glassy)
    requires
        g matches Glassy::Common { color, particle } ==> color < 0x10_0000 && particle < 0x1000,
    ensures
        spec_from_glass_info(glass_type(g), spec_glass_value(g)) == Some(g),
{
    if let Glassy::Common { color, particle } = g {
        let v = (particle << 20u32) | color;
        assert(v & 0xf_ffffu32 == color && v >> 20u32 == particle) by (bit_vector)
            requires
                color < 0x10_0000u32,
                particle < 0x1000u32,
                v == (particle << 20u32) | color,
        ;
    }
}

proof fn lemma_decimal_plain(n: nat)
    ensures
        decimal(n).len() > 0,
        forall|k: int| 0 <= k < decimal(n).len() ==> #[trigger] is_digit(decimal(n)[k]),
        trim(decimal(n)) == decimal(n),
{
    lemma_decimal_digits(n);
    assert(is_digit(decimal(n)[0]));
    assert(is_digit(decimal(n).last()));
    lemma_trim_noop(decimal(n));
}

/// Writing a look into the roster and reading it back gives the same look,
/// for every look but the plain one (which is never written), provided a
/// hidden look is one the table knows.
pub proof fn lemma_config_round_trip(m: Mutation, cat: GlassyCatalog)
    requires
        cat.wf(),
        !m.spec_is_plain(),
        m.glassy matches Some(Glassy::Hidden { id }) ==> cat.hidden_index(id) is Some,
    ensures
        spec_to_config(m, cat) is Some,
        spec_from_config(spec_to_config(m, cat)->0, cat) == Some(m),
{
    let parts = config_parts(m, cat);
    assert(parts.len() >= 1);
    // No piece contains the separator.
    assert forall|i: int, j: int| 0 <= i < parts.len() && 0 <= j < parts[i].len() implies #[trigger] parts[i][j]
        != '+' by {
        if m.shiny && i == 0 {
            assert(parts[i] == shiny_word());
        } else {
            let g = m.glassy->0;
            let q = glassy_prefix() + spec_config_part(g, cat);
            assert(parts[i] == q);
            if j >= 3 {
                assert(q[j] == spec_config_part(g, cat)[j - 3]);
                lemma_part_chars(g, cat, j - 3);
            }
        }
    }
    lemma_split_join(parts, '+');
    let text = join(parts, seq!['+']);
    assert(split(text, '+') == parts);
    let start = Mutation { shiny: false, glassy: None };
    if m.shiny {
        lemma_trim_noop(shiny_word());
        let after_shiny = Mutation { shiny: true, glassy: None };
        assert(parts[0] == shiny_word());
        assert(read_parts(parts, start, cat) == read_parts(parts.drop_first(), after_shiny, cat));
        match m.glassy {
            None => {
                assert(parts.drop_first().len() == 0);
            },
            Some(g) => {
                assert(parts.drop_first() =~= seq![glassy_prefix() + spec_config_part(g, cat)]);
                lemma_glassy_piece(g, cat, parts.drop_first(), after_shiny);
            },
        }
    } else {
        let g = m.glassy->0;
        lemma_glassy_piece(g, cat, parts, start);
    }
}

proof fn lemma_part_chars(g: Glassy, cat: GlassyCatalog, j: int)
    requires
        cat.wf(),
        g matches Glassy::Hidden { id } ==> cat.hidden_index(id) is Some,
        0 <= j < spec_config_part(g, cat).len(),
    ensures
        spec_config_part(g, cat)[j] != '+',
{
    match g {
        Glassy::Common { color, particle } => {
            lemma_decimal_plain(particle as nat);
            lemma_decimal_plain(color as nat);
            let a = decimal(particle as nat);
            let cp = a + seq!['/'] + decimal(color as nat);
            if j < a.len() {
                assert(cp[j] == a[j]);
                assert(is_digit(a[j]));
            } else if j > a.len() {
                assert(cp[j] == decimal(color as nat)[j - a.len() - 1]);
                assert(is_digit(decimal(color as nat)[j - a.len() - 1]));
            }
        },
        Glassy::Hidden { id } => {
            let i = cat.hidden_index(id)->0;
            lemma_first_at(cat.hidden@, |h: HiddenGlass| h.id == id, 0);
            assert(plain_name(cat.hidden@[i].name@));
            assert(cat.hidden@[i].name@[j] != '+');
        },
    }
}

/// The glassy piece of a roster entry reads back as the look it was written from.
proof fn lemma_glassy_piece(g: Glassy, cat: GlassyCatalog, parts: Seq<Seq<char>>, acc: Mutation)
    requires
        cat.wf(),
        g matches Glassy::Hidden { id } ==> cat.hidden_index(id) is Some,
        parts == seq![glassy_prefix() + spec_config_part(g, cat)],
        acc.glassy is None,
    ensures
        read_parts(parts, acc, cat) == Some(Mutation { shiny: acc.shiny, glassy: Some(g) }),
{
    let cp = spec_config_part(g, cat);
    let q = glassy_prefix() + cp;
    // The piece has no white space at its ends.
    let trimmed_cp = trim(cp) == cp;
    match g {
        Glassy::Common { color, particle } => {
            lemma_decimal_plain(particle as nat);
            lemma_decimal_plain(color as nat);
            let a = decimal(particle as nat);
            let b = decimal(color as nat);
            assert(cp == a + seq!['/'] + b);
            assert(cp.last() == b.last());
            assert(is_digit(b.last()));
            assert(is_digit(cp[0])) by {
                assert(cp[0] == a[0]);
            }
            lemma_trim_noop(cp);
            // split at the first '/'
            assert forall|k: int| 0 <= k < a.len() implies cp[k] != '/' by {
                assert(cp[k] == a[k]);
                assert(is_digit(a[k]));
            }
            crate::text::lemma_find_from_is_pub(cp, '/', 0, a.len() as int);
            assert(cp.take(a.len() as int) == a);
            assert(cp.skip(a.len() as int + 1) == b);
            assert(split_once(cp, '/') == Some((a, b)));
            lemma_parse_decimal(color);
            lemma_parse_decimal(particle);
            assert(spec_parse_part(cp, cat) == Some(g));
        },
        Glassy::Hidden { id } => {
            let i = cat.hidden_index(id)->0;
            lemma_first_at(cat.hidden@, |h: HiddenGlass| h.id == id, 0);
            let name = cat.hidden@[i].name@;
            assert(cp == name);
            assert(plain_name(name));
            crate::text::lemma_no_sep_find_pub(name, '/');
            assert(split_once(cp, '/') is None);
            lemma_first_at(cat.hidden@, named(name), 0);
            assert(cat.hidden_name_index(name) is Some) by {
                if cat.hidden_name_index(name) is None {
                    assert(named(name)(cat.hidden@[i]));
                }
            }
            let k = cat.hidden_name_index(name)->0;
            assert(cat.hidden@[k].name@ == name);
            assert(k == i) by {
                if k < i {
                    assert(cat.hidden@[k].name@ != cat.hidden@[i].name@);
                } else if k > i {
                    assert(cat.hidden@[i].name@ != cat.hidden@[k].name@);
                }
            }
            assert(spec_parse_part(cp, cat) == Some(g));
        },
    }
    // trimming the whole piece is a no-op
    assert(q[0] == '炫');
    if cp.len() > 0 {
        lemma_trim_fixed_ends(cp);
        assert(q.last() == cp.last());
    } else {
        assert(q.last() == ':');
    }
    lemma_trim_noop(q);
    assert(q != shiny_word()) by {
        assert(q.len() != shiny_word().len() || q[0] != shiny_word()[0]);
    }
    assert(q.take(3) == glassy_prefix());
    assert(has_prefix(q, glassy_prefix()));
    assert(q.skip(3) == cp);
    assert(parts[0] == q);
    assert(parts.drop_first().len() == 0);
    assert(trim(q.skip(3)) == cp);
    let done = Mutation { shiny: acc.shiny, glassy: Some(g) };
    assert(read_parts(parts.drop_first(), done, cat) == Some(done));
}

proof fn lemma_find_range(s: Seq<char>, c: char, from: int)
    requires
        0 <= from,
    ensures
        find_from(s, c, from) matches Some(i) ==> from <= i < s.len() && s[i] == c,
    decreases s.len() - from,
{
    if from < s.len() && s[from] != c {
        lemma_find_range(s, c, from + 1);
    }
}


/// Only the plain look is labelled "原样"; a shiny look's label is "异色",
/// or starts with it when the look is glassy too; a glassy look that is not
/// shiny is labelled by its glassy part alone.
pub proof fn lemma_label_names_the_axes(m: Mutation, cat: GlassyCatalog)
    ensures
        !m.shiny && m.glassy is None ==> spec_mutation_label(m, cat) == seq!['原', '样'],
        m.shiny && m.glassy is None ==> spec_mutation_label(m, cat) == seq!['异', '色'],
        m.shiny ==> has_prefix(spec_mutation_label(m, cat), seq!['异', '色']),
        m.shiny && m.glassy is Some ==> spec_mutation_label(m, cat) == seq!['异', '色', ' ', '\u{b7}', ' ']
            + spec_glassy_label(m.glassy->0, cat),
        !m.shiny && m.glassy is Some ==> spec_mutation_label(m, cat) == spec_glassy_label(m.glassy->0, cat),
{
    let l = spec_mutation_label(m, cat);
    if m.shiny {
        assert(l.take(2) =~= seq!['异', '色']);
    }
}

/// A hidden look written by its bare id (`炫彩:<id>`) reads back as that
/// look whenever the table holds the id, unless some hidden look is itself
/// named like the id (a name match comes first).
pub proof fn lemma_hidden_look_by_id(cat: GlassyCatalog, id: u32, k: int)
    requires
        0 <= k < cat.hidden@.len(),
        cat.hidden@[k].id == id,
        forall|j: int| 0 <= j < cat.hidden@.len() ==> (#[trigger] cat.hidden@[j]).name@ != decimal(id as nat),
    ensures
        spec_from_config(seq!['炫', '彩', ':'] + decimal(id as nat), cat) == Some(
            Mutation { shiny: false, glassy: Some(Glassy::Hidden { id }) },
        ),
{
    let cp = decimal(id as nat);
    let q = glassy_prefix() + cp;
    assert(q == seq!['炫', '彩', ':'] + cp);
    lemma_decimal_plain(id as nat);
    // no separator anywhere
    assert forall|j: int| 0 <= j < q.len() implies q[j] != '+' by {
        if j >= 3 {
            assert(q[j] == cp[j - 3]);
            assert(is_digit(cp[j - 3]));
        }
    }
    crate::text::lemma_no_sep_find_pub(q, '+');
    assert(split(q, '+') == seq![q]);
    // the piece reads as the hidden look
    assert forall|j: int| 0 <= j < cp.len() implies cp[j] != '/' by {
        assert(is_digit(cp[j]));
    }
    crate::text::lemma_no_sep_find_pub(cp, '/');
    assert(split_once(cp, '/') is None);
    lemma_first_at(cat.hidden@, named(cp), 0);
    assert(cat.hidden_name_index(cp) is None) by {
        if let Some(i) = cat.hidden_name_index(cp) {
            assert(named(cp)(cat.hidden@[i]));
            assert(cat.hidden@[i].name@ != cp);
        }
    }
    lemma_parse_decimal(id);
    lemma_first_at(cat.hidden@, |h: HiddenGlass| h.id == id, 0);
    assert(cat.hidden_index(id) is Some) by {
        if cat.hidden_index(id) is None {
            assert((|h: HiddenGlass| h.id == id)(cat.hidden@[k]));
        }
    }
    let g = Glassy::Hidden { id };
    assert(spec_parse_part(cp, cat) == Some(g));
    // the whole piece: no white space at its ends, not the shiny word
    assert(q[0] == '炫');
    assert(q.last() == cp.last());
    lemma_trim_noop(q);
    assert(q != shiny_word()) by {
        assert(q.len() != shiny_word().len() || q[0] != shiny_word()[0]);
    }
    assert(q.take(3) == glassy_prefix());
    assert(q.skip(3) == cp);
    let parts = seq![q];
    let start = Mutation { shiny: false, glassy: None };
    let done = Mutation { shiny: false, glassy: Some(g) };
    assert(parts.drop_first().len() == 0);
    assert(read_parts(parts.drop_first(), done, cat) == Some(done));
    assert(read_parts(parts, start, cat) == Some(done));
}

} // verus!
