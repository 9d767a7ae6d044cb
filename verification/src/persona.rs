//! Faces and personalities.
//!
//! A *face* (眼神) is one cell of the 2 × 4 atlas the eye and mouth textures
//! share; a persona picks one, and animation curves switch cells by card
//! number. The fallback table [`face_for_clip`] is only for packs that carry
//! no face curves of their own.
use vstd::prelude::*;
use crate::text::{chars_of, same_chars};
use crate::glassy::{first_at, lemma_first_at, lemma_first_at_is};

verus! {

/// One cell of the face atlas.
#[derive(Debug, Clone, Copy, PartialEq, Eq)]
pub struct Expression {
    /// The name the game's configuration uses.
    pub name: &'static str,
    /// Column and row in the atlas.
    pub cell: (u32, u32),
}

/// Atlas size: two columns, four rows.
pub const FACE_COLS: u32 = 2;
pub const FACE_ROWS: u32 = 4;

pub open spec fn spec_default_face() -> Expression {
    Expression { name: "默认", cell: (0, 0) }
}

pub open spec fn spec_smile() -> Expression {
    Expression { name: "微笑", cell: (1, 0) }
}

pub open spec fn spec_surprised() -> Expression {
    Expression { name: "惊讶", cell: (0, 1) }
}

pub open spec fn spec_angry() -> Expression {
    Expression { name: "生气", cell: (1, 1) }
}

pub open spec fn spec_sleepy() -> Expression {
    Expression { name: "困倦", cell: (0, 2) }
}

pub open spec fn spec_crying() -> Expression {
    Expression { name: "哭哭", cell: (1, 2) }
}

pub open spec fn spec_clenched() -> Expression {
    Expression { name: "闭紧", cell: (0, 3) }
}

pub open spec fn spec_dizzy() -> Expression {
    Expression { name: "晕眩", cell: (1, 3) }
}

/// The default face, top-left cell; most personas use it.
pub fn default_face() -> (r: Expression)
    ensures
        r == spec_default_face(),
{
    Expression { name: "默认", cell: (0, 0) }
}

pub fn smile() -> (r: Expression)
    ensures
        r == spec_smile(),
{
    Expression { name: "微笑", cell: (1, 0) }
}

pub fn surprised() -> (r: Expression)
    ensures
        r == spec_surprised(),
{
    Expression { name: "惊讶", cell: (0, 1) }
}

pub fn angry() -> (r: Expression)
    ensures
        r == spec_angry(),
{
    Expression { name: "生气", cell: (1, 1) }
}

pub fn sleepy() -> (r: Expression)
    ensures
        r == spec_sleepy(),
{
    Expression { name: "困倦", cell: (0, 2) }
}

pub fn crying() -> (r: Expression)
    ensures
        r == spec_crying(),
{
    Expression { name: "哭哭", cell: (1, 2) }
}

/// Eyes squeezed shut ("><") with the mouth wide open.
pub fn clenched() -> (r: Expression)
    ensures
        r == spec_clenched(),
{
    Expression { name: "闭紧", cell: (0, 3) }
}

/// Spiral eyes; used by battle clips, not offered for picking.
pub fn dizzy() -> (r: Expression)
    ensures
        r == spec_dizzy(),
{
    Expression { name: "晕眩", cell: (1, 3) }
}

/// The seven named faces offered for picking (all but the dizzy one).
pub fn expressions() -> (r: Vec<Expression>)
    ensures
        r@ == seq![
            spec_default_face(),
            spec_smile(),
            spec_surprised(),
            spec_angry(),
            spec_sleepy(),
            spec_crying(),
            spec_clenched(),
        ],
{
    vec![default_face(), smile(), surprised(), angry(), sleepy(), crying(), clenched()]
}

/// Card number of a cell: `col + 2·row + 1`, but never 1 (card 1 is a
/// blink/placeholder, so the default face shows card 2).
pub open spec fn spec_card(e: Expression) -> int {
    let n = e.cell.0 + e.cell.1 * 2 + 1;
    if n < 2 { 2 } else { n }
}

/// The face a card number selects; card 1 and anything out of range mean
/// "the persona's own face" and give `None`.
pub open spec fn spec_from_card(card: u32) -> Option<Expression> {
    if card == 2 {
        Some(spec_smile())
    } else if card == 3 {
        Some(spec_surprised())
    } else if card == 4 {
        Some(spec_angry())
    } else if card == 5 {
        Some(spec_sleepy())
    } else if card == 6 {
        Some(spec_crying())
    } else if card == 7 {
        Some(spec_clenched())
    } else if card == 8 {
        Some(spec_dizzy())
    } else {
        None
    }
}

impl Expression {
    /// Which of the mesh-face cards to draw (1–8, but at least 2).
    pub fn card(&self) -> (r: u32)
        requires
            self.cell.0 + self.cell.1 * 2 + 1 <= u32::MAX,
        ensures
            r == spec_card(*self),
    {
        let n = self.cell.0 + self.cell.1 * 2 + 1;
        if n < 2 { 2 } else { n }
    }

    /// Card number (1..8) to face: the inverse of [`Expression::card`].
    pub fn from_card(card: u32) -> (r: Option<Expression>)
        ensures
            r == spec_from_card(card),
    {
        if card == 2 {
            Some(smile())
        } else if card == 3 {
            Some(surprised())
        } else if card == 4 {
            Some(angry())
        } else if card == 5 {
            Some(sleepy())
        } else if card == 6 {
            Some(crying())
        } else if card == 7 {
            Some(clenched())
        } else if card == 8 {
            Some(dizzy())
        } else {
            None
        }
    }
}

/// Cards 2 to 8 each select a face whose card is that number again, and
/// every other card selects none.
pub proof fn lemma_cards_round_trip(card: u32)
    ensures
        2 <= card <= 8 ==> (spec_from_card(card) matches Some(e) && spec_card(e) == card),
        !(2 <= card <= 8) ==> spec_from_card(card) is None,
{
}

/// Every face in the atlas has a card between 2 and 8; the default face
/// shares card 2 with the smile, and the other six faces have distinct cards.
pub proof fn lemma_cards_in_range(e: Expression)
    requires
        e.cell.0 < FACE_COLS,
        e.cell.1 < FACE_ROWS,
    ensures
        2 <= spec_card(e) <= 8,
        e.cell == (0u32, 0u32) || e.cell == (1u32, 0u32) ==> spec_card(e) == 2,
        spec_card(e) >= 3 ==> spec_card(e) == e.cell.0 + e.cell.1 * 2 + 1,
{
}

pub open spec fn word_anger() -> Seq<char> { seq!['A', 'n', 'g', 'e', 'r'] }
pub open spec fn word_sad() -> Seq<char> { seq!['S', 'a', 'd'] }
pub open spec fn word_fear() -> Seq<char> { seq!['F', 'e', 'a', 'r'] }
pub open spec fn word_shock() -> Seq<char> { seq!['S', 'h', 'o', 'c', 'k'] }
pub open spec fn word_happy() -> Seq<char> { seq!['H', 'a', 'p', 'p', 'y'] }
pub open spec fn word_relax() -> Seq<char> { seq!['R', 'e', 'l', 'a', 'x'] }
pub open spec fn word_show() -> Seq<char> { seq!['S', 'h', 'o', 'w'] }
pub open spec fn word_call_out() -> Seq<char> { seq!['C', 'a', 'l', 'l', 'O', 'u', 't'] }
pub open spec fn word_alert() -> Seq<char> { seq!['A', 'l', 'e', 'r', 't'] }
pub open spec fn word_sleep_start() -> Seq<char> { seq!['S', 'l', 'e', 'e', 'p', 'S', 't', 'a', 'r', 't'] }
pub open spec fn word_sleep_loop() -> Seq<char> { seq!['S', 'l', 'e', 'e', 'p', 'L', 'o', 'o', 'p'] }
pub open spec fn word_sleep_stand() -> Seq<char> { seq!['S', 'l', 'e', 'e', 'p', 'S', 't', 'a', 'n', 'd'] }
pub open spec fn word_sleep_end() -> Seq<char> { seq!['S', 'l', 'e', 'e', 'p', 'E', 'n', 'd'] }

/// The face a clip shows when the pack has no face curves: angry for Anger
/// and Alert, crying for Sad, clenched for Fear, surprised for Shock, smile
/// for Happy/Relax/Show/CallOut, sleepy for the sleep clips, none otherwise.
pub open spec fn spec_face_for_clip(clip: Seq<char>) -> Option<Expression> {
    if clip == word_anger() || clip == word_alert() {
        Some(spec_angry())
    } else if clip == word_sad() {
        Some(spec_crying())
    } else if clip == word_fear() {
        Some(spec_clenched())
    } else if clip == word_shock() {
        Some(spec_surprised())
    } else if clip == word_happy() || clip == word_relax() || clip == word_show() || clip == word_call_out() {
        Some(spec_smile())
    } else if clip == word_sleep_start() || clip == word_sleep_loop() || clip == word_sleep_stand() || clip
        == word_sleep_end() {
        Some(spec_sleepy())
    } else {
        None
    }
}

/// Fallback face of a clip, for packs without face curves.
pub fn face_for_clip(clip: &str) -> (r: Option<Expression>)
    ensures
        r == spec_face_for_clip(clip@),
{
    let c = chars_of(clip);
    let anger = vec!['A', 'n', 'g', 'e', 'r'];
    let sad = vec!['S', 'a', 'd'];
    let fear = vec!['F', 'e', 'a', 'r'];
    let shock = vec!['S', 'h', 'o', 'c', 'k'];
    let happy = vec!['H', 'a', 'p', 'p', 'y'];
    let relax = vec!['R', 'e', 'l', 'a', 'x'];
    let show = vec!['S', 'h', 'o', 'w'];
    let call_out = vec!['C', 'a', 'l', 'l', 'O', 'u', 't'];
    let alert = vec!['A', 'l', 'e', 'r', 't'];
    let sleep_start = vec!['S', 'l', 'e', 'e', 'p', 'S', 't', 'a', 'r', 't'];
    let sleep_loop = vec!['S', 'l', 'e', 'e', 'p', 'L', 'o', 'o', 'p'];
    let sleep_stand = vec!['S', 'l', 'e', 'e', 'p', 'S', 't', 'a', 'n', 'd'];
    let sleep_end = vec!['S', 'l', 'e', 'e', 'p', 'E', 'n', 'd'];
    assert(anger@ == word_anger() && sad@ == word_sad() && fear@ == word_fear() && shock@ == word_shock());
    assert(happy@ == word_happy() && relax@ == word_relax() && show@ == word_show() && call_out@ == word_call_out());
    assert(alert@ == word_alert() && sleep_start@ == word_sleep_start() && sleep_loop@ == word_sleep_loop());
    assert(sleep_stand@ == word_sleep_stand() && sleep_end@ == word_sleep_end());
    if same_chars(&c, &anger) || same_chars(&c, &alert) {
        Some(angry())
    } else if same_chars(&c, &sad) {
        Some(crying())
    } else if same_chars(&c, &fear) {
        Some(clenched())
    } else if same_chars(&c, &shock) {
        Some(surprised())
    } else if same_chars(&c, &happy) || same_chars(&c, &relax) || same_chars(&c, &show) || same_chars(
        &c,
        &call_out,
    ) {
        Some(smile())
    } else if same_chars(&c, &sleep_start) || same_chars(&c, &sleep_loop) || same_chars(&c, &sleep_stand)
        || same_chars(&c, &sleep_end) {
        Some(sleepy())
    } else {
        None
    }
}

/// A personality: how its pet behaves, and which face it wears.
///
/// The five tendencies are percentages of the baseline behaviour (100 = as
/// the baseline persona).
#[derive(Debug, Clone, Copy, PartialEq)]
pub struct Persona {
    /// The value stored in the roster; also the configuration key.
    pub id: &'static str,
    /// Display name, as the game's `NATURE_CONF` has it.
    pub name: &'static str,
    /// The game's nature id (`NATURE_CONF` row).
    pub nature_id: u32,
    /// One-line description for the settings window.
    pub about: &'static str,
    /// How fast sleepiness builds up.
    pub sleepy_pct: u32,
    /// How fast boredom builds up.
    pub bored_pct: u32,
    /// How likely a bored pet emotes instead of walking.
    pub emote_pct: u32,
    /// Threshold for breaking into a run (smaller runs sooner).
    pub run_pct: u32,
    /// Distance at which it notices another pet.
    pub social_pct: u32,
    /// The face it wears.
    pub face: Expression,
    /// The emote it does when idle, if it has a favourite.
    pub default_emote: Option<&'static str>,
    /// The emotes it likes (clip names); empty means no preference.
    pub likes: &'static [&'static str],
}

/// The emote clips a pet can play.
pub open spec fn spec_emotes() -> Seq<&'static str> {
    seq!["Happy", "Relax", "Show", "Anger", "Sad", "Fear"]
}

/// The emote clips, in the order the settings window lists them.
pub fn emotes() -> (r: Vec<&'static str>)
    ensures
        r@ == spec_emotes(),
{
    vec!["Happy", "Relax", "Show", "Anger", "Sad", "Fear"]
}

pub open spec fn spec_all() -> Seq<Persona> {
    seq![
        Persona { id: "peaceful", name: "平和", nature_id: 28, about: "基线性格:不吵不闹,该睡就睡",
            sleepy_pct: 100, bored_pct: 100, emote_pct: 100, run_pct: 100, social_pct: 100,
            face: spec_default_face(), default_emote: None, likes: &[] },
        Persona { id: "playful", name: "调皮", nature_id: 3, about: "闲不住,爱往人身边凑,稍远就跑起来",
            sleepy_pct: 60, bored_pct: 200, emote_pct: 60, run_pct: 60, social_pct: 140,
            face: spec_default_face(), default_emote: None, likes: &["Happy"] },
        Persona { id: "naive", name: "天真", nature_id: 7, about: "爱显摆,笑得多",
            sleepy_pct: 80, bored_pct: 120, emote_pct: 160, run_pct: 100, social_pct: 130,
            face: spec_smile(), default_emote: Some("Happy"), likes: &["Show", "Anger"] },
        Persona { id: "indolent", name: "懒散", nature_id: 8, about: "很快就困,懒得走远,多半在原地待着",
            sleepy_pct: 250, bored_pct: 40, emote_pct: 140, run_pct: 180, social_pct: 80,
            face: spec_sleepy(), default_emote: Some("Relax"), likes: &["Fear"] },
        Persona { id: "calm", name: "冷静", nature_id: 14, about: "睡得最多,很少做表情",
            sleepy_pct: 280, bored_pct: 60, emote_pct: 50, run_pct: 160, social_pct: 60,
            face: spec_default_face(), default_emote: None, likes: &["Relax"] },
        Persona { id: "timid", name: "胆小", nature_id: 21, about: "怕生,爱躲远点,一惊一乍",
            sleepy_pct: 100, bored_pct: 110, emote_pct: 120, run_pct: 70, social_pct: 40,
            face: spec_crying(), default_emote: Some("Sad"), likes: &["Fear"] },
        Persona { id: "impatient", name: "急躁", nature_id: 22, about: "坐不住,脾气也急",
            sleepy_pct: 70, bored_pct: 180, emote_pct: 140, run_pct: 50, social_pct: 110,
            face: spec_angry(), default_emote: Some("Anger"), likes: &["Anger"] },
    ]
}

/// All personas; the first is the default, the order is the picker's.
pub fn all() -> (r: Vec<Persona>)
    ensures
        r@ == spec_all(),
{
    let r = vec![
        Persona { id: "peaceful", name: "平和", nature_id: 28, about: "基线性格:不吵不闹,该睡就睡",
            sleepy_pct: 100, bored_pct: 100, emote_pct: 100, run_pct: 100, social_pct: 100,
            face: default_face(), default_emote: None, likes: &[] },
        Persona { id: "playful", name: "调皮", nature_id: 3, about: "闲不住,爱往人身边凑,稍远就跑起来",
            sleepy_pct: 60, bored_pct: 200, emote_pct: 60, run_pct: 60, social_pct: 140,
            face: default_face(), default_emote: None, likes: &["Happy"] },
        Persona { id: "naive", name: "天真", nature_id: 7, about: "爱显摆,笑得多",
            sleepy_pct: 80, bored_pct: 120, emote_pct: 160, run_pct: 100, social_pct: 130,
            face: smile(), default_emote: Some("Happy"), likes: &["Show", "Anger"] },
        Persona { id: "indolent", name: "懒散", nature_id: 8, about: "很快就困,懒得走远,多半在原地待着",
            sleepy_pct: 250, bored_pct: 40, emote_pct: 140, run_pct: 180, social_pct: 80,
            face: sleepy(), default_emote: Some("Relax"), likes: &["Fear"] },
        Persona { id: "calm", name: "冷静", nature_id: 14, about: "睡得最多,很少做表情",
            sleepy_pct: 280, bored_pct: 60, emote_pct: 50, run_pct: 160, social_pct: 60,
            face: default_face(), default_emote: None, likes: &["Relax"] },
        Persona { id: "timid", name: "胆小", nature_id: 21, about: "怕生,爱躲远点,一惊一乍",
            sleepy_pct: 100, bored_pct: 110, emote_pct: 120, run_pct: 70, social_pct: 40,
            face: crying(), default_emote: Some("Sad"), likes: &["Fear"] },
        Persona { id: "impatient", name: "急躁", nature_id: 22, about: "坐不住,脾气也急",
            sleepy_pct: 70, bored_pct: 180, emote_pct: 140, run_pct: 50, social_pct: 110,
            face: angry(), default_emote: Some("Anger"), likes: &["Anger"] },
    ];
    assert(r@ =~= spec_all());
    r
}

impl Default for Persona {
    /// The baseline persona; rosters that name none land here.
    fn default() -> (r: Self)
        ensures
            r == spec_all()[0],
    {
        let a = all();
        a[0]
    }
}

/// `p` is the persona `id` refers to, by id or by display name.
pub open spec fn answers_to(id: Seq<char>) -> spec_fn(Persona) -> bool {
    |p: Persona| p.id@ == id || p.name@ == id
}

/// Every persona is found again by its roster id and by its display name:
/// no id or name of one persona is the id or name of another.
pub proof fn lemma_personas_round_trip(k: int)
    requires
        0 <= k < spec_all().len(),
    ensures
        first_at(spec_all(), answers_to(spec_all()[k].id@), 0) == Some(k),
        first_at(spec_all(), answers_to(spec_all()[k].name@), 0) == Some(k),
{
    reveal_strlit("peaceful");
    reveal_strlit("playful");
    reveal_strlit("naive");
    reveal_strlit("indolent");
    reveal_strlit("calm");
    reveal_strlit("timid");
    reveal_strlit("impatient");
    reveal_strlit("平和");
    reveal_strlit("调皮");
    reveal_strlit("天真");
    reveal_strlit("懒散");
    reveal_strlit("冷静");
    reveal_strlit("胆小");
    reveal_strlit("急躁");
    let all = spec_all();
    let ids = seq![(8int, 'p'), (7int, 'p'), (5int, 'n'), (8int, 'i'), (4int, 'c'), (5int, 't'), (9int, 'i')];
    let names = seq!['平', '调', '天', '懒', '冷', '胆', '急'];
    assert forall|i: int| 0 <= i < 7 implies all[i].id@.len() == (#[trigger] ids[i]).0 && all[i].id@[0]
        == ids[i].1 && all[i].name@.len() == 2 && all[i].name@[0] == names[i] by {
        assert(i == 0 || i == 1 || i == 2 || i == 3 || i == 4 || i == 5 || i == 6);
    }
    let id = all[k].id@;
    let name = all[k].name@;
    assert(ids[k] == ids[k]);
    assert forall|j: int| 0 <= j < k implies !answers_to(id)(#[trigger] all[j]) by {
        assert(ids[j] == ids[j]);
        assert(j == 0 || j == 1 || j == 2 || j == 3 || j == 4 || j == 5);
        assert(k == 1 || k == 2 || k == 3 || k == 4 || k == 5 || k == 6);
        if all[j].id@ == id {
            assert(all[j].id@.len() == id.len() && all[j].id@[0] == id[0]);
        }
        if all[j].name@ == id {
            assert(all[j].name@.len() == id.len());
        }
    }
    lemma_first_at_is(all, answers_to(id), 0, k);
    assert forall|j: int| 0 <= j < k implies !answers_to(name)(#[trigger] all[j]) by {
        assert(ids[j] == ids[j]);
        assert(j == 0 || j == 1 || j == 2 || j == 3 || j == 4 || j == 5);
        assert(k == 1 || k == 2 || k == 3 || k == 4 || k == 5 || k == 6);
        if all[j].id@ == name {
            assert(all[j].id@.len() == name.len());
        }
        if all[j].name@ == name {
            assert(all[j].name@[0] == name[0]);
        }
    }
    lemma_first_at_is(all, answers_to(name), 0, k);
}

/// The emotes added one by one, each only if the pool lacks it.
pub open spec fn add_likes(pool: Seq<&'static str>, likes: Seq<&'static str>) -> Seq<&'static str>
    decreases likes.len(),
{
    if likes.len() == 0 {
        pool
    } else {
        let next = if exists|k: int| 0 <= k < pool.len() && #[trigger] pool[k]@ == likes[0]@ {
            pool
        } else {
            pool.push(likes[0])
        };
        add_likes(next, likes.drop_first())
    }
}

/// The emote pool of a persona: every emote when it has neither a favourite
/// nor likes; otherwise its favourite first, then its likes not yet in the pool.
pub open spec fn spec_emote_pool(p: Persona) -> Seq<&'static str> {
    if p.default_emote is None && p.likes@.len() == 0 {
        spec_emotes()
    } else {
        let start: Seq<&'static str> = match p.default_emote {
            Some(e) => seq![e],
            None => Seq::empty(),
        };
        add_likes(start, p.likes@)
    }
}

proof fn lemma_add_likes(pool: Seq<&'static str>, likes: Seq<&'static str>)
    ensures
        add_likes(pool, likes).len() >= pool.len(),
        forall|i: int| 0 <= i < pool.len() ==> #[trigger] add_likes(pool, likes)[i] == pool[i],
        forall|i: int|
            0 <= i < add_likes(pool, likes).len() ==> pool.contains(#[trigger] add_likes(pool, likes)[i])
                || likes.contains(add_likes(pool, likes)[i]),
    decreases likes.len(),
{
    if likes.len() > 0 {
        let next = if exists|k: int| 0 <= k < pool.len() && #[trigger] pool[k]@ == likes[0]@ {
            pool
        } else {
            pool.push(likes[0])
        };
        let rest = likes.drop_first();
        lemma_add_likes(next, rest);
        let r = add_likes(pool, likes);
        assert(r == add_likes(next, rest));
        assert forall|i: int| 0 <= i < r.len() implies pool.contains(#[trigger] r[i]) || likes.contains(r[i]) by {
            if next.contains(r[i]) {
                let j = choose|j: int| 0 <= j < next.len() && next[j] == r[i];
                if j < pool.len() {
                    assert(pool[j] == r[i]);
                } else {
                    assert(likes[0] == r[i]);
                }
            } else {
                let j = choose|j: int| 0 <= j < rest.len() && rest[j] == r[i];
                assert(likes[j + 1] == r[i]);
            }
        }
    }
}

/// A persona only ever plays emotes that exist, and its favourite one is
/// the first of its pool.
pub proof fn lemma_pools_use_known_emotes(k: int)
    requires
        0 <= k < spec_all().len(),
    ensures
        forall|i: int|
            0 <= i < spec_emote_pool(spec_all()[k]).len() ==> spec_emotes().contains(
                #[trigger] spec_emote_pool(spec_all()[k])[i],
            ),
        spec_all()[k].default_emote matches Some(e) ==> spec_emote_pool(spec_all()[k]).len() > 0
            && spec_emote_pool(spec_all()[k])[0] == e,
{
    let p = spec_all()[k];
    let known = spec_emotes();
    assert(known[0] == "Happy" && known[1] == "Relax" && known[2] == "Show");
    assert(known[3] == "Anger" && known[4] == "Sad" && known[5] == "Fear");
    assert(k == 0 || k == 1 || k == 2 || k == 3 || k == 4 || k == 5 || k == 6);
    let start: Seq<&'static str> = match p.default_emote {
        Some(e) => seq![e],
        None => Seq::empty(),
    };
    lemma_add_likes(start, p.likes@);
    assert(forall|x: &'static str| start.contains(x) ==> known.contains(x));
    assert(forall|x: &'static str| p.likes@.contains(x) ==> known.contains(x));
}

impl Persona {
    /// Finds a persona by roster id or by display name; unknown ids fall
    /// back to the default persona instead of failing.
    pub fn by_id(id: &str) -> (r: Persona)
        ensures
            r == (match first_at(spec_all(), answers_to(id@), 0) {
                Some(i) => spec_all()[i],
                None => spec_all()[0],
            }),
    {
        let table = all();
        let want = chars_of(id);
        proof {
            lemma_first_at(spec_all(), answers_to(id@), 0);
        }
        let mut i: usize = 0;
        while i < table.len()
            invariant
                table@ == spec_all(),
                want@ == id@,
                i <= table@.len(),
                forall|j: int| 0 <= j < i ==> !answers_to(id@)(#[trigger] table@[j]),
            decreases table.len() - i,
        {
            let p = table[i];
            let pid = chars_of(p.id);
            let pname = chars_of(p.name);
            if same_chars(&pid, &want) || same_chars(&pname, &want) {
                proof {
                    lemma_first_at_is(spec_all(), answers_to(id@), 0, i as int);
                }
                return p;
            }
            i = i + 1;
        }
        proof {
            if let Some(k) = first_at(spec_all(), answers_to(id@), 0) {
                assert(!answers_to(id@)(table@[k]));
            }
        }
        table[0]
    }

    /// The id to store in the roster; the default persona is not stored.
    pub fn saved_id(&self) -> (r: Option<String>)
        ensures
            r is None <==> self.id@ == spec_all()[0].id@,
            r matches Some(s) ==> s@ == self.id@,
    {
        let mine = chars_of(self.id);
        let base = chars_of(Persona::default().id);
        if same_chars(&mine, &base) {
            None
        } else {
            Some(crate::text::string_of(&mine))
        }
    }

    /// The emotes this persona plays, its favourite first.
    pub fn emote_pool(&self) -> (r: Vec<&'static str>)
        ensures
            r@ == spec_emote_pool(*self),
    {
        if self.default_emote.is_none() && self.likes.len() == 0 {
            return emotes();
        }
        let mut pool: Vec<&'static str> = Vec::new();
        if let Some(e) = self.default_emote {
            pool.push(e);
        }
        let ghost start = pool@;
        let mut i: usize = 0;
        assert(self.likes@.skip(0) == self.likes@);
        while i < self.likes.len()
            invariant
                i <= self.likes@.len(),
                add_likes(start, self.likes@) == add_likes(pool@, self.likes@.skip(i as int)),
            decreases self.likes.len() - i,
        {
            let name = self.likes[i];
            let ghost rest = self.likes@.skip(i as int);
            assert(rest[0] == name);
            assert(rest.drop_first() == self.likes@.skip(i + 1));
            let target = chars_of(name);
            let mut found = false;
            let mut k: usize = 0;
            while k < pool.len()
                invariant
                    k <= pool@.len(),
                    target@ == name@,
                    found <==> exists|j: int| 0 <= j < k && #[trigger] pool@[j]@ == name@,
                decreases pool.len() - k,
            {
                let other = chars_of(pool[k]);
                if same_chars(&other, &target) {
                    found = true;
                }
                k = k + 1;
            }
            if !found {
                pool.push(name);
            }
            i = i + 1;
        }
        assert(self.likes@.skip(self.likes@.len() as int) =~= Seq::<&'static str>::empty());
        pool
    }
}


/// No two entries of `s` spell the same emote.
pub open spec fn no_repeats(s: Seq<&'static str>) -> bool {
    forall|i: int, j: int| 0 <= i < j < s.len() ==> (#[trigger] s[i])@ != (#[trigger] s[j])@
}

proof fn lemma_add_likes_no_repeats(pool: Seq<&'static str>, likes: Seq<&'static str>)
    requires
        no_repeats(pool),
    ensures
        no_repeats(add_likes(pool, likes)),
        forall|i: int| 0 <= i < likes.len() ==> exists|k: int|
            0 <= k < add_likes(pool, likes).len() && (#[trigger] add_likes(pool, likes)[k])@ == (#[trigger] likes[i])@,
    decreases likes.len(),
{
    if likes.len() > 0 {
        let present = exists|k: int| 0 <= k < pool.len() && #[trigger] pool[k]@ == likes[0]@;
        let next = if present { pool } else { pool.push(likes[0]) };
        if !present {
            assert forall|i: int, j: int| 0 <= i < j < next.len() implies (#[trigger] next[i])@ != (#[trigger] next[j])@ by {
                if j == pool.len() {
                    assert(next[i] == pool[i]);
                    assert(!(pool[i]@ == likes[0]@));
                } else {
                    assert(next[i] == pool[i] && next[j] == pool[j]);
                }
            }
        }
        let rest = likes.drop_first();
        lemma_add_likes_no_repeats(next, rest);
        lemma_add_likes(next, rest);
        let r = add_likes(pool, likes);
        assert(r == add_likes(next, rest));
        assert forall|i: int| 0 <= i < likes.len() implies exists|k: int|
            0 <= k < r.len() && (#[trigger] r[k])@ == (#[trigger] likes[i])@ by {
            if i == 0 {
                if present {
                    let k = choose|k: int| 0 <= k < pool.len() && #[trigger] pool[k]@ == likes[0]@;
                    assert(r[k] == next[k]);
                } else {
                    assert(r[pool.len() as int] == next[pool.len() as int]);
                }
            } else {
                assert(likes[i] == rest[i - 1]);
            }
        }
    }
}

/// An emote pool never holds an emote twice, and it holds every emote the
/// persona likes, with its favourite first.
pub proof fn lemma_emote_pool_shape(p: Persona)
    ensures
        no_repeats(spec_emote_pool(p)),
        forall|i: int| 0 <= i < p.likes@.len() ==> exists|k: int|
            0 <= k < spec_emote_pool(p).len() && (#[trigger] spec_emote_pool(p)[k])@ == (#[trigger] p.likes@[i])@,
        p.default_emote matches Some(e) ==> spec_emote_pool(p).len() > 0 && spec_emote_pool(p)[0] == e,
{
    if p.default_emote is None && p.likes@.len() == 0 {
        reveal_strlit("Happy");
        reveal_strlit("Relax");
        reveal_strlit("Show");
        reveal_strlit("Anger");
        reveal_strlit("Sad");
        reveal_strlit("Fear");
        let e = spec_emotes();
        assert forall|i: int, j: int| 0 <= i < j < e.len() implies (#[trigger] e[i])@ != (#[trigger] e[j])@ by {
            assert(e[i]@.len() != e[j]@.len() || e[i]@[0] != e[j]@[0]);
        }
    } else {
        let start: Seq<&'static str> = match p.default_emote {
            Some(e) => seq![e],
            None => Seq::empty(),
        };
        lemma_add_likes_no_repeats(start, p.likes@);
        lemma_add_likes(start, p.likes@);
    }
}

} // verus!
