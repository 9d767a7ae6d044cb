//! The tray icon's menu as plain data: which entries it shows, in which
//! order, and which [`Control`] each one sends. The desktop shell turns
//! these entries into its own menu items.
use vstd::prelude::*;
use crate::control::{Control, TrayPet};
use crate::text::decimal;

verus! {

/// The "add a pet" menu lists at most this many packs on one level; longer
/// lists are cut into sub-menus of this size.
pub const ADD_CHUNK: usize = 24;

/// One entry of the tray menu.
#[derive(Debug)]
pub enum MenuEntry {
    /// A check box.
    Check { label: String, checked: bool, action: Control },
    /// A plain entry with an icon name (empty for none).
    Item { label: String, icon: String, action: Control },
    /// One radio choice per form of the pet in roster slot `slot`; picking
    /// form `f` sends `Control::SwitchForm { slot, form: f }`.
    Forms { slot: usize, selected: usize, options: Vec<String> },
    /// A sub-menu.
    Sub { label: String, icon: String, items: Vec<MenuEntry> },
    Separator,
}

pub open spec fn is_check(e: MenuEntry, label: Seq<char>, checked: bool, action: Control) -> bool {
    e matches MenuEntry::Check { label: l, checked: c, action: a } && l@ == label && c == checked && a
        == action
}

pub open spec fn is_item(e: MenuEntry, label: Seq<char>, icon: Seq<char>, action: Control) -> bool {
    e matches MenuEntry::Item { label: l, icon: i, action: a } && l@ == label && i@ == icon && a == action
}

pub open spec fn is_sub(e: MenuEntry, label: Seq<char>, icon: Seq<char>) -> bool {
    e matches MenuEntry::Sub { label: l, icon: i, .. } && l@ == label && i@ == icon
}

/// The entries of a sub-menu (none for other entries).
pub open spec fn sub_items(e: MenuEntry) -> Seq<MenuEntry> {
    match e {
        MenuEntry::Sub { items, .. } => items@,
        _ => Seq::empty(),
    }
}

pub open spec fn string_views(v: Seq<String>) -> Seq<Seq<char>> {
    v.map_values(|s: String| s@)
}

/// The sub-menu of the pet in roster slot `slot`: a choice of form when
/// its chain has more than one, then "take it off the stage".
pub open spec fn is_pet_menu(e: MenuEntry, pet: TrayPet, slot: usize) -> bool {
    let items = sub_items(e);
    &&& is_sub(e, pet.name@, Seq::empty())
    &&& if pet.forms@.len() > 1 {
        &&& items.len() == 3
        &&& items[0] matches MenuEntry::Forms { slot: s, selected, options } && s == slot && selected
            == pet.current_form && string_views(options@) == string_views(pet.forms@)
        &&& items[1] is Separator
        &&& is_item(items[2], "撤下"@, "list-remove"@, Control::RemovePet(slot))
    } else {
        &&& items.len() == 1
        &&& is_item(items[0], "撤下"@, "list-remove"@, Control::RemovePet(slot))
    }
}

/// Entry `i` of a flat "add a pet" list: the pack's name, sending
/// `AddPet(i)`.
pub open spec fn is_add_item(e: MenuEntry, available: Seq<String>, i: int) -> bool {
    is_item(e, available[i]@, Seq::empty(), Control::AddPet(i as usize))
}

pub open spec fn chunk_count(n: int) -> int {
    (n + ADD_CHUNK - 1) / ADD_CHUNK as int
}

/// Label of a chunk: its first and last pack name.
pub open spec fn chunk_label(first: Seq<char>, last: Seq<char>) -> Seq<char> {
    first + " … "@ + last
}

/// The contents of "add a pet": the packs themselves when there are at
/// most [`ADD_CHUNK`], else one sub-menu per run of [`ADD_CHUNK`] packs,
/// labelled by its first and last name. Either way the entry for pack `i`
/// sends `AddPet(i)`.
pub open spec fn is_add_menu(items: Seq<MenuEntry>, available: Seq<String>) -> bool {
    let n = available.len() as int;
    if n <= ADD_CHUNK {
        &&& items.len() == n
        &&& forall|i: int| 0 <= i < n ==> #[trigger] is_add_item(items[i], available, i)
    } else {
        &&& items.len() == chunk_count(n)
        &&& forall|c: int|
            0 <= c < items.len() ==> {
                let base = c * ADD_CHUNK;
                let end = if base + ADD_CHUNK <= n { base + ADD_CHUNK } else { n };
                &&& is_sub(
                    #[trigger] items[c],
                    chunk_label(available[base]@, available[end - 1]@),
                    Seq::empty(),
                )
                &&& sub_items(items[c]).len() == end - base
                &&& forall|i: int|
                    0 <= i < end - base ==> is_add_item(#[trigger] sub_items(items[c])[i], available, base + i)
            }
    }
}

/// The whole menu: pass-through check box, recall, the voice check box
/// when there is an audio device, a separator, one sub-menu per pet on
/// stage, "add a pet" when there are packs to add, a separator and quit.
pub open spec fn is_menu(
    r: Seq<MenuEntry>,
    passthrough: bool,
    voice: Option<bool>,
    pets: Seq<TrayPet>,
    available: Seq<String>,
) -> bool {
    let base: int = if voice is Some { 3 } else { 2 };
    let after = base + 1 + pets.len();
    let add: int = if available.len() > 0 { 1 } else { 0 };
    &&& r.len() == after + add + 2
    &&& is_check(r[0], "鼠标穿透"@, passthrough, Control::TogglePassthrough)
    &&& is_item(r[1], "召回宠物"@, "go-home"@, Control::Recall)
    &&& (voice matches Some(on) ==> is_check(r[2], "叫声"@, on, Control::ToggleMute))
    &&& r[base] is Separator
    &&& forall|s: int| 0 <= s < pets.len() ==> is_pet_menu(#[trigger] r[base + 1 + s], pets[s], s as usize)
    &&& (available.len() > 0 ==> is_sub(r[after], "加一只"@, "list-add"@) && is_add_menu(
        sub_items(r[after]),
        available,
    ))
    &&& r[after + add] is Separator
    &&& is_item(r[after + add + 1], "退出"@, "application-exit"@, Control::Quit)
}

fn copy_strings(v: &Vec<String>) -> (r: Vec<String>)
    ensures
        r@ == v@,
{
    let mut out: Vec<String> = Vec::new();
    let mut i: usize = 0;
    while i < v.len()
        invariant
            i <= v@.len(),
            out@ == v@.take(i as int),
        decreases v.len() - i,
    {
        out.push(v[i].clone());
        assert(v@.take(i + 1) == v@.take(i as int).push(v@[i as int]));
        i = i + 1;
    }
    assert(v@.take(v@.len() as int) == v@);
    out
}

fn item(label: &str, icon: &str, action: Control) -> (r: MenuEntry)
    ensures
        is_item(r, label@, icon@, action),
{
    MenuEntry::Item { label: label.to_owned(), icon: icon.to_owned(), action }
}

/// The sub-menu of one pet on stage.
pub fn pet_menu(pet: &TrayPet, slot: usize) -> (r: MenuEntry)
    ensures
        is_pet_menu(r, *pet, slot),
{
    let mut items: Vec<MenuEntry> = Vec::new();
    if pet.forms.len() > 1 {
        let options = copy_strings(&pet.forms);
        assert(string_views(options@) == string_views(pet.forms@));
        items.push(MenuEntry::Forms { slot, selected: pet.current_form, options });
        items.push(MenuEntry::Separator);
    }
    items.push(item("撤下", "list-remove", Control::RemovePet(slot)));
    let none = "".to_owned();
    proof {
        reveal_strlit("");
    }
    assert(none@ == Seq::<char>::empty());
    let name = pet.name.clone();
    let r = MenuEntry::Sub { label: name, icon: none, items };
    assert(sub_items(r) == items@);
    r
}

/// What "add a pet" holds for the packs `available` (index = argument of
/// `AddPet`).
pub fn add_menu(available: &Vec<String>) -> (r: Vec<MenuEntry>)
    ensures
        is_add_menu(r@, available@),
{
    let n = available.len();
    let mut out: Vec<MenuEntry> = Vec::new();
    if n <= ADD_CHUNK {
        let mut i: usize = 0;
        while i < n
            invariant
                n == available@.len(),
                i <= n,
                out@.len() == i,
                forall|j: int| 0 <= j < i ==> #[trigger] is_add_item(out@[j], available@, j),
            decreases n - i,
        {
            let name = available[i].clone();
            let none = "".to_owned();
            proof {
                reveal_strlit("");
            }
            assert(name@ == available@[i as int]@);
            assert(none@ == Seq::<char>::empty());
            out.push(MenuEntry::Item { label: name, icon: none, action: Control::AddPet(i) });
            assert(is_add_item(out@[i as int], available@, i as int));
            i = i + 1;
        }
        return out;
    }
    let count = n / ADD_CHUNK + if n % ADD_CHUNK == 0 { 0 } else { 1 };
    assert(count == chunk_count(n as int)) by (nonlinear_arith)
        requires
            count == n / 24 + if n % 24 == 0 { 0int } else { 1int },
            n > 24,
    ;
    let mut c: usize = 0;
    while c < count
        invariant
            n == available@.len(),
            n > ADD_CHUNK,
            count == chunk_count(n as int),
            c <= count,
            out@.len() == c,
            forall|k: int|
                0 <= k < out@.len() ==> {
                    let b = k * ADD_CHUNK;
                    let end = if b + ADD_CHUNK <= n { b + ADD_CHUNK } else { n as int };
                    &&& is_sub(
                        #[trigger] out@[k],
                        chunk_label(available@[b]@, available@[end - 1]@),
                        Seq::empty(),
                    )
                    &&& sub_items(out@[k]).len() == end - b
                    &&& forall|i: int|
                        0 <= i < end - b ==> is_add_item(#[trigger] sub_items(out@[k])[i], available@, b + i)
                },
        decreases count - c,
    {
        assert(c * 24 < n) by (nonlinear_arith)
            requires
                c < count,
                count == (n + 23) / 24,
        ;
        let base = c * ADD_CHUNK;
        let end = if n - base >= ADD_CHUNK { base + ADD_CHUNK } else { n };
        let mut items: Vec<MenuEntry> = Vec::new();
        let mut i: usize = base;
        while i < end
            invariant
                n == available@.len(),
                base < end <= n,
                base <= i <= end,
                items@.len() == i - base,
                forall|j: int| 0 <= j < i - base ==> #[trigger] is_add_item(items@[j], available@, base + j),
            decreases end - i,
        {
            let name = available[i].clone();
            let none = "".to_owned();
            proof {
                reveal_strlit("");
            }
            assert(name@ == available@[i as int]@);
            assert(none@ == Seq::<char>::empty());
            items.push(MenuEntry::Item { label: name, icon: none, action: Control::AddPet(i) });
            assert(is_add_item(items@[i - base], available@, base + (i - base)));
            i = i + 1;
        }
        let first = available[base].clone();
        let last = available[end - 1].clone();
        let label = crate::text::concat3(first.as_str(), " … ", last.as_str());
        let none = "".to_owned();
        proof {
            reveal_strlit("");
        }
        let ghost sub = items@;
        assert(none@ == Seq::<char>::empty());
        assert(label@ == chunk_label(available@[base as int]@, available@[end - 1]@));
        out.push(MenuEntry::Sub { label, icon: none, items });
        proof {
            let k = c as int;
            assert(k * ADD_CHUNK == base);
            assert(sub_items(out@[k]) == sub);
            assert forall|i: int| 0 <= i < end - base implies is_add_item(
                #[trigger] sub_items(out@[k])[i],
                available@,
                base + i,
            ) by {
                assert(is_add_item(sub[i], available@, base + i));
            }
        }
        c = c + 1;
    }
    out
}

/// The tray's tooltip title: the program, and who is on stage.
pub open spec fn spec_title(pets: Seq<TrayPet>) -> Seq<char> {
    if pets.len() == 0 {
        "rocom-pets"@
    } else if pets.len() == 1 {
        "rocom-pets — "@ + pets[0].name@
    } else {
        "rocom-pets — "@ + pets[0].name@ + " 等 "@ + decimal(pets.len()) + " 只"@
    }
}

/// The tray's title; see [`spec_title`].
pub fn title(pets: &Vec<TrayPet>) -> (r: String)
    ensures
        r@ == spec_title(pets@),
{
    if pets.len() == 0 {
        return "rocom-pets".to_owned();
    }
    let head = crate::text::concat3("rocom-pets — ", pets[0].name.as_str(), "");
    if pets.len() == 1 {
        proof {
            reveal_strlit("");
        }
        assert(head@ =~= "rocom-pets — "@ + pets@[0].name@);
        return head;
    }
    let count = crate::text::string_of(&crate::text::decimal_usize(pets.len()));
    let tail = crate::text::concat3(" 等 ", count.as_str(), " 只");
    let r = crate::text::concat3(head.as_str(), tail.as_str(), "");
    proof {
        reveal_strlit("");
    }
    assert(r@ =~= "rocom-pets — "@ + pets@[0].name@ + " 等 "@ + decimal(pets@.len()) + " 只"@);
    r
}

/// The tray menu for the current state: pass-through on or off, the voice
/// (`None`: no audio device), the pets on stage (index = roster slot) and
/// the packs that can be added (index = argument of `AddPet`).
pub fn menu(passthrough: bool, voice: Option<bool>, pets: &Vec<TrayPet>, available: &Vec<String>) -> (r: Vec<
    MenuEntry,
>)
    ensures
        is_menu(r@, passthrough, voice, pets@, available@),
{
    let mut items: Vec<MenuEntry> = Vec::new();
    items.push(MenuEntry::Check {
        label: "鼠标穿透".to_owned(),
        checked: passthrough,
        action: Control::TogglePassthrough,
    });
    items.push(item("召回宠物", "go-home", Control::Recall));
    if let Some(on) = voice {
        items.push(MenuEntry::Check { label: "叫声".to_owned(), checked: on, action: Control::ToggleMute });
    }
    items.push(MenuEntry::Separator);
    let ghost base: int = if voice is Some { 3 } else { 2 };
    assert(items@.len() == base + 1);
    let mut s: usize = 0;
    while s < pets.len()
        invariant
            s <= pets@.len(),
            items@.len() == base + 1 + s,
            base == (if voice is Some { 3int } else { 2int }),
            is_check(items@[0], "鼠标穿透"@, passthrough, Control::TogglePassthrough),
            is_item(items@[1], "召回宠物"@, "go-home"@, Control::Recall),
            (voice matches Some(on) ==> is_check(items@[2], "叫声"@, on, Control::ToggleMute)),
            items@[base] is Separator,
            forall|t: int| 0 <= t < s ==> is_pet_menu(#[trigger] items@[base + 1 + t], pets@[t], t as usize),
        decreases pets.len() - s,
    {
        items.push(pet_menu(&pets[s], s));
        s = s + 1;
    }
    if available.len() > 0 {
        items.push(MenuEntry::Sub { label: "加一只".to_owned(), icon: "list-add".to_owned(), items: add_menu(available) });
    }
    items.push(MenuEntry::Separator);
    items.push(item("退出", "application-exit", Control::Quit));
    items
}

} // verus!
