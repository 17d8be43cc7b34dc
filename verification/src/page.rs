//! The page of a viewer: a template whose marks are replaced by what a demo shows.
use crate::bsp::{b64, base64_text};
use crate::json::{escape_html, html_to};
use crate::text::{chars_of, decimal, occurs_at, push_decimal, stands_at};
use vstd::prelude::*;

verus! {

/// A text from place `i` on with every `from` in it replaced by `to`, the first first.
pub open spec fn replaced_from(s: Seq<char>, from: Seq<char>, to: Seq<char>, i: int) -> Seq<char>
    decreases s.len() - i,
{
    if i < 0 || i >= s.len() {
        Seq::empty()
    } else if from.len() > 0 && occurs_at(s, from, i) {
        to + replaced_from(s, from, to, i + from.len())
    } else {
        seq![s[i]] + replaced_from(s, from, to, i + 1)
    }
}

pub open spec fn replaced(s: Seq<char>, from: Seq<char>, to: Seq<char>) -> Seq<char> {
    replaced_from(s, from, to, 0)
}

fn replace_all(s: &str, from: &str, to: &str) -> (r: String)
    requires
        from@.len() > 0,
    ensures
        r@ == replaced(s@, from@, to@),
{
    let v = chars_of(s);
    let f = chars_of(from);
    let n: usize = f.len();
    let mut out = String::new();
    let mut i: usize = 0;
    assert(out@ + replaced(s@, from@, to@) =~= replaced(s@, from@, to@));
    while i < v.len()
        invariant
            v@ == s@,
            f@ == from@,
            n == f@.len(),
            n > 0,
            i <= v@.len(),
            replaced(s@, from@, to@) == out@ + replaced_from(s@, from@, to@, i as int),
        decreases v@.len() - i,
    {
        let ghost o = out@;
        if stands_at(v.as_slice(), f.as_slice(), i) {
            let ghost rest = replaced_from(s@, from@, to@, i + n);
            out.push_str(to);
            assert(o + (to@ + rest) =~= out@ + rest);
            i = i + n;
        } else {
            let ghost rest = replaced_from(s@, from@, to@, i + 1);
            out.push(v[i]);
            assert(o + (seq![s@[i as int]] + rest) =~= out@ + rest);
            i += 1;
        }
    }
    assert(out@ + Seq::<char>::empty() =~= out@);
    out
}

/// A text without a mark stays as it is.
pub proof fn law_nothing_to_replace(s: Seq<char>, from: Seq<char>, to: Seq<char>, i: int)
    requires
        0 <= i <= s.len(),
        forall|k: int| i <= k < s.len() ==> !occurs_at(s, from, k),
    ensures
        replaced_from(s, from, to, i) == s.skip(i),
    decreases s.len() - i,
{
    if i < s.len() {
        law_nothing_to_replace(s, from, to, i + 1);
        assert(seq![s[i]] + s.skip(i + 1) =~= s.skip(i));
    } else {
        assert(s.skip(i) =~= Seq::empty());
    }
}

/// A mark of a template and what replaces it.
pub struct Slot {
    pub mark: &'static str,
    pub text: String,
}

pub open spec fn slot_views(v: Seq<Slot>) -> Seq<(Seq<char>, Seq<char>)> {
    v.map_values(|s: Slot| (s.mark@, s.text@))
}

/// A template after its first `n` marks are replaced, one after the other.
pub open spec fn filled(template: Seq<char>, slots: Seq<(Seq<char>, Seq<char>)>, n: int) -> Seq<char>
    decreases n,
{
    if n <= 0 {
        template
    } else {
        replaced(filled(template, slots, n - 1), slots[n - 1].0, slots[n - 1].1)
    }
}

/// Fills a template.
pub fn fill(template: &str, slots: &Vec<Slot>) -> (r: String)
    requires
        forall|i: int| 0 <= i < slots@.len() ==> (#[trigger] slots@[i]).mark@.len() > 0,
    ensures
        r@ == filled(template@, slot_views(slots@), slots@.len() as int),
{
    let ghost vs = slot_views(slots@);
    let mut page = template.to_string();
    let mut i: usize = 0;
    while i < slots.len()
        invariant
            forall|i: int| 0 <= i < slots@.len() ==> (#[trigger] slots@[i]).mark@.len() > 0,
            i <= slots@.len(),
            vs == slot_views(slots@),
            page@ == filled(template@, vs, i as int),
        decreases slots@.len() - i,
    {
        assert(vs[i as int] == (slots@[i as int].mark@, slots@[i as int].text@));
        page = replace_all(page.as_str(), slots[i].mark, slots[i].text.as_str());
        i += 1;
    }
    page
}

/// What a page shows of a demo, as JSON but for its name and its map.
pub struct PageTexts {
    pub name: String,
    pub meta: String,
    pub cmds: String,
    pub life_breaks: String,
    pub teleport_breaks: String,
    pub events: String,
    pub positions: String,
    pub map_verts: String,
    pub map_indices: String,
    pub spawn: String,
    pub tracks: String,
    pub names: String,
    pub life_states: String,
    pub observer_modes: String,
    pub yaws: String,
    pub weapons: String,
    pub weapon_classes: String,
    pub buttons: String,
    pub primary: String,
    pub view_angles: String,
    pub view_switches: String,
    pub ghosts: String,
}

/// What a `PageTexts` says.
#[verifier::ext_equal]
pub struct PageOf {
    pub name: Seq<char>,
    pub meta: Seq<char>,
    pub cmds: Seq<char>,
    pub life_breaks: Seq<char>,
    pub teleport_breaks: Seq<char>,
    pub events: Seq<char>,
    pub positions: Seq<char>,
    pub map_verts: Seq<char>,
    pub map_indices: Seq<char>,
    pub spawn: Seq<char>,
    pub tracks: Seq<char>,
    pub names: Seq<char>,
    pub life_states: Seq<char>,
    pub observer_modes: Seq<char>,
    pub yaws: Seq<char>,
    pub weapons: Seq<char>,
    pub weapon_classes: Seq<char>,
    pub buttons: Seq<char>,
    pub primary: Seq<char>,
    pub view_angles: Seq<char>,
    pub view_switches: Seq<char>,
    pub ghosts: Seq<char>,
}

impl PageTexts {
    pub open spec fn view(&self) -> PageOf {
        PageOf {
            name: self.name@,
            meta: self.meta@,
            cmds: self.cmds@,
            life_breaks: self.life_breaks@,
            teleport_breaks: self.teleport_breaks@,
            events: self.events@,
            positions: self.positions@,
            map_verts: self.map_verts@,
            map_indices: self.map_indices@,
            spawn: self.spawn@,
            tracks: self.tracks@,
            names: self.names@,
            life_states: self.life_states@,
            observer_modes: self.observer_modes@,
            yaws: self.yaws@,
            weapons: self.weapons@,
            weapon_classes: self.weapon_classes@,
            buttons: self.buttons@,
            primary: self.primary@,
            view_angles: self.view_angles@,
            view_switches: self.view_switches@,
            ghosts: self.ghosts@,
        }
    }
}

/// The entity that is followed at first, if there is one.
pub open spec fn primary_text(p: Option<u32>) -> Seq<char> {
    match p {
        Some(k) => decimal(k as nat),
        None => "null"@,
    }
}

pub open spec fn in_quotes(s: Seq<char>) -> Seq<char> {
    seq!['"'] + s + seq!['"']
}

/// The marks of a page in the order in which they are replaced; those of the ghosts
/// come before those of the players, or last.
pub open spec fn page_slots(p: PageOf, ghosts_last: bool) -> Seq<(Seq<char>, Seq<char>)> {
    let head = seq![
        ("__DEMO_NAME__"@, html_to(p.name, p.name.len() as int)),
        ("__META__"@, p.meta),
        ("__CMDS__"@, p.cmds),
        ("__LIFE_BREAKS__"@, p.life_breaks),
        ("__TELEPORT_BREAKS__"@, p.teleport_breaks),
        ("__EVENTS__"@, p.events),
        ("__WORLD_POSITIONS__"@, p.positions),
        ("__BSP_VERTS__"@, in_quotes(p.map_verts)),
        ("__BSP_IDX__"@, in_quotes(p.map_indices)),
        ("__BSP_SPAWN__"@, p.spawn),
    ];
    let ghosts = seq![("__GHOST_EIDS__"@, p.ghosts)];
    let players = seq![
        ("__ENTITY_TRACKS__"@, p.tracks),
        ("__ENTITY_NAMES__"@, p.names),
        ("__ENTITY_LIFE_STATES__"@, p.life_states),
        ("__ENTITY_OBSERVER__"@, p.observer_modes),
        ("__ENTITY_YAWS__"@, p.yaws),
        ("__ENTITY_WEAPONS__"@, p.weapons),
        ("__WEAPON_CLASSES__"@, p.weapon_classes),
        ("__ENTITY_BUTTONS__"@, p.buttons),
        ("__PRIMARY_ENTITY__"@, p.primary),
        ("__VIEW_ANGLES__"@, p.view_angles),
        ("__VIEW_SWITCHES__"@, p.view_switches),
    ];
    if ghosts_last {
        head + players + ghosts
    } else {
        head + ghosts + players
    }
}

pub proof fn lemma_page_slots(p: PageOf, ghosts_last: bool)
    ensures
        page_slots(p, ghosts_last).len() == 22,
{
}

fn quote(s: &str) -> (r: String)
    ensures
        r@ == in_quotes(s@),
{
    let mut out = String::new();
    out.push('"');
    out.push_str(s);
    out.push('"');
    assert(out@ =~= in_quotes(s@));
    out
}

pub fn primary_json(p: Option<u32>) -> (r: String)
    ensures
        r@ == primary_text(p),
{
    match p {
        Some(k) => {
            let mut s = String::new();
            push_decimal(&mut s, k as u64);
            assert(s@ =~= decimal(k as nat));
            s
        },
        None => "null".to_string(),
    }
}

/// The page of a demo.
pub fn render(template: &str, p: PageTexts, ghosts_last: bool) -> (r: String)
    ensures
        r@ == filled(
            template@,
            page_slots(p@, ghosts_last),
            page_slots(p@, ghosts_last).len() as int,
        ),
{
    proof {
        reveal_marks();
    }
    let ghost want = page_slots(p@, ghosts_last);
    let mut v: Vec<Slot> = Vec::new();
    let name = escape_html(p.name.as_str());
    v.push(Slot { mark: "__DEMO_NAME__", text: name });
    v.push(Slot { mark: "__META__", text: p.meta });
    v.push(Slot { mark: "__CMDS__", text: p.cmds });
    v.push(Slot { mark: "__LIFE_BREAKS__", text: p.life_breaks });
    v.push(Slot { mark: "__TELEPORT_BREAKS__", text: p.teleport_breaks });
    v.push(Slot { mark: "__EVENTS__", text: p.events });
    v.push(Slot { mark: "__WORLD_POSITIONS__", text: p.positions });
    v.push(Slot { mark: "__BSP_VERTS__", text: quote(p.map_verts.as_str()) });
    v.push(Slot { mark: "__BSP_IDX__", text: quote(p.map_indices.as_str()) });
    v.push(Slot { mark: "__BSP_SPAWN__", text: p.spawn });
    let mut ghosts: Option<String> = Some(p.ghosts);
    if !ghosts_last {
        match ghosts.take() {
            Some(g) => {
                v.push(Slot { mark: "__GHOST_EIDS__", text: g });
            },
            None => {},
        }
    }
    v.push(Slot { mark: "__ENTITY_TRACKS__", text: p.tracks });
    v.push(Slot { mark: "__ENTITY_NAMES__", text: p.names });
    v.push(Slot { mark: "__ENTITY_LIFE_STATES__", text: p.life_states });
    v.push(Slot { mark: "__ENTITY_OBSERVER__", text: p.observer_modes });
    v.push(Slot { mark: "__ENTITY_YAWS__", text: p.yaws });
    v.push(Slot { mark: "__ENTITY_WEAPONS__", text: p.weapons });
    v.push(Slot { mark: "__WEAPON_CLASSES__", text: p.weapon_classes });
    v.push(Slot { mark: "__ENTITY_BUTTONS__", text: p.buttons });
    v.push(Slot { mark: "__PRIMARY_ENTITY__", text: p.primary });
    v.push(Slot { mark: "__VIEW_ANGLES__", text: p.view_angles });
    v.push(Slot { mark: "__VIEW_SWITCHES__", text: p.view_switches });
    match ghosts {
        Some(g) => {
            v.push(Slot { mark: "__GHOST_EIDS__", text: g });
        },
        None => {},
    }
    assert(slot_views(v@) =~= want);
    assert(slot_views(v@).len() == v@.len());
    fill(template, &v)
}

proof fn reveal_marks()
    ensures
        "__DEMO_NAME__"@.len() > 0,
        "__META__"@.len() > 0,
        "__CMDS__"@.len() > 0,
        "__LIFE_BREAKS__"@.len() > 0,
        "__TELEPORT_BREAKS__"@.len() > 0,
        "__EVENTS__"@.len() > 0,
        "__WORLD_POSITIONS__"@.len() > 0,
        "__BSP_VERTS__"@.len() > 0,
        "__BSP_IDX__"@.len() > 0,
        "__BSP_SPAWN__"@.len() > 0,
        "__GHOST_EIDS__"@.len() > 0,
        "__ENTITY_TRACKS__"@.len() > 0,
        "__ENTITY_NAMES__"@.len() > 0,
        "__ENTITY_LIFE_STATES__"@.len() > 0,
        "__ENTITY_OBSERVER__"@.len() > 0,
        "__ENTITY_YAWS__"@.len() > 0,
        "__ENTITY_WEAPONS__"@.len() > 0,
        "__WEAPON_CLASSES__"@.len() > 0,
        "__ENTITY_BUTTONS__"@.len() > 0,
        "__PRIMARY_ENTITY__"@.len() > 0,
        "__VIEW_ANGLES__"@.len() > 0,
        "__VIEW_SWITCHES__"@.len() > 0,
{
    reveal_strlit("__DEMO_NAME__");
    reveal_strlit("__META__");
    reveal_strlit("__CMDS__");
    reveal_strlit("__LIFE_BREAKS__");
    reveal_strlit("__TELEPORT_BREAKS__");
    reveal_strlit("__EVENTS__");
    reveal_strlit("__WORLD_POSITIONS__");
    reveal_strlit("__BSP_VERTS__");
    reveal_strlit("__BSP_IDX__");
    reveal_strlit("__BSP_SPAWN__");
    reveal_strlit("__GHOST_EIDS__");
    reveal_strlit("__ENTITY_TRACKS__");
    reveal_strlit("__ENTITY_NAMES__");
    reveal_strlit("__ENTITY_LIFE_STATES__");
    reveal_strlit("__ENTITY_OBSERVER__");
    reveal_strlit("__ENTITY_YAWS__");
    reveal_strlit("__ENTITY_WEAPONS__");
    reveal_strlit("__WEAPON_CLASSES__");
    reveal_strlit("__ENTITY_BUTTONS__");
    reveal_strlit("__PRIMARY_ENTITY__");
    reveal_strlit("__VIEW_ANGLES__");
    reveal_strlit("__VIEW_SWITCHES__");
}

/// A character of a name within a string of a script.
pub open spec fn script_char(c: char) -> Seq<char> {
    if c == '\\' {
        seq!['\\', '\\']
    } else if c == '"' {
        seq!['\\', '"']
    } else if c == '\n' || c == '\r' {
        seq![' ']
    } else {
        seq![c]
    }
}

pub open spec fn script_to(s: Seq<char>, n: int) -> Seq<char>
    decreases n,
{
    if n <= 0 {
        Seq::empty()
    } else {
        script_to(s, n - 1) + script_char(s[n - 1])
    }
}

fn script_name(s: &str) -> (r: String)
    ensures
        r@ == script_to(s@, s@.len() as int),
{
    let cs = chars_of(s);
    let mut out = String::new();
    let mut i: usize = 0;
    while i < cs.len()
        invariant
            i <= cs@.len(),
            out@ == script_to(cs@, i as int),
        decreases cs@.len() - i,
    {
        let c: char = cs[i];
        if c == '\\' {
            out.push('\\');
            out.push('\\');
        } else if c == '"' {
            out.push('\\');
            out.push('"');
        } else if c == '\n' || c == '\r' {
            out.push(' ');
        } else {
            out.push(c);
        }
        assert(out@ =~= script_to(cs@, i + 1));
        i += 1;
    }
    out
}

/// The marks of a page with two viewers, each of them a page in base64.
pub open spec fn dual_slots(
    viewer_a: Seq<char>,
    viewer_b: Seq<char>,
    name_a: Seq<char>,
    name_b: Seq<char>,
) -> Seq<(Seq<char>, Seq<char>)> {
    seq![
        ("__VIEWER_A__"@, b64(vstd::utf8::encode_utf8(viewer_a))),
        ("__VIEWER_B__"@, b64(vstd::utf8::encode_utf8(viewer_b))),
        ("__NAME_A__"@, script_to(name_a, name_a.len() as int)),
        ("__NAME_B__"@, script_to(name_b, name_b.len() as int)),
    ]
}

/// The page with two viewers side by side.
pub fn render_dual(template: &str, viewer_a: &str, viewer_b: &str, name_a: &str, name_b: &str) -> (r:
    String)
    requires
        vstd::utf8::encode_utf8(viewer_a@).len() <= usize::MAX / 2,
        vstd::utf8::encode_utf8(viewer_b@).len() <= usize::MAX / 2,
    ensures
        r@ == filled(template@, dual_slots(viewer_a@, viewer_b@, name_a@, name_b@), 4),
{
    proof {
        reveal_strlit("__VIEWER_A__");
        reveal_strlit("__VIEWER_B__");
        reveal_strlit("__NAME_A__");
        reveal_strlit("__NAME_B__");
    }
    let mut v: Vec<Slot> = Vec::new();
    v.push(Slot { mark: "__VIEWER_A__", text: base64_text(viewer_a.as_bytes()) });
    v.push(Slot { mark: "__VIEWER_B__", text: base64_text(viewer_b.as_bytes()) });
    v.push(Slot { mark: "__NAME_A__", text: script_name(name_a) });
    v.push(Slot { mark: "__NAME_B__", text: script_name(name_b) });
    assert(slot_views(v@) =~= dual_slots(viewer_a@, viewer_b@, name_a@, name_b@));
    fill(template, &v)
}

} // verus!
