//! Messages as Quake 1 and Quake 2 servers write them.
use super::q1::{coord_if, unseen, Ent};
use super::{angle16, angle8, q1, q2, readable, Feed, Tracks};
use crate::bytes::{has_flag, signed8};
use crate::ieee::{ms_of, ratio_bits};
use crate::maps::list_of;
use crate::written::{law_short_reads, law_word_reads, law_zero_is_found, le16, le32, lemma_lies,
    lemma_lies_at, lies, no_zero};
use vstd::prelude::*;

verus! {

impl Feed {
    /// Whether bytes stand where the reader does.
    #[verifier::opaque]
    pub open spec fn holds(self, b: Seq<u8>) -> bool {
        !self.over && lies(self.d, self.pos, b)
    }

    /// Behind the bytes.
    pub open spec fn past(self, b: Seq<u8>) -> Feed {
        Feed { pos: self.pos + b.len(), ..self }
    }

    pub proof fn lemma_holds(self, a: Seq<u8>, b: Seq<u8>)
        requires
            self.holds(a + b),
        ensures
            self.holds(a),
            self.past(a).holds(b),
            self.skip(a.len() as int) == self.past(a),
            self.valid(),
            !self.over,
            self.left() >= a.len(),
            self.past(a).valid(),
    {
        reveal(Feed::holds);
        reveal(Feed::skip);
        lemma_lies(self.d, self.pos, a, b);
    }

    pub proof fn lemma_byte(self, v: u8, rest: Seq<u8>)
        requires
            self.holds(seq![v] + rest),
        ensures
            self.byte() == v,
            self.skip(1) == self.past(seq![v]),
            self.past(seq![v]).holds(rest),
    {
        self.lemma_holds(seq![v], rest);
        reveal(Feed::holds);
        lemma_lies_at(self.d, self.pos, seq![v], 0);
    }

    pub proof fn lemma_short(self, v: int, rest: Seq<u8>)
        requires
            -0x8000 <= v < 0x1_0000,
            self.holds(le16(v) + rest),
        ensures
            0 <= v ==> self.short() == v,
            v < 0x8000 ==> crate::bytes::signed16(self.short()) == v,
            self.skip(2) == self.past(le16(v)),
            self.past(le16(v)).holds(rest),
            0 <= self.short() < 0x1_0000,
    {
        self.lemma_holds(le16(v), rest);
        reveal(Feed::holds);
        law_short_reads(self.d, self.pos, v);
    }

    pub proof fn lemma_word(self, v: int, rest: Seq<u8>)
        requires
            -0x8000_0000 <= v < 0x1_0000_0000,
            self.holds(le32(v) + rest),
        ensures
            0 <= v ==> self.word() == v,
            v < 0x8000_0000 ==> crate::bytes::signed32(self.word()) == v,
            self.skip(4) == self.past(le32(v)),
            self.past(le32(v)).holds(rest),
    {
        self.lemma_holds(le32(v), rest);
        reveal(Feed::holds);
        law_word_reads(self.d, self.pos, v);
    }

    pub proof fn lemma_text(self, s: Seq<u8>, rest: Seq<u8>)
        requires
            no_zero(s),
            self.holds(s.push(0) + rest),
        ensures
            self.text() == readable(s, 0, s.len() as int),
            self.past_text() == self.past(s.push(0)),
            self.past(s.push(0)).holds(rest),
    {
        self.lemma_holds(s.push(0), rest);
        reveal(Feed::holds);
        law_zero_is_found(self.d, self.pos, s);
        assert(s.push(0) =~= s + seq![0u8]);
        lemma_lies(self.d, self.pos, s, seq![0u8]);
        lemma_readable(self.d, self.pos, s, 0);
    }
}

proof fn lemma_readable(d: Seq<u8>, o: int, s: Seq<u8>, i: int)
    requires
        0 <= i <= s.len(),
        lies(d, o, s),
    ensures
        readable(d, o + i, o + s.len()) == readable(s, i, s.len() as int),
    decreases s.len() - i,
{
    if i < s.len() {
        lemma_lies_at(d, o, s, i);
        lemma_readable(d, o, s, i + 1);
    }
}

proof fn lemma_join(a: Seq<u8>, b: Seq<u8>, c: Seq<u8>)
    ensures
        (a + b) + c == a + (b + c),
{
    assert((a + b) + c =~= a + (b + c));
}

/// A byte that may be there.
#[verifier::opaque]
pub open spec fn one(v: Option<u8>) -> Seq<u8> {
    match v {
        Some(v) => seq![v],
        None => Seq::empty(),
    }
}

/// A coordinate in eighths that may be there.
#[verifier::opaque]
pub open spec fn place(v: Option<i16>) -> Seq<u8> {
    match v {
        Some(v) => le16(v as int),
        None => Seq::empty(),
    }
}

/// The number that a count of eighths is; what is not sent stays.
pub open spec fn eighths(v: Option<i16>, old: u32) -> u32 {
    match v {
        Some(v) => ratio_bits(v as int, 3),
        None => old,
    }
}

proof fn lemma_one(f: Feed, v: Option<u8>, rest: Seq<u8>)
    requires
        f.holds(one(v) + rest),
    ensures
        f.skip_if(v is Some, 1) == f.past(one(v)),
        f.past(one(v)).holds(rest),
        v matches Some(v) ==> f.byte() == v,
{
    reveal(one);
    match v {
        Some(v) => f.lemma_byte(v, rest),
        None => {
            assert(one(v) + rest =~= rest);
            assert(f.past(one(v)) == f);
        },
    }
}

proof fn lemma_place(f: Feed, v: Option<i16>, old: u32, rest: Seq<u8>)
    requires
        f.holds(place(v) + rest),
    ensures
        coord_if(f, v is Some, old) == (eighths(v, old), f.past(place(v))),
        f.past(place(v)).holds(rest),
{
    reveal(place);
    match v {
        Some(v) => f.lemma_short(v as int, rest),
        None => {
            assert(place(v) + rest =~= rest);
            assert(f.past(place(v)) == f);
        },
    }
}

/// An update of an entity in a Quake 1 demo: which of its fields are sent, its number
/// and the fields. Coordinates count eighths, angles 256ths of a turn.
pub struct Update1 {
    pub flags: int,
    pub num: u16,
    pub model: Option<u8>,
    pub frame: Option<u8>,
    pub colour: Option<u8>,
    pub skin: Option<u8>,
    pub effects: Option<u8>,
    pub x: Option<i16>,
    pub pitch: Option<u8>,
    pub y: Option<i16>,
    pub yaw: Option<u8>,
    pub z: Option<i16>,
    pub roll: Option<u8>,
}

/// The flag of each field, and those of more flags and of a long number.
pub open spec fn flags_tell1(u: Update1) -> bool {
    let f = u.flags;
    &&& 0 <= f < 0x8000
    &&& f % 256 < 128
    &&& !has_flag(f, 0) ==> f < 256
    &&& has_flag(f, 0) == has_flag(f % 256, 0)
    &&& has_flag(f, 1) == (u.x is Some)
    &&& has_flag(f, 2) == (u.y is Some)
    &&& has_flag(f, 3) == (u.z is Some)
    &&& has_flag(f, 4) == (u.yaw is Some)
    &&& has_flag(f, 6) == (u.frame is Some)
    &&& has_flag(f, 8) == (u.pitch is Some)
    &&& has_flag(f, 9) == (u.roll is Some)
    &&& has_flag(f, 10) == (u.model is Some)
    &&& has_flag(f, 11) == (u.colour is Some)
    &&& has_flag(f, 12) == (u.skin is Some)
    &&& has_flag(f, 13) == (u.effects is Some)
    &&& !has_flag(f, 14) ==> u.num < 256
}

#[verifier::opaque]
pub open spec fn head1(u: Update1) -> Seq<u8> {
    seq![(128 + u.flags % 256) as u8] + ((if has_flag(u.flags, 0) {
        seq![(u.flags / 256) as u8]
    } else {
        Seq::empty()
    }) + (if has_flag(u.flags, 14) {
        le16(u.num as int)
    } else {
        seq![u.num as u8]
    }))
}

#[verifier::opaque]
pub open spec fn looks1(u: Update1) -> Seq<u8> {
    one(u.model) + (one(u.frame) + (one(u.colour) + (one(u.skin) + one(u.effects))))
}

#[verifier::opaque]
pub open spec fn moves1(u: Update1) -> Seq<u8> {
    place(u.x) + (one(u.pitch) + (place(u.y) + (one(u.yaw) + (place(u.z) + one(u.roll)))))
}

/// An update as it is written.
pub open spec fn update1(u: Update1) -> Seq<u8> {
    head1(u) + (looks1(u) + moves1(u))
}

#[verifier::rlimit(50)]
proof fn lemma_head1(u: Update1, f: Feed, rest: Seq<u8>)
    requires
        flags_tell1(u),
        f.holds(head1(u) + rest),
    ensures
        f.byte() == 128 + u.flags % 256,
        q1::update_head(f.skip(1), u.flags % 256) == (u.flags, u.num, f.past(head1(u))),
        f.past(head1(u)).holds(rest),
{
    reveal(head1);
    let a = seq![(128 + u.flags % 256) as u8];
    let b = if has_flag(u.flags, 0) {
        seq![(u.flags / 256) as u8]
    } else {
        Seq::empty()
    };
    let c = if has_flag(u.flags, 14) {
        le16(u.num as int)
    } else {
        seq![u.num as u8]
    };
    assert(head1(u) + rest =~= a + (b + (c + rest)));
    f.lemma_byte((128 + u.flags % 256) as u8, b + (c + rest));
    let g = f.past(a);
    if has_flag(u.flags, 0) {
        g.lemma_byte((u.flags / 256) as u8, c + rest);
    } else {
        assert(b + (c + rest) =~= c + rest);
        assert(g.past(b) == g);
    }
    let h = g.past(b);
    if has_flag(u.flags, 14) {
        h.lemma_short(u.num as int, rest);
    } else {
        h.lemma_byte(u.num as u8, rest);
    }
    assert(h.past(c) == f.past(head1(u)));
}

proof fn lemma_looks1(u: Update1, f: Feed, rest: Seq<u8>)
    requires
        flags_tell1(u),
        f.holds(looks1(u) + rest),
    ensures
        q1::update_skip(f, u.flags) == f.past(looks1(u)),
        f.past(looks1(u)).holds(rest),
{
    reveal(looks1);
    let (a, b, c) = (one(u.model), one(u.frame), one(u.colour));
    let (d, e) = (one(u.skin), one(u.effects));
    lemma_join(a, b + (c + (d + e)), rest);
    lemma_one(f, u.model, (b + (c + (d + e))) + rest);
    lemma_join(b, c + (d + e), rest);
    lemma_one(f.past(a), u.frame, (c + (d + e)) + rest);
    lemma_join(c, d + e, rest);
    lemma_one(f.past(a).past(b), u.colour, (d + e) + rest);
    lemma_join(d, e, rest);
    lemma_one(f.past(a).past(b).past(c), u.skin, e + rest);
    lemma_one(f.past(a).past(b).past(c).past(d), u.effects, rest);
    assert(f.past(a).past(b).past(c).past(d).past(e) == f.past(looks1(u)));
}

/// An angle that may be sent as a signed byte.
pub open spec fn turned(v: Option<u8>, old: u32) -> u32 {
    match v {
        Some(v) => angle8(signed8(v)),
        None => old,
    }
}

/// An entity after an update: each field is what was sent for it, or as before.
pub open spec fn after1(u: Update1, e: Ent) -> Ent {
    Ent {
        x: eighths(u.x, e.x),
        y: eighths(u.y, e.y),
        z: eighths(u.z, e.z),
        pitch: turned(u.pitch, e.pitch),
        yaw: turned(u.yaw, e.yaw),
        seen: true,
    }
}

#[verifier::rlimit(50)]
proof fn lemma_moves1(u: Update1, e: Ent, f: Feed, rest: Seq<u8>)
    requires
        flags_tell1(u),
        f.holds(moves1(u) + rest),
    ensures
        q1::updated(f, u.flags, e) == (after1(u, e), f.past(moves1(u))),
        f.past(moves1(u)).holds(rest),
{
    reveal(moves1);
    let (x, y, z) = (place(u.x), place(u.y), place(u.z));
    let (p, w, r) = (one(u.pitch), one(u.yaw), one(u.roll));
    let t5 = z + r;
    let t4 = w + t5;
    let t3 = y + t4;
    let t2 = p + t3;
    lemma_join(x, t2, rest);
    lemma_place(f, u.x, e.x, t2 + rest);
    let f1 = f.past(x);
    lemma_join(p, t3, rest);
    lemma_one(f1, u.pitch, t3 + rest);
    let f2 = f1.past(p);
    lemma_join(y, t4, rest);
    lemma_place(f2, u.y, e.y, t4 + rest);
    let f3 = f2.past(y);
    lemma_join(w, t5, rest);
    lemma_one(f3, u.yaw, t5 + rest);
    let f4 = f3.past(w);
    lemma_join(z, r, rest);
    lemma_place(f4, u.z, e.z, r + rest);
    let f5 = f4.past(z);
    lemma_one(f5, u.roll, rest);
    assert(f5.past(r) == f.past(moves1(u)));
}

/// An update of Quake 1 that was written is read back: its entity has the new fields and
/// keeps the others, and where it moved or was not seen before, its place is added to its
/// track.
pub proof fn law_update1_round_trip(u: Update1, st: q1::Game, f: Feed, rest: Seq<u8>)
    requires
        flags_tell1(u),
        f.holds(update1(u) + rest),
    ensures
        ({
            let before = if st.ents.contains_key(u.num) {
                st.ents[u.num]
            } else {
                unseen()
            };
            let e = after1(u, before);
            let tick = ms_of(st.time) as i32;
            q1::step_at(f, st) == (
                Some(f.past(update1(u))),
                (q1::Game {
                    ents: st.ents.insert(u.num, e),
                    tb: if u.x is Some || u.y is Some || u.z is Some || !before.seen {
                        st.tb.with_pos(u.num as u32, (tick, e.x, e.y, e.z)).with_yaw(
                            u.num as u32,
                            (tick, e.yaw, e.pitch),
                        )
                    } else {
                        st.tb
                    },
                    ..st
                }),
            )
        }),
        f.past(update1(u)).holds(rest),
{
    reveal(q1::step_at);
    let (a, b, c) = (head1(u), looks1(u), moves1(u));
    assert(update1(u) + rest =~= a + (b + (c + rest)));
    lemma_head1(u, f, b + (c + rest));
    lemma_looks1(u, f.past(a), c + rest);
    let before = if st.ents.contains_key(u.num) {
        st.ents[u.num]
    } else {
        unseen()
    };
    lemma_moves1(u, before, f.past(a).past(b), rest);
    assert(f.past(a).past(b).past(c) == f.past(update1(u)));
}

/// A baseline of Quake 1: model, frame, colours and skin, and then each coordinate with
/// the angle of its axis.
pub struct Baseline1 {
    pub looks: (u8, u8, u8, u8),
    pub x: i16,
    pub pitch: u8,
    pub y: i16,
    pub yaw: u8,
    pub z: i16,
    pub roll: u8,
}

pub open spec fn baseline1(b: Baseline1) -> Seq<u8> {
    seq![b.looks.0] + (seq![b.looks.1] + (seq![b.looks.2] + (seq![b.looks.3] + (le16(b.x as int) + (
    seq![b.pitch] + (le16(b.y as int) + (seq![b.yaw] + (le16(b.z as int) + seq![b.roll]))))))))
}

/// A baseline that was written is read back.
#[verifier::rlimit(50)]
pub proof fn law_baseline1_round_trip(b: Baseline1, f: Feed, rest: Seq<u8>)
    requires
        f.holds(baseline1(b) + rest),
    ensures
        q1::baseline_at(f) == (
            (Ent {
                x: ratio_bits(b.x as int, 3),
                y: ratio_bits(b.y as int, 3),
                z: ratio_bits(b.z as int, 3),
                pitch: angle8(signed8(b.pitch)),
                yaw: angle8(signed8(b.yaw)),
                seen: true,
            }),
            f.past(baseline1(b)),
        ),
        f.past(baseline1(b)).holds(rest),
{
    let t5 = seq![b.roll] + rest;
    let t4 = le16(b.z as int) + t5;
    let t3 = seq![b.yaw] + t4;
    let t2 = le16(b.y as int) + t3;
    let t1 = seq![b.pitch] + t2;
    let t0 = le16(b.x as int) + t1;
    let l3 = seq![b.looks.3] + t0;
    let l2 = seq![b.looks.2] + l3;
    let l1 = seq![b.looks.1] + l2;
    assert(baseline1(b) + rest =~= seq![b.looks.0] + l1);
    f.lemma_byte(b.looks.0, l1);
    let f1 = f.skip(1);
    f1.lemma_byte(b.looks.1, l2);
    let f2 = f1.skip(1);
    f2.lemma_byte(b.looks.2, l3);
    let f3 = f2.skip(1);
    f3.lemma_byte(b.looks.3, t0);
    let g = f3.skip(1);
    g.lemma_short(b.x as int, t1);
    let g1 = g.skip(2);
    g1.lemma_byte(b.pitch, t2);
    let g2 = g1.skip(1);
    g2.lemma_short(b.y as int, t3);
    let g3 = g2.skip(2);
    g3.lemma_byte(b.yaw, t4);
    let g4 = g3.skip(1);
    g4.lemma_short(b.z as int, t5);
    let g5 = g4.skip(2);
    g5.lemma_byte(b.roll, rest);
    assert(g5.skip(1) == f.past(baseline1(b)));
}

/// Messages of Quake 1 that change what is known: the entity that is looked through, the
/// time, the server's greeting, a name and a baseline.
pub enum Said1 {
    View(i16),
    Time(u32),
    Greeting(int, u8, u8, Seq<u8>, Seq<Seq<u8>>, Seq<Seq<u8>>),
    Name(u8, Seq<u8>),
    Base(u16, Baseline1),
    Static(Baseline1),
}

/// Texts one after another, and an empty one.
pub open spec fn texts(l: Seq<Seq<u8>>) -> Seq<u8>
    decreases l.len(),
{
    if l.len() == 0 {
        seq![0u8]
    } else {
        l[0].push(0) + texts(l.drop_first())
    }
}

pub open spec fn texts_fit(l: Seq<Seq<u8>>) -> bool {
    forall|i: int| 0 <= i < l.len() ==> no_zero(#[trigger] l[i]) && readable(
        l[i],
        0,
        l[i].len() as int,
    ).len() > 0
}

proof fn lemma_texts(l: Seq<Seq<u8>>, f: Feed, rest: Seq<u8>)
    requires
        texts_fit(l),
        f.holds(texts(l) + rest),
    ensures
        q1::list_end(f) == f.past(texts(l)),
        f.past(texts(l)).holds(rest),
    decreases l.len(),
{
    f.lemma_holds(texts(l), rest);
    if l.len() == 0 {
        let z = Seq::<u8>::empty();
        assert(z.push(0) =~= seq![0u8]);
        f.lemma_text(z, rest);
    } else {
        let (a, b) = (l[0].push(0), texts(l.drop_first()));
        assert(texts(l) + rest =~= a + (b + rest));
        f.lemma_text(l[0], b + rest);
        f.past(a).lemma_holds(b, rest);
        assert forall|i: int| 0 <= i < l.drop_first().len() implies no_zero(
            #[trigger] l.drop_first()[i],
        ) && readable(l.drop_first()[i], 0, l.drop_first()[i].len() as int).len() > 0 by {
            assert(l.drop_first()[i] == l[i + 1]);
        }
        lemma_texts(l.drop_first(), f.past(a), rest);
        assert(f.past(a).past(b) == f.past(texts(l)));
    }
}

pub open spec fn said1(m: Said1) -> Seq<u8> {
    match m {
        Said1::View(v) => seq![5u8] + le16(v as int),
        Said1::Time(t) => seq![7u8] + le32(t as int),
        Said1::Greeting(version, clients, kind, map, models, sounds) => seq![11u8] + (le32(version) + (
        seq![clients] + (seq![kind] + (map.push(0) + (texts(models) + texts(sounds)))))),
        Said1::Name(slot, name) => seq![13u8] + (seq![slot] + name.push(0)),
        Said1::Base(num, b) => seq![22u8] + (le16(num as int) + baseline1(b)),
        Said1::Static(b) => seq![20u8] + baseline1(b),
    }
}

pub open spec fn said1_fits(m: Said1) -> bool {
    match m {
        Said1::Greeting(version, _, _, map, models, sounds) => -0x8000_0000 <= version < 0x8000_0000
            && no_zero(map) && texts_fit(models) && texts_fit(sounds),
        Said1::Name(_, name) => no_zero(name),
        _ => true,
    }
}

pub open spec fn ent1(b: Baseline1) -> Ent {
    Ent {
        x: ratio_bits(b.x as int, 3),
        y: ratio_bits(b.y as int, 3),
        z: ratio_bits(b.z as int, 3),
        pitch: angle8(signed8(b.pitch)),
        yaw: angle8(signed8(b.yaw)),
        seen: true,
    }
}

/// What a message makes of the game. The players' entities follow the slots by one.
pub open spec fn after_said1(m: Said1, st: q1::Game) -> q1::Game {
    match m {
        Said1::View(v) => q1::Game { view_entity: v as int, ..st },
        Said1::Time(t) => q1::Game {
            time: t,
            max_tick: if ms_of(t) > st.max_tick {
                ms_of(t)
            } else {
                st.max_tick
            },
            ..st
        },
        Said1::Greeting(_, _, _, map, _, _) => q1::Game {
            map: readable(map, 0, map.len() as int),
            ..st
        },
        Said1::Name(slot, name) => q1::Game {
            names: st.names.insert((slot + 1) as u32, readable(name, 0, name.len() as int)),
            ..st
        },
        Said1::Base(num, b) => q1::Game { ents: st.ents.insert(num, ent1(b)), ..st },
        Said1::Static(_) => st,
    }
}

/// A message of Quake 1 that was written is read back.
#[verifier::rlimit(50)]
pub proof fn law_said1_round_trip(m: Said1, st: q1::Game, f: Feed, rest: Seq<u8>)
    requires
        said1_fits(m),
        f.holds(said1(m) + rest),
    ensures
        q1::step_at(f, st) == (Some(f.past(said1(m))), after_said1(m, st)),
        f.past(said1(m)).holds(rest),
{
    reveal(q1::step_at);
    match m {
        Said1::View(v) => {
            let a = le16(v as int);
            assert(said1(m) + rest =~= seq![5u8] + (a + rest));
            f.lemma_byte(5, a + rest);
            f.skip(1).lemma_short(v as int, rest);
            assert(f.past(seq![5u8]).past(a) == f.past(said1(m)));
        },
        Said1::Time(t) => {
            let a = le32(t as int);
            assert(said1(m) + rest =~= seq![7u8] + (a + rest));
            f.lemma_byte(7, a + rest);
            f.skip(1).lemma_word(t as int, rest);
            assert(f.past(seq![7u8]).past(a) == f.past(said1(m)));
        },
        Said1::Greeting(version, clients, kind, map, models, sounds) => {
            let t4 = texts(sounds) + rest;
            let t3 = texts(models) + t4;
            let t2 = map.push(0) + t3;
            let t1 = seq![kind] + t2;
            let t0 = seq![clients] + t1;
            assert(said1(m) + rest =~= seq![11u8] + (le32(version) + t0));
            f.lemma_byte(11, le32(version) + t0);
            let g = f.skip(1);
            g.lemma_word(version, t0);
            let g1 = g.skip(4);
            g1.lemma_byte(clients, t1);
            let g2 = g1.skip(1);
            g2.lemma_byte(kind, t2);
            let g3 = g2.skip(1);
            g3.lemma_text(map, t3);
            let g4 = g3.past_text();
            lemma_texts(models, g4, t4);
            lemma_texts(sounds, g4.past(texts(models)), rest);
            assert(g4.past(texts(models)).past(texts(sounds)) == f.past(said1(m)));
        },
        Said1::Name(slot, name) => {
            let a = name.push(0);
            assert(said1(m) + rest =~= seq![13u8] + (seq![slot] + (a + rest)));
            f.lemma_byte(13, seq![slot] + (a + rest));
            f.skip(1).lemma_byte(slot, a + rest);
            f.skip(1).skip(1).lemma_text(name, rest);
            assert(f.past(seq![13u8]).past(seq![slot]).past(a) == f.past(said1(m)));
        },
        Said1::Base(num, b) => {
            let a = baseline1(b);
            assert(said1(m) + rest =~= seq![22u8] + (le16(num as int) + (a + rest)));
            f.lemma_byte(22, le16(num as int) + (a + rest));
            f.skip(1).lemma_short(num as int, a + rest);
            law_baseline1_round_trip(b, f.skip(1).skip(2), rest);
            assert(f.past(seq![22u8]).past(le16(num as int)).past(a) == f.past(said1(m)));
        },
        Said1::Static(b) => {
            let a = baseline1(b);
            assert(said1(m) + rest =~= seq![20u8] + (a + rest));
            f.lemma_byte(20, a + rest);
            law_baseline1_round_trip(b, f.skip(1), rest);
            assert(f.past(seq![20u8]).past(a) == f.past(said1(m)));
        },
    }
}

/// How many bytes follow a message of Quake 1 that says nothing of use: what it holds
/// is counted field by field, a place in three coordinates of two bytes.
pub open spec fn body1(cmd: u8) -> Option<nat> {
    match cmd {
        // Nothing, a monster killed, a secret found, an intermission, an advertisement.
        1 | 27 | 28 | 30 | 33 => Some(0),
        // A statistic and its value.
        3 => Some(1 + 4),
        // The protocol.
        4 => Some(4),
        // The angles of the view.
        10 => Some(1 + 1 + 1),
        // A player and its frags, and a player and its colours.
        14 => Some(1 + 2),
        17 => Some(1 + 1),
        // A sound that stops.
        16 => Some(2),
        // Particles: a place, a direction, a count and a colour.
        18 => Some(6 + 3 + 1 + 1),
        // Damage: to the armour and the blood, and from a place.
        19 => Some(1 + 1 + 6),
        // A pause, and a stage of the connection.
        24 | 25 => Some(1),
        // A sound at a place: its number, volume and reach.
        29 => Some(6 + 1 + 1 + 1),
        // Two tracks of music.
        32 => Some(1 + 1),
        _ => None,
    }
}

/// Such a message is passed by.
pub proof fn law_bodies1_are_passed(cmd: u8, body: Seq<u8>, st: q1::Game, f: Feed, rest: Seq<u8>)
    requires
        body1(cmd) == Some(body.len()),
        f.holds((seq![cmd] + body) + rest),
    ensures
        q1::step_at(f, st) == (Some(f.past(seq![cmd] + body)), st),
{
    reveal(q1::step_at);
    assert((seq![cmd] + body) + rest =~= seq![cmd] + (body + rest));
    f.lemma_byte(cmd, body + rest);
    f.skip(1).lemma_holds(body, rest);
    assert(f.past(seq![cmd]).past(body) == f.past(seq![cmd] + body));
}

/// A temporary entity of Quake 1: a place, a beam with the entity that it comes from, or
/// an explosion with two colours.
pub open spec fn temp1(kind: u8) -> Option<nat> {
    match kind {
        0 | 1 | 2 | 3 | 4 | 7 | 8 | 10 | 11 => Some(6),
        5 | 6 | 9 | 13 => Some(2 + 6 + 6),
        12 => Some(6 + 1 + 1),
        _ => None,
    }
}

pub proof fn law_temps1_are_passed(kind: u8, body: Seq<u8>, st: q1::Game, f: Feed, rest: Seq<u8>)
    requires
        temp1(kind) == Some(body.len()),
        f.holds((seq![23u8] + (seq![kind] + body)) + rest),
    ensures
        q1::step_at(f, st) == (Some(f.past(seq![23u8] + (seq![kind] + body))), st),
{
    reveal(q1::step_at);
    let all = seq![23u8] + (seq![kind] + body);
    assert(all + rest =~= seq![23u8] + (seq![kind] + (body + rest)));
    f.lemma_byte(23, seq![kind] + (body + rest));
    f.skip(1).lemma_byte(kind, body + rest);
    f.skip(1).skip(1).lemma_holds(body, rest);
    assert(f.past(seq![23u8]).past(seq![kind]).past(body) == f.past(all));
}

/// A delta of an entity of Quake 2: which of its fields are sent, its number and the
/// fields. Of the skin, the effects and the glow, one byte, two or four are sent.
pub struct Update2 {
    pub flags: int,
    pub num: u16,
    pub model: Option<u8>,
    pub model2: Option<u8>,
    pub model3: Option<u8>,
    pub model4: Option<u8>,
    pub frame: Option<u8>,
    pub frame16: Option<i16>,
    pub skin: Seq<u8>,
    pub effects: Seq<u8>,
    pub glow: Seq<u8>,
    pub x: Option<i16>,
    pub y: Option<i16>,
    pub z: Option<i16>,
    pub pitch: Option<u8>,
    pub yaw: Option<u8>,
    pub roll: Option<u8>,
    pub from: Seq<u8>,
    pub sound: Option<u8>,
    pub event: Option<u8>,
    pub solid: Option<i16>,
}

/// How many bytes two flags announce.
pub open spec fn sized(one: bool, two: bool) -> nat {
    if one && two {
        4
    } else if one {
        1
    } else if two {
        2
    } else {
        0
    }
}

/// The flag of each field. A byte of flags is sent where the highest of the byte before
/// says so.
pub open spec fn flags_tell2(u: Update2) -> bool {
    let f = u.flags;
    &&& 0 <= f < 0x1000_0000
    &&& !has_flag(f, 7) ==> f < 0x100
    &&& !has_flag(f, 15) ==> f < 0x1_0000
    &&& !has_flag(f, 23) ==> f < 0x100_0000
    &&& has_flag(f, 0) == (u.x is Some)
    &&& has_flag(f, 1) == (u.y is Some)
    &&& has_flag(f, 2) == (u.yaw is Some)
    &&& has_flag(f, 3) == (u.roll is Some)
    &&& has_flag(f, 4) == (u.frame is Some)
    &&& has_flag(f, 5) == (u.event is Some)
    &&& !has_flag(f, 8) ==> u.num < 256
    &&& has_flag(f, 9) == (u.z is Some)
    &&& has_flag(f, 10) == (u.pitch is Some)
    &&& has_flag(f, 11) == (u.model is Some)
    &&& u.glow.len() == sized(has_flag(f, 12), has_flag(f, 18))
    &&& u.effects.len() == sized(has_flag(f, 14), has_flag(f, 19))
    &&& u.skin.len() == sized(has_flag(f, 16), has_flag(f, 25))
    &&& has_flag(f, 17) == (u.frame16 is Some)
    &&& has_flag(f, 20) == (u.model2 is Some)
    &&& has_flag(f, 21) == (u.model3 is Some)
    &&& has_flag(f, 22) == (u.model4 is Some)
    &&& u.from.len() == if has_flag(f, 24) {
        6nat
    } else {
        0
    }
    &&& has_flag(f, 26) == (u.sound is Some)
    &&& has_flag(f, 27) == (u.solid is Some)
}

/// The bytes of the flags.
#[verifier::opaque]
pub open spec fn flags2(f: int) -> Seq<u8> {
    seq![(f % 256) as u8] + (one(
        if has_flag(f, 7) {
            Some((f / 0x100 % 256) as u8)
        } else {
            None
        },
    ) + (one(
        if has_flag(f, 7) && has_flag(f, 15) {
            Some((f / 0x1_0000 % 256) as u8)
        } else {
            None
        },
    ) + one(
        if has_flag(f, 7) && has_flag(f, 15) && has_flag(f, 23) {
            Some((f / 0x100_0000) as u8)
        } else {
            None
        },
    )))
}

pub open spec fn head2(u: Update2) -> Seq<u8> {
    flags2(u.flags) + (if has_flag(u.flags, 8) {
        le16(u.num as int)
    } else {
        seq![u.num as u8]
    })
}

#[verifier::opaque]
pub open spec fn looks2(u: Update2) -> Seq<u8> {
    one(u.model) + (one(u.model2) + (one(u.model3) + (one(u.model4) + (one(u.frame) + (place(
        u.frame16,
    ) + (u.skin + (u.effects + u.glow)))))))
}

#[verifier::opaque]
pub open spec fn moves2(u: Update2) -> Seq<u8> {
    place(u.x) + (place(u.y) + (place(u.z) + (one(u.pitch) + (one(u.yaw) + (one(u.roll) + (u.from + (
    one(u.sound) + (one(u.event) + place(u.solid)))))))))
}

/// Flags that the low part of a number has are those of the number.
proof fn lemma_low_flags(f: int)
    requires
        0 <= f,
    ensures
        has_flag(f % 256, 7) == has_flag(f, 7),
        has_flag(f % 0x1_0000, 15) == has_flag(f, 15),
        has_flag(f % 0x100_0000, 23) == has_flag(f, 23),
        has_flag(f % 0x1_0000, 7) == has_flag(f, 7),
        f % 0x1_0000 == f % 256 + 256 * (f / 256 % 256),
        f % 0x100_0000 == f % 0x1_0000 + 0x1_0000 * (f / 0x1_0000 % 256),
{
    vstd::arithmetic::power2::lemma2_to64();
    vstd::arithmetic::power2::lemma_pow2_adds(8, 7);
    vstd::arithmetic::power2::lemma_pow2_adds(16, 7);
    assert(f / 128 == 2 * (f / 256) + (f % 256) / 128);
    assert(f / 128 == 512 * (f / 0x1_0000) + (f % 0x1_0000) / 128);
}

#[verifier::rlimit(50)]
proof fn lemma_flags2(u: Update2, f: Feed, rest: Seq<u8>)
    requires
        flags_tell2(u),
        f.holds(flags2(u.flags) + rest),
    ensures
        q2::flags_at(f) == (u.flags, f.past(flags2(u.flags))),
        f.past(flags2(u.flags)).holds(rest),
{
    reveal(flags2);
    let v = u.flags;
    lemma_low_flags(v);
    let (m1, m2, m3) = (has_flag(v, 7), has_flag(v, 15), has_flag(v, 23));
    let o1 = if m1 {
        Some((v / 0x100 % 256) as u8)
    } else {
        None
    };
    let o2 = if m1 && m2 {
        Some((v / 0x1_0000 % 256) as u8)
    } else {
        None
    };
    let o3 = if m1 && m2 && m3 {
        Some((v / 0x100_0000) as u8)
    } else {
        None
    };
    let a = seq![(v % 256) as u8];
    assert(flags2(v) + rest =~= a + (one(o1) + (one(o2) + (one(o3) + rest))));
    f.lemma_byte((v % 256) as u8, one(o1) + (one(o2) + (one(o3) + rest)));
    let f0 = f.past(a);
    lemma_one(f0, o1, one(o2) + (one(o3) + rest));
    let f1 = f0.past(one(o1));
    lemma_one(f1, o2, one(o3) + rest);
    let f2 = f1.past(one(o2));
    lemma_one(f2, o3, rest);
    let b0 = v % 256;
    let b1 = if m1 {
        b0 + 0x100 * (v / 0x100 % 256)
    } else {
        b0
    };
    assert(m1 ==> b1 == v % 0x1_0000);
    assert(!m1 ==> b1 == v && !has_flag(b1, 15)) by {
        if !m1 {
            lemma_small_flags(v);
        }
    }
    assert(has_flag(b1, 15) == (m1 && m2));
    let b2 = if m1 && m2 {
        b1 + 0x1_0000 * (v / 0x1_0000 % 256)
    } else {
        b1
    };
    assert(m1 && m2 ==> b2 == v % 0x100_0000);
    assert(!(m1 && m2) ==> b2 == v && !has_flag(b2, 23)) by {
        if !(m1 && m2) {
            assert(v < 0x1_0000);
            lemma_small_flags(v);
        }
    }
    assert(has_flag(b2, 23) == (m1 && m2 && m3));
    assert(f2.past(one(o3)) == f.past(flags2(v)));
}

/// A small number has no high flags.
proof fn lemma_small_flags(v: int)
    requires
        0 <= v < 0x1_0000,
    ensures
        v < 0x100 ==> !has_flag(v, 15),
        !has_flag(v, 23),
{
    vstd::arithmetic::power2::lemma2_to64();
    vstd::arithmetic::power2::lemma_pow2_adds(8, 7);
    vstd::arithmetic::power2::lemma_pow2_adds(16, 7);
    assert(v / 0x80_0000 == 0);
    if v < 0x100 {
        assert(v / 0x8000 == 0);
    }
}

proof fn lemma_head2(u: Update2, f: Feed, rest: Seq<u8>)
    requires
        flags_tell2(u),
        f.holds(head2(u) + rest),
    ensures
        q2::head_at(f) == (u.num, u.flags, f.past(head2(u))),
        f.past(head2(u)).holds(rest),
{
    let a = flags2(u.flags);
    let b = if has_flag(u.flags, 8) {
        le16(u.num as int)
    } else {
        seq![u.num as u8]
    };
    assert(head2(u) + rest =~= a + (b + rest));
    lemma_flags2(u, f, b + rest);
    if has_flag(u.flags, 8) {
        f.past(a).lemma_short(u.num as int, rest);
    } else {
        f.past(a).lemma_byte(u.num as u8, rest);
    }
    assert(f.past(a).past(b) == f.past(head2(u)));
}

proof fn lemma_some_bytes(f: Feed, b: Seq<u8>, one: bool, two: bool, rest: Seq<u8>)
    requires
        b.len() == sized(one, two),
        f.holds(b + rest),
    ensures
        q2::sized_end(f, one, two) == f.past(b),
        f.past(b).holds(rest),
{
    f.lemma_holds(b, rest);
    if !one && !two {
        assert(f.past(b) == f);
    }
}

proof fn lemma_skip_place(f: Feed, v: Option<i16>, rest: Seq<u8>)
    requires
        f.holds(place(v) + rest),
    ensures
        f.skip_if(v is Some, 2) == f.past(place(v)),
        f.past(place(v)).holds(rest),
{
    reveal(place);
    lemma_place(f, v, 0, rest);
    match v {
        Some(v) => f.lemma_short(v as int, rest),
        None => {},
    }
}

#[verifier::rlimit(50)]
proof fn lemma_looks2(u: Update2, f: Feed, rest: Seq<u8>)
    requires
        flags_tell2(u),
        f.holds(looks2(u) + rest),
    ensures
        q2::looks_end(f, u.flags) == f.past(looks2(u)),
        f.past(looks2(u)).holds(rest),
{
    reveal(looks2);
    let v = u.flags;
    let t7 = u.effects + u.glow;
    let t6 = u.skin + t7;
    let t5 = place(u.frame16) + t6;
    let t4 = one(u.frame) + t5;
    let t3 = one(u.model4) + t4;
    let t2 = one(u.model3) + t3;
    let t1 = one(u.model2) + t2;
    lemma_join(one(u.model), t1, rest);
    lemma_one(f, u.model, t1 + rest);
    let f1 = f.past(one(u.model));
    lemma_join(one(u.model2), t2, rest);
    lemma_one(f1, u.model2, t2 + rest);
    let f2 = f1.past(one(u.model2));
    lemma_join(one(u.model3), t3, rest);
    lemma_one(f2, u.model3, t3 + rest);
    let f3 = f2.past(one(u.model3));
    lemma_join(one(u.model4), t4, rest);
    lemma_one(f3, u.model4, t4 + rest);
    let f4 = f3.past(one(u.model4));
    lemma_join(one(u.frame), t5, rest);
    lemma_one(f4, u.frame, t5 + rest);
    let f5 = f4.past(one(u.frame));
    lemma_join(place(u.frame16), t6, rest);
    lemma_skip_place(f5, u.frame16, t6 + rest);
    let f6 = f5.past(place(u.frame16));
    lemma_join(u.skin, t7, rest);
    lemma_some_bytes(f6, u.skin, has_flag(v, 16), has_flag(v, 25), t7 + rest);
    let f7 = f6.past(u.skin);
    lemma_join(u.effects, u.glow, rest);
    lemma_some_bytes(f7, u.effects, has_flag(v, 14), has_flag(v, 19), u.glow + rest);
    let f8 = f7.past(u.effects);
    lemma_some_bytes(f8, u.glow, has_flag(v, 12), has_flag(v, 18), rest);
    assert(f8.past(u.glow) == f.past(looks2(u)));
}

/// An angle that may be sent as a byte.
pub open spec fn turned2(v: Option<u8>, old: u32) -> u32 {
    match v {
        Some(v) => angle8(v as int),
        None => old,
    }
}

/// An entity after a delta: each field is what was sent for it, or as before.
pub open spec fn after2(u: Update2, e: Ent) -> Ent {
    Ent {
        x: eighths(u.x, e.x),
        y: eighths(u.y, e.y),
        z: eighths(u.z, e.z),
        pitch: turned2(u.pitch, e.pitch),
        yaw: turned2(u.yaw, e.yaw),
        seen: true,
    }
}

/// A delta of an entity of Quake 2 that was written is read back.
#[verifier::rlimit(50)]
pub proof fn law_delta2_round_trip(u: Update2, e: Ent, f: Feed, rest: Seq<u8>)
    requires
        flags_tell2(u),
        f.holds((looks2(u) + moves2(u)) + rest),
    ensures
        q2::delta_at(f, u.flags, e) == (after2(u, e), f.past(looks2(u) + moves2(u))),
        f.past(looks2(u) + moves2(u)).holds(rest),
{
    assert((looks2(u) + moves2(u)) + rest =~= looks2(u) + (moves2(u) + rest));
    lemma_looks2(u, f, moves2(u) + rest);
    reveal(moves2);
    let g = f.past(looks2(u));
    let t8 = one(u.event) + place(u.solid);
    let t7 = one(u.sound) + t8;
    let t6 = u.from + t7;
    let t5 = one(u.roll) + t6;
    let t4 = one(u.yaw) + t5;
    let t3 = one(u.pitch) + t4;
    let t2 = place(u.z) + t3;
    let t1 = place(u.y) + t2;
    lemma_join(place(u.x), t1, rest);
    lemma_place(g, u.x, e.x, t1 + rest);
    let g1 = g.past(place(u.x));
    lemma_join(place(u.y), t2, rest);
    lemma_place(g1, u.y, e.y, t2 + rest);
    let g2 = g1.past(place(u.y));
    lemma_join(place(u.z), t3, rest);
    lemma_place(g2, u.z, e.z, t3 + rest);
    let g3 = g2.past(place(u.z));
    lemma_join(one(u.pitch), t4, rest);
    lemma_one(g3, u.pitch, t4 + rest);
    let g4 = g3.past(one(u.pitch));
    lemma_join(one(u.yaw), t5, rest);
    lemma_one(g4, u.yaw, t5 + rest);
    let g5 = g4.past(one(u.yaw));
    lemma_join(one(u.roll), t6, rest);
    lemma_one(g5, u.roll, t6 + rest);
    let g6 = g5.past(one(u.roll));
    lemma_join(u.from, t7, rest);
    g6.lemma_holds(u.from, t7 + rest);
    let g7 = g6.past(u.from);
    if !has_flag(u.flags, 24) {
        assert(g7 == g6);
    }
    lemma_join(one(u.sound), t8, rest);
    lemma_one(g7, u.sound, t8 + rest);
    let g8 = g7.past(one(u.sound));
    lemma_join(one(u.event), place(u.solid), rest);
    lemma_one(g8, u.event, place(u.solid) + rest);
    let g9 = g8.past(one(u.event));
    lemma_skip_place(g9, u.solid, rest);
    assert(g9.past(place(u.solid)) == f.past(looks2(u) + moves2(u)));
}

/// An entity of a frame: its delta, or that it is gone.
pub enum Entity2 {
    Delta(Update2),
    Gone(Update2),
}

pub open spec fn entity2(x: Entity2) -> Seq<u8> {
    match x {
        Entity2::Delta(u) => head2(u) + (looks2(u) + moves2(u)),
        Entity2::Gone(u) => head2(u),
    }
}

pub open spec fn entity2_fits(x: Entity2) -> bool {
    match x {
        Entity2::Delta(u) => flags_tell2(u) && !has_flag(u.flags, 6) && u.num != 0,
        Entity2::Gone(u) => flags_tell2(u) && has_flag(u.flags, 6) && u.num != 0,
    }
}

/// The game after an entity of a frame.
pub open spec fn after_entity2(x: Entity2, frame: i32, st: q2::Game) -> q2::Game {
    match x {
        Entity2::Gone(u) => q2::Game { ents: st.ents.remove(u.num), ..st },
        Entity2::Delta(u) => {
            let before = q2::ent_of(st.ents, u.num);
            let e = after2(u, before);
            q2::Game {
                ents: st.ents.insert(u.num, e),
                tb: if u.x is Some || u.y is Some || u.z is Some || !before.seen {
                    st.tb.with_pos(u.num as u32, (frame, e.x, e.y, e.z)).with_yaw(
                        u.num as u32,
                        (frame, e.yaw, e.pitch),
                    )
                } else {
                    st.tb
                },
                ..st
            }
        },
    }
}

/// The entities of a frame, and a number of none.
pub open spec fn entities2(xs: Seq<Entity2>) -> Seq<u8>
    decreases xs.len(),
{
    if xs.len() == 0 {
        seq![0u8, 0u8]
    } else {
        entity2(xs[0]) + entities2(xs.drop_first())
    }
}

pub open spec fn after_entities2(xs: Seq<Entity2>, frame: i32, st: q2::Game) -> q2::Game
    decreases xs.len(),
{
    if xs.len() == 0 {
        st
    } else {
        after_entities2(xs.drop_first(), frame, after_entity2(xs[0], frame, st))
    }
}

proof fn lemma_flags_some(f: int)
    ensures
        flags2(f).len() > 0,
{
    reveal(flags2);
}

/// The entities of a frame that were written are read back.
#[verifier::rlimit(50)]
pub proof fn law_entities2_round_trip(xs: Seq<Entity2>, frame: i32, st: q2::Game, f: Feed, rest: Seq<u8>)
    requires
        forall|i: int| 0 <= i < xs.len() ==> entity2_fits(#[trigger] xs[i]),
        f.holds(entities2(xs) + rest),
    ensures
        q2::entities_from(f, frame, st) == (
            f.past(entities2(xs)),
            after_entities2(xs, frame, st),
        ),
        f.past(entities2(xs)).holds(rest),
    decreases xs.len(),
{
    f.lemma_holds(entities2(xs), rest);
    if xs.len() == 0 {
        vstd::arithmetic::power2::lemma2_to64();
        assert(entities2(xs) + rest =~= seq![0u8] + (seq![0u8] + rest));
        f.lemma_byte(0, seq![0u8] + rest);
        f.skip(1).lemma_byte(0, rest);
        lemma_no_flag(7);
        lemma_no_flag(15);
        lemma_no_flag(23);
        lemma_no_flag(8);
        assert(f.past(seq![0u8]).past(seq![0u8]) == f.past(entities2(xs)));
    } else {
        let x = xs[0];
        let (a, b) = (entity2(x), entities2(xs.drop_first()));
        assert(entities2(xs) + rest =~= a + (b + rest));
        f.lemma_holds(a, b + rest);
        match x {
            Entity2::Gone(u) => {
                lemma_head2(u, f, b + rest);
                lemma_flags_some(u.flags);
            },
            Entity2::Delta(u) => {
                let c = looks2(u) + moves2(u);
                assert(a + (b + rest) =~= head2(u) + (c + (b + rest)));
                lemma_head2(u, f, c + (b + rest));
                law_delta2_round_trip(
                    u,
                    q2::ent_of(st.ents, u.num),
                    f.past(head2(u)),
                    b + rest,
                );
                lemma_flags_some(u.flags);
                assert(f.past(head2(u)).past(c) == f.past(a));
            },
        }
        assert forall|i: int| 0 <= i < xs.drop_first().len() implies entity2_fits(
            #[trigger] xs.drop_first()[i],
        ) by {
            assert(xs.drop_first()[i] == xs[i + 1]);
        }
        law_entities2_round_trip(xs.drop_first(), frame, after_entity2(x, frame, st), f.past(a), rest);
        assert(f.past(a).past(b) == f.past(entities2(xs)));
    }
}

proof fn lemma_no_flag(k: nat)
    ensures
        !has_flag(0, k as int),
{
    vstd::arithmetic::power2::lemma_pow2_pos(k);
    let p = vstd::arithmetic::power2::pow2(k) as int;
    assert(0int / p == 0) by (nonlinear_arith)
        requires
            p > 0,
    ;
}

/// The recorder's state of Quake 2: which of its parts are sent, and the parts. What is
/// of no use is given by its bytes.
pub struct State2 {
    pub flags: u16,
    pub kind: Option<u8>,
    pub origin: Option<(i16, i16, i16)>,
    pub moves: Seq<u8>,
    pub angles: Option<(u16, u16, u16)>,
    pub looks: Seq<u8>,
    pub mask: u32,
    pub stats: Seq<u8>,
}

/// How many bytes a flag announces.
pub open spec fn bytes_if(f: int, k: int, n: nat) -> nat {
    if has_flag(f, k) {
        n
    } else {
        0
    }
}

/// How many bytes the statistics take: two for each that the mask has.
pub open spec fn stats_len(mask: int, i: int) -> nat
    decreases 32 - i,
{
    if i >= 32 {
        0
    } else {
        bytes_if(mask, i, 2) + stats_len(mask, i + 1)
    }
}

/// The flags of the parts: the kind of motion, the place, the speed, a time, flags,
/// gravity and the change of the angles, the eye and the angles of the view; and a kick of
/// it, a blend, the field of view, the weapon, its frame and flags.
pub open spec fn flags_tell_state(s: State2) -> bool {
    let f = s.flags as int;
    &&& has_flag(f, 0) == (s.kind is Some)
    &&& has_flag(f, 1) == (s.origin is Some)
    &&& s.moves.len() == bytes_if(f, 2, 6) + bytes_if(f, 3, 1) + bytes_if(f, 4, 1) + bytes_if(
        f,
        5,
        2,
    ) + bytes_if(f, 6, 6) + bytes_if(f, 7, 3)
    &&& has_flag(f, 8) == (s.angles is Some)
    &&& s.looks.len() == bytes_if(f, 9, 3) + bytes_if(f, 12, 1) + bytes_if(f, 13, 1) + bytes_if(
        f,
        10,
        4,
    ) + bytes_if(f, 11, 1) + bytes_if(f, 14, 1)
    &&& s.stats.len() == stats_len(s.mask as int, 0)
}

pub open spec fn three16(o: Option<(i16, i16, i16)>) -> Seq<u8> {
    match o {
        Some((x, y, z)) => le16(x as int) + (le16(y as int) + le16(z as int)),
        None => Seq::empty(),
    }
}

pub open spec fn turns16(o: Option<(u16, u16, u16)>) -> Seq<u8> {
    match o {
        Some((x, y, z)) => le16(x as int) + (le16(y as int) + le16(z as int)),
        None => Seq::empty(),
    }
}

#[verifier::opaque]
pub open spec fn motion2(s: State2) -> Seq<u8> {
    one(s.kind) + three16(s.origin)
}

#[verifier::opaque]
pub open spec fn view2(s: State2) -> Seq<u8> {
    s.moves + turns16(s.angles)
}

#[verifier::opaque]
pub open spec fn rest2(s: State2) -> Seq<u8> {
    s.looks + (le32(s.mask as int) + s.stats)
}

pub open spec fn state2(s: State2) -> Seq<u8> {
    le16(s.flags as int) + (motion2(s) + (view2(s) + rest2(s)))
}

proof fn lemma_motion2(s: State2, pm: u8, f: Feed, rest: Seq<u8>)
    requires
        flags_tell_state(s),
        f.holds(motion2(s) + rest),
    ensures
        q2::motion_at(f, s.flags as int, pm) == (
            match s.kind {
                Some(k) => k,
                None => pm,
            },
            match s.origin {
                Some((x, y, z)) => Some(
                    (ratio_bits(x as int, 3), ratio_bits(y as int, 3), ratio_bits(z as int, 3)),
                ),
                None => None,
            },
            f.past(motion2(s)),
        ),
        f.past(motion2(s)).holds(rest),
{
    reveal(motion2);
    let (a, b) = (one(s.kind), three16(s.origin));
    lemma_join(a, b, rest);
    lemma_one(f, s.kind, b + rest);
    let g = f.past(a);
    match s.origin {
        Some((x, y, z)) => {
            let t = le16(y as int) + le16(z as int);
            lemma_join(le16(x as int), t, rest);
            g.lemma_short(x as int, t + rest);
            lemma_join(le16(y as int), le16(z as int), rest);
            g.skip(2).lemma_short(y as int, le16(z as int) + rest);
            g.skip(2).skip(2).lemma_short(z as int, rest);
            assert(g.skip(2).skip(2).skip(2) == f.past(motion2(s)));
        },
        None => {
            assert(b + rest =~= rest);
            assert(g == f.past(motion2(s)));
        },
    }
}

/// Skipping parts one by one skips their bytes.
proof fn lemma_skip_parts(f: Feed, b: Seq<u8>, n: nat, set: bool, k: nat, rest: Seq<u8>)
    requires
        f.holds(b.skip(n as int) + rest),
        n + (if set {
            k
        } else {
            0
        }) <= b.len(),
    ensures
        ({
            let m = n + (if set {
                k
            } else {
                0
            });
            &&& f.skip_if(set, k as int).holds(b.skip(m as int) + rest)
            &&& f.skip_if(set, k as int) == (Feed { pos: f.pos + (m - n), ..f })
        }),
{
    if set {
        let a = b.skip(n as int).take(k as int);
        let c = b.skip((n + k) as int) + rest;
        assert(b.skip(n as int) + rest =~= a + c);
        f.lemma_holds(a, c);
    }
}

#[verifier::spinoff_prover]
#[verifier::rlimit(60)]
proof fn lemma_moves2(s: State2, f: Feed, rest: Seq<u8>)
    requires
        flags_tell_state(s),
        f.holds(s.moves + rest),
    ensures
        f.skip_if(has_flag(s.flags as int, 2), 6).skip_if(has_flag(s.flags as int, 3), 1).skip_if(
            has_flag(s.flags as int, 4),
            1,
        ).skip_if(has_flag(s.flags as int, 5), 2).skip_if(has_flag(s.flags as int, 6), 6).skip_if(
            has_flag(s.flags as int, 7),
            3,
        ) == f.past(s.moves),
        f.past(s.moves).holds(rest),
{
    let v = s.flags as int;
    assert(s.moves.skip(0) =~= s.moves);
    let n2 = bytes_if(v, 2, 6);
    let n3 = n2 + bytes_if(v, 3, 1);
    let n4 = n3 + bytes_if(v, 4, 1);
    let n5 = n4 + bytes_if(v, 5, 2);
    let n6 = n5 + bytes_if(v, 6, 6);
    lemma_skip_parts(f, s.moves, 0, has_flag(v, 2), 6, rest);
    let f2 = f.skip_if(has_flag(v, 2), 6);
    lemma_skip_parts(f2, s.moves, n2, has_flag(v, 3), 1, rest);
    let f3 = f2.skip_if(has_flag(v, 3), 1);
    lemma_skip_parts(f3, s.moves, n3, has_flag(v, 4), 1, rest);
    let f4 = f3.skip_if(has_flag(v, 4), 1);
    lemma_skip_parts(f4, s.moves, n4, has_flag(v, 5), 2, rest);
    let f5 = f4.skip_if(has_flag(v, 5), 2);
    lemma_skip_parts(f5, s.moves, n5, has_flag(v, 6), 6, rest);
    let f6 = f5.skip_if(has_flag(v, 6), 6);
    lemma_skip_parts(f6, s.moves, n6, has_flag(v, 7), 3, rest);
    let g = f6.skip_if(has_flag(v, 7), 3);
    assert(s.moves.skip(s.moves.len() as int) + rest =~= rest);
    assert(g == f.past(s.moves));
}

#[verifier::spinoff_prover]
#[verifier::rlimit(60)]
proof fn lemma_state_looks2(s: State2, f: Feed, rest: Seq<u8>)
    requires
        flags_tell_state(s),
        f.holds(s.looks + rest),
    ensures
        f.skip_if(has_flag(s.flags as int, 9), 3).skip_if(has_flag(s.flags as int, 12), 1).skip_if(
            has_flag(s.flags as int, 13),
            1,
        ).skip_if(has_flag(s.flags as int, 10), 4).skip_if(has_flag(s.flags as int, 11), 1).skip_if(
            has_flag(s.flags as int, 14),
            1,
        ) == f.past(s.looks),
        f.past(s.looks).holds(rest),
{
    let v = s.flags as int;
    assert(s.looks.skip(0) =~= s.looks);
    let n1 = bytes_if(v, 9, 3);
    let n2 = n1 + bytes_if(v, 12, 1);
    let n3 = n2 + bytes_if(v, 13, 1);
    let n4 = n3 + bytes_if(v, 10, 4);
    let n5 = n4 + bytes_if(v, 11, 1);
    lemma_skip_parts(f, s.looks, 0, has_flag(v, 9), 3, rest);
    let f1 = f.skip_if(has_flag(v, 9), 3);
    lemma_skip_parts(f1, s.looks, n1, has_flag(v, 12), 1, rest);
    let f2 = f1.skip_if(has_flag(v, 12), 1);
    lemma_skip_parts(f2, s.looks, n2, has_flag(v, 13), 1, rest);
    let f3 = f2.skip_if(has_flag(v, 13), 1);
    lemma_skip_parts(f3, s.looks, n3, has_flag(v, 10), 4, rest);
    let f4 = f3.skip_if(has_flag(v, 10), 4);
    lemma_skip_parts(f4, s.looks, n4, has_flag(v, 11), 1, rest);
    let f5 = f4.skip_if(has_flag(v, 11), 1);
    lemma_skip_parts(f5, s.looks, n5, has_flag(v, 14), 1, rest);
    let g = f5.skip_if(has_flag(v, 14), 1);
    assert(s.looks.skip(s.looks.len() as int) + rest =~= rest);
    assert(g == f.past(s.looks));
}

#[verifier::rlimit(50)]
proof fn lemma_view2(s: State2, f: Feed, rest: Seq<u8>)
    requires
        flags_tell_state(s),
        f.holds(view2(s) + rest),
    ensures
        q2::view_at(f, s.flags as int) == (
            match s.angles {
                Some((pitch, yaw, _)) => Some((angle16(pitch as int), angle16(yaw as int))),
                None => None,
            },
            f.past(view2(s)),
        ),
        f.past(view2(s)).holds(rest),
{
    reveal(view2);
    let v = s.flags as int;
    let b = turns16(s.angles);
    lemma_join(s.moves, b, rest);
    lemma_moves2(s, f, b + rest);
    let g = f.past(s.moves);
    match s.angles {
        Some((x, y, z)) => {
            let t = le16(y as int) + le16(z as int);
            lemma_join(le16(x as int), t, rest);
            g.lemma_short(x as int, t + rest);
            lemma_join(le16(y as int), le16(z as int), rest);
            g.skip(2).lemma_short(y as int, le16(z as int) + rest);
            g.skip(2).skip(2).lemma_short(z as int, rest);
            assert(g.skip(2).skip(2).skip(2) == f.past(view2(s)));
        },
        None => {
            assert(b + rest =~= rest);
            assert(g == f.past(view2(s)));
        },
    }
}

proof fn lemma_stats(b: Seq<u8>, n: nat, mask: int, i: int, f: Feed, rest: Seq<u8>)
    requires
        0 <= i <= 32,
        n + stats_len(mask, i) == b.len(),
        f.holds(b.skip(n as int) + rest),
    ensures
        q2::stats_end(f, mask, i) == (Feed { pos: f.pos + stats_len(mask, i), ..f }),
        q2::stats_end(f, mask, i).holds(rest),
    decreases 32 - i,
{
    if i < 32 {
        lemma_skip_parts(f, b, n, has_flag(mask, i), 2, rest);
        let m = n + bytes_if(mask, i, 2);
        lemma_stats(b, m, mask, i + 1, f.skip_if(has_flag(mask, i), 2), rest);
    } else {
        assert(b.skip(n as int) + rest =~= rest);
    }
}

proof fn lemma_rest2(s: State2, f: Feed, rest: Seq<u8>)
    requires
        flags_tell_state(s),
        f.holds(rest2(s) + rest),
    ensures
        q2::rest_end(f, s.flags as int) == f.past(rest2(s)),
        f.past(rest2(s)).holds(rest),
{
    reveal(rest2);
    let v = s.flags as int;
    let t = le32(s.mask as int) + s.stats;
    lemma_join(s.looks, t, rest);
    lemma_state_looks2(s, f, t + rest);
    let g = f.past(s.looks);
    lemma_join(le32(s.mask as int), s.stats, rest);
    g.lemma_word(s.mask as int, s.stats + rest);
    assert(s.stats.skip(0) =~= s.stats);
    lemma_stats(s.stats, 0, s.mask as int, 0, g.skip(4), rest);
    assert(q2::stats_end(g.skip(4), s.mask as int, 0) == f.past(rest2(s)));
}

/// The recorder's state of Quake 2 that was written is read back: its place in eighths,
/// and pitch and yaw as shares of a turn.
pub proof fn law_state2_round_trip(s: State2, pm: u8, f: Feed, rest: Seq<u8>)
    requires
        flags_tell_state(s),
        f.holds(state2(s) + rest),
    ensures
        q2::player_at(f, pm) == (
            (q2::PlayerView {
                pm_type: match s.kind {
                    Some(k) => k,
                    None => pm,
                },
                origin: match s.origin {
                    Some((x, y, z)) => Some(
                        (ratio_bits(x as int, 3), ratio_bits(y as int, 3), ratio_bits(z as int, 3)),
                    ),
                    None => None,
                },
                angles: match s.angles {
                    Some((pitch, yaw, _)) => Some((angle16(pitch as int), angle16(yaw as int))),
                    None => None,
                },
            }),
            f.past(state2(s)),
        ),
        f.past(state2(s)).holds(rest),
{
    let a = le16(s.flags as int);
    let (b, c, e) = (motion2(s), view2(s), rest2(s));
    lemma_join(a, b + (c + e), rest);
    f.lemma_short(s.flags as int, (b + (c + e)) + rest);
    let g = f.past(a);
    lemma_join(b, c + e, rest);
    lemma_motion2(s, pm, g, (c + e) + rest);
    lemma_join(c, e, rest);
    lemma_view2(s, g.past(b), e + rest);
    lemma_rest2(s, g.past(b).past(c), rest);
    assert(g.past(b).past(c).past(e) == f.past(state2(s)));
}

/// What the recorder's state of Quake 2 adds to the tracks: its place to that of the
/// entity one behind its number, and its yaw and pitch to the views. It is dead where its
/// motion is of the dead or of a body in pieces.
pub proof fn law_recorder2_is_seen(
    t: Tracks,
    num: int,
    frame: i32,
    kind: u8,
    x: u32,
    y: u32,
    z: u32,
    pitch: u32,
    yaw: u32,
)
    requires
        0 <= num < 0x8000,
    ensures
        ({
            let p = q2::PlayerView {
                pm_type: kind,
                origin: Some((x, y, z)),
                angles: Some((pitch, yaw)),
            };
            let a = q2::recorded(t, num, frame, p);
            let k = (num + 1) as u32;
            &&& list_of(a.tracks, k) == list_of(t.tracks, k).push((frame, x, y, z))
            &&& list_of(a.yaws, k) == list_of(t.yaws, k).push((frame, yaw, pitch))
            &&& a.view_angles == t.view_angles.push((frame, pitch, yaw))
            &&& list_of(a.life_states, k).len() > 0
            &&& (list_of(a.life_states, k).last().1 == 1) == (kind == 2 || kind == 3)
            &&& forall|j: u32| j != k ==> #[trigger] list_of(a.tracks, j) == list_of(t.tracks, j)
        }),
{
}

} // verus!
