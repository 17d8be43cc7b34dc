//! The inputs of a demo as comma-separated rows and as JSON, and what a listing starts
//! and ends with.
use crate::dump::{button_text, seen_in, Entry, Held, Seen, Visit};
use crate::header::{fmt_buttons, DemoHeader, UserCmd};
use crate::ieee::negative;
use crate::json::{joined, push_joined};
use crate::number::{fixed, fixed_text, in_places, last_digits, ten_to};
use crate::text::{
    decimal, digit, is_digit, lemma_decimal_digits, push_decimal, push_signed, signed_decimal, texts,
};
use vstd::prelude::*;

verus! {

/// A number with some digits behind the point, or nothing.
pub open spec fn opt_fixed(v: Option<u32>, places: nat) -> Seq<char> {
    match v {
        Some(b) => fixed_text(b, places),
        None => Seq::empty(),
    }
}

pub open spec fn opt_decimal(v: Option<u32>) -> Seq<char> {
    match v {
        Some(n) => decimal(n as nat),
        None => Seq::empty(),
    }
}

pub open spec fn opt_byte(v: Option<u8>) -> Seq<char> {
    match v {
        Some(n) => decimal(n as nat),
        None => Seq::empty(),
    }
}

pub open spec fn opt_signed(v: Option<i16>) -> Seq<char> {
    match v {
        Some(n) => signed_decimal(n as int),
        None => Seq::empty(),
    }
}

/// The cells of an input.
pub open spec fn csv_cells(tick: i32, number: u32, c: UserCmd) -> Seq<Seq<char>> {
    seq![
        signed_decimal(tick as int),
        decimal(number as nat),
        opt_fixed(c.pitch, 4),
        opt_fixed(c.yaw, 4),
        opt_fixed(c.roll, 4),
        opt_fixed(c.forwardmove, 2),
        opt_fixed(c.sidemove, 2),
        opt_fixed(c.upmove, 2),
        opt_decimal(c.buttons),
        opt_byte(c.impulse),
        opt_decimal(c.weaponselect),
        opt_signed(c.mousedx),
        opt_signed(c.mousedy),
    ]
}

/// An input as a row.
pub open spec fn csv_row(tick: i32, number: u32, c: UserCmd) -> Seq<char> {
    joined(csv_cells(tick, number, c), 13) + "\n"@
}

/// The rows of the inputs among the first `n` commands.
pub open spec fn csv_rows(vs: Seq<Seen>, n: int) -> Seq<char>
    decreases n,
{
    if n <= 0 {
        Seq::empty()
    } else {
        csv_rows(vs, n - 1) + match vs[n - 1].entry {
            Held::Input(_, number, Some(c)) => csv_row(vs[n - 1].tick, number, c),
            _ => Seq::empty(),
        }
    }
}

pub open spec fn csv_head() -> Seq<char> {
    "tick,cmd_num,pitch,yaw,roll,fwd,side,up,buttons,impulse,weapon,mousedx,mousedy\n"@
}

/// How often a character stands in a text.
pub open spec fn times(s: Seq<char>, c: char) -> int
    decreases s.len(),
{
    if s.len() == 0 {
        0
    } else {
        times(s.drop_last(), c) + if s.last() == c {
            1int
        } else {
            0
        }
    }
}

proof fn lemma_times_add(a: Seq<char>, b: Seq<char>, c: char)
    ensures
        times(a + b, c) == times(a, c) + times(b, c),
    decreases b.len(),
{
    if b.len() == 0 {
        assert(a + b =~= a);
    } else {
        lemma_times_add(a, b.drop_last(), c);
        assert((a + b).drop_last() =~= a + b.drop_last());
    }
}

/// Whether a character is one that parts cells or rows.
spec fn parts(c: char) -> bool {
    c == ',' || c == '\n'
}

/// Whether a text is one cell.
spec fn plain(s: Seq<char>) -> bool {
    forall|i: int| 0 <= i < s.len() ==> !parts(#[trigger] s[i])
}

proof fn lemma_plain(s: Seq<char>, c: char)
    requires
        plain(s),
        parts(c),
    ensures
        times(s, c) == 0,
    decreases s.len(),
{
    if s.len() > 0 {
        assert forall|i: int| 0 <= i < s.drop_last().len() implies !parts(
            #[trigger] s.drop_last()[i],
        ) by {
            assert(s.drop_last()[i] == s[i]);
        }
        lemma_plain(s.drop_last(), c);
        assert(!parts(s[s.len() - 1]));
    }
}

proof fn lemma_plain_add(a: Seq<char>, b: Seq<char>)
    requires
        plain(a),
        plain(b),
    ensures
        plain(a + b),
{
    assert forall|i: int| 0 <= i < (a + b).len() implies !parts(#[trigger] (a + b)[i]) by {
        if i < a.len() {
            assert(!parts(a[i]));
        } else {
            assert(!parts(b[i - a.len()]));
        }
    }
}

proof fn lemma_decimal_plain(n: nat)
    ensures
        plain(decimal(n)),
{
    lemma_decimal_digits(n);
    assert forall|i: int| 0 <= i < decimal(n).len() implies !parts(#[trigger] decimal(n)[i]) by {
        assert(is_digit(decimal(n)[i]));
    }
}

proof fn lemma_signed_plain(n: int)
    ensures
        plain(signed_decimal(n)),
{
    if n < 0 {
        lemma_decimal_plain((-n) as nat);
        lemma_plain_add(seq!['-'], decimal((-n) as nat));
    } else {
        lemma_decimal_plain(n as nat);
    }
}

proof fn lemma_last_digits_plain(v: nat, n: nat)
    ensures
        plain(last_digits(v, n)),
    decreases n,
{
    if n > 0 {
        lemma_last_digits_plain(v / 10, (n - 1) as nat);
        lemma_plain_add(last_digits(v / 10, (n - 1) as nat), seq![digit(v)]);
        assert(last_digits(v, n) =~= last_digits(v / 10, (n - 1) as nat) + seq![digit(v)]);
    }
}

proof fn lemma_fixed_plain(b: u32, places: nat)
    ensures
        plain(fixed_text(b, places)),
{
    let sign: Seq<char> = if negative(b) {
        seq!['-']
    } else {
        Seq::empty()
    };
    reveal_strlit("NaN");
    reveal_strlit("inf");
    lemma_plain_add(sign, "inf"@);
    let v = in_places(b, places);
    let (a, c) = (decimal(v / ten_to(places)), last_digits(v % ten_to(places), places));
    lemma_decimal_plain(v / ten_to(places));
    lemma_last_digits_plain(v % ten_to(places), places);
    lemma_plain_add(sign, a);
    lemma_plain_add(sign + a, seq!['.']);
    lemma_plain_add(sign + a + seq!['.'], c);
}

proof fn lemma_cells_plain(tick: i32, number: u32, c: UserCmd)
    ensures
        forall|i: int|
            0 <= i < csv_cells(tick, number, c).len() ==> plain(
                #[trigger] csv_cells(tick, number, c)[i],
            ),
{
    lemma_signed_plain(tick as int);
    lemma_decimal_plain(number as nat);
    assert forall|v: Option<u32>, places: nat| plain(#[trigger] opt_fixed(v, places)) by {
        if v is Some {
            lemma_fixed_plain(v->0, places);
        }
    }
    assert forall|v: Option<u32>| plain(#[trigger] opt_decimal(v)) by {
        if v is Some {
            lemma_decimal_plain(v->0 as nat);
        }
    }
    assert forall|v: Option<u8>| plain(#[trigger] opt_byte(v)) by {
        if v is Some {
            lemma_decimal_plain(v->0 as nat);
        }
    }
    assert forall|v: Option<i16>| plain(#[trigger] opt_signed(v)) by {
        if v is Some {
            lemma_signed_plain(v->0 as int);
        }
    }
}

proof fn lemma_joined_times(items: Seq<Seq<char>>, n: int, c: char)
    requires
        1 <= n <= items.len(),
        forall|i: int| 0 <= i < items.len() ==> plain(#[trigger] items[i]),
        parts(c),
    ensures
        times(joined(items, n), c) == if c == ',' {
            n - 1
        } else {
            0
        },
    decreases n,
{
    lemma_plain(items[n - 1], c);
    if n > 1 {
        lemma_joined_times(items, n - 1, c);
        lemma_times_add(joined(items, n - 1), seq![','], c);
        lemma_times_add(joined(items, n - 1) + seq![','], items[n - 1], c);
        assert(seq![','].drop_last() =~= Seq::<char>::empty());
        assert(times(Seq::<char>::empty(), c) == 0);
    }
}

/// The columns behind the tick and the number, in the order of the heading.
pub enum Column {
    Pitch,
    Yaw,
    Roll,
    Fwd,
    Side,
    Up,
    Buttons,
    Impulse,
    Weapon,
    MouseX,
    MouseY,
}

/// The place of a column.
pub open spec fn column(k: Column) -> int {
    match k {
        Column::Pitch => 2,
        Column::Yaw => 3,
        Column::Roll => 4,
        Column::Fwd => 5,
        Column::Side => 6,
        Column::Up => 7,
        Column::Buttons => 8,
        Column::Impulse => 9,
        Column::Weapon => 10,
        Column::MouseX => 11,
        Column::MouseY => 12,
    }
}

/// A field of an input stands in its own column and in no other: two inputs that differ in
/// one field alone have the same cells but for that one.
pub proof fn law_a_column_each(tick: i32, number: u32, c: UserCmd, v: Option<u32>, b: Option<u8>, m: Option<i16>)
    ensures
        ({
            let cells = csv_cells(tick, number, c);
            let with = |d: UserCmd| csv_cells(tick, number, d);
            &&& with(UserCmd { pitch: v, ..c }) =~= cells.update(column(Column::Pitch), opt_fixed(v, 4))
            &&& with(UserCmd { yaw: v, ..c }) =~= cells.update(column(Column::Yaw), opt_fixed(v, 4))
            &&& with(UserCmd { roll: v, ..c }) =~= cells.update(column(Column::Roll), opt_fixed(v, 4))
            &&& with(UserCmd { forwardmove: v, ..c }) =~= cells.update(
                column(Column::Fwd),
                opt_fixed(v, 2),
            )
            &&& with(UserCmd { sidemove: v, ..c }) =~= cells.update(
                column(Column::Side),
                opt_fixed(v, 2),
            )
            &&& with(UserCmd { upmove: v, ..c }) =~= cells.update(column(Column::Up), opt_fixed(v, 2))
            &&& with(UserCmd { buttons: v, ..c }) =~= cells.update(
                column(Column::Buttons),
                opt_decimal(v),
            )
            &&& with(UserCmd { impulse: b, ..c }) =~= cells.update(
                column(Column::Impulse),
                opt_byte(b),
            )
            &&& with(UserCmd { weaponselect: v, ..c }) =~= cells.update(
                column(Column::Weapon),
                opt_decimal(v),
            )
            &&& with(UserCmd { mousedx: m, ..c }) =~= cells.update(
                column(Column::MouseX),
                opt_signed(m),
            )
            &&& with(UserCmd { mousedy: m, ..c }) =~= cells.update(
                column(Column::MouseY),
                opt_signed(m),
            )
            &&& cells[0] == signed_decimal(tick as int)
            &&& cells[1] == decimal(number as nat)
        }),
{
}

/// Whatever an input holds and lacks, its row has a cell for each of the thirteen
/// columns, and is one line.
pub proof fn law_rows_have_all_cells(tick: i32, number: u32, c: UserCmd)
    ensures
        times(csv_row(tick, number, c), ',') == 12,
        times(csv_row(tick, number, c), '\n') == 1,
{
    let cells = csv_cells(tick, number, c);
    lemma_cells_plain(tick, number, c);
    lemma_joined_times(cells, 13, ',');
    lemma_joined_times(cells, 13, '\n');
    lemma_times_add(joined(cells, 13), "\n"@, ',');
    lemma_times_add(joined(cells, 13), "\n"@, '\n');
    reveal_strlit("\n");
    assert("\n"@.drop_last() =~= Seq::<char>::empty());
    assert(times(Seq::<char>::empty(), ',') == 0);
    assert(times(Seq::<char>::empty(), '\n') == 0);
}

/// There is a row for each input: as many lines as there are objects in the array that
/// `write_json` writes.
pub proof fn law_a_row_each(vs: Seq<Seen>, n: int)
    ensures
        times(csv_rows(vs, n), '\n') == inputs(vs, n).len(),
    decreases n,
{
    if n > 0 {
        law_a_row_each(vs, n - 1);
        let v = vs[n - 1];
        match v.entry {
            Held::Input(_, number, Some(c)) => {
                law_rows_have_all_cells(v.tick, number, c);
                lemma_times_add(csv_rows(vs, n - 1), csv_row(v.tick, number, c), '\n');
            },
            _ => {
                assert(csv_rows(vs, n - 1) + Seq::<char>::empty() =~= csv_rows(vs, n - 1));
            },
        }
    }
}

fn push_opt_fixed(out: &mut String, v: Option<u32>, places: u32)
    requires
        1 <= places <= 6,
    ensures
        final(out)@ == old(out)@ + opt_fixed(v, places as nat),
{
    match v {
        Some(b) => {
            out.push_str(fixed(b, places).as_str());
        },
        None => {},
    }
    assert(out@ =~= old(out)@ + opt_fixed(v, places as nat));
}

fn push_opt_decimal(out: &mut String, v: Option<u32>)
    ensures
        final(out)@ == old(out)@ + opt_decimal(v),
{
    match v {
        Some(n) => {
            push_decimal(out, n as u64);
        },
        None => {},
    }
    assert(out@ =~= old(out)@ + opt_decimal(v));
}

fn push_opt_byte(out: &mut String, v: Option<u8>)
    ensures
        final(out)@ == old(out)@ + opt_byte(v),
{
    match v {
        Some(n) => {
            push_decimal(out, n as u64);
        },
        None => {},
    }
    assert(out@ =~= old(out)@ + opt_byte(v));
}

fn push_opt_signed(out: &mut String, v: Option<i16>)
    ensures
        final(out)@ == old(out)@ + opt_signed(v),
{
    match v {
        Some(n) => {
            push_signed(out, n as i64);
        },
        None => {},
    }
    assert(out@ =~= old(out)@ + opt_signed(v));
}

fn fixed_cell(v: Option<u32>, places: u32) -> (r: String)
    requires
        1 <= places <= 6,
    ensures
        r@ == opt_fixed(v, places as nat),
{
    let mut s = String::new();
    push_opt_fixed(&mut s, v, places);
    assert(s@ =~= opt_fixed(v, places as nat));
    s
}

fn decimal_cell(v: Option<u32>) -> (r: String)
    ensures
        r@ == opt_decimal(v),
{
    let mut s = String::new();
    push_opt_decimal(&mut s, v);
    assert(s@ =~= opt_decimal(v));
    s
}

fn byte_cell(v: Option<u8>) -> (r: String)
    ensures
        r@ == opt_byte(v),
{
    let mut s = String::new();
    push_opt_byte(&mut s, v);
    assert(s@ =~= opt_byte(v));
    s
}

fn signed_cell(v: Option<i16>) -> (r: String)
    ensures
        r@ == opt_signed(v),
{
    let mut s = String::new();
    push_opt_signed(&mut s, v);
    assert(s@ =~= opt_signed(v));
    s
}

fn push_csv_row(out: &mut String, tick: i32, number: u32, c: &UserCmd)
    ensures
        final(out)@ == old(out)@ + csv_row(tick, number, *c),
{
    let mut first = String::new();
    push_signed(&mut first, tick as i64);
    assert(first@ =~= signed_decimal(tick as int));
    let mut cells: Vec<String> = Vec::new();
    cells.push(first);
    cells.push(decimal_cell(Some(number)));
    cells.push(fixed_cell(c.pitch, 4));
    cells.push(fixed_cell(c.yaw, 4));
    cells.push(fixed_cell(c.roll, 4));
    cells.push(fixed_cell(c.forwardmove, 2));
    cells.push(fixed_cell(c.sidemove, 2));
    cells.push(fixed_cell(c.upmove, 2));
    cells.push(decimal_cell(c.buttons));
    cells.push(byte_cell(c.impulse));
    cells.push(decimal_cell(c.weaponselect));
    cells.push(signed_cell(c.mousedx));
    cells.push(signed_cell(c.mousedy));
    assert(texts(cells@) =~= csv_cells(tick, number, *c));
    push_joined(out, &cells);
    out.push_str("\n");
    assert(out@ =~= old(out)@ + csv_row(tick, number, *c));
}

/// Writes the inputs as comma-separated rows under a head.
pub fn write_csv(vs: &Vec<Visit>) -> (r: String)
    ensures
        r@ == csv_head() + csv_rows(seen_in(vs@), vs@.len() as int),
{
    let ghost s = seen_in(vs@);
    let mut out = String::new();
    out.push_str(
        "tick,cmd_num,pitch,yaw,roll,fwd,side,up,buttons,impulse,weapon,mousedx,mousedy\n",
    );
    assert(out@ =~= csv_head() + csv_rows(s, 0));
    let mut i: usize = 0;
    while i < vs.len()
        invariant
            i <= vs@.len(),
            s == seen_in(vs@),
            out@ == csv_head() + csv_rows(s, i as int),
        decreases vs@.len() - i,
    {
        assert(s[i as int] == vs@[i as int]@);
        let ghost o = out@;
        match &vs[i].entry {
            Entry::Input(_, number, Some(c)) => {
                push_csv_row(&mut out, vs[i].tick, *number, c);
            },
            _ => {},
        }
        assert(out@ =~= csv_head() + csv_rows(s, i + 1));
        i += 1;
    }
    out
}

/// A member of an object: its key and its value, where it has one.
pub open spec fn member(key: Seq<char>, present: bool, value: Seq<char>) -> Seq<char> {
    if present {
        ",\""@ + key + "\":"@ + value
    } else {
        Seq::empty()
    }
}

/// The buttons of an input and what they are called.
pub open spec fn buttons_member(b: Option<u32>) -> Seq<char> {
    match b {
        Some(v) => ",\"buttons\":"@ + decimal(v as nat) + ",\"buttons_str\":\""@ + button_text(v)
            + "\""@,
        None => Seq::empty(),
    }
}

/// An input as JSON.
pub open spec fn input_json(tick: i32, number: u32, c: UserCmd) -> Seq<char> {
    "  {\"tick\":"@ + signed_decimal(tick as int) + ",\"cmd\":"@ + decimal(number as nat) + member(
        "pitch"@,
        c.pitch is Some,
        opt_fixed(c.pitch, 4),
    ) + member("yaw"@, c.yaw is Some, opt_fixed(c.yaw, 4)) + member(
        "roll"@,
        c.roll is Some,
        opt_fixed(c.roll, 4),
    ) + member("fwd"@, c.forwardmove is Some, opt_fixed(c.forwardmove, 2)) + member(
        "side"@,
        c.sidemove is Some,
        opt_fixed(c.sidemove, 2),
    ) + member("up"@, c.upmove is Some, opt_fixed(c.upmove, 2)) + buttons_member(c.buttons)
        + member("impulse"@, c.impulse is Some, opt_byte(c.impulse)) + member(
        "weapon"@,
        c.weaponselect is Some,
        opt_decimal(c.weaponselect),
    ) + member("weapon_sub"@, c.weaponsubtype is Some, opt_decimal(c.weaponsubtype)) + member(
        "mousedx"@,
        c.mousedx is Some,
        opt_signed(c.mousedx),
    ) + member("mousedy"@, c.mousedy is Some, opt_signed(c.mousedy)) + "}"@
}

/// The inputs among the first `n` commands.
pub open spec fn inputs(vs: Seq<Seen>, n: int) -> Seq<Seq<char>>
    decreases n,
{
    if n <= 0 {
        Seq::empty()
    } else {
        match vs[n - 1].entry {
            Held::Input(_, number, Some(c)) => inputs(vs, n - 1).push(
                input_json(vs[n - 1].tick, number, c),
            ),
            _ => inputs(vs, n - 1),
        }
    }
}

/// The first `n` rows, a comma and a line break between them.
pub open spec fn rows_joined(rows: Seq<Seq<char>>, n: int) -> Seq<char>
    decreases n,
{
    if n <= 0 {
        Seq::empty()
    } else if n == 1 {
        rows[0]
    } else {
        rows_joined(rows, n - 1) + ",\n"@ + rows[n - 1]
    }
}

/// An array with a row to a line.
pub open spec fn lines_array(rows: Seq<Seq<char>>) -> Seq<char> {
    "[\n"@ + rows_joined(rows, rows.len() as int) + (if rows.len() > 0 {
        "\n"@
    } else {
        Seq::empty()
    }) + "]\n"@
}

fn push_key(out: &mut String, key: &str)
    ensures
        final(out)@ == old(out)@ + (",\""@ + key@ + "\":"@),
{
    out.push_str(",\"");
    out.push_str(key);
    out.push_str("\":");
    assert(out@ =~= old(out)@ + (",\""@ + key@ + "\":"@));
}

fn push_fixed_member(out: &mut String, key: &str, v: Option<u32>, places: u32)
    requires
        1 <= places <= 6,
    ensures
        final(out)@ == old(out)@ + member(key@, v is Some, opt_fixed(v, places as nat)),
{
    match v {
        Some(_) => {
            push_key(out, key);
            push_opt_fixed(out, v, places);
        },
        None => {},
    }
    assert(out@ =~= old(out)@ + member(key@, v is Some, opt_fixed(v, places as nat)));
}

fn push_decimal_member(out: &mut String, key: &str, v: Option<u32>)
    ensures
        final(out)@ == old(out)@ + member(key@, v is Some, opt_decimal(v)),
{
    match v {
        Some(_) => {
            push_key(out, key);
            push_opt_decimal(out, v);
        },
        None => {},
    }
    assert(out@ =~= old(out)@ + member(key@, v is Some, opt_decimal(v)));
}

fn push_byte_member(out: &mut String, key: &str, v: Option<u8>)
    ensures
        final(out)@ == old(out)@ + member(key@, v is Some, opt_byte(v)),
{
    match v {
        Some(_) => {
            push_key(out, key);
            push_opt_byte(out, v);
        },
        None => {},
    }
    assert(out@ =~= old(out)@ + member(key@, v is Some, opt_byte(v)));
}

fn push_signed_member(out: &mut String, key: &str, v: Option<i16>)
    ensures
        final(out)@ == old(out)@ + member(key@, v is Some, opt_signed(v)),
{
    match v {
        Some(_) => {
            push_key(out, key);
            push_opt_signed(out, v);
        },
        None => {},
    }
    assert(out@ =~= old(out)@ + member(key@, v is Some, opt_signed(v)));
}

fn write_input_json(tick: i32, number: u32, c: &UserCmd) -> (r: String)
    ensures
        r@ == input_json(tick, number, *c),
{
    let mut out = String::new();
    out.push_str("  {\"tick\":");
    push_signed(&mut out, tick as i64);
    out.push_str(",\"cmd\":");
    push_decimal(&mut out, number as u64);
    push_fixed_member(&mut out, "pitch", c.pitch, 4);
    push_fixed_member(&mut out, "yaw", c.yaw, 4);
    push_fixed_member(&mut out, "roll", c.roll, 4);
    push_fixed_member(&mut out, "fwd", c.forwardmove, 2);
    push_fixed_member(&mut out, "side", c.sidemove, 2);
    push_fixed_member(&mut out, "up", c.upmove, 2);
    let ghost o = out@;
    match c.buttons {
        Some(v) => {
            out.push_str(",\"buttons\":");
            push_decimal(&mut out, v as u64);
            out.push_str(",\"buttons_str\":\"");
            out.push_str(fmt_buttons(v).as_str());
            out.push_str("\"");
        },
        None => {},
    }
    assert(out@ =~= o + buttons_member(c.buttons));
    push_byte_member(&mut out, "impulse", c.impulse);
    push_decimal_member(&mut out, "weapon", c.weaponselect);
    push_decimal_member(&mut out, "weapon_sub", c.weaponsubtype);
    push_signed_member(&mut out, "mousedx", c.mousedx);
    push_signed_member(&mut out, "mousedy", c.mousedy);
    out.push_str("}");
    assert(out@ =~= input_json(tick, number, *c));
    out
}

/// Writes the inputs as a JSON array.
pub fn write_json(vs: &Vec<Visit>) -> (r: String)
    ensures
        r@ == lines_array(inputs(seen_in(vs@), vs@.len() as int)),
{
    let ghost s = seen_in(vs@);
    let mut out = String::new();
    out.push_str("[\n");
    let mut any = false;
    let mut i: usize = 0;
    assert(out@ =~= "[\n"@ + rows_joined(inputs(s, 0), 0));
    while i < vs.len()
        invariant
            i <= vs@.len(),
            s == seen_in(vs@),
            any == (inputs(s, i as int).len() > 0),
            out@ == "[\n"@ + rows_joined(inputs(s, i as int), inputs(s, i as int).len() as int),
        decreases vs@.len() - i,
    {
        assert(s[i as int] == vs@[i as int]@);
        let ghost rows = inputs(s, i as int);
        match &vs[i].entry {
            Entry::Input(_, number, Some(c)) => {
                if any {
                    out.push_str(",\n");
                }
                let row = write_input_json(vs[i].tick, *number, c);
                out.push_str(row.as_str());
                proof {
                    lemma_rows_prefix(rows, row@, rows.len() as int);
                    assert(out@ =~= "[\n"@ + rows_joined(rows.push(row@), rows.len() as int + 1));
                }
                any = true;
            },
            _ => {},
        }
        i += 1;
    }
    if any {
        out.push_str("\n");
    }
    out.push_str("]\n");
    assert(out@ =~= lines_array(inputs(s, vs@.len() as int)));
    out
}

proof fn lemma_rows_prefix(rows: Seq<Seq<char>>, row: Seq<char>, n: int)
    requires
        0 <= n <= rows.len(),
    ensures
        rows_joined(rows.push(row), n) == rows_joined(rows, n),
    decreases n,
{
    if n > 0 {
        lemma_rows_prefix(rows, row, n - 1);
        assert(rows.push(row)[n - 1] == rows[n - 1]);
    }
}

/// How many of the first `n` commands are of a kind.
pub open spec fn count_of(vs: Seq<Seen>, cmd: u8, n: int) -> nat
    decreases n,
{
    if n <= 0 {
        0
    } else {
        count_of(vs, cmd, n - 1) + (if vs[n - 1].cmd == cmd {
            1nat
        } else {
            0
        })
    }
}

/// How many of the first `n` commands are inputs that were read.
pub open spec fn input_count(vs: Seq<Seen>, n: int) -> nat
    decreases n,
{
    if n <= 0 {
        0
    } else {
        input_count(vs, n - 1) + (if vs[n - 1].entry matches Held::Input(_, _, Some(_)) {
            1nat
        } else {
            0
        })
    }
}

/// The latest tick of the first `n` commands, but not below zero.
pub open spec fn latest(vs: Seq<Seen>, n: int) -> int
    decreases n,
{
    if n <= 0 {
        0
    } else if vs[n - 1].tick > latest(vs, n - 1) {
        vs[n - 1].tick as int
    } else {
        latest(vs, n - 1)
    }
}

/// Whether a command ends a listing.
pub open spec fn ends_listing(e: Held) -> bool {
    e is Stop || e is Cut || e is Unknown
}

/// How many commands were passed: all but the one that ended the listing.
pub open spec fn passed(vs: Seq<Seen>) -> nat {
    if vs.len() > 0 && ends_listing(vs.last().entry) {
        (vs.len() - 1) as nat
    } else {
        vs.len()
    }
}

pub open spec fn summary_text(vs: Seq<Seen>) -> Seq<char> {
    let n = vs.len() as int;
    "\n\u{2554}\u{2550}\u{2550} Summary\n"@ + "\u{2551}  Packets parsed   : "@ + decimal(passed(vs))
        + "\n\u{2551}  Last tick seen   : "@ + decimal(latest(vs, n) as nat)
        + "\n\u{2551}  Signon           : "@ + decimal(count_of(vs, 1, n))
        + "\n\u{2551}  Packet (game)    : "@ + decimal(count_of(vs, 2, n))
        + "\n\u{2551}  ConsoleCmd       : "@ + decimal(count_of(vs, 4, n))
        + "\n\u{2551}  UserCmd (inputs) : "@ + decimal(input_count(vs, n))
        + "\n\u{2551}  DataTables       : "@ + decimal(count_of(vs, 6, n))
        + "\n\u{2551}  StringTables     : "@ + decimal(count_of(vs, 8, n) + count_of(vs, 9, n))
        + "\n\u{255a}\u{2550}\u{2550}\n"@
}

fn count_cmds(vs: &Vec<Visit>, cmd: u8) -> (r: usize)
    ensures
        r == count_of(seen_in(vs@), cmd, vs@.len() as int),
        r <= vs@.len(),
{
    let ghost s = seen_in(vs@);
    let mut n: usize = 0;
    let mut i: usize = 0;
    while i < vs.len()
        invariant
            n <= i <= vs@.len(),
            s == seen_in(vs@),
            n == count_of(s, cmd, i as int),
        decreases vs@.len() - i,
    {
        assert(s[i as int] == vs@[i as int]@);
        if vs[i].cmd == cmd {
            n += 1;
        }
        i += 1;
    }
    n
}

fn count_inputs(vs: &Vec<Visit>) -> (r: usize)
    ensures
        r == input_count(seen_in(vs@), vs@.len() as int),
{
    let ghost s = seen_in(vs@);
    let mut n: usize = 0;
    let mut i: usize = 0;
    while i < vs.len()
        invariant
            n <= i <= vs@.len(),
            s == seen_in(vs@),
            n == input_count(s, i as int),
        decreases vs@.len() - i,
    {
        assert(s[i as int] == vs@[i as int]@);
        match &vs[i].entry {
            Entry::Input(_, _, Some(_)) => {
                n += 1;
            },
            _ => {},
        }
        i += 1;
    }
    n
}

fn find_latest(vs: &Vec<Visit>) -> (r: i32)
    ensures
        r == latest(seen_in(vs@), vs@.len() as int),
        r >= 0,
{
    let ghost s = seen_in(vs@);
    let mut t: i32 = 0;
    let mut i: usize = 0;
    while i < vs.len()
        invariant
            i <= vs@.len(),
            s == seen_in(vs@),
            t == latest(s, i as int),
            t >= 0,
        decreases vs@.len() - i,
    {
        assert(s[i as int] == vs@[i as int]@);
        if vs[i].tick > t {
            t = vs[i].tick;
        }
        i += 1;
    }
    t
}

/// How many commands were passed.
pub fn count_passed(vs: &Vec<Visit>) -> (r: usize)
    ensures
        r == passed(seen_in(vs@)),
{
    let n: usize = vs.len();
    if n > 0 {
        assert(seen_in(vs@).last() == vs@.last()@);
        match &vs[n - 1].entry {
            Entry::Stop | Entry::Cut | Entry::Unknown => {
                return n - 1;
            },
            _ => {},
        }
    }
    n
}

/// Writes what a listing ends with.
pub fn write_summary(vs: &Vec<Visit>) -> (r: String)
    ensures
        r@ == summary_text(seen_in(vs@)),
{
    let ghost s = seen_in(vs@);
    let tables: usize = count_cmds(vs, 8);
    let newer: usize = count_cmds(vs, 9);
    proof {
        assert(s.len() == vs.len());
        lemma_two_kinds(s, 8, 9, s.len() as int);
    }
    let mut out = String::new();
    out.push_str("\n\u{2554}\u{2550}\u{2550} Summary\n");
    out.push_str("\u{2551}  Packets parsed   : ");
    push_decimal(&mut out, count_passed(vs) as u64);
    out.push_str("\n\u{2551}  Last tick seen   : ");
    push_decimal(&mut out, find_latest(vs) as u64);
    out.push_str("\n\u{2551}  Signon           : ");
    push_decimal(&mut out, count_cmds(vs, 1) as u64);
    out.push_str("\n\u{2551}  Packet (game)    : ");
    push_decimal(&mut out, count_cmds(vs, 2) as u64);
    out.push_str("\n\u{2551}  ConsoleCmd       : ");
    push_decimal(&mut out, count_cmds(vs, 4) as u64);
    out.push_str("\n\u{2551}  UserCmd (inputs) : ");
    push_decimal(&mut out, count_inputs(vs) as u64);
    out.push_str("\n\u{2551}  DataTables       : ");
    push_decimal(&mut out, count_cmds(vs, 6) as u64);
    out.push_str("\n\u{2551}  StringTables     : ");
    push_decimal(&mut out, (tables + newer) as u64);
    out.push_str("\n\u{255a}\u{2550}\u{2550}\n");
    assert(out@ =~= summary_text(s));
    out
}

proof fn lemma_two_kinds(vs: Seq<Seen>, a: u8, b: u8, n: int)
    requires
        a != b,
        0 <= n <= vs.len(),
    ensures
        count_of(vs, a, n) + count_of(vs, b, n) <= n,
    decreases n,
{
    if n > 0 {
        lemma_two_kinds(vs, a, b, n - 1);
    }
}

/// What a listing of a file of `size` bytes starts with.
pub open spec fn head_text(h: &DemoHeader, name: Seq<char>, size: nat) -> Seq<char> {
    "\u{2554}\u{2550}\u{2550} "@ + name + "\n\u{2551}  Map      : "@ + h.map_name@
        + "\n\u{2551}  Client   : "@ + h.client_name@ + "\n\u{2551}  Server   : "@ + h.server_name@
        + "\n\u{2551}  Game     : "@ + h.game_dir@ + "\n\u{2551}  Protocols: demo="@
        + signed_decimal(h.demo_protocol as int) + " net="@ + signed_decimal(h.net_protocol as int)
        + "\n\u{2551}  Length   : "@ + fixed_text(h.playback_time, 2) + "s  ticks="@
        + signed_decimal(h.ticks as int) + "  frames="@ + signed_decimal(h.frames as int)
        + "  signon_len="@ + signed_decimal(h.sign_on_length as int)
        + "\n\u{255a}\u{2550}\u{2550} ("@ + decimal(size) + " bytes on disk)\n\n"@
}

/// Writes what a listing starts with.
pub fn write_head(h: &DemoHeader, name: &str, size: usize) -> (r: String)
    ensures
        r@ == head_text(h, name@, size as nat),
{
    let mut out = String::new();
    out.push_str("\u{2554}\u{2550}\u{2550} ");
    out.push_str(name);
    out.push_str("\n\u{2551}  Map      : ");
    out.push_str(h.map_name.as_str());
    out.push_str("\n\u{2551}  Client   : ");
    out.push_str(h.client_name.as_str());
    out.push_str("\n\u{2551}  Server   : ");
    out.push_str(h.server_name.as_str());
    out.push_str("\n\u{2551}  Game     : ");
    out.push_str(h.game_dir.as_str());
    out.push_str("\n\u{2551}  Protocols: demo=");
    push_signed(&mut out, h.demo_protocol as i64);
    out.push_str(" net=");
    push_signed(&mut out, h.net_protocol as i64);
    out.push_str("\n\u{2551}  Length   : ");
    out.push_str(fixed(h.playback_time, 2).as_str());
    out.push_str("s  ticks=");
    push_signed(&mut out, h.ticks as i64);
    out.push_str("  frames=");
    push_signed(&mut out, h.frames as i64);
    out.push_str("  signon_len=");
    push_signed(&mut out, h.sign_on_length as i64);
    out.push_str("\n\u{255a}\u{2550}\u{2550} (");
    push_decimal(&mut out, size as u64);
    out.push_str(" bytes on disk)\n\n");
    assert(out@ =~= head_text(h, name@, size as nat));
    out
}

} // verus!
