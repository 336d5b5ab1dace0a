//! Matrix-style boot animation: falling glyph rain that resolves into a flashing `l3ms`
//! logo before the workbench takes over.
//!
//! This module decides what is drawn and what comes next; drawing and waiting for keys
//! is left to the terminal.

use crate::text;
use crate::theme;
use crate::theme::{Color, TextStyle};
use vstd::prelude::*;

verus! {

pub const LOGO_WIDTH: u16 = 22;

pub const LOGO_HEIGHT: u16 = 5;

/// How long a frame of the rain waits for a key, in milliseconds.
pub const RAIN_TICK_MS: u64 = 40;

/// How long it rains, in milliseconds.
pub const RAIN_DURATION_MS: u64 = 1400;

/// How long each flash of the logo lasts, in milliseconds.
pub const FLASH_STEP_MS: u64 = 100;

/// How often the logo flashes.
pub const FLASH_TOGGLES: usize = 6;

/// How long the logo stays, in milliseconds.
pub const FLASH_HOLD_MS: u64 = 500;

/// The number of glyphs that it rains.
pub const GLYPH_COUNT: usize = 64;

/// The rows of the logo.
pub open spec fn logo_rows() -> Seq<Seq<char>> {
    seq![
        "█  █████  █   █  █████"@,
        "█      █  ██ ██  █    "@,
        "█   ████  █ █ █  █████"@,
        "█      █  █   █      █"@,
        "█  █████  █   █  █████"@,
    ]
}

/// The rows of the logo.
pub fn logo() -> (rows: Vec<&'static str>)
    ensures
        text::views(rows@) == logo_rows(),
        rows@.len() == LOGO_HEIGHT,
{
    let rows: Vec<&'static str> = vec![
        "█  █████  █   █  █████",
        "█      █  ██ ██  █    ",
        "█   ████  █ █ █  █████",
        "█      █  █   █      █",
        "█  █████  █   █  █████",
    ];
    assert(text::views(rows@) =~= logo_rows());
    rows
}

/// Every row of the logo has the same width.
pub proof fn logo_rows_are_aligned(row: int)
    requires
        0 <= row < logo_rows().len(),
    ensures
        logo_rows()[row].len() == LOGO_WIDTH,
{
    reveal_strlit("█  █████  █   █  █████");
    reveal_strlit("█      █  ██ ██  █    ");
    reveal_strlit("█   ████  █ █ █  █████");
    reveal_strlit("█      █  █   █      █");
}

/// The glyphs that it rains.
pub open spec fn glyphs() -> Seq<char> {
    "ｱｲｳｴｵｶｷｸｹｺｻｼｽｾｿﾀﾁﾂﾃﾄﾅﾆﾇﾈﾉﾊﾋﾌﾍﾎﾏﾐﾑﾒﾓﾔﾕﾖﾗﾘﾙﾚﾛﾜﾝ0123456789lms:=+*<>"@
}

/// The glyphs that it rains.
fn glyph_list() -> (list: Vec<char>)
    ensures
        list@ == glyphs(),
        list@.len() == GLYPH_COUNT,
{
    let list = text::chars_of(
        "ｱｲｳｴｵｶｷｸｹｺｻｼｽｾｿﾀﾁﾂﾃﾄﾅﾆﾇﾈﾉﾊﾋﾌﾍﾎﾏﾐﾑﾒﾓﾔﾕﾖﾗﾘﾙﾚﾛﾜﾝ0123456789lms:=+*<>",
    );
    proof {
        reveal_strlit(
            "ｱｲｳｴｵｶｷｸｹｺｻｼｽｾｿﾀﾁﾂﾃﾄﾅﾆﾇﾈﾉﾊﾋﾌﾍﾎﾏﾐﾑﾒﾓﾔﾕﾖﾗﾘﾙﾚﾛﾜﾝ0123456789lms:=+*<>",
        );
    }
    list
}

/// The state of the generator after one step.
pub open spec fn stepped(state: u64) -> u64 {
    let a = state ^ (state >> 12);
    let b = a ^ (a << 25);
    b ^ (b >> 27)
}

/// What the generator gives for its state.
pub open spec fn output(state: u64) -> u64 {
    ((state * 0x2545_F491_4F6C_DD1D) % 0x1_0000_0000_0000_0000) as u64
}

/// A number below `bound` and the state of the generator behind it. Where `bound` is
/// zero the number is zero, and the generator does not step.
pub open spec fn drawn(state: u64, bound: u64) -> (u64, u64) {
    if bound == 0 {
        (0, state)
    } else {
        (output(stepped(state)) % bound, stepped(state))
    }
}

/// A pseudo-random generator.
pub struct Rng(pub u64);

impl Rng {
    /// A generator for a time, in nanoseconds, and a process id.
    pub fn from_clock(nanos: Option<u64>, pid: u32) -> (rng: Self)
        ensures
            rng.0 == ((match nanos {
                Some(n) => n,
                None => 0x9E37_79B9_7F4A_7C15,
            }) ^ ((pid as u64) << 32)) | 1,
    {
        let nanos: u64 = match nanos {
            Some(n) => n,
            None => 0x9E37_79B9_7F4A_7C15,
        };
        Rng((nanos ^ ((pid as u64) << 32)) | 1)
    }

    pub fn next(&mut self) -> (n: u64)
        ensures
            final(self).0 == stepped(old(self).0),
            n == output(final(self).0),
    {
        let mut x: u64 = self.0;
        x = x ^ (x >> 12);
        x = x ^ (x << 25);
        x = x ^ (x >> 27);
        self.0 = x;
        x.wrapping_mul(0x2545_F491_4F6C_DD1D)
    }

    pub fn below(&mut self, bound: u64) -> (n: u64)
        ensures
            (n, final(self).0) == drawn(old(self).0, bound),
            bound > 0 ==> n < bound,
    {
        if bound == 0 {
            0
        } else {
            self.next() % bound
        }
    }
}

/// A generator that starts from a time and a process id never runs dry: its state is not
/// zero, and no step makes it zero.
pub proof fn rng_never_runs_dry(nanos: u64, pid: u32, state: u64)
    ensures
        (nanos ^ ((pid as u64) << 32)) | 1 != 0,
        state != 0 ==> stepped(state) != 0,
{
    let mixed = nanos ^ ((pid as u64) << 32);
    assert(mixed | 1 != 0) by (bit_vector);
    let a = state ^ (state >> 12);
    let b = a ^ (a << 25);
    assert(state != 0 ==> a != 0) by (bit_vector)
        requires
            a == state ^ (state >> 12),
    ;
    assert(a != 0 ==> b != 0) by (bit_vector)
        requires
            b == a ^ (a << 25),
    ;
    assert(b != 0 ==> b ^ (b >> 27) != 0) by (bit_vector);
}

/// One column of the rain: its place, the row of its head, how many rows it falls per
/// frame, and the length of its trail.
#[derive(Debug, Clone, Copy, PartialEq, Eq, Structural)]
pub struct Column {
    pub x: u16,
    pub head: i32,
    pub speed: i32,
    pub len: i32,
}

/// The larger of two numbers.
pub open spec fn at_least(n: int, least: int) -> int {
    if n < least {
        least
    } else {
        n
    }
}

/// A column that starts above the screen by at least `above` rows, and the state of the
/// generator behind it.
pub open spec fn fresh_column(x: u16, height: u16, above: int, state: u64) -> (Column, u64) {
    let head = drawn(state, at_least(height as int, 2) as u64);
    let speed = drawn(head.1, 2);
    let len = drawn(speed.1, at_least(height as int / 2, 1) as u64);
    (
        Column {
            x,
            head: (-(head.0 as int) - above) as i32,
            speed: (1 + speed.0) as i32,
            len: (4 + len.0) as i32,
        },
        len.1,
    )
}

/// The column one frame later, and the state of the generator behind it. A column whose
/// trail has left the screen starts again from above, with a trail that is not longer
/// than the screen is high.
pub open spec fn fallen(column: Column, height: u16, state: u64) -> (Column, u64) {
    let head = column.head + column.speed;
    if head - column.len > height {
        let (fresh, after) = fresh_column(column.x, height, 0, state);
        (
            Column {
                len: if fresh.len > height {
                    height as i32
                } else {
                    fresh.len
                },
                ..fresh
            },
            after,
        )
    } else {
        (Column { head: head as i32, ..column }, state)
    }
}

/// Whether a column is one that it rains on a screen of this height: it falls by one or
/// two rows, and neither its trail nor its distance from the screen is larger than the
/// screen allows.
pub open spec fn is_raining(column: Column, height: u16) -> bool {
    &&& 1 <= column.speed <= 2
    &&& 0 <= column.len <= height + 4
    &&& -(height + 3) <= column.head <= height + column.len
}

pub proof fn lemma_fresh_column(x: u16, height: u16, above: int, state: u64)
    requires
        0 <= above <= 1,
    ensures
        is_raining(fresh_column(x, height, above, state).0, height),
        fresh_column(x, height, above, state).0.head <= 0,
        fresh_column(x, height, above, state).0.len >= 4,
{
    let head = drawn(state, at_least(height as int, 2) as u64);
    let speed = drawn(head.1, 2);
    let len = drawn(speed.1, at_least(height as int / 2, 1) as u64);
    assert(head.0 < at_least(height as int, 2));
    assert(speed.0 < 2);
    assert(len.0 < at_least(height as int / 2, 1));
}

/// A column of the rain stays one, frame after frame.
pub proof fn rain_keeps_raining(column: Column, height: u16, state: u64)
    requires
        is_raining(column, height),
    ensures
        is_raining(fallen(column, height, state).0, height),
{
    lemma_fresh_column(column.x, height, 0, state);
}

fn max_of(n: u64, least: u64) -> (m: u64)
    ensures
        m == at_least(n as int, least as int),
{
    if n < least {
        least
    } else {
        n
    }
}

impl Column {
    /// A column that starts above the screen by at least `above` rows.
    fn fresh(x: u16, height: u16, above: i32, rng: &mut Rng) -> (column: Column)
        requires
            0 <= above <= 1,
        ensures
            (column, final(rng).0) == fresh_column(x, height, above as int, old(rng).0),
    {
        let head: u64 = rng.below(max_of(height as u64, 2));
        let speed: u64 = rng.below(2);
        let len: u64 = rng.below(max_of(height as u64 / 2, 1));
        Column { x, head: -(head as i32) - above, speed: 1 + speed as i32, len: 4 + len as i32 }
    }

    /// Lets the column fall for one frame.
    pub fn advance(&mut self, height: u16, rng: &mut Rng)
        requires
            i32::MIN <= old(self).head + old(self).speed <= i32::MAX,
            i32::MIN <= old(self).head + old(self).speed - old(self).len <= i32::MAX,
        ensures
            (*final(self), final(rng).0) == fallen(*old(self), height, old(rng).0),
            is_raining(*old(self), height) ==> is_raining(*final(self), height),
    {
        proof {
            if is_raining(*self, height) {
                rain_keeps_raining(*self, height, rng.0);
            }
        }
        self.head = self.head + self.speed;
        if self.head - self.len > height as i32 {
            let fresh = Column::fresh(self.x, height, 0, rng);
            self.head = fresh.head;
            self.speed = fresh.speed;
            self.len = fresh.len;
            if self.len > height as i32 {
                self.len = height as i32;
            }
        }
    }
}

/// The columns of the first `width` places, and the state of the generator behind them. A
/// fifth of the places stays dry.
pub open spec fn rain_columns(width: int, height: u16, state: u64) -> (Seq<Column>, u64)
    decreases width,
{
    if width <= 0 {
        (Seq::empty(), state)
    } else {
        let (columns, before) = rain_columns(width - 1, height, state);
        let (chance, after) = drawn(before, 100);
        if chance >= 80 {
            (columns, after)
        } else {
            let (column, later) = fresh_column((width - 1) as u16, height, 1, after);
            (columns.push(column), later)
        }
    }
}

/// The columns of the rain for a screen.
pub fn spawn_columns(width: u16, height: u16, rng: &mut Rng) -> (columns: Vec<Column>)
    ensures
        (columns@, final(rng).0) == rain_columns(width as int, height, old(rng).0),
        forall|i: int| 0 <= i < columns@.len() ==> is_raining(#[trigger] columns@[i], height),
{
    let mut columns: Vec<Column> = Vec::new();
    for x in 0..width
        invariant
            (columns@, rng.0) == rain_columns(x as int, height, old(rng).0),
            forall|i: int| 0 <= i < columns@.len() ==> is_raining(#[trigger] columns@[i], height),
    {
        if rng.below(100) < 80 {
            proof {
                lemma_fresh_column(x, height, 1, rng.0);
            }
            columns.push(Column::fresh(x, height, 1, rng));
        }
    }
    columns
}

/// The columns one frame later, and the state of the generator behind them.
pub open spec fn all_fallen(columns: Seq<Column>, height: u16, state: u64) -> (Seq<Column>, u64)
    decreases columns.len(),
{
    if columns.len() == 0 {
        (Seq::empty(), state)
    } else {
        let (earlier, before) = all_fallen(columns.drop_last(), height, state);
        let (column, after) = fallen(columns.last(), height, before);
        (earlier.push(column), after)
    }
}

/// Lets every column fall for one frame.
pub fn advance_columns(columns: &mut Vec<Column>, height: u16, rng: &mut Rng)
    requires
        forall|i: int|
            0 <= i < old(columns)@.len() ==> is_raining(#[trigger] old(columns)@[i], height),
    ensures
        (final(columns)@, final(rng).0) == all_fallen(old(columns)@, height, old(rng).0),
        forall|i: int|
            0 <= i < final(columns)@.len() ==> is_raining(#[trigger] final(columns)@[i], height),
{
    let ghost given = columns@;
    let mut moved: Vec<Column> = Vec::new();
    assert(given.take(0) =~= Seq::<Column>::empty());
    for i in 0..columns.len()
        invariant
            given == columns@,
            forall|j: int| 0 <= j < given.len() ==> is_raining(#[trigger] given[j], height),
            (moved@, rng.0) == all_fallen(given.take(i as int), height, old(rng).0),
            forall|j: int| 0 <= j < moved@.len() ==> is_raining(#[trigger] moved@[j], height),
    {
        proof {
            assert(given.take(i + 1).drop_last() =~= given.take(i as int));
            assert(is_raining(given[i as int], height));
        }
        let mut column = columns[i];
        column.advance(height, rng);
        moved.push(column);
    }
    assert(given.take(given.len() as int) =~= given);
    *columns = moved;
}

/// The style of the trail at a distance from its head: bright at the head, and darker the
/// further away.
pub open spec fn trail_look(distance: int) -> TextStyle {
    TextStyle {
        fg: Some(
            if distance == 0 {
                Color::Rgb(0xB4, 0xFF, 0xB4)
            } else if distance <= 2 {
                theme::green()
            } else if distance <= 5 {
                theme::dim_green()
            } else if distance <= 9 {
                Color::Rgb(0x00, 0x64, 0x00)
            } else {
                Color::Rgb(0x00, 0x32, 0x00)
            },
        ),
        bg: None,
        bold: distance == 0,
    }
}

pub fn trail_style(distance: u32) -> (style: TextStyle)
    ensures
        style == trail_look(distance as int),
{
    let color = if distance == 0 {
        Color::Rgb(0xB4, 0xFF, 0xB4)
    } else if distance <= 2 {
        theme::green()
    } else if distance <= 5 {
        theme::dim_green()
    } else if distance <= 9 {
        Color::Rgb(0x00, 0x64, 0x00)
    } else {
        Color::Rgb(0x00, 0x32, 0x00)
    };
    TextStyle { fg: Some(color), bg: None, bold: distance == 0 }
}

/// The trail gets darker from its head to its end, and never brighter again.
pub proof fn trail_only_fades(near: int, far: int)
    requires
        0 <= near <= far,
    ensures
        match (trail_look(near).fg, trail_look(far).fg) {
            (Some(Color::Rgb(r, g, b)), Some(Color::Rgb(far_r, far_g, far_b))) => r >= far_r && g
                >= far_g && b >= far_b,
            _ => false,
        },
        trail_look(far).bold ==> trail_look(near).bold,
{
}

/// One character on the screen.
#[derive(Debug, Clone, Copy, PartialEq, Eq)]
pub struct ScreenCell {
    pub x: u16,
    pub y: u16,
    pub glyph: char,
    pub style: TextStyle,
}

/// The cells of a column's trail from distance `d` on, and the state of the generator
/// behind them: rows below the screen are passed over, and rows above it end the trail.
pub open spec fn trail_cells(column: Column, d: int, height: u16, state: u64) -> (
    Seq<ScreenCell>,
    u64,
)
    decreases column.len - d,
{
    let y = column.head - d;
    if d >= column.len || y < 0 {
        (Seq::empty(), state)
    } else if y >= height {
        trail_cells(column, d + 1, height, state)
    } else {
        let (pick, after) = drawn(state, GLYPH_COUNT as u64);
        let cell = ScreenCell {
            x: column.x,
            y: y as u16,
            glyph: glyphs()[pick as int],
            style: trail_look(d),
        };
        let (rest, later) = trail_cells(column, d + 1, height, after);
        (seq![cell] + rest, later)
    }
}

/// The cells of the trails, and the state of the generator behind them. Columns to the
/// right of the screen are passed over.
pub open spec fn rain_cells(columns: Seq<Column>, width: u16, height: u16, state: u64) -> (
    Seq<ScreenCell>,
    u64,
)
    decreases columns.len(),
{
    if columns.len() == 0 {
        (Seq::empty(), state)
    } else {
        let (earlier, before) = rain_cells(columns.drop_last(), width, height, state);
        if columns.last().x >= width {
            (earlier, before)
        } else {
            let (cells, after) = trail_cells(columns.last(), 0, height, before);
            (earlier + cells, after)
        }
    }
}

/// The glyph at a position of a list.
fn glyph_at(list: &Vec<char>, i: usize) -> (glyph: char)
    requires
        i < list@.len(),
    ensures
        glyph == list@[i as int],
{
    list[i]
}

/// Appends the cells of a column's trail.
fn draw_trail(
    cells: &mut Vec<ScreenCell>,
    column: Column,
    height: u16,
    list: &Vec<char>,
    rng: &mut Rng,
)
    requires
        column.head - column.len >= i32::MIN,
        list@ == glyphs(),
        list@.len() == GLYPH_COUNT,
    ensures
        ({
            let (trail, after) = trail_cells(column, 0, height, old(rng).0);
            final(cells)@ == old(cells)@ + trail && final(rng).0 == after
        }),
{
    let ghost given = cells@;
    let ghost start = rng.0;
    let ghost goal = trail_cells(column, 0, height, start);
    let mut d: i32 = 0;
    assert(given + goal.0 =~= cells@ + trail_cells(column, 0, height, rng.0).0);
    while d < column.len
        invariant
            0 <= d,
            column.head - column.len >= i32::MIN,
            list@ == glyphs(),
            list@.len() == GLYPH_COUNT,
            goal == trail_cells(column, 0, height, start),
            given + goal.0 == cells@ + trail_cells(column, d as int, height, rng.0).0,
            goal.1 == trail_cells(column, d as int, height, rng.0).1,
            given == old(cells)@,
            start == old(rng).0,
        decreases column.len - d,
    {
        let y: i32 = column.head - d;
        if y < 0 {
            assert(cells@ + Seq::<ScreenCell>::empty() =~= cells@);
            return;
        }
        if y < height as i32 {
            let ghost earlier = cells@;
            let ghost before = rng.0;
            let pick: u64 = rng.below(GLYPH_COUNT as u64);
            let cell = ScreenCell {
                x: column.x,
                y: y as u16,
                glyph: glyph_at(list, pick as usize),
                style: trail_style(d as u32),
            };
            cells.push(cell);
            proof {
                let rest = trail_cells(column, d + 1, height, rng.0).0;
                assert(trail_cells(column, d as int, height, before).0 == seq![cell] + rest);
                assert(earlier + (seq![cell] + rest) =~= cells@ + rest);
            }
        }
        d = d + 1;
    }
    assert(cells@ + Seq::<ScreenCell>::empty() =~= cells@);
}

/// The cells of one frame of the rain.
pub fn draw_rain(columns: &[Column], width: u16, height: u16, rng: &mut Rng) -> (cells: Vec<
    ScreenCell,
>)
    requires
        forall|i: int|
            0 <= i < columns@.len() ==> (#[trigger] columns@[i]).head - columns@[i].len >= i32::MIN,
    ensures
        (cells@, final(rng).0) == rain_cells(columns@, width, height, old(rng).0),
{
    let list = glyph_list();
    let mut cells: Vec<ScreenCell> = Vec::new();
    assert(columns@.take(0) =~= Seq::<Column>::empty());
    for i in 0..columns.len()
        invariant
            forall|j: int|
                0 <= j < columns@.len() ==> (#[trigger] columns@[j]).head - columns@[j].len
                    >= i32::MIN,
            list@ == glyphs(),
            list@.len() == GLYPH_COUNT,
            (cells@, rng.0) == rain_cells(columns@.take(i as int), width, height, old(rng).0),
    {
        assert(columns@.take(i + 1).drop_last() =~= columns@.take(i as int));
        let column = columns[i];
        if column.x < width {
            assert(columns@[i as int].head - columns@[i as int].len >= i32::MIN);
            draw_trail(&mut cells, column, height, &list, rng);
        }
    }
    assert(columns@.take(columns@.len() as int) =~= columns@);
    cells
}

/// Whether the logo fits on a screen with a margin.
pub open spec fn logo_fits(width: u16, height: u16) -> bool {
    width >= LOGO_WIDTH + 4 && height >= LOGO_HEIGHT + 4
}

/// Where the logo stands on a screen.
pub open spec fn logo_origin(width: u16, height: u16) -> (int, int) {
    (at_least(width - LOGO_WIDTH, 0) / 2, at_least(height - LOGO_HEIGHT, 0) / 2)
}

/// Whether the animation plays: it is not switched off, and the logo fits on the screen
/// with a margin.
pub fn plays(disabled: bool, width: u16, height: u16) -> (play: bool)
    ensures
        play == (!disabled && logo_fits(width, height)),
{
    !disabled && width >= LOGO_WIDTH + 4 && height >= LOGO_HEIGHT + 4
}

/// Where the logo stands on a screen: in the middle.
pub fn flash_origin(width: u16, height: u16) -> (origin: (u16, u16))
    ensures
        (origin.0 as int, origin.1 as int) == logo_origin(width, height),
{
    (width.saturating_sub(LOGO_WIDTH) / 2, height.saturating_sub(LOGO_HEIGHT) / 2)
}

/// The style of the logo.
pub open spec fn flash_look(inverted: bool) -> TextStyle {
    if inverted {
        TextStyle { fg: Some(Color::Black), bg: Some(theme::green()), bold: false }
    } else {
        TextStyle { fg: Some(theme::green()), bg: None, bold: true }
    }
}

/// The style of the logo; inverted, it is also that of the whole screen.
pub fn flash_style(inverted: bool) -> (style: TextStyle)
    ensures
        style == flash_look(inverted),
{
    if inverted {
        TextStyle { fg: Some(Color::Black), bg: Some(theme::green()), bold: false }
    } else {
        theme::title()
    }
}

/// The cells of the first `n` characters of a row of the logo, without the blanks and
/// without what lies outside the screen.
pub open spec fn row_cells(
    row: Seq<char>,
    n: int,
    x: int,
    y: int,
    width: u16,
    height: u16,
    style: TextStyle,
) -> Seq<ScreenCell>
    decreases n,
{
    if n <= 0 {
        Seq::empty()
    } else {
        let earlier = row_cells(row, n - 1, x, y, width, height, style);
        if row[n - 1] == ' ' || x + n - 1 >= width || y >= height {
            earlier
        } else {
            earlier.push(
                ScreenCell { x: (x + n - 1) as u16, y: y as u16, glyph: row[n - 1], style },
            )
        }
    }
}

/// The cells of the first `n` rows of the logo.
pub open spec fn logo_cells(
    n: int,
    origin: (u16, u16),
    width: u16,
    height: u16,
    style: TextStyle,
) -> Seq<ScreenCell>
    decreases n,
{
    if n <= 0 {
        Seq::empty()
    } else {
        logo_cells(n - 1, origin, width, height, style) + row_cells(
            logo_rows()[n - 1],
            LOGO_WIDTH as int,
            origin.0 as int,
            origin.1 + n - 1,
            width,
            height,
            style,
        )
    }
}

/// The cells of the logo at a place of the screen.
pub fn draw_flash(origin: (u16, u16), width: u16, height: u16, inverted: bool) -> (cells: Vec<
    ScreenCell,
>)
    requires
        origin.0 + LOGO_WIDTH - 1 <= u16::MAX,
        origin.1 + LOGO_HEIGHT - 1 <= u16::MAX,
    ensures
        cells@ == logo_cells(LOGO_HEIGHT as int, origin, width, height, flash_look(inverted)),
{
    let style = flash_style(inverted);
    let rows = logo();
    let mut cells: Vec<ScreenCell> = Vec::new();
    for row in 0..LOGO_HEIGHT
        invariant
            origin.0 + LOGO_WIDTH - 1 <= u16::MAX,
            origin.1 + LOGO_HEIGHT - 1 <= u16::MAX,
            style == flash_look(inverted),
            text::views(rows@) == logo_rows(),
            rows@.len() == LOGO_HEIGHT,
            cells@ == logo_cells(row as int, origin, width, height, style),
    {
        let chars = text::chars_of(rows[row as usize]);
        let ghost line = logo_rows()[row as int];
        proof {
            assert(text::views(rows@)[row as int] == rows@[row as int]@);
            logo_rows_are_aligned(row as int);
        }
        let ghost earlier = cells@;
        let x: u16 = origin.0;
        let y: u16 = origin.1 + row;
        assert(earlier + row_cells(line, 0, x as int, y as int, width, height, style) =~= earlier);
        for col in 0..LOGO_WIDTH
            invariant
                chars@ == line,
                line.len() == LOGO_WIDTH,
                x + LOGO_WIDTH - 1 <= u16::MAX,
                cells@ == earlier + row_cells(
                    line,
                    col as int,
                    x as int,
                    y as int,
                    width,
                    height,
                    style,
                ),
        {
            let ghost before = row_cells(
                line,
                col as int,
                x as int,
                y as int,
                width,
                height,
                style,
            );
            let glyph = glyph_at(&chars, col as usize);
            if glyph != ' ' && x + col < width && y < height {
                let cell = ScreenCell { x: x + col, y, glyph, style };
                cells.push(cell);
                assert(cells@ =~= earlier + before.push(cell));
            }
        }
    }
    cells
}

/// What the animation does at a time.
#[derive(Debug, Clone, Copy, PartialEq, Eq, Structural)]
pub enum BootPhase {
    /// It rains.
    Rain,
    /// The logo flashes for the time that is counted, from zero on.
    Flash(usize),
    /// The logo stays.
    Hold,
    Done,
}

/// What happened in a phase.
#[derive(Debug, Clone, Copy, PartialEq, Eq, Structural)]
pub enum BootEvent {
    /// A key was pressed.
    KeyPressed,
    /// The screen could not be drawn.
    DrawFailed,
    /// The phase was drawn and its time has passed; so much time has passed since the rain
    /// started, in milliseconds.
    Passed { elapsed_ms: u64 },
}

/// The phase behind an event. A key ends the animation, and so does a screen that cannot
/// be drawn, unless the logo stays already. The rain ends when its time is over, and the
/// logo then flashes its number of times and stays.
pub open spec fn phase_behind(phase: BootPhase, event: BootEvent) -> BootPhase {
    match event {
        BootEvent::KeyPressed => BootPhase::Done,
        BootEvent::DrawFailed => if phase is Hold {
            BootPhase::Hold
        } else {
            BootPhase::Done
        },
        BootEvent::Passed { elapsed_ms } => match phase {
            BootPhase::Rain => if elapsed_ms >= RAIN_DURATION_MS {
                BootPhase::Flash(0)
            } else {
                BootPhase::Rain
            },
            BootPhase::Flash(n) => if n + 1 < FLASH_TOGGLES {
                BootPhase::Flash((n + 1) as usize)
            } else {
                BootPhase::Hold
            },
            _ => BootPhase::Done,
        },
    }
}

/// The phase behind an event.
pub fn next_phase(phase: BootPhase, event: BootEvent) -> (next: BootPhase)
    ensures
        next == phase_behind(phase, event),
{
    match event {
        BootEvent::KeyPressed => BootPhase::Done,
        BootEvent::DrawFailed => match phase {
            BootPhase::Hold => BootPhase::Hold,
            _ => BootPhase::Done,
        },
        BootEvent::Passed { elapsed_ms } => match phase {
            BootPhase::Rain => if elapsed_ms >= RAIN_DURATION_MS {
                BootPhase::Flash(0)
            } else {
                BootPhase::Rain
            },
            BootPhase::Flash(n) => if n < FLASH_TOGGLES - 1 {
                BootPhase::Flash(n + 1)
            } else {
                BootPhase::Hold
            },
            _ => BootPhase::Done,
        },
    }
}

/// Whether the logo is inverted in a flash: every other time, starting with the second.
pub fn flash_is_inverted(n: usize) -> (inverted: bool)
    ensures
        inverted == (n % 2 == 1),
{
    n % 2 == 1
}

/// The phases from the first flash on after `n` of them passed without a key.
pub open spec fn flashed(n: nat) -> BootPhase
    decreases n,
{
    if n == 0 {
        BootPhase::Flash(0)
    } else {
        phase_behind(
            flashed((n - 1) as nat),
            BootEvent::Passed { elapsed_ms: RAIN_DURATION_MS },
        )
    }
}

/// The logo flashes its number of times, stays, and the animation is done.
pub proof fn flashes_are_counted(n: nat)
    ensures
        n < FLASH_TOGGLES ==> flashed(n) == BootPhase::Flash(n as usize),
        n == FLASH_TOGGLES ==> flashed(n) == BootPhase::Hold,
        n > FLASH_TOGGLES ==> flashed(n) == BootPhase::Done,
    decreases n,
{
    if n > 0 {
        flashes_are_counted((n - 1) as nat);
    }
}

/// A key ends the animation in every phase, and the end is final.
pub proof fn a_key_ends_the_animation(phase: BootPhase, event: BootEvent)
    ensures
        phase_behind(phase, BootEvent::KeyPressed) == BootPhase::Done,
        phase_behind(BootPhase::Done, event) == BootPhase::Done,
{
}

} // verus!
