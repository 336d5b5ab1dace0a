//! What holds of the rain, of the logo and of the phases of the boot animation.

use crate::boot_anim;
use crate::boot_anim::{BootEvent, BootPhase, Column, ScreenCell};
use crate::theme::{Color, TextStyle};
use vstd::prelude::*;

verus! {

/// The distance from the head of a column at which its trail enters the screen from below.
pub open spec fn first_shown(column: Column, d: int, height: u16) -> int {
    if column.head - d >= height {
        column.head - height + 1
    } else {
        d
    }
}

/// The distance at which the trail has ended, or has left the screen at its top.
pub open spec fn last_shown(column: Column) -> int {
    if column.len <= column.head + 1 {
        column.len as int
    } else {
        column.head + 1
    }
}

/// The trail of a column is drawn upwards from its head, one cell for each row of the
/// screen that it covers, each with a glyph and with the look of its distance.
pub proof fn trail_covers_its_rows(column: Column, d: int, height: u16, state: u64)
    requires
        0 <= d,
    ensures
        ({
            let cells = boot_anim::trail_cells(column, d, height, state).0;
            let first = first_shown(column, d, height);
            let last = last_shown(column);
            &&& cells.len() == if first < last {
                last - first
            } else {
                0
            }
            &&& forall|k: int|
                0 <= k < cells.len() ==> (#[trigger] cells[k]).x == column.x && cells[k].y
                    == column.head - first - k && cells[k].style == boot_anim::trail_look(first + k)
                    && boot_anim::glyphs().contains(cells[k].glyph)
        }),
    decreases column.len - d,
{
    let cells = boot_anim::trail_cells(column, d, height, state).0;
    let first = first_shown(column, d, height);
    let y = column.head - d;
    if d >= column.len || y < 0 {
    } else if y >= height {
        trail_covers_its_rows(column, d + 1, height, state);
    } else {
        let (pick, after) = boot_anim::drawn(state, boot_anim::GLYPH_COUNT as u64);
        let rest = boot_anim::trail_cells(column, d + 1, height, after).0;
        trail_covers_its_rows(column, d + 1, height, after);
        lemma_glyphs(pick as int);
        let cell = cell_at(
            column.x as int,
            y,
            boot_anim::glyphs()[pick as int],
            boot_anim::trail_look(d),
        );
        assert(cells == seq![cell] + rest);
        assert forall|k: int| 0 <= k < cells.len() implies (#[trigger] cells[k]).x == column.x
            && cells[k].y == column.head - first - k && cells[k].style == boot_anim::trail_look(
            first + k,
        ) && boot_anim::glyphs().contains(cells[k].glyph) by {
            if k > 0 {
                assert(cells[k] == rest[k - 1]);
            }
        }
    }
}

proof fn lemma_glyphs(pick: int)
    requires
        0 <= pick < 64,
    ensures
        boot_anim::glyphs().contains(boot_anim::glyphs()[pick]),
{
    reveal_strlit(
        "ｱｲｳｴｵｶｷｸｹｺｻｼｽｾｿﾀﾁﾂﾃﾄﾅﾆﾇﾈﾉﾊﾋﾌﾍﾎﾏﾐﾑﾒﾓﾔﾕﾖﾗﾘﾙﾚﾛﾜﾝ0123456789lms:=+*<>",
    );
    assert(boot_anim::glyphs().len() == 64);
}

/// The rain is drawn column by column; a column to the right of the screen draws nothing
/// and steps no generator.
pub proof fn rain_is_drawn_by_column(
    columns: Seq<Column>,
    column: Column,
    width: u16,
    height: u16,
    state: u64,
)
    ensures
        ({
            let (cells, before) = boot_anim::rain_cells(columns, width, height, state);
            let (own, after) = boot_anim::trail_cells(column, 0, height, before);
            boot_anim::rain_cells(columns.push(column), width, height, state) == if column.x
                < width {
                (cells + own, after)
            } else {
                (cells, before)
            }
        }),
        boot_anim::rain_cells(Seq::empty(), width, height, state).0.len() == 0,
{
    assert(columns.push(column).drop_last() =~= columns);
}

/// The head of a trail is pale and bold; the trail is green for two cells behind it, dim
/// for three more, and fades in two more steps.
pub proof fn trail_has_five_looks(distance: int)
    requires
        0 <= distance,
    ensures
        boot_anim::trail_look(distance) == (TextStyle {
            fg: Some(
                if distance == 0 {
                    Color::Rgb(180, 255, 180)
                } else if distance < 3 {
                    Color::Rgb(0, 255, 0)
                } else if distance < 6 {
                    Color::Rgb(0, 180, 0)
                } else if distance < 10 {
                    Color::Rgb(0, 100, 0)
                } else {
                    Color::Rgb(0, 50, 0)
                },
            ),
            bg: None,
            bold: distance == 0,
        }),
{
}

/// A column falls by its speed and keeps everything else until its whole trail has left the
/// screen at the bottom; then it starts anew in the same place, at or above the top.
pub proof fn columns_fall_by_their_speed(column: Column, height: u16, state: u64)
    requires
        boot_anim::is_raining(column, height),
    ensures
        ({
            let (next, after) = boot_anim::fallen(column, height, state);
            &&& column.head + column.speed - column.len <= height ==> next == (Column {
                head: (column.head + column.speed) as i32,
                ..column
            }) && after == state
            &&& column.head + column.speed - column.len > height ==> next.x == column.x && next.head
                <= 0 && next.head > -(if height < 2 {
                2
            } else {
                height as int
            }) && 1 <= next.speed <= 2 && (height >= 4 ==> next.len >= 4) && next.len <= height
        }),
{
    boot_anim::lemma_fresh_column(column.x, height, 0, state);
    let (fresh, after) = boot_anim::fresh_column(column.x, height, 0, state);
    let head = boot_anim::drawn(state, boot_anim::at_least(height as int, 2) as u64);
    assert(head.0 < boot_anim::at_least(height as int, 2));
    let speed = boot_anim::drawn(head.1, 2);
    assert(speed.0 < 2);
    let bound = boot_anim::at_least(height as int / 2, 1) as u64;
    let len = boot_anim::drawn(speed.1, bound);
    assert(len.0 < bound);
}

/// Every column falls once in a frame, in its place.
pub proof fn columns_fall_together(columns: Seq<Column>, column: Column, height: u16, state: u64)
    ensures
        ({
            let (fallen, before) = boot_anim::all_fallen(columns, height, state);
            let (own, after) = boot_anim::fallen(column, height, before);
            boot_anim::all_fallen(columns.push(column), height, state) == (fallen.push(own), after)
        }),
        boot_anim::all_fallen(columns, height, state).0.len() == columns.len(),
    decreases columns.len(),
{
    assert(columns.push(column).drop_last() =~= columns);
    if columns.len() > 0 {
        columns_fall_together(columns.drop_last(), column, height, state);
    }
}

/// The columns stand on the screen from left to right, no two in one place, each above the
/// top with a trail of at least four cells.
pub proof fn columns_stand_in_order(width: int, height: u16, state: u64)
    requires
        0 <= width <= u16::MAX,
    ensures
        ({
            let columns = boot_anim::rain_columns(width, height, state).0;
            &&& columns.len() <= width
            &&& forall|i: int|
                0 <= i < columns.len() ==> (#[trigger] columns[i]).x < width && columns[i].head <= -1
                    && 1 <= columns[i].speed <= 2 && columns[i].len >= 4
            &&& forall|i: int, j: int|
                0 <= i < j < columns.len() ==> (#[trigger] columns[i]).x < (#[trigger] columns[j]).x
        }),
    decreases width,
{
    if width > 0 {
        columns_stand_in_order(width - 1, height, state);
        let (earlier, before) = boot_anim::rain_columns(width - 1, height, state);
        let (chance, after) = boot_anim::drawn(before, 100);
        boot_anim::lemma_fresh_column((width - 1) as u16, height, 1, after);
        let head = boot_anim::drawn(after, boot_anim::at_least(height as int, 2) as u64);
        let speed = boot_anim::drawn(head.1, 2);
        let bound = boot_anim::at_least(height as int / 2, 1) as u64;
        let len = boot_anim::drawn(speed.1, bound);
        assert(head.0 < boot_anim::at_least(height as int, 2));
        assert(speed.0 < 2);
        assert(len.0 < bound);
    }
}

/// Four of five places of the screen get a column: those for which the generator gives less
/// than 80 of 100.
pub proof fn four_of_five_places_have_a_column(width: int, height: u16, state: u64)
    requires
        0 < width <= u16::MAX,
    ensures
        ({
            let (earlier, before) = boot_anim::rain_columns(width - 1, height, state);
            let (columns, after) = boot_anim::rain_columns(width, height, state);
            let (chance, next) = boot_anim::drawn(before, 100);
            &&& chance < 80 ==> columns.len() == earlier.len() + 1 && columns.drop_last() == earlier
                && columns.last().x == width - 1
            &&& chance >= 80 ==> columns == earlier && after == next
        }),
        boot_anim::rain_columns(0, height, state) == (Seq::<Column>::empty(), state),
{
    let (earlier, before) = boot_anim::rain_columns(width - 1, height, state);
    let (columns, after) = boot_anim::rain_columns(width, height, state);
    let (chance, next) = boot_anim::drawn(before, 100);
    if chance < 80 {
        assert(columns.drop_last() =~= earlier);
    }
}

/// A number that is drawn is below its bound, and is the remainder of what the generator
/// gives; no number is drawn where the bound is zero.
pub proof fn drawn_numbers_are_below_their_bound(state: u64, bound: u64)
    ensures
        bound > 0 ==> boot_anim::drawn(state, bound).0 < bound && exists|k: nat|
            #[trigger] (k * bound) + boot_anim::drawn(state, bound).0 == boot_anim::output(
                boot_anim::stepped(state),
            ),
        bound > 0 ==> boot_anim::drawn(state, bound).1 == boot_anim::stepped(state),
        bound == 0 ==> boot_anim::drawn(state, bound) == (0u64, state),
{
    if bound > 0 {
        let n = boot_anim::output(boot_anim::stepped(state)) as int;
        let k = (n / bound as int) as nat;
        vstd::arithmetic::div_mod::lemma_fundamental_div_mod(n, bound as int);
        assert(n >= 0 && n / bound as int >= 0) by (nonlinear_arith)
            requires
                n >= 0,
                bound > 0,
        ;
        assert((k * bound) + boot_anim::drawn(state, bound).0 == n) by (nonlinear_arith)
            requires
                n == bound as int * (n / bound as int) + n % (bound as int),
                k == n / bound as int,
                boot_anim::drawn(state, bound).0 == n % (bound as int),
        ;
    }
}

/// Whether a cell of the logo is drawn: it is a block of its row, at its place, on the
/// screen.
pub open spec fn is_logo_cell(
    cell: ScreenCell,
    r: int,
    c: int,
    origin: (u16, u16),
    width: u16,
    height: u16,
    style: TextStyle,
) -> bool {
    &&& 0 <= r < 5
    &&& 0 <= c < 22
    &&& boot_anim::logo_rows()[r][c] != ' '
    &&& cell.x == origin.0 + c
    &&& cell.y == origin.1 + r
    &&& cell.x < width
    &&& cell.y < height
    &&& cell.glyph == boot_anim::logo_rows()[r][c]
    &&& cell.style == style
}

/// The cell at a place.
spec fn cell_at(x: int, y: int, glyph: char, style: TextStyle) -> ScreenCell {
    ScreenCell { x: x as u16, y: y as u16, glyph, style }
}

proof fn lemma_row_step(
    row: Seq<char>,
    n: int,
    x: int,
    y: int,
    width: u16,
    height: u16,
    style: TextStyle,
)
    ensures
        ({
            let cells = boot_anim::row_cells(row, n, x, y, width, height, style);
            let earlier = boot_anim::row_cells(row, n - 1, x, y, width, height, style);
            let cell = cell_at(x + n - 1, y, row[n - 1], style);
            cells == if n <= 0 {
                Seq::empty()
            } else if row[n - 1] == ' ' || x + n - 1 >= width || y >= height {
                earlier
            } else {
                earlier.push(cell)
            }
        }),
{
}

proof fn lemma_row_holds(
    row: Seq<char>,
    n: int,
    x: int,
    y: int,
    width: u16,
    height: u16,
    style: TextStyle,
    c: int,
)
    requires
        0 <= c < n <= row.len(),
        0 <= x,
        0 <= y,
        row[c] != ' ',
        x + c < width,
        y < height,
    ensures
        boot_anim::row_cells(row, n, x, y, width, height, style).contains(
            cell_at(x + c, y, row[c], style),
        ),
    decreases n,
{
    let cells = boot_anim::row_cells(row, n, x, y, width, height, style);
    let cell = cell_at(x + c, y, row[c], style);
    let earlier = boot_anim::row_cells(row, n - 1, x, y, width, height, style);
    lemma_row_step(row, n, x, y, width, height, style);
    if c == n - 1 {
        assert(cells[cells.len() - 1] == cell);
    } else {
        lemma_row_holds(row, n - 1, x, y, width, height, style, c);
        let k = choose|k: int| 0 <= k < earlier.len() && earlier[k] == cell;
        assert(cells[k] == cell);
    }
}

proof fn lemma_row_cell(
    row: Seq<char>,
    n: int,
    x: int,
    y: int,
    width: u16,
    height: u16,
    style: TextStyle,
    k: int,
) -> (c: int)
    requires
        n <= row.len(),
        0 <= x,
        0 <= y,
        0 <= k < boot_anim::row_cells(row, n, x, y, width, height, style).len(),
    ensures
        0 <= c < n,
        row[c] != ' ',
        x + c < width,
        y < height,
        boot_anim::row_cells(row, n, x, y, width, height, style)[k] == cell_at(
            x + c,
            y,
            row[c],
            style,
        ),
    decreases n,
{
    let earlier = boot_anim::row_cells(row, n - 1, x, y, width, height, style);
    lemma_row_step(row, n, x, y, width, height, style);
    if k < earlier.len() {
        lemma_row_cell(row, n - 1, x, y, width, height, style, k)
    } else {
        n - 1
    }
}

proof fn lemma_logo_holds(
    n: int,
    origin: (u16, u16),
    width: u16,
    height: u16,
    style: TextStyle,
    cell: ScreenCell,
    r: int,
    c: int,
)
    requires
        0 <= r < n <= 5,
        is_logo_cell(cell, r, c, origin, width, height, style),
    ensures
        boot_anim::logo_cells(n, origin, width, height, style).contains(cell),
    decreases n,
{
    let earlier = boot_anim::logo_cells(n - 1, origin, width, height, style);
    let row = boot_anim::row_cells(
        boot_anim::logo_rows()[n - 1],
        22,
        origin.0 as int,
        origin.1 + n - 1,
        width,
        height,
        style,
    );
    let cells = boot_anim::logo_cells(n, origin, width, height, style);
    assert(cells == earlier + row);
    if r == n - 1 {
        boot_anim::logo_rows_are_aligned(r);
        lemma_row_holds(
            boot_anim::logo_rows()[r],
            22,
            origin.0 as int,
            origin.1 + r,
            width,
            height,
            style,
            c,
        );
        let k = choose|k: int| 0 <= k < row.len() && row[k] == cell;
        assert(cells[earlier.len() + k] == cell);
    } else {
        lemma_logo_holds(n - 1, origin, width, height, style, cell, r, c);
        let k = choose|k: int| 0 <= k < earlier.len() && earlier[k] == cell;
        assert(cells[k] == cell);
    }
}

proof fn lemma_logo_cell(
    n: int,
    origin: (u16, u16),
    width: u16,
    height: u16,
    style: TextStyle,
    k: int,
) -> (at: (int, int))
    requires
        0 <= n <= 5,
        0 <= k < boot_anim::logo_cells(n, origin, width, height, style).len(),
    ensures
        is_logo_cell(
            boot_anim::logo_cells(n, origin, width, height, style)[k],
            at.0,
            at.1,
            origin,
            width,
            height,
            style,
        ),
    decreases n,
{
    let earlier = boot_anim::logo_cells(n - 1, origin, width, height, style);
    if k < earlier.len() {
        lemma_logo_cell(n - 1, origin, width, height, style, k)
    } else {
        boot_anim::logo_rows_are_aligned(n - 1);
        let c = lemma_row_cell(
            boot_anim::logo_rows()[n - 1],
            22,
            origin.0 as int,
            origin.1 + n - 1,
            width,
            height,
            style,
            k - earlier.len(),
        );
        (n - 1, c)
    }
}

/// The logo is drawn cell by cell at its place: every block of it that lies on the screen
/// is drawn, in one style, and nothing else.
pub proof fn logo_is_drawn_whole(
    origin: (u16, u16),
    width: u16,
    height: u16,
    style: TextStyle,
    cell: ScreenCell,
)
    ensures
        boot_anim::logo_cells(5, origin, width, height, style).contains(cell) <==> exists|
            r: int,
            c: int,
        | #[trigger] is_logo_cell(cell, r, c, origin, width, height, style),
{
    let cells = boot_anim::logo_cells(5, origin, width, height, style);
    if cells.contains(cell) {
        let k = choose|k: int| 0 <= k < cells.len() && cells[k] == cell;
        let at = lemma_logo_cell(5, origin, width, height, style, k);
        assert(is_logo_cell(cell, at.0, at.1, origin, width, height, style));
    }
    if exists|r: int, c: int| #[trigger] is_logo_cell(cell, r, c, origin, width, height, style) {
        let (r, c) = choose|r: int, c: int|
            #[trigger] is_logo_cell(cell, r, c, origin, width, height, style);
        lemma_logo_holds(5, origin, width, height, style, cell, r, c);
    }
}

/// The logo flashes green on the terminal's own ground and black on green.
pub proof fn logo_flashes_in_two_looks()
    ensures
        boot_anim::flash_look(true).fg == Some(Color::Black),
        boot_anim::flash_look(true).bg == Some(Color::Rgb(0, 255, 0)),
        boot_anim::flash_look(false).fg == Some(Color::Rgb(0, 255, 0)),
        boot_anim::flash_look(false).bg != boot_anim::flash_look(true).bg,
{
}

/// The rain goes on for 1400 milliseconds and then gives way to the first flash; the
/// flashes follow each other up to the sixth, whatever time has passed, then the logo
/// stays, and then the animation is done.
pub proof fn phases_follow_each_other(elapsed_ms: u64, n: usize)
    ensures
        ({
            let event = BootEvent::Passed { elapsed_ms };
            &&& elapsed_ms < 1_400 ==> boot_anim::phase_behind(BootPhase::Rain, event)
                == BootPhase::Rain
            &&& elapsed_ms >= 1_400 ==> boot_anim::phase_behind(BootPhase::Rain, event)
                == BootPhase::Flash(0)
            &&& n < 5 ==> boot_anim::phase_behind(BootPhase::Flash(n), event)
                == BootPhase::Flash((n + 1) as usize)
            &&& n == 5 ==> boot_anim::phase_behind(BootPhase::Flash(n), event) == BootPhase::Hold
            &&& boot_anim::phase_behind(BootPhase::Hold, event) == BootPhase::Done
        }),
        boot_anim::phase_behind(BootPhase::Rain, BootEvent::DrawFailed) == BootPhase::Done,
        boot_anim::phase_behind(BootPhase::Flash(n), BootEvent::DrawFailed) == BootPhase::Done,
        boot_anim::phase_behind(BootPhase::Hold, BootEvent::DrawFailed) == BootPhase::Hold,
{
}

/// The logo stands in the middle: the margins on both sides are equal, or the second is
/// larger by one; on a screen that is too small it stands in the corner.
pub proof fn logo_stands_in_the_middle(width: u16, height: u16)
    ensures
        ({
            let (x, y) = boot_anim::logo_origin(width, height);
            &&& 0 <= x && 0 <= y
            &&& width >= 22 ==> x <= width - 22 - x <= x + 1
            &&& width < 22 ==> x == 0
            &&& height >= 5 ==> y <= height - 5 - y <= y + 1
            &&& height < 5 ==> y == 0
        }),
{
}

/// The animation plays on a screen on which the logo has a margin of two cells on every
/// side, and on no smaller one.
pub proof fn logo_needs_a_margin(width: u16, height: u16)
    ensures
        boot_anim::logo_fits(width, height) <==> ({
            let (x, y) = boot_anim::logo_origin(width, height);
            x >= 2 && x + 22 + 2 <= width && y >= 2 && y + 5 + 2 <= height
        }),
{
}

/// A step of the generator treats every bit on its own: what it makes of two states that
/// are mixed is what it makes of each, mixed. The lowest bit goes to itself and 25 places
/// up; the highest goes to itself and 12, 27 and 39 places down.
pub proof fn generator_steps_bit_by_bit(a: u64, b: u64)
    ensures
        boot_anim::stepped(a ^ b) == boot_anim::stepped(a) ^ boot_anim::stepped(b),
        boot_anim::stepped(1) == 0x0200_0001,
        boot_anim::stepped(0x8000_0000_0000_0000) == 0x8008_0010_0100_0000,
{
    let c = a ^ b;
    assert({
        let x = c ^ (c >> 12);
        let y = x ^ (x << 25);
        let s = a ^ (a >> 12);
        let t = s ^ (s << 25);
        let u = b ^ (b >> 12);
        let v = u ^ (u << 25);
        y ^ (y >> 27) == (t ^ (t >> 27)) ^ (v ^ (v >> 27))
    }) by (bit_vector)
        requires
            c == a ^ b,
    ;
    assert({
        let x = 1u64 ^ (1u64 >> 12);
        let y = x ^ (x << 25);
        y ^ (y >> 27) == 0x0200_0001u64
    }) by (bit_vector);
    assert({
        let x = 0x8000_0000_0000_0000u64 ^ (0x8000_0000_0000_0000u64 >> 12);
        let y = x ^ (x << 25);
        y ^ (y >> 27) == 0x8008_0010_0100_0000u64
    }) by (bit_vector);
}

/// What the generator gives for a state is that state times an odd number, in 64 bits: the
/// outputs of two states add up to that of their sum.
pub proof fn outputs_add_up(a: u64, b: u64)
    requires
        a + b <= u64::MAX,
    ensures
        boot_anim::output(1) == 0x2545_F491_4F6C_DD1D,
        (boot_anim::output(a) + boot_anim::output(b)) % 0x1_0000_0000_0000_0000
            == boot_anim::output((a + b) as u64),
{
    let m: int = 0x2545_F491_4F6C_DD1D;
    let base: int = 0x1_0000_0000_0000_0000;
    assert((a + b) * m == a * m + b * m) by (nonlinear_arith);
    vstd::arithmetic::div_mod::lemma_add_mod_noop(a * m, b * m, base);
    vstd::arithmetic::div_mod::lemma_mod_bound(a * m, base);
    vstd::arithmetic::div_mod::lemma_mod_bound(b * m, base);
    vstd::arithmetic::div_mod::lemma_mod_bound((a + b) * m, base);
}

/// A fresh column takes three numbers from the generator: how far above the top its head
/// is, below the height of the screen; whether it falls by one row or by two; and how much
/// longer than four its trail is, below half of the height.
pub proof fn fresh_columns_follow_the_generator(x: u16, height: u16, above: int, state: u64)
    requires
        0 <= above <= 1,
        height >= 2,
    ensures
        ({
            let (column, after) = boot_anim::fresh_column(x, height, above, state);
            let first = boot_anim::drawn(state, height as u64);
            let second = boot_anim::drawn(first.1, 2);
            let third = boot_anim::drawn(second.1, (height / 2) as u64);
            &&& column.x == x
            &&& column.head + first.0 + above == 0
            &&& column.speed == second.0 + 1
            &&& column.len == third.0 + 4
            &&& after == third.1
        }),
{
    let first = boot_anim::drawn(state, height as u64);
    assert(first.0 < height);
    let second = boot_anim::drawn(first.1, 2);
    assert(second.0 < 2);
    let third = boot_anim::drawn(second.1, (height / 2) as u64);
    assert(third.0 < height / 2);
}

} // verus!
