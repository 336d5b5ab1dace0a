use l3ms::boot_anim::{
    advance_columns, draw_flash, draw_rain, flash_is_inverted, flash_origin, flash_style, logo,
    next_phase, plays, spawn_columns, trail_style, BootEvent, BootPhase, Column, Rng,
    FLASH_TOGGLES, LOGO_HEIGHT, LOGO_WIDTH, RAIN_DURATION_MS,
};
use l3ms::theme::{self, Color};

#[test]
fn logo_rows_are_aligned() {
    let widths: Vec<usize> = logo().iter().map(|row| row.chars().count()).collect();
    assert!(
        widths.iter().all(|&w| w == LOGO_WIDTH as usize),
        "{widths:?}"
    );
}

#[test]
fn rng_is_deterministic_for_a_seed() {
    let mut first = Rng(42);
    let mut second = Rng(42);
    for _ in 0..16 {
        assert_eq!(first.next(), second.next());
    }
}

#[test]
fn rng_below_respects_bound() {
    let mut rng = Rng(7);
    for _ in 0..64 {
        assert!(rng.below(5) < 5);
    }
    assert_eq!(rng.below(0), 0);
}

#[test]
fn trail_fades_from_bright_head_to_dim_tail() {
    let head = trail_style(0).fg.expect("head style has fg");
    let mid = trail_style(3).fg.expect("mid style has fg");
    let tail = trail_style(20).fg.expect("tail style has fg");
    assert_ne!(head, mid);
    assert_ne!(mid, tail);
}

#[test]
fn rng_gives_known_numbers() {
    let mut rng = Rng(1);
    assert_eq!(rng.next(), 5_180_492_295_206_395_165);
    assert_eq!(rng.0, 33_554_433);
    let seeded = Rng::from_clock(Some(6), 3);
    assert_eq!(seeded.0, (6 ^ (3 << 32)) | 1);
    assert_eq!(Rng::from_clock(None, 0).0, 0x9E37_79B9_7F4A_7C15);
}

#[test]
fn rng_steps_only_for_a_bound() {
    let mut rng = Rng(9);
    assert_eq!(rng.below(0), 0);
    assert_eq!(rng.0, 9);
    let mut other = Rng(9);
    assert_eq!(rng.below(10), other.next() % 10);
    assert_eq!(rng.0, other.0);
    for _ in 0..1000 {
        other.next();
        assert_ne!(other.0, 0);
    }
}

#[test]
fn columns_stay_near_the_screen() {
    let mut rng = Rng(99);
    let height = 24;
    let mut columns = spawn_columns(80, height, &mut rng);
    assert!(!columns.is_empty() && columns.len() <= 80);
    assert!(columns.iter().all(|column| column.head < 0));
    for _ in 0..500 {
        advance_columns(&mut columns, height, &mut rng);
        for column in &columns {
            assert!(column.speed == 1 || column.speed == 2);
            assert!(column.len >= 4 && column.len <= 28);
            assert!(column.head >= -27 && column.head <= i32::from(height) + column.len);
        }
    }
}

#[test]
fn columns_fall_and_start_again() {
    let mut rng = Rng(5);
    let mut column = Column {
        x: 3,
        head: 7,
        speed: 2,
        len: 4,
    };
    column.advance(10, &mut rng);
    assert_eq!(column.head, 9);
    assert_eq!(rng.0, 5);
    column.head = 14;
    column.advance(3, &mut rng);
    assert!(column.head <= 0 && column.head >= -2);
    assert_eq!(column.len, 3);
    assert_eq!(column.x, 3);
    assert_ne!(rng.0, 5);
}

#[test]
fn rain_is_drawn_on_the_screen_only() {
    let mut rng = Rng(5);
    let columns = [
        Column {
            x: 1,
            head: 11,
            speed: 1,
            len: 4,
        },
        Column {
            x: 2,
            head: 1,
            speed: 1,
            len: 4,
        },
        Column {
            x: 30,
            head: 5,
            speed: 1,
            len: 4,
        },
    ];
    let cells = draw_rain(&columns, 30, 10, &mut rng);
    let places: Vec<(u16, u16)> = cells.iter().map(|cell| (cell.x, cell.y)).collect();
    assert_eq!(places, vec![(1, 9), (1, 8), (2, 1), (2, 0)]);
    assert_eq!(cells[0].style, trail_style(2));
    assert_eq!(cells[2].style, trail_style(0));
    let mut again = Rng(5);
    let glyphs: Vec<char> = "ｱｲｳｴｵｶｷｸｹｺｻｼｽｾｿﾀﾁﾂﾃﾄﾅﾆﾇﾈﾉﾊﾋﾌﾍﾎﾏﾐﾑﾒﾓﾔﾕﾖﾗﾘﾙﾚﾛﾜﾝ0123456789lms:=+*<>"
        .chars()
        .collect();
    for cell in &cells {
        assert_eq!(cell.glyph, glyphs[again.below(64) as usize]);
    }
}

#[test]
fn the_logo_is_drawn_in_the_middle() {
    let origin = flash_origin(30, 9);
    assert_eq!(origin, (4, 2));
    assert_eq!(flash_origin(10, 3), (0, 0));
    let cells = draw_flash(origin, 30, 9, true);
    let marks: usize = logo()
        .iter()
        .map(|row| row.chars().filter(|glyph| *glyph != ' ').count())
        .sum();
    assert_eq!(cells.len(), marks);
    assert_eq!((cells[0].x, cells[0].y, cells[0].glyph), (4, 2, '█'));
    assert_eq!(cells[0].style, flash_style(true));
    let cut = draw_flash((0, 0), 1, 2, false);
    assert_eq!(cut.len(), 2);
    assert_eq!(cut[1].y, 1);
    assert_eq!(cut[1].style, theme::title());
}

#[test]
fn small_screens_and_switches_prevent_the_animation() {
    assert!(plays(false, LOGO_WIDTH + 4, LOGO_HEIGHT + 4));
    assert!(!plays(true, 80, 24));
    assert!(!plays(false, LOGO_WIDTH + 3, 24));
    assert!(!plays(false, 80, LOGO_HEIGHT + 3));
}

#[test]
fn phases_follow_each_other() {
    let passed = |elapsed_ms| BootEvent::Passed { elapsed_ms };
    let mut phase = BootPhase::Rain;
    phase = next_phase(phase, passed(RAIN_DURATION_MS - 1));
    assert_eq!(phase, BootPhase::Rain);
    phase = next_phase(phase, passed(RAIN_DURATION_MS));
    for flash in 0..FLASH_TOGGLES {
        assert_eq!(phase, BootPhase::Flash(flash));
        assert_eq!(next_phase(phase, BootEvent::DrawFailed), BootPhase::Done);
        phase = next_phase(phase, passed(0));
    }
    assert_eq!(phase, BootPhase::Hold);
    assert_eq!(next_phase(phase, BootEvent::DrawFailed), BootPhase::Hold);
    assert_eq!(next_phase(phase, BootEvent::KeyPressed), BootPhase::Done);
    assert_eq!(next_phase(phase, passed(0)), BootPhase::Done);
    assert_eq!(
        next_phase(BootPhase::Rain, BootEvent::KeyPressed),
        BootPhase::Done
    );
    assert_eq!(
        next_phase(BootPhase::Rain, BootEvent::DrawFailed),
        BootPhase::Done
    );
    assert!(!flash_is_inverted(0));
    assert!(flash_is_inverted(1));
}

#[test]
fn trails_fade_in_steps() {
    assert_eq!(trail_style(0).fg, Some(Color::Rgb(0xB4, 0xFF, 0xB4)));
    assert!(trail_style(0).bold);
    assert_eq!(trail_style(1), theme::text());
    assert_eq!(trail_style(2).fg, Some(Color::Rgb(0x00, 0xFF, 0x00)));
    assert_eq!(trail_style(5), theme::dim());
    assert_eq!(trail_style(9).fg, Some(Color::Rgb(0x00, 0x64, 0x00)));
    assert_eq!(trail_style(10).fg, Some(Color::Rgb(0x00, 0x32, 0x00)));
}

#[test]
fn theme_has_its_colors() {
    assert_eq!(theme::text().fg, Some(Color::Rgb(0x00, 0xFF, 0x00)));
    assert_eq!(theme::dim().fg, Some(Color::Rgb(0x00, 0xB4, 0x00)));
    assert_eq!(theme::border(), theme::dim());
    assert_eq!(theme::border_focused(), theme::text());
    assert!(theme::title().bold);
    assert_eq!(theme::selected().bg, Some(Color::Rgb(0x00, 0x00, 0xC6)));
    assert_eq!(theme::selected().fg, Some(Color::White));
    assert_eq!(theme::badge().fg, Some(Color::Black));
    assert_eq!(theme::badge().bg, Some(theme::green()));
    assert_eq!(theme::warning().fg, Some(Color::Rgb(0xFF, 0xB0, 0x00)));
    assert_eq!(theme::error().fg, Some(Color::Rgb(0xFF, 0x30, 0x30)));
    assert_eq!(theme::accent(), theme::warning());
}
