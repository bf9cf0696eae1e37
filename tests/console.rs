use xv6_memory::vga::{Color, ColorCode, VgaWriter};

fn row_text(w: &VgaWriter, row: usize) -> String {
    (0..80).map(|c| w.screen_char(row, c).ascii_character as char).collect::<String>()
}

#[test]
fn color_codes() {
    assert_eq!(ColorCode::new(Color::Green, Color::Black).value, 0x02);
    assert_eq!(ColorCode::new(Color::White, Color::Blue).value, 0x1F);
    assert_eq!(Color::Yellow.value(), 14);
}

#[test]
fn writes_at_cursor() {
    let mut w = VgaWriter::new();
    w.write_string("hi");
    assert_eq!(w.screen_char(0, 0).ascii_character, b'h');
    assert_eq!(w.screen_char(0, 1).ascii_character, b'i');
    assert_eq!(w.screen_char(0, 1).color_code.value, 0x02);
    assert_eq!(w.screen_char(0, 2).ascii_character, b' ');
}

#[test]
fn newline_moves_down_and_unprintable_shows_block() {
    let mut w = VgaWriter::new();
    w.write_string("a\nb\u{7}");
    assert_eq!(w.screen_char(0, 0).ascii_character, b'a');
    assert_eq!(w.screen_char(1, 0).ascii_character, b'b');
    assert_eq!(w.screen_char(1, 1).ascii_character, 0xfe);
}

#[test]
fn long_line_wraps() {
    let mut w = VgaWriter::new();
    let line: String = std::iter::repeat('x').take(81).collect();
    w.write_string(&line);
    assert_eq!(w.screen_char(0, 79).ascii_character, b'x');
    assert_eq!(w.screen_char(1, 0).ascii_character, b'x');
    assert_eq!(w.screen_char(1, 1).ascii_character, b' ');
}

#[test]
fn bottom_row_scrolls() {
    let mut w = VgaWriter::new();
    for i in 0..26 {
        w.write_string(&format!("{}\n", i));
    }
    // the newline after "0" lands the cursor on row 1; 26 lines scroll twice
    assert_eq!(row_text(&w, 24).trim_end(), "");
    assert_eq!(row_text(&w, 23).trim_end(), "25");
    assert_eq!(row_text(&w, 0).trim_end(), "2");
}

#[test]
fn clear_screen_blanks_everything() {
    let mut w = VgaWriter::new();
    w.write_string("hello\nworld");
    w.clear_screen();
    for r in 0..25 {
        assert_eq!(row_text(&w, r), " ".repeat(80));
    }
}
