use esalp::vga_buffer::{
    change_color, clear_screen, Color, ColorCode, ScreenChar, Writer, BUFFER_HEIGHT, BUFFER_WIDTH,
};

fn bottom(writer: &Writer, col: usize) -> u8 {
    writer.char_at(BUFFER_HEIGHT - 1, col).ascii_character
}

#[test]
fn color_code_holds_background_above_foreground() {
    assert_eq!(ColorCode::new(Color::Pink, Color::Black), ColorCode(0x0d));
    assert_eq!(ColorCode::new(Color::White, Color::Blue), ColorCode(0x1f));
    assert_eq!(ColorCode::new(Color::Black, Color::White), ColorCode(0xf0));
    assert_eq!(Color::LightGray.code(), 7);
}

#[test]
fn new_writer_shows_blanks_in_pink_on_black() {
    let writer = Writer::new();
    assert_eq!(writer.column(), 0);
    for row in 0..BUFFER_HEIGHT {
        for col in 0..BUFFER_WIDTH {
            assert_eq!(
                writer.char_at(row, col),
                ScreenChar { ascii_character: b' ', color_code: ColorCode(0x0d) }
            );
        }
    }
}

#[test]
fn bytes_go_to_the_bottom_row() {
    let mut writer = Writer::new();
    writer.write_str("ok");
    assert_eq!(writer.column(), 2);
    assert_eq!(bottom(&writer, 0), b'o');
    assert_eq!(bottom(&writer, 1), b'k');
    assert_eq!(bottom(&writer, 2), b' ');
    assert_eq!(writer.char_at(BUFFER_HEIGHT - 2, 0).ascii_character, b' ');
}

#[test]
fn line_feed_moves_rows_up() {
    let mut writer = Writer::new();
    writer.write_str("one\ntwo\n3");
    assert_eq!(writer.column(), 1);
    assert_eq!(writer.char_at(BUFFER_HEIGHT - 3, 0).ascii_character, b'o');
    assert_eq!(writer.char_at(BUFFER_HEIGHT - 3, 2).ascii_character, b'e');
    assert_eq!(writer.char_at(BUFFER_HEIGHT - 2, 0).ascii_character, b't');
    assert_eq!(writer.char_at(BUFFER_HEIGHT - 2, 2).ascii_character, b'o');
    assert_eq!(bottom(&writer, 0), b'3');
    assert_eq!(bottom(&writer, 1), b' ');
}

#[test]
fn nul_byte_writes_nothing() {
    let mut writer = Writer::new();
    writer.write_byte(b'a');
    writer.write_byte(0);
    assert_eq!(writer.column(), 1);
    assert_eq!(bottom(&writer, 0), b'a');
    assert_eq!(bottom(&writer, 1), b' ');
}

#[test]
fn tab_writes_four_blanks() {
    let mut writer = Writer::new();
    writer.write_str("a\tb");
    assert_eq!(writer.column(), 6);
    assert_eq!(bottom(&writer, 0), b'a');
    for col in 1..5 {
        assert_eq!(bottom(&writer, col), b' ');
    }
    assert_eq!(bottom(&writer, 5), b'b');
}

#[test]
fn backspace_clears_the_last_character() {
    let mut writer = Writer::new();
    writer.write_str("ab\x08");
    assert_eq!(writer.column(), 1);
    assert_eq!(bottom(&writer, 0), b'a');
    assert_eq!(bottom(&writer, 1), b' ');
}

#[test]
fn backspace_at_the_start_of_a_line_does_nothing() {
    let mut writer = Writer::new();
    writer.write_str("a\n\x08");
    assert_eq!(writer.column(), 0);
    assert_eq!(writer.char_at(BUFFER_HEIGHT - 2, 0).ascii_character, b'a');
    assert_eq!(bottom(&writer, 0), b' ');
}

#[test]
fn full_row_wraps_to_a_new_line() {
    let mut writer = Writer::new();
    for _ in 0..BUFFER_WIDTH {
        writer.write_byte(b'x');
    }
    assert_eq!(writer.column(), BUFFER_WIDTH);
    assert_eq!(bottom(&writer, BUFFER_WIDTH - 1), b'x');
    writer.write_byte(b'y');
    assert_eq!(writer.column(), 1);
    assert_eq!(bottom(&writer, 0), b'y');
    assert_eq!(bottom(&writer, 1), b' ');
    for col in 0..BUFFER_WIDTH {
        assert_eq!(writer.char_at(BUFFER_HEIGHT - 2, col).ascii_character, b'x');
    }
}

#[test]
fn change_color_colors_what_is_written_next() {
    let mut writer = Writer::new();
    writer.write_byte(b'a');
    change_color(&mut writer, Color::Yellow, Color::Blue);
    writer.write_byte(b'b');
    assert_eq!(writer.char_at(BUFFER_HEIGHT - 1, 0).color_code, ColorCode(0x0d));
    assert_eq!(
        writer.char_at(BUFFER_HEIGHT - 1, 1),
        ScreenChar { ascii_character: b'b', color_code: ColorCode(0x1e) }
    );
    assert_eq!(writer.char_at(BUFFER_HEIGHT - 1, 2).color_code, ColorCode(0x0d));
}

#[test]
fn clear_row_blanks_one_row() {
    let mut writer = Writer::new();
    writer.write_str("top\nbottom");
    writer.clear_row(BUFFER_HEIGHT - 2);
    for col in 0..BUFFER_WIDTH {
        assert_eq!(writer.char_at(BUFFER_HEIGHT - 2, col).ascii_character, b' ');
    }
    assert_eq!(bottom(&writer, 0), b'b');
    assert_eq!(writer.column(), 6);
}

#[test]
fn clear_screen_leaves_blanks_in_the_current_colors() {
    let mut writer = Writer::new();
    for _ in 0..30 {
        writer.write_str("some text\n");
    }
    writer.write_str("rest");
    change_color(&mut writer, Color::Green, Color::Black);
    clear_screen(&mut writer);
    assert_eq!(writer.column(), 0);
    for row in 0..BUFFER_HEIGHT {
        for col in 0..BUFFER_WIDTH {
            assert_eq!(
                writer.char_at(row, col),
                ScreenChar { ascii_character: b' ', color_code: ColorCode(0x02) }
            );
        }
    }
}
