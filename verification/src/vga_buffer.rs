//! The text of the screen: 25 rows of 80 characters, written at the bottom
//! row and scrolled up line by line.

use vstd::prelude::*;
use vstd::string::StringSliceAdditionalSpecFns;

verus! {

/// The number of rows of the screen.
pub const BUFFER_HEIGHT: usize = 25;

/// The number of columns of the screen.
pub const BUFFER_WIDTH: usize = 80;

/// A color of the text or of its background.
#[derive(Debug, Clone, Copy, PartialEq, Eq, Structural)]
pub enum Color {
    Black,
    Blue,
    Green,
    Cyan,
    Red,
    Magenta,
    Brown,
    LightGray,
    DarkGray,
    LightBlue,
    LightGreen,
    LightCyan,
    LightRed,
    Pink,
    Yellow,
    White,
}

impl Color {
    /// The number of the color, from 0 for black to 15 for white.
    pub open spec fn code_spec(self) -> u8 {
        match self {
            Color::Black => 0x0,
            Color::Blue => 0x1,
            Color::Green => 0x2,
            Color::Cyan => 0x3,
            Color::Red => 0x4,
            Color::Magenta => 0x5,
            Color::Brown => 0x6,
            Color::LightGray => 0x7,
            Color::DarkGray => 0x8,
            Color::LightBlue => 0x9,
            Color::LightGreen => 0xa,
            Color::LightCyan => 0xb,
            Color::LightRed => 0xc,
            Color::Pink => 0xd,
            Color::Yellow => 0xe,
            Color::White => 0xf,
        }
    }

    /// The number of the color.
    pub fn code(self) -> (code: u8)
        ensures
            code == self.code_spec(),
            code <= 0xf,
    {
        match self {
            Color::Black => 0x0,
            Color::Blue => 0x1,
            Color::Green => 0x2,
            Color::Cyan => 0x3,
            Color::Red => 0x4,
            Color::Magenta => 0x5,
            Color::Brown => 0x6,
            Color::LightGray => 0x7,
            Color::DarkGray => 0x8,
            Color::LightBlue => 0x9,
            Color::LightGreen => 0xa,
            Color::LightCyan => 0xb,
            Color::LightRed => 0xc,
            Color::Pink => 0xd,
            Color::Yellow => 0xe,
            Color::White => 0xf,
        }
    }
}

/// A color code: the color of the background in the upper four bits, the
/// color of the text in the lower four.
#[derive(Debug, Clone, Copy, PartialEq, Eq, Structural)]
pub struct ColorCode(pub u8);

impl ColorCode {
    /// Combines `fg` and `bg` to form a color code.
    pub fn new(fg: Color, bg: Color) -> (code: ColorCode)
        ensures
            code.0 == bg.code_spec() * 16 + fg.code_spec(),
    {
        let b = bg.code();
        let f = fg.code();
        assert((b << 4) | f == b * 16 + f) by (bit_vector)
            requires
                b <= 0xf,
                f <= 0xf,
        ;
        ColorCode((b << 4) | f)
    }
}

/// One character on the screen: its byte and its color code.
#[derive(Debug, Clone, Copy, PartialEq, Eq, Structural)]
pub struct ScreenChar {
    /// The byte of the character.
    pub ascii_character: u8,
    /// The colors of the character.
    pub color_code: ColorCode,
}

/// What the screen shows and where the next character goes.
pub struct Screen {
    /// The rows of the screen, from the top; each has 80 characters.
    pub rows: Seq<Seq<ScreenChar>>,
    /// The column of the bottom row that the next character goes to.
    pub column: int,
    /// The colors that characters are written in.
    pub color: ColorCode,
}

/// A blank in the given colors.
pub open spec fn blank(color: ColorCode) -> ScreenChar {
    ScreenChar { ascii_character: 0x20, color_code: color }
}

/// The screen after a new line: every row moved up by one, the bottom row
/// blank, and the column at the start.
pub open spec fn new_line_spec(screen: Screen) -> Screen {
    Screen {
        rows: screen.rows.subrange(1, BUFFER_HEIGHT as int).push(
            Seq::new(BUFFER_WIDTH as nat, |i: int| blank(screen.color)),
        ),
        column: 0,
        color: screen.color,
    }
}

/// The screen after a character was put at the column of the bottom row.
pub open spec fn put_spec(screen: Screen, byte: u8) -> Screen {
    let at = if screen.column >= BUFFER_WIDTH {
        new_line_spec(screen)
    } else {
        screen
    };
    Screen {
        rows: at.rows.update(
            BUFFER_HEIGHT - 1,
            at.rows[BUFFER_HEIGHT - 1].update(
                at.column,
                ScreenChar { ascii_character: byte, color_code: at.color },
            ),
        ),
        column: at.column + 1,
        color: at.color,
    }
}

/// The screen after a backspace: the character before the column is blank
/// and the column one back, unless the column is at the start.
pub open spec fn back_space_spec(screen: Screen) -> Screen {
    if screen.column == 0 {
        screen
    } else {
        Screen {
            rows: screen.rows.update(
                BUFFER_HEIGHT - 1,
                screen.rows[BUFFER_HEIGHT - 1].update(screen.column - 1, blank(screen.color)),
            ),
            column: screen.column - 1,
            color: screen.color,
        }
    }
}

/// The screen after a byte was written: a NUL byte does nothing, a line
/// feed starts a new line, a tab writes four blanks, a backspace takes the
/// last character of the line back, and any other byte is put on the screen.
pub open spec fn write_byte_spec(screen: Screen, byte: u8) -> Screen {
    if byte == 0 {
        screen
    } else if byte == 0x0a {
        new_line_spec(screen)
    } else if byte == 0x09 {
        put_spec(put_spec(put_spec(put_spec(screen, 0x20), 0x20), 0x20), 0x20)
    } else if byte == 0x08 {
        back_space_spec(screen)
    } else {
        put_spec(screen, byte)
    }
}

/// The screen after the bytes were written, one after the other.
pub open spec fn write_bytes_spec(screen: Screen, bytes: Seq<u8>) -> Screen
    decreases bytes.len(),
{
    if bytes.len() == 0 {
        screen
    } else {
        write_byte_spec(write_bytes_spec(screen, bytes.drop_last()), bytes.last())
    }
}

/// The number of characters on the screen.
pub const BUFFER_CHARS: usize = 2000;

/// The text buffer of the screen: its characters row by row.
pub struct Buffer {
    chars: Vec<ScreenChar>,
}

/// A writer to the text buffer of the screen.
pub struct Writer {
    column_position: usize,
    color_code: ColorCode,
    buffer: Buffer,
}

/// The rows of a screen whose characters are given row by row.
pub open spec fn rows_of(chars: Seq<ScreenChar>) -> Seq<Seq<ScreenChar>> {
    Seq::new(
        BUFFER_HEIGHT as nat,
        |row: int| Seq::new(BUFFER_WIDTH as nat, |col: int| chars[row * BUFFER_WIDTH + col]),
    )
}

impl Writer {
    #[verifier::type_invariant]
    spec fn shaped(self) -> bool {
        &&& self.column_position <= BUFFER_WIDTH
        &&& self.buffer.chars@.len() == BUFFER_CHARS
    }

    /// What the screen shows and where the next character goes.
    pub closed spec fn view(&self) -> Screen {
        Screen {
            rows: rows_of(self.buffer.chars@),
            column: self.column_position as int,
            color: self.color_code,
        }
    }

    /// A writer to a screen of blanks, in pink on black.
    pub fn new() -> (writer: Writer)
        ensures
            writer@.column == 0,
            writer@.color == ColorCode(0x0d),
            writer@.rows == Seq::new(
                BUFFER_HEIGHT as nat,
                |row: int| Seq::new(BUFFER_WIDTH as nat, |i: int| blank(ColorCode(0x0d))),
            ),
    {
        let color_code = ColorCode::new(Color::Pink, Color::Black);
        let character = ScreenChar { ascii_character: 0x20, color_code };
        let mut chars: Vec<ScreenChar> = Vec::new();
        let mut i: usize = 0;
        while i < BUFFER_CHARS
            invariant
                i <= BUFFER_CHARS,
                chars@.len() == i,
                forall|k: int| 0 <= k < i ==> chars@[k] == character,
            decreases BUFFER_CHARS - i,
        {
            chars.push(character);
            i = i + 1;
        }
        let writer = Writer { column_position: 0, color_code, buffer: Buffer { chars } };
        proof {
            assert forall|row: int, col: int|
                0 <= row < BUFFER_HEIGHT && 0 <= col < BUFFER_WIDTH implies 0 <= #[trigger] (row
                * BUFFER_WIDTH + col) < BUFFER_CHARS by {}
            assert(writer@.rows =~~= Seq::new(
                BUFFER_HEIGHT as nat,
                |row: int| Seq::new(BUFFER_WIDTH as nat, |i: int| blank(ColorCode(0x0d))),
            ));
        }
        writer
    }

    /// The character at the given place of the screen.
    pub fn char_at(&self, row: usize, col: usize) -> (character: ScreenChar)
        requires
            row < BUFFER_HEIGHT,
            col < BUFFER_WIDTH,
        ensures
            character == self@.rows[row as int][col as int],
    {
        proof {
            use_type_invariant(self);
        }
        self.buffer.chars[row * BUFFER_WIDTH + col]
    }

    /// The column of the bottom row that the next character goes to.
    pub fn column(&self) -> (column: usize)
        ensures
            column == self@.column,
            column <= BUFFER_WIDTH,
    {
        proof {
            use_type_invariant(self);
        }
        self.column_position
    }

    /// Changes the colors that characters are written in.
    pub fn color(&mut self, fg: Color, bg: Color)
        ensures
            final(self)@.rows == old(self)@.rows,
            final(self)@.column == old(self)@.column,
            final(self)@.color.0 == bg.code_spec() * 16 + fg.code_spec(),
    {
        proof {
            use_type_invariant(&*self);
        }
        self.color_code = ColorCode::new(fg, bg);
    }

    /// Puts a character at the column of the bottom row, after a new line
    /// where the row is full, and moves the column on.
    fn put(&mut self, byte: u8)
        ensures
            final(self)@ == put_spec(old(self)@, byte),
    {
        proof {
            use_type_invariant(&*self);
        }
        if self.column_position >= BUFFER_WIDTH {
            self.new_line();
        }
        proof {
            use_type_invariant(&*self);
        }
        let ghost before = self@;
        let col = self.column_position;
        let character = ScreenChar { ascii_character: byte, color_code: self.color_code };
        self.buffer.chars[(BUFFER_HEIGHT - 1) * BUFFER_WIDTH + col] = character;
        self.column_position = col + 1;
        proof {
            assert(self@.rows =~~= before.rows.update(
                BUFFER_HEIGHT - 1,
                before.rows[BUFFER_HEIGHT - 1].update(col as int, character),
            ));
        }
    }

    /// Writes one byte to the screen at the column of the bottom row, and
    /// moves the column on. A NUL byte does nothing, a line feed starts a new
    /// line, a tab writes four blanks, and a backspace takes the last
    /// character of the line back.
    pub fn write_byte(&mut self, byte: u8)
        ensures
            final(self)@ == write_byte_spec(old(self)@, byte),
    {
        if byte == 0 {
        } else if byte == 0x0a {
            self.new_line();
        } else if byte == 0x09 {
            self.put(0x20);
            self.put(0x20);
            self.put(0x20);
            self.put(0x20);
        } else if byte == 0x08 {
            self.back_space();
        } else {
            self.put(byte);
        }
    }

    /// Writes a string to the screen, byte by byte.
    pub fn write_str(&mut self, s: &str)
        ensures
            final(self)@ == write_bytes_spec(old(self)@, s.spec_bytes()),
    {
        let bytes = s.as_bytes();
        let mut i: usize = 0;
        proof {
            assert(bytes@.subrange(0, 0) =~= Seq::<u8>::empty());
        }
        while i < bytes.len()
            invariant
                i <= bytes.len(),
                self@ == write_bytes_spec(old(self)@, bytes@.subrange(0, i as int)),
            decreases bytes.len() - i,
        {
            proof {
                let next = bytes@.subrange(0, i + 1);
                assert(next.drop_last() =~= bytes@.subrange(0, i as int));
                assert(next.last() == bytes@[i as int]);
            }
            self.write_byte(bytes[i]);
            i = i + 1;
        }
        proof {
            assert(bytes@.subrange(0, i as int) =~= bytes@);
        }
    }

    /// Moves every row up by one and starts at the beginning of a blank
    /// bottom row.
    pub fn new_line(&mut self)
        ensures
            final(self)@ == new_line_spec(old(self)@),
    {
        proof {
            use_type_invariant(&*self);
        }
        let ghost before = self.buffer.chars@;
        let space = ScreenChar { ascii_character: 0x20, color_code: self.color_code };
        let moved = (BUFFER_HEIGHT - 1) * BUFFER_WIDTH;
        let mut i: usize = 0;
        while i < moved
            invariant
                i <= moved,
                moved == (BUFFER_HEIGHT - 1) * BUFFER_WIDTH,
                self.column_position == old(self).column_position,
                self.column_position <= BUFFER_WIDTH,
                self.color_code == old(self).color_code,
                self.buffer.chars@.len() == BUFFER_CHARS,
                before.len() == BUFFER_CHARS,
                forall|k: int| 0 <= k < i ==> self.buffer.chars@[k] == before[k + BUFFER_WIDTH],
                forall|k: int| i <= k < BUFFER_CHARS ==> self.buffer.chars@[k] == before[k],
            decreases moved - i,
        {
            let character = self.buffer.chars[i + BUFFER_WIDTH];
            self.buffer.chars[i] = character;
            i = i + 1;
        }
        while i < BUFFER_CHARS
            invariant
                (BUFFER_HEIGHT - 1) * BUFFER_WIDTH <= i <= BUFFER_CHARS,
                self.column_position == old(self).column_position,
                self.column_position <= BUFFER_WIDTH,
                self.color_code == old(self).color_code,
                space == blank(old(self).color_code),
                self.buffer.chars@.len() == BUFFER_CHARS,
                before.len() == BUFFER_CHARS,
                forall|k: int|
                    0 <= k < (BUFFER_HEIGHT - 1) * BUFFER_WIDTH ==> self.buffer.chars@[k]
                        == before[k + BUFFER_WIDTH],
                forall|k: int|
                    (BUFFER_HEIGHT - 1) * BUFFER_WIDTH <= k < i ==> self.buffer.chars@[k] == space,
            decreases BUFFER_CHARS - i,
        {
            self.buffer.chars[i] = space;
            i = i + 1;
        }
        self.column_position = 0;
        proof {
            assert forall|row: int, col: int|
                0 <= row < BUFFER_HEIGHT && 0 <= col < BUFFER_WIDTH implies 0 <= #[trigger] (row
                * BUFFER_WIDTH + col) < BUFFER_CHARS by {}
            assert(self@.rows =~~= new_line_spec(old(self)@).rows);
        }
    }

    /// Moves the column back one place and clears the character there.
    /// Does nothing at the start of the line.
    pub fn back_space(&mut self)
        ensures
            final(self)@ == back_space_spec(old(self)@),
    {
        proof {
            use_type_invariant(&*self);
        }
        let ghost before = self@;
        let col = self.column_position;
        if col == 0 {
            return ;
        }
        let character = ScreenChar { ascii_character: 0x20, color_code: self.color_code };
        self.buffer.chars[(BUFFER_HEIGHT - 1) * BUFFER_WIDTH + col - 1] = character;
        self.column_position = col - 1;
        proof {
            assert(self@.rows =~~= before.rows.update(
                BUFFER_HEIGHT - 1,
                before.rows[BUFFER_HEIGHT - 1].update(col - 1, character),
            ));
        }
    }

    /// Clears the given row: every character of it becomes a blank.
    pub fn clear_row(&mut self, row: usize)
        requires
            row < BUFFER_HEIGHT,
        ensures
            final(self)@.column == old(self)@.column,
            final(self)@.color == old(self)@.color,
            final(self)@.rows == old(self)@.rows.update(
                row as int,
                Seq::new(BUFFER_WIDTH as nat, |i: int| blank(old(self)@.color)),
            ),
    {
        proof {
            use_type_invariant(&*self);
        }
        let ghost before = self.buffer.chars@;
        let space = ScreenChar { ascii_character: 0x20, color_code: self.color_code };
        let start = row * BUFFER_WIDTH;
        let mut col: usize = 0;
        while col < BUFFER_WIDTH
            invariant
                col <= BUFFER_WIDTH,
                row < BUFFER_HEIGHT,
                start == row * BUFFER_WIDTH,
                space == blank(old(self).color_code),
                self.column_position == old(self).column_position,
                self.column_position <= BUFFER_WIDTH,
                self.color_code == old(self).color_code,
                self.buffer.chars@.len() == BUFFER_CHARS,
                before.len() == BUFFER_CHARS,
                forall|k: int|
                    0 <= k < BUFFER_CHARS ==> self.buffer.chars@[k] == if start <= k < start
                        + col {
                        space
                    } else {
                        before[k]
                    },
            decreases BUFFER_WIDTH - col,
        {
            self.buffer.chars[start + col] = space;
            col = col + 1;
        }
        proof {
            assert forall|r: int, c: int|
                0 <= r < BUFFER_HEIGHT && 0 <= c < BUFFER_WIDTH implies 0 <= #[trigger] (r
                * BUFFER_WIDTH + c) < BUFFER_CHARS by {}
            assert(self@.rows =~~= old(self)@.rows.update(
                row as int,
                Seq::new(BUFFER_WIDTH as nat, |i: int| space),
            ));
        }
    }
}

/// Changes the colors that the writer writes in.
pub fn change_color(writer: &mut Writer, fg: Color, bg: Color)
    ensures
        final(writer)@.rows == old(writer)@.rows,
        final(writer)@.column == old(writer)@.column,
        final(writer)@.color.0 == bg.code_spec() * 16 + fg.code_spec(),
{
    writer.color(fg, bg);
}

/// Clears the screen: 25 new lines, and one more.
pub fn clear_screen(writer: &mut Writer)
    ensures
        final(writer)@.column == 0,
        final(writer)@.color == old(writer)@.color,
        final(writer)@.rows == Seq::new(
            BUFFER_HEIGHT as nat,
            |row: int| Seq::new(BUFFER_WIDTH as nat, |i: int| blank(old(writer)@.color)),
        ),
{
    let mut line: usize = 0;
    while line < BUFFER_HEIGHT + 1
        invariant
            line <= BUFFER_HEIGHT + 1,
            writer@.color == old(writer)@.color,
            line > 0 ==> writer@.column == 0,
            writer@.rows.len() == BUFFER_HEIGHT,
            forall|row: int|
                BUFFER_HEIGHT - line <= row < BUFFER_HEIGHT && 0 <= row ==> #[trigger] writer@.rows[row]
                    == Seq::new(BUFFER_WIDTH as nat, |i: int| blank(old(writer)@.color)),
        decreases BUFFER_HEIGHT + 1 - line,
    {
        writer.new_line();
        line = line + 1;
    }
    assert(writer@.rows =~= Seq::new(
        BUFFER_HEIGHT as nat,
        |row: int| Seq::new(BUFFER_WIDTH as nat, |i: int| blank(old(writer)@.color)),
    ));
}

} // verus!
