//! The VGA text console: a 25 by 80 grid of characters with a cursor. The
//! writer keeps the grid; whoever owns the text buffer copies it there.
use vstd::prelude::*;
use vstd::string::StringSliceAdditionalSpecFns;

verus! {

pub const BUFFER_HEIGHT: usize = 25;

pub const BUFFER_WIDTH: usize = 80;

/// The cells of the grid, row after row.
pub const BUFFER_CELLS: usize = 2000;

/// The byte shown in place of one that is not printable ASCII.
pub const UNPRINTABLE: u8 = 0xfe;

/// The sixteen text-mode colors.
#[derive(Clone, Copy, Debug, PartialEq, Eq, Structural)]
pub enum Color {
    Black,
    Blue,
    Green,
    Cyan,
    Red,
    Magenta,
    Brown,
    LightGray,
    DarkGray,
    LightBlue,
    LightGreen,
    LightCyan,
    LightRed,
    Pink,
    Yellow,
    White,
}

/// The number that the hardware gives a color.
pub open spec fn color_value(c: Color) -> u8 {
    match c {
        Color::Black => 0,
        Color::Blue => 1,
        Color::Green => 2,
        Color::Cyan => 3,
        Color::Red => 4,
        Color::Magenta => 5,
        Color::Brown => 6,
        Color::LightGray => 7,
        Color::DarkGray => 8,
        Color::LightBlue => 9,
        Color::LightGreen => 10,
        Color::LightCyan => 11,
        Color::LightRed => 12,
        Color::Pink => 13,
        Color::Yellow => 14,
        Color::White => 15,
    }
}

impl Color {
    /// The number that the hardware gives the color.
    pub fn value(&self) -> (r: u8)
        ensures
            r == color_value(*self),
    {
        match self {
            Color::Black => 0,
            Color::Blue => 1,
            Color::Green => 2,
            Color::Cyan => 3,
            Color::Red => 4,
            Color::Magenta => 5,
            Color::Brown => 6,
            Color::LightGray => 7,
            Color::DarkGray => 8,
            Color::LightBlue => 9,
            Color::LightGreen => 10,
            Color::LightCyan => 11,
            Color::LightRed => 12,
            Color::Pink => 13,
            Color::Yellow => 14,
            Color::White => 15,
        }
    }
}

/// A foreground and a background color, as one attribute byte.
#[derive(Clone, Copy, Debug, PartialEq, Eq, Structural)]
pub struct ColorCode {
    pub value: u8,
}

impl ColorCode {
    /// The background in the high four bits, the foreground in the low four.
    pub fn new(foreground: Color, background: Color) -> (r: ColorCode)
        ensures
            r.value == color_value(background) * 16 + color_value(foreground),
    {
        let b = background.value();
        let f = foreground.value();
        let value = (b << 4) | f;
        assert((b << 4u8) | f == b * 16 + f) by (bit_vector)
            requires
                b < 16,
                f < 16,
        ;
        ColorCode { value }
    }
}

/// One cell of the grid.
#[derive(Clone, Copy, Debug, PartialEq, Eq, Structural)]
pub struct ScreenChar {
    pub ascii_character: u8,
    pub color_code: ColorCode,
}

/// The grid as the writer sees it: cursor row, cursor column and the cells.
pub type Screen = (int, int, Seq<ScreenChar>);

pub open spec fn blank(color: ColorCode) -> ScreenChar {
    ScreenChar { ascii_character: 0x20, color_code: color }
}

/// The cells with row `row` blanked.
pub open spec fn cleared_row(cells: Seq<ScreenChar>, row: int, color: ColorCode) -> Seq<ScreenChar> {
    Seq::new(
        cells.len(),
        |k: int|
            if row * 80 <= k < row * 80 + 80 {
                blank(color)
            } else {
                cells[k]
            },
    )
}

/// The cells moved up one row; the bottom row stays as it was.
pub open spec fn scrolled(cells: Seq<ScreenChar>) -> Seq<ScreenChar> {
    Seq::new(
        cells.len(),
        |k: int|
            if k < 1920 {
                cells[k + 80]
            } else {
                cells[k]
            },
    )
}

pub open spec fn bottom(row: int) -> int {
    if row < 24 {
        row
    } else {
        24
    }
}

/// Moves the cursor to the start of the next row, scrolling at the bottom,
/// and blanks that row.
pub open spec fn new_line(s: Screen, color: ColorCode) -> Screen {
    let cells = if bottom(s.0) == 24 {
        scrolled(s.2)
    } else {
        s.2
    };
    let row = bottom(s.0 + 1);
    (row, 0, cleared_row(cells, row, color))
}

/// Writes one byte: a newline moves to the next row; anything else is put at
/// the cursor, after wrapping to the next row when the row is full.
pub open spec fn put_byte(s: Screen, color: ColorCode, b: u8) -> Screen {
    if b == 0x0a {
        new_line(s, color)
    } else {
        let t = if s.1 >= 80 {
            new_line(s, color)
        } else {
            s
        };
        (t.0, t.1 + 1, t.2.update(bottom(t.0) * 80 + t.1, ScreenChar { ascii_character: b, color_code: color }))
    }
}

/// The byte that the grid shows for a byte of a string.
pub open spec fn shown(b: u8) -> u8 {
    if (0x20 <= b && b <= 0x7e) || b == 0x0a {
        b
    } else {
        UNPRINTABLE
    }
}

/// Writes the bytes of a string one after the other.
pub open spec fn put_string(s: Screen, color: ColorCode, bytes: Seq<u8>) -> Screen
    decreases bytes.len(),
{
    if bytes.len() == 0 {
        s
    } else {
        put_byte(put_string(s, color, bytes.drop_last()), color, shown(bytes.last()))
    }
}

/// Keeps the grid of the text console.
pub struct VgaWriter {
    row_position: usize,
    column_position: usize,
    color_code: ColorCode,
    buffer: Vec<ScreenChar>,
}

impl View for VgaWriter {
    type V = Screen;

    closed spec fn view(&self) -> Screen {
        (self.row_position as int, self.column_position as int, self.buffer@)
    }
}

impl VgaWriter {
    /// The color of what the writer writes.
    pub closed spec fn color(&self) -> ColorCode {
        self.color_code
    }

    pub open spec fn wf(&self) -> bool {
        &&& 0 <= self@.0 < 25
        &&& 0 <= self@.1 <= 80
        &&& self@.2.len() == 2000
    }

    /// A blank grid with the cursor at the top left, writing green on black.
    pub fn new() -> (r: VgaWriter)
        ensures
            r.wf(),
            r@.0 == 0 && r@.1 == 0,
            r@.2 == Seq::new(2000, |k: int| blank(r.color())),
            r.color() == (ColorCode { value: 2 }),
    {
        let color_code = ColorCode::new(Color::Green, Color::Black);
        let mut buffer: Vec<ScreenChar> = Vec::new();
        let mut k: usize = 0;
        while k < BUFFER_CELLS
            invariant
                k <= BUFFER_CELLS,
                buffer@.len() == k,
                forall|j: int| 0 <= j < k ==> buffer@[j] == blank(color_code),
            decreases BUFFER_CELLS - k,
        {
            buffer.push(ScreenChar { ascii_character: 0x20, color_code });
            k = k + 1;
        }
        let r = VgaWriter { row_position: 0, column_position: 0, color_code, buffer };
        assert(r@.2 =~= Seq::new(2000, |k: int| blank(r.color())));
        r
    }

    /// The cell at `row` and `col`.
    pub fn screen_char(&self, row: usize, col: usize) -> (r: ScreenChar)
        requires
            self.wf(),
            row < BUFFER_HEIGHT,
            col < BUFFER_WIDTH,
        ensures
            r == self@.2[row * 80 + col],
    {
        self.buffer[row * BUFFER_WIDTH + col]
    }

    fn clear_row(&mut self, row: usize)
        requires
            old(self).wf(),
            row < BUFFER_HEIGHT,
        ensures
            final(self).wf(),
            final(self).color() == old(self).color(),
            final(self)@ == (old(self)@.0, old(self)@.1, cleared_row(old(self)@.2, row as int, old(self).color())),
    {
        let blank = ScreenChar { ascii_character: 0x20, color_code: self.color_code };
        let mut col: usize = 0;
        while col < BUFFER_WIDTH
            invariant
                row < BUFFER_HEIGHT,
                col <= BUFFER_WIDTH,
                self.row_position == old(self).row_position,
                self.column_position == old(self).column_position,
                self.color_code == old(self).color_code,
                blank == (ScreenChar { ascii_character: 0x20, color_code: self.color_code }),
                self.buffer@.len() == 2000,
                forall|k: int|
                    0 <= k < 2000 ==> #[trigger] self.buffer@[k] == if row * 80 <= k < row * 80 + col {
                        blank
                    } else {
                        old(self).buffer@[k]
                    },
            decreases BUFFER_WIDTH - col,
        {
            self.buffer[row * BUFFER_WIDTH + col] = blank;
            col = col + 1;
        }
        assert(self.buffer@ =~= cleared_row(old(self)@.2, row as int, old(self).color()));
    }

    fn new_line(&mut self)
        requires
            old(self).wf(),
        ensures
            final(self).wf(),
            final(self).color() == old(self).color(),
            final(self)@ == new_line(old(self)@, old(self).color()),
    {
        if self.row_position >= BUFFER_HEIGHT - 1 {
            let mut k: usize = 0;
            while k < BUFFER_CELLS - BUFFER_WIDTH
                invariant
                    k <= 1920,
                    self.row_position == old(self).row_position,
                    self.column_position == old(self).column_position,
                    self.color_code == old(self).color_code,
                    self.buffer@.len() == 2000,
                    forall|j: int|
                        0 <= j < 2000 ==> #[trigger] self.buffer@[j] == if j < k {
                            old(self).buffer@[j + 80]
                        } else {
                            old(self).buffer@[j]
                        },
                decreases 1920 - k,
            {
                let c = self.buffer[k + BUFFER_WIDTH];
                self.buffer[k] = c;
                k = k + 1;
            }
            assert(self.buffer@ =~= scrolled(old(self)@.2));
        }
        if self.row_position + 1 < BUFFER_HEIGHT - 1 {
            self.row_position = self.row_position + 1;
        } else {
            self.row_position = BUFFER_HEIGHT - 1;
        }
        self.column_position = 0;
        let row = self.row_position;
        self.clear_row(row);
    }

    /// Writes one byte (see `put_byte`).
    pub fn write_byte(&mut self, byte: u8)
        requires
            old(self).wf(),
        ensures
            final(self).wf(),
            final(self).color() == old(self).color(),
            final(self)@ == put_byte(old(self)@, old(self).color(), byte),
    {
        if byte == 0x0a {
            self.new_line();
        } else {
            if self.column_position >= BUFFER_WIDTH {
                self.new_line();
            }
            let row = if self.row_position < BUFFER_HEIGHT - 1 {
                self.row_position
            } else {
                BUFFER_HEIGHT - 1
            };
            let col = self.column_position;
            self.buffer[row * BUFFER_WIDTH + col] = ScreenChar {
                ascii_character: byte,
                color_code: self.color_code,
            };
            self.column_position = self.column_position + 1;
        }
    }

    /// Writes the bytes of a string, showing each one that is not printable
    /// ASCII or a newline as a block.
    pub fn write_string(&mut self, string: &str)
        requires
            old(self).wf(),
        ensures
            final(self).wf(),
            final(self).color() == old(self).color(),
            final(self)@ == put_string(old(self)@, old(self).color(), string.spec_bytes()),
    {
        let bytes = string.as_bytes();
        let mut i: usize = 0;
        while i < bytes.len()
            invariant
                i <= bytes@.len(),
                bytes@ == string.spec_bytes(),
                self.wf(),
                self.color() == old(self).color(),
                self@ == put_string(old(self)@, old(self).color(), bytes@.take(i as int)),
            decreases bytes@.len() - i,
        {
            let byte = bytes[i];
            if (0x20 <= byte && byte <= 0x7e) || byte == 0x0a {
                self.write_byte(byte);
            } else {
                self.write_byte(UNPRINTABLE);
            }
            proof {
                assert(bytes@.take(i + 1).drop_last() == bytes@.take(i as int));
            }
            i = i + 1;
        }
        assert(bytes@.take(i as int) == bytes@);
    }

    /// Blanks every row; the cursor stays where it is.
    pub fn clear_screen(&mut self)
        requires
            old(self).wf(),
        ensures
            final(self).wf(),
            final(self).color() == old(self).color(),
            final(self)@.0 == old(self)@.0,
            final(self)@.1 == old(self)@.1,
            final(self)@.2 == Seq::new(2000, |k: int| blank(old(self).color())),
    {
        let mut row: usize = 0;
        while row < BUFFER_HEIGHT
            invariant
                row <= BUFFER_HEIGHT,
                self.wf(),
                self.color() == old(self).color(),
                self@.0 == old(self)@.0,
                self@.1 == old(self)@.1,
                forall|k: int|
                    0 <= k < 2000 ==> #[trigger] self@.2[k] == if k < row * 80 {
                        blank(old(self).color())
                    } else {
                        old(self)@.2[k]
                    },
            decreases BUFFER_HEIGHT - row,
        {
            self.clear_row(row);
            row = row + 1;
        }
        assert(self@.2 =~= Seq::new(2000, |k: int| blank(old(self).color())));
    }
}

} // verus!
