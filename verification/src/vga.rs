//! The 80x25 VGA text screen: colours, the cells of the text buffer, and the
//! writer that puts text on it, one code page 437 byte per character, with a
//! cursor, wrapping and scrolling. The buffer is kept here; the program
//! copies it to video memory.
use vstd::prelude::*;

verus! {

pub const VGA_WIDTH: usize = 80;

pub const VGA_HEIGHT: usize = 25;

/// The number of cells on the screen.
pub const VGA_CELLS: usize = 2000;

/// The sixteen text-mode colours.
#[derive(Debug, Clone, Copy, PartialEq, Eq, Structural)]
pub enum Color {
    Black,
    Blue,
    Green,
    Cyan,
    Red,
    Magenta,
    Brown,
    LightGray,
    DarkGray,
    LightBlue,
    LightGreen,
    LightCyan,
    LightRed,
    LightMagenta,
    Yellow,
    White,
}

/// The colour's number in the VGA palette.
pub open spec fn color_number(c: Color) -> u8 {
    match c {
        Color::Black => 0,
        Color::Blue => 1,
        Color::Green => 2,
        Color::Cyan => 3,
        Color::Red => 4,
        Color::Magenta => 5,
        Color::Brown => 6,
        Color::LightGray => 7,
        Color::DarkGray => 8,
        Color::LightBlue => 9,
        Color::LightGreen => 10,
        Color::LightCyan => 11,
        Color::LightRed => 12,
        Color::LightMagenta => 13,
        Color::Yellow => 14,
        Color::White => 15,
    }
}

/// The colour's number in the VGA palette.
pub fn color_value(c: Color) -> (r: u8)
    ensures
        r == color_number(c),
{
    match c {
        Color::Black => 0,
        Color::Blue => 1,
        Color::Green => 2,
        Color::Cyan => 3,
        Color::Red => 4,
        Color::Magenta => 5,
        Color::Brown => 6,
        Color::LightGray => 7,
        Color::DarkGray => 8,
        Color::LightBlue => 9,
        Color::LightGreen => 10,
        Color::LightCyan => 11,
        Color::LightRed => 12,
        Color::LightMagenta => 13,
        Color::Yellow => 14,
        Color::White => 15,
    }
}

/// The attribute byte: background in the high nibble, foreground in the low.
pub open spec fn spec_color_code(fg: Color, bg: Color) -> u8 {
    (color_number(bg) * 16 + color_number(fg)) as u8
}

/// The attribute byte of a foreground and a background colour.
pub fn color_code(fg: Color, bg: Color) -> (r: u8)
    ensures
        r == spec_color_code(fg, bg),
{
    let f = color_value(fg);
    let b = color_value(bg);
    b * 16 + f
}

/// A cell: the attribute in the high byte, the character in the low.
pub open spec fn cell(c: u8, color: u8) -> u16 {
    (color * 256 + c) as u16
}

/// The cell that shows byte `c` with attribute `color`.
pub fn vga_entry(c: u8, color: u8) -> (r: u16)
    ensures
        r == cell(c, color),
{
    (color as u16) * 256 + (c as u16)
}

/// An empty cell as clearing and scrolling leave it: a space, light blue on
/// black.
pub open spec fn blank_cell() -> u16 {
    cell(32, spec_color_code(Color::LightBlue, Color::Black))
}

/// What the screen holds: the cells, row by row, the cursor and the colours
/// of the next character.
pub struct ScreenView {
    pub cells: Seq<u16>,
    pub col: int,
    pub row: int,
    pub fg: Color,
    pub bg: Color,
}

/// A screen with 2000 cells and the cursor on it.
pub open spec fn screen_wf(s: ScreenView) -> bool {
    &&& s.cells.len() == VGA_CELLS
    &&& 0 <= s.col < VGA_WIDTH
    &&& 0 <= s.row < VGA_HEIGHT
}

/// The cells moved up one row, with a row of `blank` at the bottom.
pub open spec fn scrolled(cells: Seq<u16>, blank: u16) -> Seq<u16> {
    cells.subrange(VGA_WIDTH as int, VGA_CELLS as int) + Seq::new(VGA_WIDTH as nat, |i: int| blank)
}

/// The cursor moves to the start of the next line, scrolling at the bottom.
pub open spec fn newline(s: ScreenView, blank: u16) -> ScreenView {
    if s.row + 1 >= VGA_HEIGHT {
        ScreenView { cells: scrolled(s.cells, blank), col: 0, row: VGA_HEIGHT - 1, ..s }
    } else {
        ScreenView { col: 0, row: s.row + 1, ..s }
    }
}

/// Writing one byte: carriage return goes to the line's start, line feed to
/// the next line; any other byte is shown at the cursor, which then moves
/// right and wraps at the end of the line. Scrolling fills the bottom row
/// with `blank`.
pub open spec fn put_byte(s: ScreenView, b: u8, blank: u16) -> ScreenView {
    if b == 13 {
        ScreenView { col: 0, ..s }
    } else if b == 10 {
        newline(s, blank)
    } else {
        let cells = s.cells.update(
            s.row * VGA_WIDTH + s.col,
            cell(b, spec_color_code(s.fg, s.bg)),
        );
        let t = ScreenView { cells, ..s };
        if s.col + 1 >= VGA_WIDTH {
            newline(t, blank)
        } else {
            ScreenView { col: s.col + 1, ..t }
        }
    }
}

/// Writing the bytes in order.
pub open spec fn put_bytes(s: ScreenView, bytes: Seq<u8>, blank: u16) -> ScreenView
    decreases bytes.len(),
{
    if bytes.len() == 0 {
        s
    } else {
        put_byte(put_bytes(s, bytes.drop_last(), blank), bytes.last(), blank)
    }
}

/// The byte of code page 437, the screen's character set, that shows `c`:
/// ASCII as it is, the arrows at 0x18 to 0x1B, the accented letters, box
/// pieces and symbols of the set at 0x80 to 0xFF, and `?` for a character
/// the screen cannot show.
pub open spec fn cp437_byte(c: char) -> u8 {
    let u = c as u32;
    if u < 0x80 {
        u as u8
    } else {
        match u {
            0x2191 => 0x18,
            0x2193 => 0x19,
            0x2192 => 0x1A,
            0x2190 => 0x1B,
            0x00C7 => 0x80,
            0x00FC => 0x81,
            0x00E9 => 0x82,
            0x00E2 => 0x83,
            0x00E4 => 0x84,
            0x00E0 => 0x85,
            0x00E5 => 0x86,
            0x00E7 => 0x87,
            0x00EA => 0x88,
            0x00EB => 0x89,
            0x00E8 => 0x8A,
            0x00EF => 0x8B,
            0x00EE => 0x8C,
            0x00EC => 0x8D,
            0x00C4 => 0x8E,
            0x00C5 => 0x8F,
            0x00C9 => 0x90,
            0x00E6 => 0x91,
            0x00C6 => 0x92,
            0x00F4 => 0x93,
            0x00F6 => 0x94,
            0x00F2 => 0x95,
            0x00FB => 0x96,
            0x00F9 => 0x97,
            0x00FF => 0x98,
            0x00D6 => 0x99,
            0x00DC => 0x9A,
            0x00A2 => 0x9B,
            0x00A3 => 0x9C,
            0x00A5 => 0x9D,
            0x20A7 => 0x9E,
            0x0192 => 0x9F,
            0x00E1 => 0xA0,
            0x00ED => 0xA1,
            0x00F3 => 0xA2,
            0x00FA => 0xA3,
            0x00F1 => 0xA4,
            0x00D1 => 0xA5,
            0x00AA => 0xA6,
            0x00BA => 0xA7,
            0x00BF => 0xA8,
            0x2310 => 0xA9,
            0x00AC => 0xAA,
            0x00BD => 0xAB,
            0x00BC => 0xAC,
            0x00A1 => 0xAD,
            0x00AB => 0xAE,
            0x00BB => 0xAF,
            0x2591 => 0xB0,
            0x2592 => 0xB1,
            0x2593 => 0xB2,
            0x2502 => 0xB3,
            0x2524 => 0xB4,
            0x2561 => 0xB5,
            0x2562 => 0xB6,
            0x2556 => 0xB7,
            0x2555 => 0xB8,
            0x2563 => 0xB9,
            0x2551 => 0xBA,
            0x2557 => 0xBB,
            0x255D => 0xBC,
            0x255C => 0xBD,
            0x255B => 0xBE,
            0x2510 => 0xBF,
            0x2514 => 0xC0,
            0x2534 => 0xC1,
            0x252C => 0xC2,
            0x251C => 0xC3,
            0x2500 => 0xC4,
            0x253C => 0xC5,
            0x255E => 0xC6,
            0x255F => 0xC7,
            0x255A => 0xC8,
            0x2554 => 0xC9,
            0x2569 => 0xCA,
            0x2566 => 0xCB,
            0x2560 => 0xCC,
            0x2550 => 0xCD,
            0x256C => 0xCE,
            0x2567 => 0xCF,
            0x2568 => 0xD0,
            0x2564 => 0xD1,
            0x2565 => 0xD2,
            0x2559 => 0xD3,
            0x2558 => 0xD4,
            0x2552 => 0xD5,
            0x2553 => 0xD6,
            0x256B => 0xD7,
            0x256A => 0xD8,
            0x2518 => 0xD9,
            0x250C => 0xDA,
            0x2588 => 0xDB,
            0x2584 => 0xDC,
            0x258C => 0xDD,
            0x2590 => 0xDE,
            0x2580 => 0xDF,
            0x03B1 => 0xE0,
            0x00DF => 0xE1,
            0x0393 => 0xE2,
            0x03C0 => 0xE3,
            0x03A3 => 0xE4,
            0x03C3 => 0xE5,
            0x00B5 => 0xE6,
            0x03C4 => 0xE7,
            0x03A6 => 0xE8,
            0x0398 => 0xE9,
            0x03A9 => 0xEA,
            0x03B4 => 0xEB,
            0x221E => 0xEC,
            0x03C6 => 0xED,
            0x03B5 => 0xEE,
            0x2229 => 0xEF,
            0x2261 => 0xF0,
            0x00B1 => 0xF1,
            0x2265 => 0xF2,
            0x2264 => 0xF3,
            0x2320 => 0xF4,
            0x2321 => 0xF5,
            0x00F7 => 0xF6,
            0x2248 => 0xF7,
            0x00B0 => 0xF8,
            0x2219 => 0xF9,
            0x00B7 => 0xFA,
            0x221A => 0xFB,
            0x207F => 0xFC,
            0x00B2 => 0xFD,
            0x25A0 => 0xFE,
            0x00A0 => 0xFF,
            _ => 0x3F,
        }
    }
}

pub fn cp437_of(c: char) -> (r: u8)
    ensures
        r == cp437_byte(c),
{
    let u = c as u32;
    if u < 0x80 {
        u as u8
    } else {
        match u {
            0x2191 => 0x18,
            0x2193 => 0x19,
            0x2192 => 0x1A,
            0x2190 => 0x1B,
            0x00C7 => 0x80,
            0x00FC => 0x81,
            0x00E9 => 0x82,
            0x00E2 => 0x83,
            0x00E4 => 0x84,
            0x00E0 => 0x85,
            0x00E5 => 0x86,
            0x00E7 => 0x87,
            0x00EA => 0x88,
            0x00EB => 0x89,
            0x00E8 => 0x8A,
            0x00EF => 0x8B,
            0x00EE => 0x8C,
            0x00EC => 0x8D,
            0x00C4 => 0x8E,
            0x00C5 => 0x8F,
            0x00C9 => 0x90,
            0x00E6 => 0x91,
            0x00C6 => 0x92,
            0x00F4 => 0x93,
            0x00F6 => 0x94,
            0x00F2 => 0x95,
            0x00FB => 0x96,
            0x00F9 => 0x97,
            0x00FF => 0x98,
            0x00D6 => 0x99,
            0x00DC => 0x9A,
            0x00A2 => 0x9B,
            0x00A3 => 0x9C,
            0x00A5 => 0x9D,
            0x20A7 => 0x9E,
            0x0192 => 0x9F,
            0x00E1 => 0xA0,
            0x00ED => 0xA1,
            0x00F3 => 0xA2,
            0x00FA => 0xA3,
            0x00F1 => 0xA4,
            0x00D1 => 0xA5,
            0x00AA => 0xA6,
            0x00BA => 0xA7,
            0x00BF => 0xA8,
            0x2310 => 0xA9,
            0x00AC => 0xAA,
            0x00BD => 0xAB,
            0x00BC => 0xAC,
            0x00A1 => 0xAD,
            0x00AB => 0xAE,
            0x00BB => 0xAF,
            0x2591 => 0xB0,
            0x2592 => 0xB1,
            0x2593 => 0xB2,
            0x2502 => 0xB3,
            0x2524 => 0xB4,
            0x2561 => 0xB5,
            0x2562 => 0xB6,
            0x2556 => 0xB7,
            0x2555 => 0xB8,
            0x2563 => 0xB9,
            0x2551 => 0xBA,
            0x2557 => 0xBB,
            0x255D => 0xBC,
            0x255C => 0xBD,
            0x255B => 0xBE,
            0x2510 => 0xBF,
            0x2514 => 0xC0,
            0x2534 => 0xC1,
            0x252C => 0xC2,
            0x251C => 0xC3,
            0x2500 => 0xC4,
            0x253C => 0xC5,
            0x255E => 0xC6,
            0x255F => 0xC7,
            0x255A => 0xC8,
            0x2554 => 0xC9,
            0x2569 => 0xCA,
            0x2566 => 0xCB,
            0x2560 => 0xCC,
            0x2550 => 0xCD,
            0x256C => 0xCE,
            0x2567 => 0xCF,
            0x2568 => 0xD0,
            0x2564 => 0xD1,
            0x2565 => 0xD2,
            0x2559 => 0xD3,
            0x2558 => 0xD4,
            0x2552 => 0xD5,
            0x2553 => 0xD6,
            0x256B => 0xD7,
            0x256A => 0xD8,
            0x2518 => 0xD9,
            0x250C => 0xDA,
            0x2588 => 0xDB,
            0x2584 => 0xDC,
            0x258C => 0xDD,
            0x2590 => 0xDE,
            0x2580 => 0xDF,
            0x03B1 => 0xE0,
            0x00DF => 0xE1,
            0x0393 => 0xE2,
            0x03C0 => 0xE3,
            0x03A3 => 0xE4,
            0x03C3 => 0xE5,
            0x00B5 => 0xE6,
            0x03C4 => 0xE7,
            0x03A6 => 0xE8,
            0x0398 => 0xE9,
            0x03A9 => 0xEA,
            0x03B4 => 0xEB,
            0x221E => 0xEC,
            0x03C6 => 0xED,
            0x03B5 => 0xEE,
            0x2229 => 0xEF,
            0x2261 => 0xF0,
            0x00B1 => 0xF1,
            0x2265 => 0xF2,
            0x2264 => 0xF3,
            0x2320 => 0xF4,
            0x2321 => 0xF5,
            0x00F7 => 0xF6,
            0x2248 => 0xF7,
            0x00B0 => 0xF8,
            0x2219 => 0xF9,
            0x00B7 => 0xFA,
            0x221A => 0xFB,
            0x207F => 0xFC,
            0x00B2 => 0xFD,
            0x25A0 => 0xFE,
            0x00A0 => 0xFF,
            _ => 0x3F,
        }
    }
}

/// The bytes that show `text` on the screen: one per character.
pub open spec fn screen_bytes(text: Seq<char>) -> Seq<u8> {
    text.map_values(|c: char| cp437_byte(c))
}

/// The bytes that show `s`, one per character.
pub fn screen_bytes_of(s: &str) -> (r: Vec<u8>)
    ensures
        r@ == screen_bytes(s@),
{
    let cs = crate::text::chars_of(s);
    let mut v: Vec<u8> = Vec::new();
    let mut i: usize = 0;
    while i < cs.len()
        invariant
            0 <= i <= cs@.len(),
            v@ == screen_bytes(cs@.take(i as int)),
        decreases cs@.len() - i,
    {
        v.push(cp437_of(cs[i]));
        assert(screen_bytes(cs@.take(i + 1)) =~= screen_bytes(cs@.take(i as int)).push(cp437_byte(cs@[i as int])));
        i = i + 1;
    }
    assert(cs@.take(cs@.len() as int) =~= cs@);
    v
}

/// Writing text: each character in one cell, by its code page 437 byte.
pub open spec fn put_text(s: ScreenView, text: Seq<char>) -> ScreenView {
    put_bytes(s, screen_bytes(text), blank_cell())
}

/// A cleared screen: all blank, the cursor home, the colours kept.
pub open spec fn cleared(s: ScreenView) -> ScreenView {
    ScreenView {
        cells: Seq::new(VGA_CELLS as nat, |i: int| blank_cell()),
        col: 0,
        row: 0,
        ..s
    }
}

pub proof fn lemma_put_byte_wf(s: ScreenView, b: u8, blank: u16)
    requires
        screen_wf(s),
    ensures
        screen_wf(put_byte(s, b, blank)),
{
}

pub proof fn lemma_put_bytes_wf(s: ScreenView, bytes: Seq<u8>, blank: u16)
    requires
        screen_wf(s),
    ensures
        screen_wf(put_bytes(s, bytes, blank)),
    decreases bytes.len(),
{
    if bytes.len() > 0 {
        lemma_put_bytes_wf(s, bytes.drop_last(), blank);
        lemma_put_byte_wf(put_bytes(s, bytes.drop_last(), blank), bytes.last(), blank);
    }
}

/// The text screen and its writer: the cells, the cursor and the current
/// colours. It starts light blue on black, cleared.
pub struct VgaWriter {
    cells: Vec<u16>,
    col: usize,
    row: usize,
    fg: Color,
    bg: Color,
}

impl View for VgaWriter {
    type V = ScreenView;

    closed spec fn view(&self) -> ScreenView {
        ScreenView {
            cells: self.cells@,
            col: self.col as int,
            row: self.row as int,
            fg: self.fg,
            bg: self.bg,
        }
    }
}

impl VgaWriter {
    /// The cells, the cursor and the colours as they are stored.
    pub closed spec fn wf(&self) -> bool {
        screen_wf(self@)
    }

    /// A cleared screen, light blue on black, the cursor home.
    pub fn new() -> (r: Self)
        ensures
            r.wf(),
            r@.cells == Seq::new(VGA_CELLS as nat, |i: int| blank_cell()),
            r@.col == 0 && r@.row == 0,
            r@.fg == Color::LightBlue && r@.bg == Color::Black,
    {
        let mut w = VgaWriter {
            cells: Vec::new(),
            col: 0,
            row: 0,
            fg: Color::LightBlue,
            bg: Color::Black,
        };
        w.clear();
        w
    }

    /// The cells, row by row, to be copied to video memory.
    pub fn cells(&self) -> (r: &Vec<u16>)
        ensures
            r@ == self@.cells,
    {
        &self.cells
    }

    /// The cursor, column then row.
    pub fn cursor(&self) -> (r: (usize, usize))
        ensures
            r.0 == self@.col && r.1 == self@.row,
    {
        (self.col, self.row)
    }

    /// The colours of the next character, foreground then background.
    pub fn colors(&self) -> (r: (Color, Color))
        ensures
            r.0 == self@.fg && r.1 == self@.bg,
    {
        (self.fg, self.bg)
    }

    /// Sets the colours of what is written next.
    pub fn set_color(&mut self, fg: Color, bg: Color)
        requires
            old(self).wf(),
        ensures
            final(self).wf(),
            final(self)@ == (ScreenView { fg, bg, ..old(self)@ }),
    {
        self.fg = fg;
        self.bg = bg;
    }

    /// Moves the cursor.
    pub fn set_cursor(&mut self, col: usize, row: usize)
        requires
            old(self).wf(),
            col < VGA_WIDTH,
            row < VGA_HEIGHT,
        ensures
            final(self).wf(),
            final(self)@ == (ScreenView { col: col as int, row: row as int, ..old(self)@ }),
    {
        self.col = col;
        self.row = row;
    }

    /// Blanks the screen and puts the cursor home.
    pub fn clear(&mut self)
        ensures
            final(self).wf(),
            final(self)@ == cleared(old(self)@),
    {
        let blank = vga_entry(32, color_code(Color::LightBlue, Color::Black));
        let mut cells: Vec<u16> = Vec::new();
        let mut i: usize = 0;
        while i < VGA_CELLS
            invariant
                0 <= i <= VGA_CELLS,
                blank == blank_cell(),
                cells@ == Seq::new(i as nat, |j: int| blank_cell()),
            decreases VGA_CELLS - i,
        {
            cells.push(blank);
            assert(cells@ =~= Seq::new((i + 1) as nat, |j: int| blank_cell()));
            i = i + 1;
        }
        self.cells = cells;
        self.col = 0;
        self.row = 0;
    }

    fn scroll(&mut self, blank: u16)
        requires
            old(self).wf(),
        ensures
            final(self).wf(),
            final(self)@ == (ScreenView { cells: scrolled(old(self)@.cells, blank), ..old(self)@ }),
    {
        let ghost old_cells = self.cells@;
        let mut i: usize = VGA_WIDTH;
        while i < VGA_CELLS
            invariant
                VGA_WIDTH <= i <= VGA_CELLS,
                self.cells@.len() == VGA_CELLS,
                old_cells.len() == VGA_CELLS,
                forall|j: int| 0 <= j < i - VGA_WIDTH ==> #[trigger] self.cells@[j] == old_cells[j
                    + VGA_WIDTH],
                forall|j: int| i - VGA_WIDTH <= j < VGA_CELLS ==> #[trigger] self.cells@[j]
                    == old_cells[j],
                self.col == old(self).col && self.row == old(self).row,
                self.fg == old(self).fg && self.bg == old(self).bg,
                old_cells == old(self).cells@,
            decreases VGA_CELLS - i,
        {
            let v = self.cells[i];
            self.cells.set(i - VGA_WIDTH, v);
            i = i + 1;
        }
        let mut k: usize = VGA_CELLS - VGA_WIDTH;
        while k < VGA_CELLS
            invariant
                VGA_CELLS - VGA_WIDTH <= k <= VGA_CELLS,
                self.cells@.len() == VGA_CELLS,
                old_cells.len() == VGA_CELLS,
                forall|j: int| 0 <= j < VGA_CELLS - VGA_WIDTH ==> #[trigger] self.cells@[j]
                    == old_cells[j + VGA_WIDTH],
                forall|j: int| VGA_CELLS - VGA_WIDTH <= j < k ==> #[trigger] self.cells@[j] == blank,
                self.col == old(self).col && self.row == old(self).row,
                self.fg == old(self).fg && self.bg == old(self).bg,
                old_cells == old(self).cells@,
            decreases VGA_CELLS - k,
        {
            self.cells.set(k, blank);
            k = k + 1;
        }
        assert(self.cells@ =~= scrolled(old_cells, blank));
    }

    fn newline(&mut self, blank: u16)
        requires
            old(self).wf(),
        ensures
            final(self).wf(),
            final(self)@ == newline(old(self)@, blank),
    {
        self.col = 0;
        if self.row + 1 >= VGA_HEIGHT {
            self.scroll(blank);
            self.row = VGA_HEIGHT - 1;
        } else {
            self.row = self.row + 1;
        }
    }

    fn put_byte(&mut self, b: u8, blank: u16)
        requires
            old(self).wf(),
        ensures
            final(self).wf(),
            final(self)@ == put_byte(old(self)@, b, blank),
    {
        if b == 13 {
            self.col = 0;
        } else if b == 10 {
            self.newline(blank);
        } else {
            let idx = self.row * VGA_WIDTH + self.col;
            let v = vga_entry(b, color_code(self.fg, self.bg));
            self.cells.set(idx, v);
            if self.col + 1 >= VGA_WIDTH {
                self.newline(blank);
            } else {
                self.col = self.col + 1;
            }
        }
    }

    fn put_bytes(&mut self, bytes: &[u8], blank: u16)
        requires
            old(self).wf(),
        ensures
            final(self).wf(),
            final(self)@ == put_bytes(old(self)@, bytes@, blank),
    {
        let mut i: usize = 0;
        while i < bytes.len()
            invariant
                0 <= i <= bytes@.len(),
                self.wf(),
                self@ == put_bytes(old(self)@, bytes@.take(i as int), blank),
            decreases bytes@.len() - i,
        {
            assert(bytes@.take(i + 1).drop_last() =~= bytes@.take(i as int));
            self.put_byte(bytes[i], blank);
            i = i + 1;
        }
        assert(bytes@.take(bytes@.len() as int) =~= bytes@);
    }

    /// Writes text at the cursor in the current colours; scrolling leaves
    /// the new bottom row blank.
    pub fn write_str(&mut self, s: &str)
        requires
            old(self).wf(),
        ensures
            final(self).wf(),
            final(self)@ == put_text(old(self)@, s@),
    {
        let blank = vga_entry(32, color_code(Color::LightBlue, Color::Black));
        let bytes = screen_bytes_of(s);
        self.put_bytes(bytes.as_slice(), blank);
    }

    /// Writes text as a formatting sink does: like `write_str`, except that
    /// scrolling fills the new bottom row with spaces in the current colours.
    pub fn write_text(&mut self, s: &str)
        requires
            old(self).wf(),
        ensures
            final(self).wf(),
            final(self)@ == put_bytes(
                old(self)@,
                screen_bytes(s@),
                cell(32, spec_color_code(old(self)@.fg, old(self)@.bg)),
            ),
    {
        let blank = vga_entry(32, color_code(self.fg, self.bg));
        let bytes = screen_bytes_of(s);
        self.put_bytes(bytes.as_slice(), blank);
    }
}

} // verus!
