//! Drawing the boot manager's screens on the text screen: framed boxes and
//! their lines, the boot menu, the status dialog, the "no entries" box and
//! the manual boot browser. Every drawing is stated as the sequence of
//! colour changes, cursor moves and texts it performs.
use vstd::prelude::*;
use vstd::utf8::*;
use crate::config::{Entry, EntryView, Keybinds, entries_view};
use crate::keyboard::KeyEvent;
use crate::menu::Menu;
use crate::text::{chars_of, decimal, push_chars, push_decimal, push_str, string_from};
use crate::vga::{Color, ScreenView, VgaWriter, put_text};

verus! {

pub const COLS: usize = 80;

pub const ROWS: usize = 25;

// ---------------------------------------------------------------------------
// Painting
// ---------------------------------------------------------------------------

/// One drawing step: set the colours, move the cursor, or write text.
pub enum Paint {
    Colors(Color, Color),
    Cursor(int, int),
    Text(Seq<char>),
}

pub open spec fn apply_paint(s: ScreenView, p: Paint) -> ScreenView {
    match p {
        Paint::Colors(fg, bg) => ScreenView { fg, bg, ..s },
        Paint::Cursor(col, row) => ScreenView { col, row, ..s },
        Paint::Text(t) => put_text(s, t),
    }
}

/// The screen after the steps, in order.
pub open spec fn paint(s: ScreenView, ops: Seq<Paint>) -> ScreenView
    decreases ops.len(),
{
    if ops.len() == 0 {
        s
    } else {
        apply_paint(paint(s, ops.drop_last()), ops.last())
    }
}

pub proof fn lemma_paint_push(s: ScreenView, ops: Seq<Paint>, p: Paint)
    ensures
        paint(s, ops.push(p)) == apply_paint(paint(s, ops), p),
{
    assert(ops.push(p).drop_last() =~= ops);
}

pub proof fn lemma_paint_concat(s: ScreenView, a: Seq<Paint>, b: Seq<Paint>)
    ensures
        paint(s, a + b) == paint(paint(s, a), b),
    decreases b.len(),
{
    if b.len() == 0 {
        assert(a + b =~= a);
    } else {
        lemma_paint_concat(s, a, b.drop_last());
        assert((a + b).drop_last() =~= a + b.drop_last());
    }
}

fn put_colors(
    w: &mut VgaWriter,
    fg: Color,
    bg: Color,
    Ghost(s0): Ghost<ScreenView>,
    Ghost(ops): Ghost<Seq<Paint>>,
)
    requires
        old(w).wf(),
        old(w)@ == paint(s0, ops),
    ensures
        final(w).wf(),
        final(w)@ == paint(s0, ops.push(Paint::Colors(fg, bg))),
{
    proof {
        lemma_paint_push(s0, ops, Paint::Colors(fg, bg));
    }
    w.set_color(fg, bg);
}

fn put_text_str(
    w: &mut VgaWriter,
    t: &str,
    Ghost(s0): Ghost<ScreenView>,
    Ghost(ops): Ghost<Seq<Paint>>,
)
    requires
        old(w).wf(),
        old(w)@ == paint(s0, ops),
    ensures
        final(w).wf(),
        final(w)@ == paint(s0, ops.push(Paint::Text(t@))),
{
    proof {
        lemma_paint_push(s0, ops, Paint::Text(t@));
    }
    w.write_str(t);
}

fn put_cursor(
    w: &mut VgaWriter,
    col: usize,
    row: usize,
    Ghost(s0): Ghost<ScreenView>,
    Ghost(ops): Ghost<Seq<Paint>>,
)
    requires
        old(w).wf(),
        old(w)@ == paint(s0, ops),
        col < COLS,
        row < ROWS,
    ensures
        final(w).wf(),
        final(w)@ == paint(s0, ops.push(Paint::Cursor(col as int, row as int))),
{
    proof {
        lemma_paint_push(s0, ops, Paint::Cursor(col as int, row as int));
    }
    w.set_cursor(col, row);
}

// ---------------------------------------------------------------------------
// Text pieces
// ---------------------------------------------------------------------------

/// `n` copies of `c` (none for `n <= 0`).
pub open spec fn repeat(c: char, n: int) -> Seq<char> {
    Seq::new(if n > 0 { n as nat } else { 0 }, |i: int| c)
}

/// `a - b`, or 0 where that is negative.
pub open spec fn sat_sub(a: int, b: int) -> int {
    if a >= b {
        a - b
    } else {
        0
    }
}

pub open spec fn min(a: int, b: int) -> int {
    if a <= b {
        a
    } else {
        b
    }
}

pub open spec fn max(a: int, b: int) -> int {
    if a >= b {
        a
    } else {
        b
    }
}

/// `n` copies of `c`.
pub fn repeat_char(c: char, n: usize) -> (r: String)
    ensures
        r@ == repeat(c, n as int),
{
    let mut r = String::new();
    let mut i: usize = 0;
    while i < n
        invariant
            0 <= i <= n,
            r@ == repeat(c, i as int),
        decreases n - i,
    {
        push_chars(&mut r, &[c]);
        assert(r@ =~= repeat(c, i + 1));
        i = i + 1;
    }
    r
}

/// The first `n` characters of `s` (all of them if it is shorter).
pub fn take_chars(s: &str, n: usize) -> (r: String)
    ensures
        r@ == s@.take(min(n as int, s@.len() as int)),
{
    let cs = chars_of(s);
    let k = if n < cs.len() {
        n
    } else {
        cs.len()
    };
    let r = string_from(&cs.as_slice()[0..k]);
    assert(cs@.subrange(0, k as int) =~= s@.take(min(n as int, s@.len() as int)));
    r
}

/// The number of characters in `s`.
pub fn char_count(s: &str) -> (r: usize)
    ensures
        r == s@.len(),
{
    chars_of(s).len()
}

fn sub_or_zero(a: usize, b: usize) -> (r: usize)
    ensures
        r == sat_sub(a as int, b as int),
{
    if a >= b {
        a - b
    } else {
        0
    }
}

/// `" │\r\n"`, which closes a framed line.
pub open spec fn line_close() -> Seq<char> {
    seq![' ', '│', '\r', '\n']
}

/// `"│ "`, which opens a framed line.
pub open spec fn line_open() -> Seq<char> {
    seq!['│', ' ']
}

/// The frame's colours: light blue on black.
pub open spec fn frame_colors() -> Paint {
    Paint::Colors(Color::LightBlue, Color::Black)
}

/// `x` spaces, written only for `x > 0`.
pub open spec fn indent_ops(x: int) -> Seq<Paint> {
    if x > 0 {
        seq![Paint::Text(repeat(' ', x))]
    } else {
        Seq::empty()
    }
}

fn indent(w: &mut VgaWriter, x: usize, Ghost(s0): Ghost<ScreenView>, Ghost(ops): Ghost<Seq<Paint>>)
    requires
        old(w).wf(),
        old(w)@ == paint(s0, ops),
    ensures
        final(w).wf(),
        final(w)@ == paint(s0, ops + indent_ops(x as int)),
{
    if x > 0 {
        let sp = repeat_char(' ', x);
        put_text_str(w, sp.as_str(), Ghost(s0), Ghost(ops));
        assert(ops.push(Paint::Text(sp@)) =~= ops + indent_ops(x as int));
    } else {
        assert(ops + indent_ops(x as int) =~= ops);
    }
}

// ---------------------------------------------------------------------------
// Framed boxes
// ---------------------------------------------------------------------------

/// `┌ title ──┐` of width `w`: the dashes fill what the title's bytes and
/// four frame characters leave.
pub open spec fn top_line(title: Seq<char>, w: int) -> Seq<char> {
    seq!['┌', ' '] + title + seq![' '] + repeat('─', sat_sub(w, encode_utf8(title).len() + 4int))
        + seq!['┐', '\r', '\n']
}

/// `└──┘` of width `w`.
pub open spec fn bottom_line(w: int) -> Seq<char> {
    seq!['└'] + repeat('─', sat_sub(w, 2)) + seq!['┘', '\r', '\n']
}

/// `│  │` of width `w`.
pub open spec fn empty_line(w: int) -> Seq<char> {
    seq!['│'] + repeat(' ', sat_sub(w, 2)) + seq!['│', '\r', '\n']
}

pub open spec fn top_ops(title: Seq<char>, w: int, x: int) -> Seq<Paint> {
    seq![frame_colors()] + indent_ops(x) + seq![Paint::Text(top_line(title, w))]
}

pub open spec fn bottom_ops(w: int, x: int) -> Seq<Paint> {
    seq![frame_colors()] + indent_ops(x) + seq![Paint::Text(bottom_line(w))]
}

pub open spec fn empty_ops(w: int, x: int) -> Seq<Paint> {
    seq![frame_colors()] + indent_ops(x) + seq![Paint::Text(empty_line(w))]
}

/// A dark grey rule inside the frame.
pub open spec fn sep_ops(w: int, x: int) -> Seq<Paint> {
    seq![frame_colors()] + indent_ops(x) + seq![
        Paint::Text(line_open()),
        Paint::Colors(Color::DarkGray, Color::Black),
        Paint::Text(repeat('─', sat_sub(w, 4))),
        frame_colors(),
        Paint::Text(line_close()),
    ]
}

/// A line of text in `color`, cut to the inner width or padded to it.
pub open spec fn line_ops(text: Seq<char>, w: int, color: Color, x: int) -> Seq<Paint> {
    let inner = sat_sub(w, 4);
    let tlen = text.len() as int;
    seq![frame_colors()] + indent_ops(x) + seq![
        Paint::Text(line_open()),
        Paint::Colors(color, Color::Black),
        Paint::Text(text.take(min(inner, tlen))),
    ] + (if tlen < inner {
        seq![Paint::Text(repeat(' ', inner - tlen))]
    } else {
        Seq::empty()
    }) + seq![frame_colors(), Paint::Text(line_close())]
}

/// The shadow under a box: `w` spaces black on black.
pub open spec fn shadow_ops(w: int, x: int) -> Seq<Paint> {
    seq![Paint::Colors(Color::Black, Color::Black)] + indent_ops(x) + seq![
        Paint::Text(repeat(' ', w)),
        frame_colors(),
        Paint::Text(seq!['\r', '\n']),
    ]
}

/// The top line of a box.
pub fn draw_top(w: &mut VgaWriter, title: &str, width: usize, x: usize)
    requires
        old(w).wf(),
    ensures
        final(w).wf(),
        final(w)@ == paint(old(w)@, top_ops(title@, width as int, x as int)),
{
    let ghost s0 = w@;
    let ghost mut ops = Seq::<Paint>::empty();
    put_colors(w, Color::LightBlue, Color::Black, Ghost(s0), Ghost(ops));
    proof {
        ops = ops.push(frame_colors());
    }
    indent(w, x, Ghost(s0), Ghost(ops));
    proof {
        ops = ops + indent_ops(x as int);
    }
    let dashes = repeat_char('─', sub_or_zero(width, title.as_bytes().len().saturating_add(4)));
    let mut line = String::new();
    push_str(&mut line, "┌ ");
    push_str(&mut line, title);
    push_str(&mut line, " ");
    push_str(&mut line, dashes.as_str());
    push_str(&mut line, "┐\r\n");
    proof {
        reveal_strlit("┌ ");
        reveal_strlit(" ");
        reveal_strlit("┐\r\n");
        assert(line@ =~= top_line(title@, width as int));
    }
    put_text_str(w, line.as_str(), Ghost(s0), Ghost(ops));
    assert(ops.push(Paint::Text(line@)) =~= top_ops(title@, width as int, x as int));
}

fn draw_framed(w: &mut VgaWriter, text: &String, x: usize, Ghost(ln): Ghost<Seq<char>>)
    requires
        old(w).wf(),
        text@ == ln,
    ensures
        final(w).wf(),
        final(w)@ == paint(
            old(w)@,
            seq![frame_colors()] + indent_ops(x as int) + seq![Paint::Text(ln)],
        ),
{
    let ghost s0 = w@;
    let ghost mut ops = Seq::<Paint>::empty();
    put_colors(w, Color::LightBlue, Color::Black, Ghost(s0), Ghost(ops));
    proof {
        ops = ops.push(frame_colors());
    }
    indent(w, x, Ghost(s0), Ghost(ops));
    proof {
        ops = ops + indent_ops(x as int);
    }
    put_text_str(w, text.as_str(), Ghost(s0), Ghost(ops));
    assert(ops.push(Paint::Text(ln)) =~= seq![frame_colors()] + indent_ops(x as int) + seq![
        Paint::Text(ln),
    ]);
}

/// The bottom line of a box.
pub fn draw_bottom(w: &mut VgaWriter, width: usize, x: usize)
    requires
        old(w).wf(),
    ensures
        final(w).wf(),
        final(w)@ == paint(old(w)@, bottom_ops(width as int, x as int)),
{
    let dashes = repeat_char('─', sub_or_zero(width, 2));
    let mut line = String::new();
    push_str(&mut line, "└");
    push_str(&mut line, dashes.as_str());
    push_str(&mut line, "┘\r\n");
    proof {
        reveal_strlit("└");
        reveal_strlit("┘\r\n");
        assert(line@ =~= bottom_line(width as int));
    }
    draw_framed(w, &line, x, Ghost(bottom_line(width as int)));
}

/// An empty line of a box.
pub fn draw_empty(w: &mut VgaWriter, width: usize, x: usize)
    requires
        old(w).wf(),
    ensures
        final(w).wf(),
        final(w)@ == paint(old(w)@, empty_ops(width as int, x as int)),
{
    let spaces = repeat_char(' ', sub_or_zero(width, 2));
    let mut line = String::new();
    push_str(&mut line, "│");
    push_str(&mut line, spaces.as_str());
    push_str(&mut line, "│\r\n");
    proof {
        reveal_strlit("│");
        reveal_strlit("│\r\n");
        assert(line@ =~= empty_line(width as int));
    }
    draw_framed(w, &line, x, Ghost(empty_line(width as int)));
}

/// A rule across a box.
pub fn draw_sep(w: &mut VgaWriter, width: usize, x: usize)
    requires
        old(w).wf(),
    ensures
        final(w).wf(),
        final(w)@ == paint(old(w)@, sep_ops(width as int, x as int)),
{
    let ghost s0 = w@;
    let ghost mut ops = Seq::<Paint>::empty();
    proof {
        reveal_strlit("│ ");
        reveal_strlit(" │\r\n");
        assert("│ "@ =~= line_open());
        assert(" │\r\n"@ =~= line_close());
    }
    put_colors(w, Color::LightBlue, Color::Black, Ghost(s0), Ghost(ops));
    proof {
        ops = ops.push(frame_colors());
    }
    indent(w, x, Ghost(s0), Ghost(ops));
    proof {
        ops = ops + indent_ops(x as int);
    }
    put_text_str(w, "│ ", Ghost(s0), Ghost(ops));
    proof {
        ops = ops.push(Paint::Text(line_open()));
    }
    put_colors(w, Color::DarkGray, Color::Black, Ghost(s0), Ghost(ops));
    proof {
        ops = ops.push(Paint::Colors(Color::DarkGray, Color::Black));
    }
    let rule = repeat_char('─', sub_or_zero(width, 4));
    put_text_str(w, rule.as_str(), Ghost(s0), Ghost(ops));
    proof {
        ops = ops.push(Paint::Text(rule@));
    }
    put_colors(w, Color::LightBlue, Color::Black, Ghost(s0), Ghost(ops));
    proof {
        ops = ops.push(frame_colors());
    }
    put_text_str(w, " │\r\n", Ghost(s0), Ghost(ops));
    proof {
        ops = ops.push(Paint::Text(line_close()));
    }
    assert(ops =~= sep_ops(width as int, x as int));
}

/// A line of text in a box.
pub fn draw_line(w: &mut VgaWriter, text: &str, width: usize, color: Color, x: usize)
    requires
        old(w).wf(),
    ensures
        final(w).wf(),
        final(w)@ == paint(old(w)@, line_ops(text@, width as int, color, x as int)),
{
    let ghost s0 = w@;
    let ghost mut ops = Seq::<Paint>::empty();
    proof {
        reveal_strlit("│ ");
        reveal_strlit(" │\r\n");
        assert("│ "@ =~= line_open());
        assert(" │\r\n"@ =~= line_close());
    }
    let inner = sub_or_zero(width, 4);
    let tlen = char_count(text);
    let display = take_chars(text, inner);
    put_colors(w, Color::LightBlue, Color::Black, Ghost(s0), Ghost(ops));
    proof {
        ops = ops.push(frame_colors());
    }
    indent(w, x, Ghost(s0), Ghost(ops));
    proof {
        ops = ops + indent_ops(x as int);
    }
    put_text_str(w, "│ ", Ghost(s0), Ghost(ops));
    proof {
        ops = ops.push(Paint::Text(line_open()));
    }
    put_colors(w, color, Color::Black, Ghost(s0), Ghost(ops));
    proof {
        ops = ops.push(Paint::Colors(color, Color::Black));
    }
    put_text_str(w, display.as_str(), Ghost(s0), Ghost(ops));
    proof {
        ops = ops.push(Paint::Text(display@));
    }
    let ghost mid = ops;
    if tlen < inner {
        let pad = repeat_char(' ', inner - tlen);
        put_text_str(w, pad.as_str(), Ghost(s0), Ghost(ops));
        proof {
            ops = ops.push(Paint::Text(pad@));
        }
    }
    put_colors(w, Color::LightBlue, Color::Black, Ghost(s0), Ghost(ops));
    proof {
        ops = ops.push(frame_colors());
    }
    put_text_str(w, " │\r\n", Ghost(s0), Ghost(ops));
    proof {
        ops = ops.push(Paint::Text(line_close()));
    }
    assert(ops =~= line_ops(text@, width as int, color, x as int));
}

// ---------------------------------------------------------------------------
// Entry lines
// ---------------------------------------------------------------------------

/// ` [N]` for a boot counter of N > 0, nothing otherwise.
pub open spec fn counter_label(c: Option<u32>) -> Seq<char> {
    match c {
        Some(n) => if n > 0 {
            seq![' ', '['] + decimal(n as nat) + seq![']']
        } else {
            Seq::empty()
        },
        None => Seq::empty(),
    }
}

/// The boot counter label of an entry.
pub fn counter_text(c: Option<u32>) -> (r: String)
    ensures
        r@ == counter_label(c),
{
    let mut r = String::new();
    match c {
        Some(n) => {
            if n > 0 {
                push_str(&mut r, " [");
                push_decimal(&mut r, n as u64);
                push_str(&mut r, "]");
                proof {
                    reveal_strlit(" [");
                    reveal_strlit("]");
                    assert(r@ =~= counter_label(c));
                }
            }
        },
        None => {},
    }
    r
}

/// An entry's line: a `>` before the selected one, which is white on blue;
/// the title centred in the room the counter label leaves, then the label
/// in dark grey.
pub open spec fn entry_ops(e: EntryView, selected: bool, w: int, x: int) -> Seq<Paint> {
    let prefix = if selected {
        seq![' ', ' ', '>', ' ']
    } else {
        seq![' ', ' ', ' ', ' ']
    };
    let counter = counter_label(e.boot_counter);
    let inner = sat_sub(w, 4);
    let max_title = sat_sub(inner, 4 + counter.len() as int);
    let shown = e.title.take(min(max_title, e.title.len() as int));
    let pad = sat_sub(max_title, shown.len() as int);
    let left = pad / 2;
    let right = pad - left;
    let bg = if selected {
        Color::Blue
    } else {
        Color::Black
    };
    seq![frame_colors()] + indent_ops(x) + seq![
        Paint::Text(line_open()),
        Paint::Colors(Color::White, bg),
        Paint::Text(prefix),
        Paint::Text(repeat(' ', left)),
        Paint::Text(shown),
        Paint::Text(repeat(' ', right)),
    ] + (if counter.len() > 0 {
        seq![Paint::Colors(Color::DarkGray, bg), Paint::Text(counter)]
    } else {
        Seq::empty()
    }) + seq![frame_colors(), Paint::Text(line_close())]
}

/// The line of one entry in the menu or the browser.
#[verifier::spinoff_prover]
#[verifier::rlimit(40)]
pub fn draw_entry_line(w: &mut VgaWriter, entry: &Entry, selected: bool, width: usize, x: usize)
    requires
        old(w).wf(),
    ensures
        final(w).wf(),
        final(w)@ == paint(old(w)@, entry_ops(entry@, selected, width as int, x as int)),
{
    let ghost s0 = w@;
    let ghost mut ops = Seq::<Paint>::empty();
    proof {
        reveal_strlit("│ ");
        reveal_strlit(" │\r\n");
        reveal_strlit("  > ");
        reveal_strlit("    ");
        assert("│ "@ =~= line_open());
        assert(" │\r\n"@ =~= line_close());
        assert("  > "@ =~= seq![' ', ' ', '>', ' ']);
        assert("    "@ =~= seq![' ', ' ', ' ', ' ']);
    }
    let prefix = if selected {
        "  > "
    } else {
        "    "
    };
    let counter = counter_text(entry.boot_counter);
    let inner = sub_or_zero(width, 4);
    let counter_len = char_count(counter.as_str());
    let max_title = sub_or_zero(inner, counter_len.saturating_add(4));
    let title_display = take_chars(entry.title.as_str(), max_title);
    let tlen = char_count(title_display.as_str());
    let pad = sub_or_zero(max_title, tlen);
    let left = pad / 2;
    let right = pad - left;
    let bg = if selected {
        Color::Blue
    } else {
        Color::Black
    };
    put_colors(w, Color::LightBlue, Color::Black, Ghost(s0), Ghost(ops));
    proof {
        ops = ops.push(frame_colors());
    }
    indent(w, x, Ghost(s0), Ghost(ops));
    proof {
        ops = ops + indent_ops(x as int);
    }
    put_text_str(w, "│ ", Ghost(s0), Ghost(ops));
    proof {
        ops = ops.push(Paint::Text(line_open()));
    }
    put_colors(w, Color::White, bg, Ghost(s0), Ghost(ops));
    proof {
        ops = ops.push(Paint::Colors(Color::White, bg));
    }
    put_text_str(w, prefix, Ghost(s0), Ghost(ops));
    proof {
        ops = ops.push(Paint::Text(prefix@));
    }
    let ls = repeat_char(' ', left);
    put_text_str(w, ls.as_str(), Ghost(s0), Ghost(ops));
    proof {
        ops = ops.push(Paint::Text(ls@));
    }
    put_text_str(w, title_display.as_str(), Ghost(s0), Ghost(ops));
    proof {
        ops = ops.push(Paint::Text(title_display@));
    }
    let rs = repeat_char(' ', right);
    put_text_str(w, rs.as_str(), Ghost(s0), Ghost(ops));
    proof {
        ops = ops.push(Paint::Text(rs@));
    }
    if counter_len > 0 {
        put_colors(w, Color::DarkGray, bg, Ghost(s0), Ghost(ops));
        proof {
            ops = ops.push(Paint::Colors(Color::DarkGray, bg));
        }
        put_text_str(w, counter.as_str(), Ghost(s0), Ghost(ops));
        proof {
            ops = ops.push(Paint::Text(counter@));
        }
    }
    put_colors(w, Color::LightBlue, Color::Black, Ghost(s0), Ghost(ops));
    proof {
        ops = ops.push(frame_colors());
    }
    put_text_str(w, " │\r\n", Ghost(s0), Ghost(ops));
    proof {
        ops = ops.push(Paint::Text(line_close()));
    }
    assert(ops =~= entry_ops(entry@, selected, width as int, x as int));
}

/// The shadow under a box.
pub fn draw_shadow(w: &mut VgaWriter, width: usize, x: usize)
    requires
        old(w).wf(),
    ensures
        final(w).wf(),
        final(w)@ == paint(old(w)@, shadow_ops(width as int, x as int)),
{
    let ghost s0 = w@;
    let ghost mut ops = Seq::<Paint>::empty();
    proof {
        reveal_strlit("\r\n");
        assert("\r\n"@ =~= seq!['\r', '\n']);
    }
    put_colors(w, Color::Black, Color::Black, Ghost(s0), Ghost(ops));
    proof {
        ops = ops.push(Paint::Colors(Color::Black, Color::Black));
    }
    indent(w, x, Ghost(s0), Ghost(ops));
    proof {
        ops = ops + indent_ops(x as int);
    }
    let sp = repeat_char(' ', width);
    put_text_str(w, sp.as_str(), Ghost(s0), Ghost(ops));
    proof {
        ops = ops.push(Paint::Text(sp@));
    }
    put_colors(w, Color::LightBlue, Color::Black, Ghost(s0), Ghost(ops));
    proof {
        ops = ops.push(frame_colors());
    }
    put_text_str(w, "\r\n", Ghost(s0), Ghost(ops));
    proof {
        ops = ops.push(Paint::Text(seq!['\r', '\n']));
    }
    assert(ops =~= shadow_ops(width as int, x as int));
}


// ---------------------------------------------------------------------------
// Layout
// ---------------------------------------------------------------------------

/// The length of the longest of the lines, 0 for none.
pub open spec fn max_len(lines: Seq<Seq<char>>) -> int
    decreases lines.len(),
{
    if lines.len() == 0 {
        0
    } else {
        max(max_len(lines.drop_last()), lines.last().len() as int)
    }
}

/// The width of a box: six more than its widest content (the title, the
/// lines, and 32, the byte length of the widest footer), at least 52 and at
/// most 78.
pub open spec fn spec_box_width(title: Seq<char>, lines: Seq<Seq<char>>) -> int {
    let max_content = max(max(max(title.len() as int, max_len(lines)), 32), 20);
    min(78, max(52, max_content + 6))
}

/// The first row of a box of `box_h` rows, centred on the 25 rows; row 1
/// for a box that does not fit.
pub open spec fn start_row(box_h: int) -> int {
    if box_h < ROWS {
        (ROWS - box_h) / 2
    } else {
        1
    }
}

/// The first column of a box of width `w`, centred on the 80 columns.
pub open spec fn start_col(w: int) -> int {
    (COLS - w) / 2
}

fn longest(lines: &Vec<String>) -> (r: usize)
    ensures
        r == max_len(crate::text::strings_view(lines@)),
{
    let ghost v = crate::text::strings_view(lines@);
    let mut m: usize = 0;
    let mut i: usize = 0;
    while i < lines.len()
        invariant
            0 <= i <= lines@.len(),
            v == crate::text::strings_view(lines@),
            m == max_len(v.take(i as int)),
        decreases lines@.len() - i,
    {
        let n = char_count(lines[i].as_str());
        assert(v.take(i + 1).drop_last() =~= v.take(i as int));
        assert(v[i as int] == lines@[i as int]@);
        if n > m {
            m = n;
        }
        i = i + 1;
    }
    assert(v.take(lines@.len() as int) =~= v);
    m
}

/// The width of the menu box or the browser box for these lines.
pub fn box_width(title: &str, lines: &Vec<String>) -> (r: usize)
    ensures
        r == spec_box_width(title@, crate::text::strings_view(lines@)),
{
    let t = char_count(title);
    let e = longest(lines);
    let mut m = if t > e {
        t
    } else {
        e
    };
    if m < 32 {
        m = 32;
    }
    if m > 72 {
        78
    } else if m + 6 < 52 {
        52
    } else {
        m + 6
    }
}

/// `s` padded with spaces to `width` characters, or cut to them.
pub open spec fn spec_pad_to(s: Seq<char>, width: int) -> Seq<char> {
    if (s.len() as int) < width {
        s + repeat(' ', width - s.len())
    } else {
        s.take(width)
    }
}

/// `s` padded with spaces to `width` characters, or cut to them.
pub fn pad_to(s: &str, width: usize) -> (r: String)
    ensures
        r@ == spec_pad_to(s@, width as int),
{
    let len = char_count(s);
    if len < width {
        let mut r = String::new();
        push_str(&mut r, s);
        let sp = repeat_char(' ', width - len);
        push_str(&mut r, sp.as_str());
        r
    } else {
        take_chars(s, width)
    }
}

fn box_origin(box_h: usize, box_h_fits: bool, width: usize) -> (r: (usize, usize))
    requires
        46 <= width <= 78,
        box_h_fits ==> box_h < ROWS,
    ensures
        r.0 == start_col(width as int),
        box_h_fits ==> r.1 == start_row(box_h as int),
        !box_h_fits ==> r.1 == 1,
        r.1 < ROWS,
        r.0 < COLS,
{
    let y = if box_h_fits {
        (ROWS - box_h) / 2
    } else {
        1
    };
    ((COLS - width) / 2, y)
}

/// `nexec-lgc v` and the version: the title of the menu and the dialogs.
pub open spec fn menu_title(version: Seq<char>) -> Seq<char> {
    seq!['n', 'e', 'x', 'e', 'c', '-', 'l', 'g', 'c', ' ', 'v'] + version
}

/// The title of the menu and the dialogs for a version.
pub fn title_for(version: &str) -> (r: String)
    ensures
        r@ == menu_title(version@),
{
    let mut r = String::new();
    push_str(&mut r, "nexec-lgc v");
    push_str(&mut r, version);
    proof {
        reveal_strlit("nexec-lgc v");
        assert(r@ =~= menu_title(version@));
    }
    r
}

// ---------------------------------------------------------------------------
// Lines of entries
// ---------------------------------------------------------------------------

/// The lines of the first `k` entries, the selected one marked.
pub open spec fn entry_lines_ops(entries: Seq<EntryView>, sel: int, w: int, x: int, k: int) -> Seq<
    Paint,
>
    decreases k,
{
    if k <= 0 {
        Seq::empty()
    } else {
        entry_lines_ops(entries, sel, w, x, k - 1) + entry_ops(entries[k - 1], k - 1 == sel, w, x)
    }
}

fn draw_entry_lines(w: &mut VgaWriter, entries: &Vec<Entry>, sel: usize, width: usize, x: usize)
    requires
        old(w).wf(),
    ensures
        final(w).wf(),
        final(w)@ == paint(
            old(w)@,
            entry_lines_ops(
                entries_view(entries@),
                sel as int,
                width as int,
                x as int,
                entries@.len() as int,
            ),
        ),
{
    let ghost s0 = w@;
    let ghost ev = entries_view(entries@);
    let mut i: usize = 0;
    while i < entries.len()
        invariant
            0 <= i <= entries@.len(),
            ev == entries_view(entries@),
            w.wf(),
            w@ == paint(s0, entry_lines_ops(ev, sel as int, width as int, x as int, i as int)),
        decreases entries@.len() - i,
    {
        let ghost before = entry_lines_ops(ev, sel as int, width as int, x as int, i as int);
        draw_entry_line(w, &entries[i], i == sel, width, x);
        proof {
            assert(ev[i as int] == entries@[i as int]@);
            lemma_paint_concat(
                s0,
                before,
                entry_ops(ev[i as int], i == sel, width as int, x as int),
            );
        }
        i = i + 1;
    }
}

// ---------------------------------------------------------------------------
// The status dialog
// ---------------------------------------------------------------------------

/// The lines of the first `k` status lines, each in its colour.
pub open spec fn status_lines_ops(lines: Seq<(Seq<char>, Color)>, w: int, x: int, k: int) -> Seq<
    Paint,
>
    decreases k,
{
    if k <= 0 {
        Seq::empty()
    } else {
        status_lines_ops(lines, w, x, k - 1) + line_ops(lines[k - 1].0, w, lines[k - 1].1, x)
    }
}

/// The texts of the status lines.
pub open spec fn status_texts(lines: Seq<(Seq<char>, Color)>) -> Seq<Seq<char>> {
    lines.map_values(|l: (Seq<char>, Color)| l.0)
}

/// The width of the status dialog: eight more than its longest line, at
/// least 46 and at most 78.
pub open spec fn status_width(lines: Seq<(Seq<char>, Color)>) -> int {
    min(78, max(46, max_len(status_texts(lines)) + 8))
}

/// The status dialog: centred, with the title, an empty line, the lines,
/// an empty line, the bottom and the shadow.
pub open spec fn status_ops(title: Seq<char>, lines: Seq<(Seq<char>, Color)>) -> Seq<Paint> {
    let w = status_width(lines);
    let x = start_col(w);
    let y = start_row(lines.len() + 4int);
    seq![Paint::Cursor(0, y)] + top_ops(title, w, x) + empty_ops(w, x) + status_lines_ops(
        lines,
        w,
        x,
        lines.len() as int,
    ) + empty_ops(w, x) + bottom_ops(w, x) + shadow_ops(w, x)
}

pub open spec fn status_view(lines: Seq<(String, Color)>) -> Seq<(Seq<char>, Color)> {
    lines.map_values(|l: (String, Color)| (l.0@, l.1))
}

/// Shows the status dialog: a box of lines, each in its colour.
pub fn show_status(w: &mut VgaWriter, title: &str, lines: &Vec<(String, Color)>)
    requires
        old(w).wf(),
    ensures
        final(w).wf(),
        final(w)@ == paint(old(w)@, status_ops(title@, status_view(lines@))),
{
    let ghost s0 = w@;
    let ghost lv = status_view(lines@);
    let mut max_line: usize = 0;
    let mut i: usize = 0;
    while i < lines.len()
        invariant
            0 <= i <= lines@.len(),
            lv == status_view(lines@),
            max_line == max_len(status_texts(lv).take(i as int)),
        decreases lines@.len() - i,
    {
        let n = char_count(lines[i].0.as_str());
        assert(status_texts(lv).take(i + 1).drop_last() =~= status_texts(lv).take(i as int));
        if n > max_line {
            max_line = n;
        }
        i = i + 1;
    }
    assert(status_texts(lv).take(lines@.len() as int) =~= status_texts(lv));
    let width: usize = if max_line > 70 {
        78
    } else if max_line + 8 < 46 {
        46
    } else {
        max_line + 8
    };
    let fits = lines.len() < 21;
    let (x, y) = box_origin(if fits {
        lines.len() + 4
    } else {
        0
    }, fits, width);
    let ghost mut ops = Seq::<Paint>::empty();
    put_cursor(w, 0, y, Ghost(s0), Ghost(ops));
    proof {
        ops = ops.push(Paint::Cursor(0, y as int));
    }
    let ghost p = ops;
    draw_top(w, title, width, x);
    proof {
        lemma_paint_concat(s0, p, top_ops(title@, width as int, x as int));
        ops = ops + top_ops(title@, width as int, x as int);
    }
    let ghost p = ops;
    draw_empty(w, width, x);
    proof {
        lemma_paint_concat(s0, p, empty_ops(width as int, x as int));
        ops = ops + empty_ops(width as int, x as int);
    }
    let mut k: usize = 0;
    while k < lines.len()
        invariant
            0 <= k <= lines@.len(),
            lv == status_view(lines@),
            w.wf(),
            w@ == paint(s0, ops + status_lines_ops(lv, width as int, x as int, k as int)),
        decreases lines@.len() - k,
    {
        let ghost before = ops + status_lines_ops(lv, width as int, x as int, k as int);
        draw_line(w, lines[k].0.as_str(), width, lines[k].1, x);
        proof {
            lemma_paint_concat(
                s0,
                before,
                line_ops(lv[k as int].0, width as int, lv[k as int].1, x as int),
            );
            assert(before + line_ops(lv[k as int].0, width as int, lv[k as int].1, x as int)
                =~= ops + status_lines_ops(lv, width as int, x as int, k + 1));
        }
        k = k + 1;
    }
    proof {
        ops = ops + status_lines_ops(lv, width as int, x as int, lines@.len() as int);
    }
    let ghost p = ops;
    draw_empty(w, width, x);
    proof {
        lemma_paint_concat(s0, p, empty_ops(width as int, x as int));
        ops = ops + empty_ops(width as int, x as int);
    }
    let ghost p = ops;
    draw_bottom(w, width, x);
    proof {
        lemma_paint_concat(s0, p, bottom_ops(width as int, x as int));
        ops = ops + bottom_ops(width as int, x as int);
    }
    let ghost p = ops;
    draw_shadow(w, width, x);
    proof {
        lemma_paint_concat(s0, p, shadow_ops(width as int, x as int));
        ops = ops + shadow_ops(width as int, x as int);
    }
    assert(ops =~= status_ops(title@, lv));
}


// ---------------------------------------------------------------------------
// No entries
// ---------------------------------------------------------------------------

/// `K  manual boot` and `K  firmware setup`, for the keys of those actions.
pub open spec fn key_hint(key: char, what: Seq<char>) -> Seq<char> {
    seq![key, ' ', ' '] + what
}

pub open spec fn manual_boot_words() -> Seq<char> {
    seq!['m', 'a', 'n', 'u', 'a', 'l', ' ', 'b', 'o', 'o', 't']
}

pub open spec fn firmware_setup_words() -> Seq<char> {
    seq!['f', 'i', 'r', 'm', 'w', 'a', 'r', 'e', ' ', 's', 'e', 't', 'u', 'p']
}

pub open spec fn no_entries_words() -> Seq<char> {
    seq![
        'N', 'o', ' ', 'e', 'n', 't', 'r', 'i', 'e', 's', ' ', 'd', 'e', 't', 'e', 'c', 't', 'e',
        'd',
    ]
}

/// The box shown when there is nothing to boot: 46 wide, at row 8 and
/// column 17, with the keys for manual boot and firmware setup.
pub open spec fn no_entries_ops(title: Seq<char>, kb: Keybinds) -> Seq<Paint> {
    seq![Paint::Cursor(0, 8)] + top_ops(title, 46, 17) + empty_ops(46, 17) + line_ops(
        no_entries_words(),
        46,
        Color::White,
        17,
    ) + empty_ops(46, 17) + line_ops(
        key_hint(kb.manual, manual_boot_words()),
        46,
        Color::DarkGray,
        17,
    ) + line_ops(key_hint(kb.firmware, firmware_setup_words()), 46, Color::DarkGray, 17)
        + empty_ops(46, 17) + bottom_ops(46, 17) + shadow_ops(46, 17)
}

fn hint_text(key: char, what: &str) -> (r: String)
    ensures
        r@ == key_hint(key, what@),
{
    let mut r = String::new();
    push_chars(&mut r, &[key]);
    push_str(&mut r, "  ");
    push_str(&mut r, what);
    proof {
        reveal_strlit("  ");
        assert(r@ =~= key_hint(key, what@));
    }
    r
}

/// Draws the box shown when there is nothing to boot.
pub fn draw_no_entries(w: &mut VgaWriter, title: &str, kb: &Keybinds)
    requires
        old(w).wf(),
    ensures
        final(w).wf(),
        final(w)@ == paint(old(w)@, no_entries_ops(title@, *kb)),
{
    let ghost s0 = w@;
    let ghost mut ops = Seq::<Paint>::empty();
    let nothing = "No entries detected";
    let manual = hint_text(kb.manual, "manual boot");
    let firmware = hint_text(kb.firmware, "firmware setup");
    proof {
        reveal_strlit("No entries detected");
        reveal_strlit("manual boot");
        reveal_strlit("firmware setup");
        assert(nothing@ =~= no_entries_words());
        assert(manual@ =~= key_hint(kb.manual, manual_boot_words()));
        assert(firmware@ =~= key_hint(kb.firmware, firmware_setup_words()));
    }
    put_cursor(w, 0, 8, Ghost(s0), Ghost(ops));
    proof {
        ops = ops.push(Paint::Cursor(0, 8));
    }
    let ghost p = ops;
    draw_top(w, title, 46, 17);
    proof {
        lemma_paint_concat(s0, p, top_ops(title@, 46, 17));
        ops = ops + top_ops(title@, 46, 17);
    }
    let ghost p = ops;
    draw_empty(w, 46, 17);
    proof {
        lemma_paint_concat(s0, p, empty_ops(46, 17));
        ops = ops + empty_ops(46, 17);
    }
    let ghost p = ops;
    draw_line(w, nothing, 46, Color::White, 17);
    proof {
        lemma_paint_concat(s0, p, line_ops(nothing@, 46, Color::White, 17));
        ops = ops + line_ops(nothing@, 46, Color::White, 17);
    }
    let ghost p = ops;
    draw_empty(w, 46, 17);
    proof {
        lemma_paint_concat(s0, p, empty_ops(46, 17));
        ops = ops + empty_ops(46, 17);
    }
    let ghost p = ops;
    draw_line(w, manual.as_str(), 46, Color::DarkGray, 17);
    proof {
        lemma_paint_concat(s0, p, line_ops(manual@, 46, Color::DarkGray, 17));
        ops = ops + line_ops(manual@, 46, Color::DarkGray, 17);
    }
    let ghost p = ops;
    draw_line(w, firmware.as_str(), 46, Color::DarkGray, 17);
    proof {
        lemma_paint_concat(s0, p, line_ops(firmware@, 46, Color::DarkGray, 17));
        ops = ops + line_ops(firmware@, 46, Color::DarkGray, 17);
    }
    let ghost p = ops;
    draw_empty(w, 46, 17);
    proof {
        lemma_paint_concat(s0, p, empty_ops(46, 17));
        ops = ops + empty_ops(46, 17);
    }
    let ghost p = ops;
    draw_bottom(w, 46, 17);
    proof {
        lemma_paint_concat(s0, p, bottom_ops(46, 17));
        ops = ops + bottom_ops(46, 17);
    }
    let ghost p = ops;
    draw_shadow(w, 46, 17);
    proof {
        lemma_paint_concat(s0, p, shadow_ops(46, 17));
        ops = ops + shadow_ops(46, 17);
    }
    assert(ops =~= no_entries_ops(title@, *kb));
}


// ---------------------------------------------------------------------------
// The menu
// ---------------------------------------------------------------------------

/// An entry as the menu's width counts it: four spaces, the title, the
/// counter label.
pub open spec fn menu_line(e: EntryView) -> Seq<char> {
    seq![' ', ' ', ' ', ' '] + e.title + counter_label(e.boot_counter)
}

pub open spec fn menu_lines(entries: Seq<EntryView>) -> Seq<Seq<char>> {
    entries.map_values(|e: EntryView| menu_line(e))
}

/// `↑↓=boot  M=manual  B=backups` for the manual and backup keys.
pub open spec fn footer_keys(kb: Keybinds) -> Seq<char> {
    seq!['↑', '↓', '=', 'b', 'o', 'o', 't', ' ', ' ', kb.manual] + seq![
        '=',
        'm',
        'a',
        'n',
        'u',
        'a',
        'l',
        ' ',
        ' ',
        kb.backup,
    ] + seq!['=', 'b', 'a', 'c', 'k', 'u', 'p', 's']
}

/// `F=firmware  R=reboot  S=shutdown` for those keys.
pub open spec fn footer_power(kb: Keybinds) -> Seq<char> {
    seq![kb.firmware, '=', 'f', 'i', 'r', 'm', 'w', 'a', 'r', 'e', ' ', ' '] + seq![
        kb.reboot,
        '=',
        'r',
        'e',
        'b',
        'o',
        'o',
        't',
        ' ',
        ' ',
    ] + seq![kb.shutdown, '=', 's', 'h', 'u', 't', 'd', 'o', 'w', 'n']
}

/// `Auto-boot in Ns`, N the whole seconds left.
pub open spec fn countdown_text(remaining: u64) -> Seq<char> {
    seq!['A', 'u', 't', 'o', '-', 'b', 'o', 'o', 't', ' ', 'i', 'n', ' '] + decimal(
        (remaining / 10) as nat,
    ) + seq!['s']
}

/// The countdown line, centred in white.
pub open spec fn countdown_ops(text: Seq<char>, inner: int, x: int) -> Seq<Paint> {
    let pad = sat_sub(inner, text.len() as int);
    let left = pad / 2;
    let right = pad - left;
    indent_ops(x) + seq![
        frame_colors(),
        Paint::Text(line_open()),
        Paint::Colors(Color::White, Color::Black),
        Paint::Text(repeat(' ', left)),
        Paint::Text(text),
        Paint::Text(repeat(' ', right)),
        frame_colors(),
        Paint::Text(line_close()),
    ]
}

/// A footer line: `│  ` and the text padded or cut to the inner width, `│`.
pub open spec fn footer_ops(text: Seq<char>, inner: int, x: int) -> Seq<Paint> {
    indent_ops(x) + seq![
        frame_colors(),
        Paint::Text(seq!['│', ' ', ' '] + spec_pad_to(text, inner) + seq!['│', '\r', '\n']),
    ]
}

/// The menu: the title, the entries with the selected one marked, a rule,
/// the countdown while it runs, the two footer lines with the keys, the
/// bottom and the shadow; as wide as `spec_box_width` gives for the entry
/// lines, centred.
pub open spec fn menu_ops(
    title: Seq<char>,
    entries: Seq<EntryView>,
    sel: int,
    kb: Keybinds,
    remaining: u64,
) -> Seq<Paint> {
    let w = spec_box_width(title, menu_lines(entries));
    let inner = w - 4;
    let x = start_col(w);
    let extra = if remaining > 0 {
        1int
    } else {
        0
    };
    let y = start_row(entries.len() + 8 + extra);
    seq![Paint::Cursor(0, y)] + top_ops(title, w, x) + empty_ops(w, x) + entry_lines_ops(
        entries,
        sel,
        w,
        x,
        entries.len() as int,
    ) + empty_ops(w, x) + sep_ops(w, x) + (if remaining > 0 {
        countdown_ops(countdown_text(remaining), inner, x)
    } else {
        Seq::empty()
    }) + footer_ops(footer_keys(kb), inner, x) + footer_ops(footer_power(kb), inner, x)
        + bottom_ops(w, x) + shadow_ops(w, x)
}

fn menu_line_texts(entries: &Vec<Entry>) -> (r: Vec<String>)
    ensures
        crate::text::strings_view(r@) == menu_lines(entries_view(entries@)),
{
    let ghost ev = entries_view(entries@);
    let mut r: Vec<String> = Vec::new();
    let mut i: usize = 0;
    proof {
        reveal_strlit("    ");
    }
    while i < entries.len()
        invariant
            0 <= i <= entries@.len(),
            ev == entries_view(entries@),
            "    "@ =~= seq![' ', ' ', ' ', ' '],
            crate::text::strings_view(r@) == menu_lines(ev).take(i as int),
        decreases entries@.len() - i,
    {
        let mut line = String::new();
        push_str(&mut line, "    ");
        push_str(&mut line, entries[i].title.as_str());
        let c = counter_text(entries[i].boot_counter);
        push_str(&mut line, c.as_str());
        assert(ev[i as int] == entries@[i as int]@);
        assert(line@ =~= menu_line(ev[i as int]));
        let ghost before = crate::text::strings_view(r@);
        let ghost l = line@;
        r.push(line);
        assert(crate::text::strings_view(r@) =~= before.push(l));
        assert(menu_lines(ev).take(i + 1) =~= menu_lines(ev).take(i as int).push(l));
        i = i + 1;
    }
    assert(menu_lines(ev).take(entries@.len() as int) =~= menu_lines(ev));
    r
}

fn footer_texts(kb: &Keybinds) -> (r: (String, String))
    ensures
        r.0@ == footer_keys(*kb),
        r.1@ == footer_power(*kb),
{
    let mut a = String::new();
    push_str(&mut a, "↑↓=boot  ");
    push_chars(&mut a, &[kb.manual]);
    push_str(&mut a, "=manual  ");
    push_chars(&mut a, &[kb.backup]);
    push_str(&mut a, "=backups");
    let mut b = String::new();
    push_chars(&mut b, &[kb.firmware]);
    push_str(&mut b, "=firmware  ");
    push_chars(&mut b, &[kb.reboot]);
    push_str(&mut b, "=reboot  ");
    push_chars(&mut b, &[kb.shutdown]);
    push_str(&mut b, "=shutdown");
    proof {
        reveal_strlit("↑↓=boot  ");
        reveal_strlit("=manual  ");
        reveal_strlit("=backups");
        reveal_strlit("=firmware  ");
        reveal_strlit("=reboot  ");
        reveal_strlit("=shutdown");
        assert(a@ =~= footer_keys(*kb));
        assert(b@ =~= footer_power(*kb));
    }
    (a, b)
}

fn draw_countdown(w: &mut VgaWriter, text: &String, inner: usize, x: usize)
    requires
        old(w).wf(),
    ensures
        final(w).wf(),
        final(w)@ == paint(old(w)@, countdown_ops(text@, inner as int, x as int)),
{
    let ghost s0 = w@;
    let ghost mut ops = Seq::<Paint>::empty();
    proof {
        reveal_strlit("│ ");
        reveal_strlit(" │\r\n");
        assert("│ "@ =~= line_open());
        assert(" │\r\n"@ =~= line_close());
    }
    let pad = sub_or_zero(inner, char_count(text.as_str()));
    let left = pad / 2;
    let right = pad - left;
    indent(w, x, Ghost(s0), Ghost(ops));
    proof {
        ops = ops + indent_ops(x as int);
    }
    put_colors(w, Color::LightBlue, Color::Black, Ghost(s0), Ghost(ops));
    proof {
        ops = ops.push(frame_colors());
    }
    put_text_str(w, "│ ", Ghost(s0), Ghost(ops));
    proof {
        ops = ops.push(Paint::Text(line_open()));
    }
    put_colors(w, Color::White, Color::Black, Ghost(s0), Ghost(ops));
    proof {
        ops = ops.push(Paint::Colors(Color::White, Color::Black));
    }
    let ls = repeat_char(' ', left);
    put_text_str(w, ls.as_str(), Ghost(s0), Ghost(ops));
    proof {
        ops = ops.push(Paint::Text(ls@));
    }
    put_text_str(w, text.as_str(), Ghost(s0), Ghost(ops));
    proof {
        ops = ops.push(Paint::Text(text@));
    }
    let rs = repeat_char(' ', right);
    put_text_str(w, rs.as_str(), Ghost(s0), Ghost(ops));
    proof {
        ops = ops.push(Paint::Text(rs@));
    }
    put_colors(w, Color::LightBlue, Color::Black, Ghost(s0), Ghost(ops));
    proof {
        ops = ops.push(frame_colors());
    }
    put_text_str(w, " │\r\n", Ghost(s0), Ghost(ops));
    proof {
        ops = ops.push(Paint::Text(line_close()));
    }
    assert(ops =~= countdown_ops(text@, inner as int, x as int));
}

fn draw_footer(w: &mut VgaWriter, text: &String, inner: usize, x: usize)
    requires
        old(w).wf(),
    ensures
        final(w).wf(),
        final(w)@ == paint(old(w)@, footer_ops(text@, inner as int, x as int)),
{
    let ghost s0 = w@;
    let ghost mut ops = Seq::<Paint>::empty();
    indent(w, x, Ghost(s0), Ghost(ops));
    proof {
        ops = ops + indent_ops(x as int);
    }
    put_colors(w, Color::LightBlue, Color::Black, Ghost(s0), Ghost(ops));
    proof {
        ops = ops.push(frame_colors());
    }
    let padded = pad_to(text.as_str(), inner);
    let mut line = String::new();
    push_str(&mut line, "│  ");
    push_str(&mut line, padded.as_str());
    push_str(&mut line, "│\r\n");
    proof {
        reveal_strlit("│  ");
        reveal_strlit("│\r\n");
        assert(line@ =~= seq!['│', ' ', ' '] + spec_pad_to(text@, inner as int) + seq![
            '│',
            '\r',
            '\n',
        ]);
    }
    put_text_str(w, line.as_str(), Ghost(s0), Ghost(ops));
    proof {
        ops = ops.push(Paint::Text(line@));
    }
    assert(ops =~= footer_ops(text@, inner as int, x as int));
}

/// Draws the menu with `remaining` tenths of a second left on the countdown
/// (0: no countdown).
#[verifier::spinoff_prover]
#[verifier::rlimit(60)]
pub fn draw_menu(w: &mut VgaWriter, menu: &Menu, remaining: u64, title: &str)
    requires
        old(w).wf(),
    ensures
        final(w).wf(),
        final(w)@ == paint(
            old(w)@,
            menu_ops(
                title@,
                entries_view(menu.entries@),
                menu.selected as int,
                menu.keybinds,
                remaining,
            ),
        ),
{
    let ghost s0 = w@;
    let ghost ev = entries_view(menu.entries@);
    let ghost mut ops = Seq::<Paint>::empty();
    let (foot1, foot2) = footer_texts(&menu.keybinds);
    let lines = menu_line_texts(&menu.entries);
    let width = box_width(title, &lines);
    let inner = width - 4;
    let n = menu.entries.len();
    let extra: usize = if remaining > 0 {
        1
    } else {
        0
    };
    let fits = n < 17 && n + 8 + extra < ROWS;
    let (x, y) = box_origin(if fits {
        n + 8 + extra
    } else {
        0
    }, fits, width);
    put_cursor(w, 0, y, Ghost(s0), Ghost(ops));
    proof {
        ops = ops.push(Paint::Cursor(0, y as int));
    }
    let ghost p = ops;
    draw_top(w, title, width, x);
    proof {
        lemma_paint_concat(s0, p, top_ops(title@, width as int, x as int));
        ops = ops + top_ops(title@, width as int, x as int);
    }
    let ghost p = ops;
    draw_empty(w, width, x);
    proof {
        lemma_paint_concat(s0, p, empty_ops(width as int, x as int));
        ops = ops + empty_ops(width as int, x as int);
    }
    let ghost p = ops;
    draw_entry_lines(w, &menu.entries, menu.selected, width, x);
    proof {
        let e = entry_lines_ops(ev, menu.selected as int, width as int, x as int, n as int);
        lemma_paint_concat(s0, p, e);
        ops = ops + e;
    }
    let ghost p = ops;
    draw_empty(w, width, x);
    proof {
        lemma_paint_concat(s0, p, empty_ops(width as int, x as int));
        ops = ops + empty_ops(width as int, x as int);
    }
    let ghost p = ops;
    draw_sep(w, width, x);
    proof {
        lemma_paint_concat(s0, p, sep_ops(width as int, x as int));
        ops = ops + sep_ops(width as int, x as int);
    }
    if remaining > 0 {
        let mut cd = String::new();
        push_str(&mut cd, "Auto-boot in ");
        push_decimal(&mut cd, remaining / 10);
        push_str(&mut cd, "s");
        proof {
            reveal_strlit("Auto-boot in ");
            reveal_strlit("s");
            assert(cd@ =~= countdown_text(remaining));
        }
        let ghost p = ops;
        draw_countdown(w, &cd, inner, x);
        proof {
            lemma_paint_concat(s0, p, countdown_ops(cd@, inner as int, x as int));
            ops = ops + countdown_ops(cd@, inner as int, x as int);
        }
    }
    let ghost p = ops;
    draw_footer(w, &foot1, inner, x);
    proof {
        lemma_paint_concat(s0, p, footer_ops(foot1@, inner as int, x as int));
        ops = ops + footer_ops(foot1@, inner as int, x as int);
    }
    let ghost p = ops;
    draw_footer(w, &foot2, inner, x);
    proof {
        lemma_paint_concat(s0, p, footer_ops(foot2@, inner as int, x as int));
        ops = ops + footer_ops(foot2@, inner as int, x as int);
    }
    let ghost p = ops;
    draw_bottom(w, width, x);
    proof {
        lemma_paint_concat(s0, p, bottom_ops(width as int, x as int));
        ops = ops + bottom_ops(width as int, x as int);
    }
    let ghost p = ops;
    draw_shadow(w, width, x);
    proof {
        lemma_paint_concat(s0, p, shadow_ops(width as int, x as int));
        ops = ops + shadow_ops(width as int, x as int);
    }
    assert(ops =~= menu_ops(title@, ev, menu.selected as int, menu.keybinds, remaining));
}


// ---------------------------------------------------------------------------
// The manual boot browser
// ---------------------------------------------------------------------------

pub open spec fn manual_boot_title() -> Seq<char> {
    seq!['M', 'a', 'n', 'u', 'a', 'l', ' ', 'B', 'o', 'o', 't']
}

pub open spec fn browse_hint() -> Seq<char> {
    seq!['E', 'n', 't', 'e', 'r', '=', 'b', 'o', 'o', 't', ' ', ' ', 'E', 's', 'c', '=', 'b', 'a', 'c', 'k']
}

/// The paths of the entries, which set the browser's width.
pub open spec fn efi_paths(entries: Seq<EntryView>) -> Seq<Seq<char>> {
    entries.map_values(|e: EntryView| e.efi_path)
}

/// The browser: `Manual Boot`, the files found with the selected one
/// marked, the keys, the bottom and the shadow; centred.
pub open spec fn browse_ops(entries: Seq<EntryView>, sel: int) -> Seq<Paint> {
    let w = spec_box_width(manual_boot_title(), efi_paths(entries));
    let x = start_col(w);
    let y = start_row(entries.len() + 6int);
    seq![Paint::Cursor(0, y)] + top_ops(manual_boot_title(), w, x) + empty_ops(w, x)
        + entry_lines_ops(entries, sel, w, x, entries.len() as int) + empty_ops(w, x) + line_ops(
        browse_hint(),
        w,
        Color::DarkGray,
        x,
    ) + bottom_ops(w, x) + shadow_ops(w, x)
}

fn efi_path_texts(entries: &Vec<Entry>) -> (r: Vec<String>)
    ensures
        crate::text::strings_view(r@) == efi_paths(entries_view(entries@)),
{
    let ghost ev = entries_view(entries@);
    let mut r: Vec<String> = Vec::new();
    let mut i: usize = 0;
    while i < entries.len()
        invariant
            0 <= i <= entries@.len(),
            ev == entries_view(entries@),
            crate::text::strings_view(r@) == efi_paths(ev).take(i as int),
        decreases entries@.len() - i,
    {
        let p = entries[i].efi_path.clone();
        assert(ev[i as int] == entries@[i as int]@);
        let ghost before = crate::text::strings_view(r@);
        let ghost l = p@;
        r.push(p);
        assert(crate::text::strings_view(r@) =~= before.push(l));
        assert(efi_paths(ev).take(i + 1) =~= efi_paths(ev).take(i as int).push(l));
        i = i + 1;
    }
    assert(efi_paths(ev).take(entries@.len() as int) =~= efi_paths(ev));
    r
}

/// Draws the browser over `entries` with `sel` selected.
#[verifier::spinoff_prover]
#[verifier::rlimit(40)]
pub fn draw_browser(w: &mut VgaWriter, entries: &Vec<Entry>, sel: usize)
    requires
        old(w).wf(),
    ensures
        final(w).wf(),
        final(w)@ == paint(old(w)@, browse_ops(entries_view(entries@), sel as int)),
{
    let ghost s0 = w@;
    let ghost ev = entries_view(entries@);
    let ghost mut ops = Seq::<Paint>::empty();
    let title = "Manual Boot";
    let hint = "Enter=boot  Esc=back";
    proof {
        reveal_strlit("Manual Boot");
        reveal_strlit("Enter=boot  Esc=back");
        assert(title@ =~= manual_boot_title());
        assert(hint@ =~= browse_hint());
    }
    let lines = efi_path_texts(entries);
    let width = box_width(title, &lines);
    let n = entries.len();
    let fits = n < 19;
    let (x, y) = box_origin(if fits {
        n + 6
    } else {
        0
    }, fits, width);
    put_cursor(w, 0, y, Ghost(s0), Ghost(ops));
    proof {
        ops = ops.push(Paint::Cursor(0, y as int));
    }
    let ghost p = ops;
    draw_top(w, title, width, x);
    proof {
        lemma_paint_concat(s0, p, top_ops(title@, width as int, x as int));
        ops = ops + top_ops(title@, width as int, x as int);
    }
    let ghost p = ops;
    draw_empty(w, width, x);
    proof {
        lemma_paint_concat(s0, p, empty_ops(width as int, x as int));
        ops = ops + empty_ops(width as int, x as int);
    }
    let ghost p = ops;
    draw_entry_lines(w, entries, sel, width, x);
    proof {
        let e = entry_lines_ops(ev, sel as int, width as int, x as int, n as int);
        lemma_paint_concat(s0, p, e);
        ops = ops + e;
    }
    let ghost p = ops;
    draw_empty(w, width, x);
    proof {
        lemma_paint_concat(s0, p, empty_ops(width as int, x as int));
        ops = ops + empty_ops(width as int, x as int);
    }
    let ghost p = ops;
    draw_line(w, hint, width, Color::DarkGray, x);
    proof {
        lemma_paint_concat(s0, p, line_ops(hint@, width as int, Color::DarkGray, x as int));
        ops = ops + line_ops(hint@, width as int, Color::DarkGray, x as int);
    }
    let ghost p = ops;
    draw_bottom(w, width, x);
    proof {
        lemma_paint_concat(s0, p, bottom_ops(width as int, x as int));
        ops = ops + bottom_ops(width as int, x as int);
    }
    let ghost p = ops;
    draw_shadow(w, width, x);
    proof {
        lemma_paint_concat(s0, p, shadow_ops(width as int, x as int));
        ops = ops + shadow_ops(width as int, x as int);
    }
    assert(ops =~= browse_ops(ev, sel as int));
}

/// What a key does in the browser.
#[derive(Debug, Clone, Copy, PartialEq, Eq)]
pub enum BrowseStep {
    /// Stay, with this selection.
    Stay(usize),
    /// Boot the entry at this position.
    Boot(usize),
    /// Back to the menu without booting.
    Back,
}

/// The arrows move the selection within the list, Home and End jump to its
/// ends, Enter boots the selected file, Escape goes back; other keys do
/// nothing.
pub open spec fn spec_browse_key(sel: usize, len: usize, ev: KeyEvent) -> BrowseStep {
    let last = sat_sub(len as int, 1) as usize;
    match ev {
        KeyEvent::Up => BrowseStep::Stay(if sel > 0 { (sel - 1) as usize } else { sel }),
        KeyEvent::Down => BrowseStep::Stay(if sel < last { (sel + 1) as usize } else { sel }),
        KeyEvent::Home => BrowseStep::Stay(0),
        KeyEvent::End => BrowseStep::Stay(last),
        KeyEvent::Enter => BrowseStep::Boot(sel),
        KeyEvent::Escape => BrowseStep::Back,
        KeyEvent::Char(_) => BrowseStep::Stay(sel),
    }
}

/// The browser's response to a key, with `sel` selected among `len` files.
pub fn browse_files(sel: usize, len: usize, ev: KeyEvent) -> (r: BrowseStep)
    ensures
        r == spec_browse_key(sel, len, ev),
{
    let last = sub_or_zero(len, 1);
    match ev {
        KeyEvent::Up => BrowseStep::Stay(if sel > 0 {
            sel - 1
        } else {
            sel
        }),
        KeyEvent::Down => BrowseStep::Stay(if sel < last {
            sel + 1
        } else {
            sel
        }),
        KeyEvent::Home => BrowseStep::Stay(0),
        KeyEvent::End => BrowseStep::Stay(last),
        KeyEvent::Enter => BrowseStep::Boot(sel),
        KeyEvent::Escape => BrowseStep::Back,
        KeyEvent::Char(_) => BrowseStep::Stay(sel),
    }
}

/// In the browser the selection never leaves the list: from a file of a
/// non-empty list, every key stays on a file, boots a file, or goes back.
pub proof fn law_browse_selection_in_range(sel: usize, len: usize, ev: KeyEvent)
    requires
        sel < len,
    ensures
        match spec_browse_key(sel, len, ev) {
            BrowseStep::Stay(s) => s < len,
            BrowseStep::Boot(s) => s == sel,
            BrowseStep::Back => ev == KeyEvent::Escape,
        },
{
}

pub open spec fn no_files_words() -> Seq<char> {
    seq![
        'N', 'o', ' ', 'b', 'o', 'o', 't', 'a', 'b', 'l', 'e', ' ', 'f', 'i', 'l', 'e', 's', ' ',
        'f', 'o', 'u', 'n', 'd', ' ', 'o', 'n', ' ', 'p', 'a', 'r', 't', 'i', 't', 'i', 'o', 'n',
    ]
}

pub open spec fn go_back_words() -> Seq<char> {
    seq![
        'P', 'r', 'e', 's', 's', ' ', 'a', 'n', 'y', ' ', 'k', 'e', 'y', ' ', 't', 'o', ' ', 'g',
        'o', ' ', 'b', 'a', 'c', 'k', '.', '.', '.',
    ]
}

/// What the browser says when it finds nothing: the lines of the status
/// dialog.
pub fn nothing_to_browse_lines() -> (r: Vec<(String, Color)>)
    ensures
        status_view(r@) == seq![(no_files_words(), Color::White), (go_back_words(), Color::DarkGray)],
{
    let mut a = String::new();
    push_str(&mut a, "No bootable files found on partition");
    let mut b = String::new();
    push_str(&mut b, "Press any key to go back...");
    proof {
        reveal_strlit("No bootable files found on partition");
        reveal_strlit("Press any key to go back...");
        assert(a@ =~= no_files_words());
        assert(b@ =~= go_back_words());
    }
    let r = vec![(a, Color::White), (b, Color::DarkGray)];
    assert(status_view(r@) =~= seq![(a@, Color::White), (b@, Color::DarkGray)]);
    r
}


// ---------------------------------------------------------------------------
// Notices
// ---------------------------------------------------------------------------

pub open spec fn boot_failed_words() -> Seq<char> {
    seq!['B', 'o', 'o', 't', ' ', 'f', 'a', 'i', 'l', 'e', 'd', '.', ' ', 'P', 'r', 'e', 's', 's', ' ', 'a', 'n', 'y', ' ', 'k', 'e', 'y', ' ', 'f', 'o', 'r', ' ', 'o', 'p', 't', 'i', 'o', 'n', 's', '.', '.', '.']
}

pub open spec fn failed_words() -> Seq<char> {
    seq!['B', 'o', 'o', 't', ' ', 'f', 'a', 'i', 'l', 'e', 'd', '.']
}

pub open spec fn continue_words() -> Seq<char> {
    seq!['P', 'r', 'e', 's', 's', ' ', 'a', 'n', 'y', ' ', 'k', 'e', 'y', ' ', 't', 'o', ' ', 'c', 'o', 'n', 't', 'i', 'n', 'u', 'e', '.', '.', '.']
}

pub open spec fn shutdown_words() -> Seq<char> {
    seq!['S', 'h', 'u', 't', 'd', 'o', 'w', 'n', ' ', 'f', 'a', 'i', 'l', 'e', 'd', '.']
}

pub open spec fn reboot_words() -> Seq<char> {
    seq!['P', 'r', 'e', 's', 's', ' ', 'a', 'n', 'y', ' ', 'k', 'e', 'y', ' ', 't', 'o', ' ', 'r', 'e', 'b', 'o', 'o', 't', '.', '.', '.']
}

pub open spec fn restoring_words() -> Seq<char> {
    seq!['R', 'e', 's', 't', 'o', 'r', 'i', 'n', 'g', ' ', 'b', 'a', 'c', 'k', 'u', 'p', '.', '.', '.']
}

pub open spec fn restored_words() -> Seq<char> {
    seq!['B', 'a', 'c', 'k', 'u', 'p', ' ', 'r', 'e', 's', 't', 'o', 'r', 'e', 'd', '!']
}

pub open spec fn no_backup_words() -> Seq<char> {
    seq!['N', 'o', ' ', 'b', 'a', 'c', 'k', 'u', 'p', ' ', 'f', 'o', 'u', 'n', 'd', '.']
}

pub open spec fn firmware_words() -> Seq<char> {
    seq!['F', 'i', 'r', 'm', 'w', 'a', 'r', 'e', ' ', 's', 'e', 't', 'u', 'p', ' ', 'n', 'o', 't', ' ', 'a', 'v', 'a', 'i', 'l', 'a', 'b', 'l', 'e', ' ', 'i', 'n', ' ', 'B', 'I', 'O', 'S', ' ', 'm', 'o', 'd', 'e', '.']
}

/// The status dialogs of the boot manager's loop.
#[derive(Debug, Clone, Copy, PartialEq, Eq, Structural)]
pub enum Notice {
    /// Booting a menu entry failed.
    BootFailed,
    /// Booting a file chosen in the browser failed.
    ManualBootFailed,
    /// Powering the machine off did not take effect.
    ShutdownFailed,
    /// The backup of the entries is being restored.
    Restoring,
    /// The backup was restored.
    Restored,
    /// There was no backup to restore.
    NoBackup,
    /// Firmware setup was asked for.
    FirmwareUnavailable,
}

/// The lines of each notice, with their colours.
pub open spec fn notice_lines(n: Notice) -> Seq<(Seq<char>, Color)> {
    match n {
        Notice::BootFailed => seq![(boot_failed_words(), Color::Yellow)],
        Notice::ManualBootFailed => seq![
            (failed_words(), Color::Yellow),
            (continue_words(), Color::DarkGray),
        ],
        Notice::ShutdownFailed => seq![
            (shutdown_words(), Color::Yellow),
            (reboot_words(), Color::DarkGray),
        ],
        Notice::Restoring => seq![(restoring_words(), Color::DarkGray)],
        Notice::Restored => seq![
            (restored_words(), Color::LightBlue),
            (reboot_words(), Color::DarkGray),
        ],
        Notice::NoBackup => seq![
            (no_backup_words(), Color::Yellow),
            (continue_words(), Color::DarkGray),
        ],
        Notice::FirmwareUnavailable => seq![
            (firmware_words(), Color::Yellow),
            (continue_words(), Color::DarkGray),
        ],
    }
}

fn line_of(text: &str, color: Color) -> (r: (String, Color))
    ensures
        r.0@ == text@ && r.1 == color,
{
    let mut s = String::new();
    push_str(&mut s, text);
    (s, color)
}

/// The lines of a notice, for `show_status`.
pub fn notice(n: Notice) -> (r: Vec<(String, Color)>)
    ensures
        status_view(r@) == notice_lines(n),
{
    proof {
        reveal_strlit("Boot failed. Press any key for options...");
        reveal_strlit("Boot failed.");
        reveal_strlit("Press any key to continue...");
        reveal_strlit("Shutdown failed.");
        reveal_strlit("Press any key to reboot...");
        reveal_strlit("Restoring backup...");
        reveal_strlit("Backup restored!");
        reveal_strlit("No backup found.");
        reveal_strlit("Firmware setup not available in BIOS mode.");
    }
    let ghost want = notice_lines(n);
    let r = match n {
        Notice::BootFailed => {
            let a = line_of("Boot failed. Press any key for options...", Color::Yellow);
            assert(a.0@ =~= want[0].0);
            vec![a]
        },
        Notice::ManualBootFailed => {
            let a = line_of("Boot failed.", Color::Yellow);
            let b = line_of("Press any key to continue...", Color::DarkGray);
            assert(a.0@ =~= want[0].0);
            assert(b.0@ =~= want[1].0);
            vec![a, b]
        },
        Notice::ShutdownFailed => {
            let a = line_of("Shutdown failed.", Color::Yellow);
            let b = line_of("Press any key to reboot...", Color::DarkGray);
            assert(a.0@ =~= want[0].0);
            assert(b.0@ =~= want[1].0);
            vec![a, b]
        },
        Notice::Restoring => {
            let a = line_of("Restoring backup...", Color::DarkGray);
            assert(a.0@ =~= want[0].0);
            vec![a]
        },
        Notice::Restored => {
            let a = line_of("Backup restored!", Color::LightBlue);
            let b = line_of("Press any key to reboot...", Color::DarkGray);
            assert(a.0@ =~= want[0].0);
            assert(b.0@ =~= want[1].0);
            vec![a, b]
        },
        Notice::NoBackup => {
            let a = line_of("No backup found.", Color::Yellow);
            let b = line_of("Press any key to continue...", Color::DarkGray);
            assert(a.0@ =~= want[0].0);
            assert(b.0@ =~= want[1].0);
            vec![a, b]
        },
        Notice::FirmwareUnavailable => {
            let a = line_of("Firmware setup not available in BIOS mode.", Color::Yellow);
            let b = line_of("Press any key to continue...", Color::DarkGray);
            assert(a.0@ =~= want[0].0);
            assert(b.0@ =~= want[1].0);
            vec![a, b]
        },
    };
    assert(status_view(r@) =~= want);
    r
}

/// `Booting TITLE...` and a line break, shown before an entry boots.
pub open spec fn booting_text(title: Seq<char>) -> Seq<char> {
    seq!['B', 'o', 'o', 't', 'i', 'n', 'g', ' '] + title + seq!['.', '.', '.', '\r', '\n']
}

/// The line shown before an entry boots.
pub fn booting_message(title: &str) -> (r: String)
    ensures
        r@ == booting_text(title@),
{
    let mut r = String::new();
    push_str(&mut r, "Booting ");
    push_str(&mut r, title);
    push_str(&mut r, "...\r\n");
    proof {
        reveal_strlit("Booting ");
        reveal_strlit("...\r\n");
        assert(r@ =~= booting_text(title@));
    }
    r
}

// ---------------------------------------------------------------------------
// The selected entry is the marked one
// ---------------------------------------------------------------------------

/// The number of steps that draw the lines of the first `k` entries.
pub open spec fn lines_len(entries: Seq<EntryView>, w: int, x: int, k: int) -> int
    decreases k,
{
    if k <= 0 {
        0
    } else {
        lines_len(entries, w, x, k - 1) + entry_ops(entries[k - 1], false, w, x).len()
    }
}

/// Where, in an entry's line, the colours of its prefix are set: after the
/// frame colours, the indent and the left frame.
pub open spec fn marker_at(x: int) -> int {
    indent_ops(x).len() + 2int
}

/// The steps of the menu before its entry lines: the cursor, the top and
/// an empty line.
pub open spec fn menu_head_ops(title: Seq<char>, entries: Seq<EntryView>, remaining: u64) -> Seq<Paint> {
    let w = spec_box_width(title, menu_lines(entries));
    let x = start_col(w);
    let extra = if remaining > 0 {
        1int
    } else {
        0
    };
    seq![Paint::Cursor(0, start_row(entries.len() + 8 + extra))] + top_ops(title, w, x) + empty_ops(w, x)
}

proof fn lemma_entry_ops_marker(e: EntryView, selected: bool, w: int, x: int)
    ensures
        entry_ops(e, selected, w, x).len() == entry_ops(e, false, w, x).len(),
        entry_ops(e, selected, w, x)[marker_at(x)] == Paint::Colors(
            Color::White,
            if selected {
                Color::Blue
            } else {
                Color::Black
            },
        ),
        entry_ops(e, selected, w, x)[marker_at(x) + 1] == Paint::Text(
            if selected {
                seq![' ', ' ', '>', ' ']
            } else {
                seq![' ', ' ', ' ', ' ']
            },
        ),
{
}

proof fn lemma_lines_segments(entries: Seq<EntryView>, sel: int, w: int, x: int, k: int)
    requires
        0 <= k <= entries.len(),
    ensures
        entry_lines_ops(entries, sel, w, x, k).len() == lines_len(entries, w, x, k),
        forall|i: int|
            0 <= i < k ==> entry_lines_ops(entries, sel, w, x, k).subrange(
                lines_len(entries, w, x, i),
                #[trigger] lines_len(entries, w, x, i + 1),
            ) == entry_ops(entries[i], i == sel, w, x),
    decreases k,
{
    if k > 0 {
        lemma_lines_segments(entries, sel, w, x, k - 1);
        lemma_entry_ops_marker(entries[k - 1], k - 1 == sel, w, x);
        let a = entry_lines_ops(entries, sel, w, x, k - 1);
        let b = entry_ops(entries[k - 1], k - 1 == sel, w, x);
        assert forall|i: int| 0 <= i < k implies (a + b).subrange(
            lines_len(entries, w, x, i),
            #[trigger] lines_len(entries, w, x, i + 1),
        ) == entry_ops(entries[i], i == sel, w, x) by {
            if i < k - 1 {
                lemma_lines_len_grows(entries, w, x, k - 1);
                assert(0 <= lines_len(entries, w, x, i) <= lines_len(entries, w, x, i + 1));
                assert(lines_len(entries, w, x, i + 1) <= lines_len(entries, w, x, k - 1));
                assert((a + b).subrange(lines_len(entries, w, x, i), lines_len(entries, w, x, i + 1))
                    =~= a.subrange(lines_len(entries, w, x, i), lines_len(entries, w, x, i + 1)));
            } else {
                assert((a + b).subrange(lines_len(entries, w, x, i), lines_len(entries, w, x, i + 1))
                    =~= b);
            }
        }
    }
}

proof fn lemma_lines_len_grows(entries: Seq<EntryView>, w: int, x: int, k: int)
    ensures
        forall|i: int| 0 <= i <= k ==> 0 <= #[trigger] lines_len(entries, w, x, i) <= lines_len(entries, w, x, k),
    decreases k,
{
    if k > 0 {
        lemma_lines_len_grows(entries, w, x, k - 1);
        assert(lines_len(entries, w, x, k) == lines_len(entries, w, x, k - 1) + entry_ops(entries[k - 1], false, w, x).len());
        assert(0 <= lines_len(entries, w, x, k - 1));
    }
}

proof fn lemma_menu_split(title: Seq<char>, entries: Seq<EntryView>, sel: int, kb: Keybinds, remaining: u64)
    ensures
        ({
            let ops = menu_ops(title, entries, sel, kb, remaining);
            let w = spec_box_width(title, menu_lines(entries));
            let x = start_col(w);
            let head = menu_head_ops(title, entries, remaining).len() as int;
            let lines = entry_lines_ops(entries, sel, w, x, entries.len() as int);
            &&& head + lines.len() <= ops.len()
            &&& ops.subrange(head, head + lines.len()) == lines
        }),
{
    let w = spec_box_width(title, menu_lines(entries));
    let inner = w - 4;
    let x = start_col(w);
    let hd = menu_head_ops(title, entries, remaining);
    let lines = entry_lines_ops(entries, sel, w, x, entries.len() as int);
    let rest = empty_ops(w, x) + sep_ops(w, x) + (if remaining > 0 {
        countdown_ops(countdown_text(remaining), inner, x)
    } else {
        Seq::empty()
    }) + footer_ops(footer_keys(kb), inner, x) + footer_ops(footer_power(kb), inner, x)
        + bottom_ops(w, x) + shadow_ops(w, x);
    let ops = menu_ops(title, entries, sel, kb, remaining);
    assert(ops =~= hd + lines + rest);
    assert((hd + lines + rest).subrange(hd.len() as int, (hd.len() + lines.len()) as int) =~= lines);
}

/// The facts of `law_menu_marks_selected` for entry `i`.
pub open spec fn menu_line_marked(
    ops: Seq<Paint>,
    entries: Seq<EntryView>,
    sel: int,
    w: int,
    x: int,
    head: int,
    i: int,
) -> bool {
    let at = head + lines_len(entries, w, x, i);
    &&& ops.subrange(at, head + lines_len(entries, w, x, i + 1)) == entry_ops(entries[i], i == sel, w, x)
    &&& ops[at + marker_at(x)] == Paint::Colors(
        Color::White,
        if i == sel {
            Color::Blue
        } else {
            Color::Black
        },
    )
    &&& ops[at + marker_at(x) + 1] == Paint::Text(
        if i == sel {
            seq![' ', ' ', '>', ' ']
        } else {
            seq![' ', ' ', ' ', ' ']
        },
    )
}

proof fn lemma_menu_line(
    title: Seq<char>,
    entries: Seq<EntryView>,
    sel: int,
    kb: Keybinds,
    remaining: u64,
    i: int,
)
    requires
        0 <= i < entries.len(),
    ensures
        menu_line_marked(
            menu_ops(title, entries, sel, kb, remaining),
            entries,
            sel,
            spec_box_width(title, menu_lines(entries)),
            start_col(spec_box_width(title, menu_lines(entries))),
            menu_head_ops(title, entries, remaining).len() as int,
            i,
        ),
{
    let ops = menu_ops(title, entries, sel, kb, remaining);
    let w = spec_box_width(title, menu_lines(entries));
    let x = start_col(w);
    let n = entries.len() as int;
    let head = menu_head_ops(title, entries, remaining).len() as int;
    let lines = entry_lines_ops(entries, sel, w, x, n);
    lemma_menu_split(title, entries, sel, kb, remaining);
    lemma_lines_len_grows(entries, w, x, n);
    lemma_lines_segments(entries, sel, w, x, n);
    let a = lines_len(entries, w, x, i);
    let b = lines_len(entries, w, x, i + 1);
    assert(0 <= a <= lines_len(entries, w, x, n));
    assert(0 <= b <= lines_len(entries, w, x, n));
    assert(b == a + entry_ops(entries[i], false, w, x).len());
    let seg = entry_ops(entries[i], i == sel, w, x);
    lemma_entry_ops_marker(entries[i], i == sel, w, x);
    assert(lines.subrange(a, b) == seg);
    assert(ops.subrange(head + a, head + b) =~= ops.subrange(head, head + lines.len()).subrange(a, b));
    assert(ops[head + a + marker_at(x)] == seg[marker_at(x)]);
    assert(ops[head + a + marker_at(x) + 1] == seg[marker_at(x) + 1]);
}

/// In the menu, the line of each entry is drawn by its own steps, in the
/// order of the entries after the head, and the line of entry `sel` (and
/// it alone) gets the `>` prefix white on blue; every other entry line
/// gets the blank prefix on black.
pub proof fn law_menu_marks_selected(
    title: Seq<char>,
    entries: Seq<EntryView>,
    sel: int,
    kb: Keybinds,
    remaining: u64,
)
    ensures
        forall|i: int|
            0 <= i < entries.len() ==> #[trigger] menu_line_marked(
                menu_ops(title, entries, sel, kb, remaining),
                entries,
                sel,
                spec_box_width(title, menu_lines(entries)),
                start_col(spec_box_width(title, menu_lines(entries))),
                menu_head_ops(title, entries, remaining).len() as int,
                i,
            ),
{
    assert forall|i: int| 0 <= i < entries.len() implies #[trigger] menu_line_marked(
        menu_ops(title, entries, sel, kb, remaining),
        entries,
        sel,
        spec_box_width(title, menu_lines(entries)),
        start_col(spec_box_width(title, menu_lines(entries))),
        menu_head_ops(title, entries, remaining).len() as int,
        i,
    ) by {
        lemma_menu_line(title, entries, sel, kb, remaining, i);
    }
}

} // verus!
