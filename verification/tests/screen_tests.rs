use nexec_lgc::config::{Config, Entry, Keybinds};
use nexec_lgc::draw::{
    booting_message, box_width, browse_files, char_count, counter_text, draw_line, draw_menu,
    notice, pad_to, repeat_char, show_status, title_for, BrowseStep, Notice,
};
use nexec_lgc::keyboard::KeyEvent;
use nexec_lgc::menu::Menu;
use nexec_lgc::vga::{color_code, vga_entry, Color, VgaWriter};

const BLANK: u16 = 0x0920;

fn row_text(w: &VgaWriter, row: usize) -> String {
    w.cells()[row * 80..row * 80 + 80].iter().map(|c| (*c & 0xFF) as u8 as char).collect()
}

#[test]
fn colors_and_cells() {
    assert_eq!(color_code(Color::LightBlue, Color::Black), 0x09);
    assert_eq!(color_code(Color::White, Color::Blue), 0x1F);
    assert_eq!(color_code(Color::Yellow, Color::DarkGray), 0x8E);
    assert_eq!(vga_entry(b'A', 0x1F), 0x1F41);
}

#[test]
fn new_screen_is_blank() {
    let w = VgaWriter::new();
    assert_eq!(w.cells().len(), 2000);
    assert!(w.cells().iter().all(|c| *c == BLANK));
    assert_eq!(w.cursor(), (0, 0));
    assert_eq!(w.colors(), (Color::LightBlue, Color::Black));
}

#[test]
fn writing_moves_the_cursor() {
    let mut w = VgaWriter::new();
    w.set_color(Color::White, Color::Blue);
    w.write_str("Hi\r\nok");
    assert_eq!(w.cells()[0], 0x1F48);
    assert_eq!(w.cells()[1], 0x1F69);
    assert_eq!(w.cells()[80], 0x1F6F);
    assert_eq!(w.cursor(), (2, 1));
    w.write_str("\r");
    assert_eq!(w.cursor(), (0, 1));
}

#[test]
fn long_lines_wrap() {
    let mut w = VgaWriter::new();
    w.write_str(&"x".repeat(81));
    assert_eq!(w.cursor(), (1, 1));
    assert_eq!(w.cells()[80] & 0xFF, b'x' as u16);
}

#[test]
fn bottom_line_scrolls() {
    let mut w = VgaWriter::new();
    w.set_cursor(0, 24);
    w.write_str("last");
    w.write_str("\n");
    assert_eq!(w.cursor(), (0, 24));
    assert_eq!(&row_text(&w, 23)[0..4], "last");
    assert!(w.cells()[24 * 80..].iter().all(|c| *c == BLANK));
}

#[test]
fn box_glyphs_take_one_cell() {
    let mut w = VgaWriter::new();
    w.write_str("─│┌┐└┘↑↓é€");
    assert_eq!(w.cursor(), (10, 0));
    let bytes: Vec<u16> = w.cells()[0..10].iter().map(|c| c & 0xFF).collect();
    assert_eq!(bytes, vec![0xC4, 0xB3, 0xDA, 0xBF, 0xC0, 0xD9, 0x18, 0x19, 0x82, 0x3F]);
}

#[test]
fn clear_blanks_and_goes_home() {
    let mut w = VgaWriter::new();
    w.write_str("abc");
    w.clear();
    assert!(w.cells().iter().all(|c| *c == BLANK));
    assert_eq!(w.cursor(), (0, 0));
}

#[test]
fn layout_helpers() {
    assert_eq!(pad_to("ab", 4), "ab  ");
    assert_eq!(pad_to("abcdef", 4), "abcd");
    assert_eq!(repeat_char('-', 3), "---");
    assert_eq!(char_count("↑↓x"), 3);
    assert_eq!(counter_text(Some(3)), " [3]");
    assert_eq!(counter_text(Some(0)), "");
    assert_eq!(counter_text(None), "");
    assert_eq!(title_for("0.1.0"), "nexec-lgc v0.1.0");
    assert_eq!(booting_message("Arch"), "Booting Arch...\r\n");
}

#[test]
fn box_width_bounds() {
    let lines: Vec<String> = vec!["    Arch".to_string()];
    assert_eq!(box_width("nexec-lgc v0.1.0", &lines), 52);
    let lines: Vec<String> = vec!["x".repeat(60)];
    assert_eq!(box_width("t", &lines), 66);
    let lines: Vec<String> = vec!["x".repeat(200)];
    assert_eq!(box_width("t", &lines), 78);
}

#[test]
fn framed_line_is_padded() {
    let mut w = VgaWriter::new();
    draw_line(&mut w, "hi", 10, Color::White, 2);
    assert_eq!(w.cursor(), (0, 1));
    assert_eq!(w.cells()[2], 0x09B3);
    assert_eq!(w.colors(), (Color::LightBlue, Color::Black));
}

#[test]
fn status_dialog_is_centred() {
    let mut w = VgaWriter::new();
    let lines = notice(Notice::NoBackup);
    assert_eq!(lines[0], ("No backup found.".to_string(), Color::Yellow));
    assert_eq!(lines[1], ("Press any key to continue...".to_string(), Color::DarkGray));
    show_status(&mut w, "nexec-lgc v0.1.0", &lines);
    assert_eq!(w.colors(), (Color::LightBlue, Color::Black));
    let top = row_text(&w, 9);
    assert_eq!(top.chars().nth(17), Some(0xDA as char));
}

#[test]
fn menu_draws_without_leaving_the_screen() {
    let cfg = Config {
        default: None,
        timeout: 5,
        no_scan: false,
        order: None,
        entries: vec![Entry {
            name: "arch".to_string(),
            title: "Arch".to_string(),
            efi_path: "/vmlinuz".to_string(),
            options: None,
            initrd: Vec::new(),
            boot_counter: Some(2),
            source_path: None,
        }],
        keybinds: Keybinds::default(),
    };
    let m = Menu::new(&cfg, Vec::new());
    let mut w = VgaWriter::new();
    draw_menu(&mut w, &m, 50, "nexec-lgc v0.1.0");
    let (col, row) = w.cursor();
    assert!(col < 80 && row < 25);
    let all: String = (0..25).map(|r| row_text(&w, r)).collect();
    assert!(all.contains("Auto-boot in 5s"));
    assert!(all.contains("Arch"));
    assert!(all.contains("[2]"));
}

#[test]
fn browser_keys() {
    assert_eq!(browse_files(0, 3, KeyEvent::Up), BrowseStep::Stay(0));
    assert_eq!(browse_files(0, 3, KeyEvent::Down), BrowseStep::Stay(1));
    assert_eq!(browse_files(2, 3, KeyEvent::Down), BrowseStep::Stay(2));
    assert_eq!(browse_files(1, 3, KeyEvent::End), BrowseStep::Stay(2));
    assert_eq!(browse_files(1, 3, KeyEvent::Home), BrowseStep::Stay(0));
    assert_eq!(browse_files(1, 3, KeyEvent::Enter), BrowseStep::Boot(1));
    assert_eq!(browse_files(1, 3, KeyEvent::Escape), BrowseStep::Back);
    assert_eq!(browse_files(1, 3, KeyEvent::Char('x')), BrowseStep::Stay(1));
}

#[test]
fn formatted_text_scrolls_in_current_colours() {
    let mut w = VgaWriter::new();
    w.set_color(Color::White, Color::Blue);
    w.set_cursor(0, 24);
    w.write_text("end\n");
    assert_eq!(w.cursor(), (0, 24));
    assert_eq!(&row_text(&w, 23)[0..3], "end");
    assert!(w.cells()[24 * 80..].iter().all(|c| *c == 0x1F20));
    let mut v = VgaWriter::new();
    v.set_color(Color::White, Color::Blue);
    v.set_cursor(0, 24);
    v.write_str("end\n");
    assert!(v.cells()[24 * 80..].iter().all(|c| *c == BLANK));
}
