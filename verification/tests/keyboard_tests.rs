use nexec_lgc::keyboard::{input_ready, output_ready, scancode_to_event, KeyDecoder, KeyEvent};

#[test]
fn navigation_scancodes() {
    assert_eq!(scancode_to_event(0x48), Some(KeyEvent::Up));
    assert_eq!(scancode_to_event(0x50), Some(KeyEvent::Down));
    assert_eq!(scancode_to_event(0x47), Some(KeyEvent::Home));
    assert_eq!(scancode_to_event(0x4F), Some(KeyEvent::End));
    assert_eq!(scancode_to_event(0x1C), Some(KeyEvent::Enter));
    assert_eq!(scancode_to_event(0x01), Some(KeyEvent::Escape));
    assert_eq!(scancode_to_event(0x1E), None);
}

#[test]
fn decoder_releases_navigation_and_letters() {
    let mut d = KeyDecoder::new();
    assert_eq!(d.feed(0x9E), None);
    assert_eq!(d.feed(0x48), Some(KeyEvent::Up));
    assert_eq!(d.feed(0x1E), Some(KeyEvent::Char('a')));
    assert_eq!(d.feed(0x32), Some(KeyEvent::Char('m')));
    assert_eq!(d.feed(0x02), Some(KeyEvent::Char('1')));
}

#[test]
fn decoder_shift_gives_upper_case() {
    let mut d = KeyDecoder::new();
    assert_eq!(d.feed(0x2A), None);
    assert_eq!(d.feed(0x1E), Some(KeyEvent::Char('A')));
    d.reset();
}

#[test]
fn status_bit_zero_means_data() {
    assert!(output_ready(0x01));
    assert!(output_ready(0x1D));
    assert!(!output_ready(0x1C));
    assert!(input_ready(0x1D));
    assert!(!input_ready(0x02));
}
