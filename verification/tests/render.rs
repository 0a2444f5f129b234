use figlet_rs::FIGfont;
use stopwatch::layout::pad_to_position;
use stopwatch::render::centered_frame;
use stopwatch::render::seconds_text;
use stopwatch::render::stopwatch_frame;
use stopwatch::render::RenderError;

#[test]
fn test_seconds_text() {
    assert_eq!(seconds_text(0), "0");
    assert_eq!(seconds_text(7), "7");
    assert_eq!(seconds_text(10), "10");
    assert_eq!(seconds_text(123), "123");
    assert_eq!(seconds_text(3600), "3600");
    assert_eq!(seconds_text(18446744073709551615), "18446744073709551615");
}

#[test]
fn test_centered_frame_matches_figlet_and_layout() {
    let font = FIGfont::standard().unwrap();
    let block = font.convert("5").unwrap().to_string();
    let expected = pad_to_position(&block, 40, 12);
    let got = centered_frame("5", 40, 12).unwrap();
    assert_eq!(got, expected);
    // the message really went through the stylizer: a one-line message
    // comes back as a taller block, shifted down by the top padding
    let h = block.lines().count();
    assert!(h > 1);
    assert_eq!(got.lines().count(), 12 / 2 + h);
}

#[test]
fn test_stopwatch_frame_uses_decimal_text() {
    let font = FIGfont::standard().unwrap();
    let block = font.convert("61").unwrap().to_string();
    let expected = pad_to_position(&block, 0, 0);
    assert_eq!(stopwatch_frame(61, 0, 0).unwrap(), expected);
}

#[test]
fn test_printable_ascii_always_renders() {
    assert!(centered_frame("~ !", 0, 0).is_ok());
    assert!(centered_frame(" ", 5, 5).is_ok());
    assert!(stopwatch_frame(0, 0, 0).is_ok());
}

#[test]
fn test_empty_message_is_an_error() {
    assert!(matches!(centered_frame("", 10, 10), Err(RenderError::EmptyInput)));
}

#[test]
fn test_unrenderable_message_is_an_error() {
    assert!(centered_frame("\u{4E2D}", 10, 10).is_err());
}
