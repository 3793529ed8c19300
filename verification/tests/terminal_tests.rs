use snake::terminal_tools::{as_bg_colour, Colour};

#[test]
fn foreground_colour_codes() {
    assert_eq!(Colour::Reset.code(), 0);
    assert_eq!(Colour::Black.code(), 30);
    assert_eq!(Colour::Red.code(), 31);
    assert_eq!(Colour::Green.code(), 32);
    assert_eq!(Colour::Yellow.code(), 33);
    assert_eq!(Colour::Blue.code(), 34);
    assert_eq!(Colour::Magenta.code(), 35);
    assert_eq!(Colour::Cyan.code(), 36);
    assert_eq!(Colour::White.code(), 37);
}

#[test]
fn background_codes_shift_by_ten() {
    assert_eq!(as_bg_colour(Colour::Reset), 0);
    assert_eq!(as_bg_colour(Colour::Black), 40);
    assert_eq!(as_bg_colour(Colour::Blue), 44);
    assert_eq!(as_bg_colour(Colour::White), 47);
}
