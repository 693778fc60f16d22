use rinput::keyboard::Key;
use rinput::utils::{char_width, rgb_to_short};

#[test]
fn tab_width_runs_to_the_next_tab_stop() {
    assert_eq!(char_width('\t', false, 4, 0), Some(4));
    assert_eq!(char_width('\t', false, 4, 1), Some(3));
    assert_eq!(char_width('\t', false, 4, 3), Some(1));
    assert_eq!(char_width('\t', false, 8, 5), Some(3));
}

#[test]
fn newline_takes_one_column() {
    assert_eq!(char_width('\n', false, 4, 0), Some(1));
    assert_eq!(char_width('\n', true, 4, 2), Some(1));
}

#[test]
fn plain_characters_take_their_unicode_width() {
    assert_eq!(char_width('a', false, 4, 0), Some(1));
    assert_eq!(char_width('あ', false, 4, 0), Some(2));
    assert_eq!(char_width('\u{1}', false, 4, 0), None);
}

#[test]
fn ambiguous_characters_widen_in_cjk_context() {
    assert_eq!(char_width('§', false, 4, 0), Some(1));
    assert_eq!(char_width('§', true, 4, 0), Some(2));
}

#[test]
fn exact_palette_colors_map_to_their_entries() {
    assert_eq!(rgb_to_short("000000"), 16);
    assert_eq!(rgb_to_short("ff0000"), 196);
    assert_eq!(rgb_to_short("00ff00"), 46);
    assert_eq!(rgb_to_short("ffffff"), 231);
    assert_eq!(rgb_to_short("080808"), 232);
    assert_eq!(rgb_to_short("5f87af"), 67);
}

#[test]
fn near_misses_pick_the_nearest_entry() {
    assert_eq!(rgb_to_short("010101"), 16);
    assert_eq!(rgb_to_short("fefefe"), 231);
}

#[test]
fn uppercase_hex_digits_parse_too() {
    assert_eq!(rgb_to_short("FF0000"), 196);
}

#[test]
fn no_special_key_codes_are_recognised() {
    assert_eq!(Key::from_special_code(0), None);
    assert_eq!(Key::from_special_code(65517), None);
}
