use ttfx::easing::Easing;
use ttfx::geometry::{find_coords_in_rect, find_coords_on_line, find_coords_on_rect, Coord};
use ttfx::graphics::{xterm_to_rgb, Color, ColorPair, Gradient};
use ttfx::sorting::{bucket_ids, sorted_keys, split_runs, value_range};
use ttfx::text::{char_from_u32, char_string, chars_of, trim_chars};
use ttfx::utils::{floor_div, rem_euclid};

fn c(column: i32, row: i32) -> Coord {
    Coord::new(column, row)
}

#[test]
fn floor_div_rounds_toward_negative_infinity() {
    assert_eq!(floor_div(7, 2), 3);
    assert_eq!(floor_div(-7, 2), -4);
    assert_eq!(floor_div(7, -2), -4);
    assert_eq!(floor_div(-7, -2), 3);
    assert_eq!(floor_div(6, 3), 2);
    assert_eq!(floor_div(5, 0), 0);
}

#[test]
fn rem_euclid_is_never_negative() {
    assert_eq!(rem_euclid(-7, 3), 2);
    assert_eq!(rem_euclid(7, 3), 1);
    assert_eq!(rem_euclid(-6, 3), 0);
}

#[test]
fn line_walks_from_start_to_end() {
    assert_eq!(find_coords_on_line(c(1, 1), c(4, 3)), vec![c(1, 1), c(2, 2), c(3, 2), c(4, 3)]);
    assert_eq!(find_coords_on_line(c(5, 2), c(2, 2)), vec![c(5, 2), c(4, 2), c(3, 2), c(2, 2)]);
    assert_eq!(find_coords_on_line(c(3, 3), c(3, 3)), vec![c(3, 3)]);
}

#[test]
fn line_steps_are_adjacent() {
    let path = find_coords_on_line(c(-3, 7), c(9, -2));
    assert_eq!(path[0], c(-3, 7));
    assert_eq!(*path.last().unwrap(), c(9, -2));
    for w in path.windows(2) {
        assert!((w[1].column - w[0].column).abs() <= 1);
        assert!((w[1].row - w[0].row).abs() <= 1);
    }
}

#[test]
fn rect_fill_and_outline() {
    assert_eq!(find_coords_in_rect(c(1, 1), 2, 2), vec![c(1, 1), c(2, 1), c(1, 2), c(2, 2)]);
    assert!(find_coords_in_rect(c(1, 1), 0, 2).is_empty());
    let outline = find_coords_on_rect(c(1, 1), 3, 3);
    assert_eq!(outline.len(), 8);
    assert!(!outline.contains(&c(2, 2)));
    assert_eq!(find_coords_on_rect(c(0, 0), 2, 1), vec![c(0, 0), c(1, 0)]);
}

#[test]
fn hex_colors_parse() {
    assert_eq!(Color::from_hex("#ff8800"), Some(Color::rgb(255, 136, 0)));
    assert_eq!(Color::from_hex("fff"), Some(Color::rgb(255, 255, 255)));
    assert_eq!(Color::from_hex("  00d1ff \n"), Some(Color::rgb(0, 0xd1, 0xff)));
    assert_eq!(Color::from_hex("##8A008A"), Some(Color::rgb(0x8a, 0, 0x8a)));
    assert_eq!(Color::from_hex("zzzzzz"), None);
    assert_eq!(Color::from_hex("12345"), None);
    assert_eq!(Color::from_hex(""), None);
}

#[test]
fn hex_plus_sign_channels_read_like_from_str_radix() {
    assert_eq!(Color::from_hex("+f+f+f"), Some(Color::rgb(15, 15, 15)));
}

#[test]
fn hex_round_trips() {
    for color in [Color::rgb(0, 0, 0), Color::rgb(255, 136, 0), Color::rgb(18, 52, 86)] {
        assert_eq!(Color::from_hex(&color.hex()), Some(color));
    }
    assert_eq!(Color::rgb(255, 136, 0).hex(), "ff8800");
}

#[test]
fn sgr_sequences() {
    assert_eq!(Color::rgb(1, 22, 255).fg_sgr(), "\x1b[38;2;1;22;255m");
    assert_eq!(Color::rgb(0, 0, 0).bg_sgr(), "\x1b[48;2;0;0;0m");
}

#[test]
fn xterm_palette() {
    assert_eq!(xterm_to_rgb(9), (255, 0, 0));
    assert_eq!(xterm_to_rgb(196), (255, 0, 0));
    assert_eq!(xterm_to_rgb(16), (0, 0, 0));
    assert_eq!(xterm_to_rgb(244), (128, 128, 128));
    assert_eq!(Color::from_xterm(21), Color::rgb(0, 0, 255));
}

#[test]
fn color_pairs() {
    let red = Color::rgb(255, 0, 0);
    assert_eq!(ColorPair::fg(red).into_option(), Some(ColorPair::new(Some(red), None)));
    assert_eq!(ColorPair::new(None, None).into_option(), None);
}

#[test]
fn gradient_blends_by_floor_steps() {
    let black = Color::rgb(0, 0, 0);
    let white = Color::rgb(255, 255, 255);
    let g = Gradient::new(&[black, white], 2);
    assert_eq!(g.spectrum(), &[black, Color::rgb(127, 127, 127), white]);
    assert_eq!(g.len(), 3);
    assert_eq!(g.get(1), Some(Color::rgb(127, 127, 127)));
    assert_eq!(g.get(3), None);
    let down = Gradient::new(&[white, black], 2);
    assert_eq!(down.spectrum()[1], Color::rgb(127, 127, 127));
    assert!(Gradient::new(&[], 5).is_empty());
    assert_eq!(Gradient::new(&[black], 5).spectrum(), &[black]);
}

#[test]
fn gradient_passes_through_each_stop() {
    let stops = [Color::rgb(0x8a, 0, 0x8a), Color::rgb(0, 0xd1, 0xff), Color::rgb(255, 255, 255)];
    let g = Gradient::new(&stops, 12);
    assert_eq!(g.len(), 25);
    assert_eq!(g.get(0), Some(stops[0]));
    assert_eq!(g.get(12), Some(stops[1]));
    assert_eq!(g.get(24), Some(stops[2]));
}

#[test]
fn easing_names_ignore_case_and_dashes() {
    assert_eq!(Easing::from_name("In-Out-Sine"), Some(Easing::InOutSine));
    assert_eq!(Easing::from_name("linear"), Some(Easing::Linear));
    assert_eq!(Easing::from_name("OUT_QUAD"), Some(Easing::OutQuad));
    assert_eq!(Easing::from_name("sideways"), None);
}

#[test]
fn text_helpers() {
    assert_eq!(char_string('é'), "é");
    assert_eq!(char_from_u32(0x41), Some('A'));
    assert_eq!(char_from_u32(0xD800), None);
    assert_eq!(chars_of("héllo"), vec!['h', 'é', 'l', 'l', 'o']);
    assert_eq!(trim_chars(&vec![' ', 'a', '\t', 'b', '\n']), vec!['a', '\t', 'b']);
}

#[test]
fn sorted_keys_orders_lexicographically() {
    let keys = [(2, 0, 7), (1, 5, 3), (1, 2, 9), (2, 0, 1)];
    assert_eq!(sorted_keys(&keys), vec![(1, 2, 9), (1, 5, 3), (2, 0, 1), (2, 0, 7)]);
}

#[test]
fn split_runs_groups_equal_first_components() {
    let keys = [(1, 0, 4), (1, 1, 5), (3, 0, 6), (4, 0, 7), (4, 9, 8)];
    assert_eq!(split_runs(&keys), vec![vec![4, 5], vec![6], vec![7, 8]]);
    assert!(split_runs(&[]).is_empty());
}

#[test]
fn bucket_ids_keeps_input_order_inside_buckets() {
    let keys = [3, 1, 3, -2, 1];
    let ids = [10, 11, 12, 13, 14];
    assert_eq!(bucket_ids(&keys, &ids), vec![vec![13], vec![11, 14], vec![10, 12]]);
}

#[test]
fn value_range_finds_extremes() {
    assert_eq!(value_range(&[4, -2, 9, 0]), Some((-2, 9)));
    assert_eq!(value_range(&[]), None);
}

#[test]
fn hex_parses_with_hash_and_in_upper_case() {
    for color in [Color::rgb(0, 0, 0), Color::rgb(0xab, 0x12, 0xff), Color::rgb(255, 255, 255)] {
        let hex = color.hex();
        assert_eq!(Color::from_hex(&format!("#{hex}")), Some(color));
        assert_eq!(Color::from_hex(&hex.to_uppercase()), Some(color));
    }
}

#[test]
fn every_easing_is_named_by_its_snake_case_name() {
    let names = [
        ("linear", Easing::Linear),
        ("in_sine", Easing::InSine),
        ("out_sine", Easing::OutSine),
        ("in_out_sine", Easing::InOutSine),
        ("in_quad", Easing::InQuad),
        ("out_quad", Easing::OutQuad),
        ("in_out_quad", Easing::InOutQuad),
        ("in_cubic", Easing::InCubic),
        ("out_cubic", Easing::OutCubic),
        ("in_out_cubic", Easing::InOutCubic),
        ("in_quart", Easing::InQuart),
        ("out_quart", Easing::OutQuart),
        ("in_out_quart", Easing::InOutQuart),
        ("in_quint", Easing::InQuint),
        ("out_quint", Easing::OutQuint),
        ("in_out_quint", Easing::InOutQuint),
        ("in_expo", Easing::InExpo),
        ("out_expo", Easing::OutExpo),
        ("in_out_expo", Easing::InOutExpo),
        ("in_circ", Easing::InCirc),
        ("out_circ", Easing::OutCirc),
        ("in_out_circ", Easing::InOutCirc),
        ("in_back", Easing::InBack),
        ("out_back", Easing::OutBack),
        ("in_out_back", Easing::InOutBack),
        ("in_elastic", Easing::InElastic),
        ("out_elastic", Easing::OutElastic),
        ("in_out_elastic", Easing::InOutElastic),
        ("in_bounce", Easing::InBounce),
        ("out_bounce", Easing::OutBounce),
        ("in_out_bounce", Easing::InOutBounce),
    ];
    for (name, easing) in names {
        assert_eq!(Easing::from_name(name), Some(easing));
        assert_eq!(Easing::from_name(&name.to_uppercase().replace('_', "-")), Some(easing));
    }
    assert_eq!(Easing::from_name("in_out"), None);
}

#[test]
fn gradient_default_is_empty() {
    assert!(Gradient::default().spectrum().is_empty());
    let two = Gradient::new(&[Color::rgb(0, 0, 0), Color::rgb(255, 255, 255)], 1);
    assert_eq!(two.spectrum(), &[Color::rgb(0, 0, 0), Color::rgb(255, 255, 255)][..]);
}
