use ttfx::effects::beams::{self, Beams, GroupPlan};
use ttfx::effects::binarypath::{mix, symbol_bits, travel_path, Binarypath};
use ttfx::effects::blackhole::{self, age_visible, ring_sprites, star_color};
use ttfx::effects::bouncyballs::{ball_palette, hash_input};
use ttfx::effects::bubbles::{bubble_groups, SimpleRng};
use ttfx::effects::burn::{burn_timeline, column_pending};
use ttfx::effects::colorshift::{text_extents, travel_index};
use ttfx::effects::crumble::{activate_unsupported, fall_duration, fly_duration, return_duration, step_all, CharInfo, Phase};
use ttfx::effects::decrypt::{encrypted_symbols, seed_from};
use ttfx::effects::matrix::Matrix;
use ttfx::effects::vhstape::Vhstape;
use ttfx::effects::errorcorrect::{correct_color, error_color, final_stops, is_content, Fade};
use ttfx::effects::fireworks::{self, blossom_palette};
use ttfx::effects::highlight::{activate_group, beam_live, column_groups, tick};
use ttfx::effects::laseretch::{nearest_neighbor, EtchChar};
use ttfx::effects::matrix::{resolve_order, ColumnStep, RainColumn};
use ttfx::effects::orbittingvolley::perimeter_path;
use ttfx::effects::pour::{build_groups, parse_hex, parse_input};
use ttfx::effects::print::{color_code_sequence, group_rows};
use ttfx::effects::random_sequence::reveal_order;
use ttfx::effects::spray;
use ttfx::effects::synthgrid::find_even_gap;
use ttfx::effects::thunderstorm::StormRng;
use ttfx::effects::unstable::spectrum_color;
use ttfx::effects::waves::{advance_phase, settle_len, Paint};
use ttfx::effects::wipe::{group_characters, Wipe, WipeDirection};
use ttfx::effects::{matrix, waves};
use ttfx::canvas::Canvas;
use ttfx::geometry::Coord;
use ttfx::graphics::Color;

fn c(column: i32, row: i32) -> Coord {
    Coord::new(column, row)
}

#[test]
fn effects_know_their_names() {
    assert_eq!(Beams::new().name(), "beams");
    assert_eq!(Binarypath::new().name(), "binarypath");
    assert_eq!(Wipe::default().name(), "wipe");
    assert_eq!(ttfx::effects::random_sequence::RandomSequence::new().name(), "random_sequence");
}

#[test]
fn xorshift_generator_draws() {
    let mut rng = beams::Rng::new(12345);
    assert_eq!(rng.next_u32(), 3094);
    assert_eq!(rng.next_u32(), 2618210644);
    assert_eq!(rng.randint(10, 40), 36);
}

#[test]
fn xorshift_shuffle_is_a_fixed_permutation() {
    let mut rng = beams::Rng::new(12345);
    let mut items: Vec<u32> = (0..6).collect();
    rng.shuffle(&mut items);
    assert_eq!(items, vec![1, 0, 3, 2, 5, 4]);
}

#[test]
fn lcg_shuffle_is_a_fixed_permutation() {
    let mut rng = blackhole::Rng(7);
    let mut items: Vec<u32> = (0..5).collect();
    rng.shuffle(&mut items);
    assert_eq!(items, vec![0, 3, 2, 1, 4]);
    assert_eq!(rng.0, 12309061806813186179);
}

#[test]
fn fnv1a_hash_of_input() {
    assert_eq!(hash_input("hello"), 11831194018420276491);
    assert_eq!(hash_input(""), 0xcbf29ce484222325);
}

#[test]
fn beam_groups_cover_rows_and_columns() {
    let rows = [1, 1, 2];
    let columns = [1, 2, 1];
    let ids = [0, 1, 2];
    let mut rng = beams::Rng::new(99);
    let groups: Vec<GroupPlan> = beams::build_groups(&rows, &columns, &ids, &mut rng);
    assert_eq!(groups.len(), 4);
    let mut rows_seen: Vec<Vec<u32>> = groups.iter().filter(|g| !g.is_column).map(|g| g.chars.clone()).collect();
    rows_seen.sort();
    assert_eq!(rows_seen, vec![vec![1, 0], vec![2]]);
    for g in &groups {
        if g.is_column {
            assert!((6..=10).contains(&g.speed_tenths));
        } else {
            assert!((10..=40).contains(&g.speed_tenths));
        }
        assert_eq!(g.hold_time, 0);
    }
    assert_eq!(beams::diagonal_groups(&rows, &columns, &ids), vec![vec![2], vec![0], vec![1]]);
}

#[test]
fn paired_spectrum_shares_joints() {
    let stops = [Color::rgb(0, 0, 0), Color::rgb(100, 100, 100), Color::rgb(0, 0, 0)];
    let spectrum = beams::paired_spectrum(&stops, &[2, 4]);
    assert_eq!(spectrum.len(), 7);
    assert_eq!(spectrum[0], stops[0]);
    assert_eq!(spectrum[2], stops[1]);
    assert_eq!(spectrum[6], stops[2]);
    let frames = beams::beam_sequence(&["x", "y"], &[Color::rgb(1, 1, 1), Color::rgb(2, 2, 2)]);
    assert_eq!(frames.len(), 4);
    assert_eq!(frames[2], ("y".to_string(), Color::rgb(1, 1, 1)));
}

#[test]
fn binary_path_pieces() {
    assert_eq!(symbol_bits("A"), ['0', '1', '0', '0', '0', '0', '0', '1']);
    assert_eq!(symbol_bits(""), ['0'; 8]);
    assert_eq!(mix(0, 11), 1013904234);
    let path = travel_path(c(1, 1), c(3, 1), c(3, 3));
    assert_eq!(path, vec![c(1, 1), c(2, 1), c(3, 1), c(3, 2), c(3, 3)]);
}

#[test]
fn blackhole_stars_age_and_rings_rotate() {
    assert_eq!(star_color(0), Color::rgb(0xfd, 0xff, 0x38));
    assert_eq!(star_color(40), Color::rgb(0xff, 0xd7, 0x00));
    assert_eq!(star_color(500), Color::rgb(0xff, 0xff, 0xff));
    let mut ages: std::collections::HashMap<u32, u32> = [(0, 1), (2, u32::MAX)].into_iter().collect();
    age_visible(&mut ages, &[0, 1, 2, 7]);
    let expected: std::collections::HashMap<u32, u32> = [(0, 2), (2, u32::MAX)].into_iter().collect();
    assert_eq!(ages, expected);
    let sprites = ring_sprites(&[c(0, 0), c(1, 0), c(2, 0)], 1);
    assert_eq!(sprites, vec![(c(1, 0), "*"), (c(2, 0), "'"), (c(0, 0), "`")]);
}

#[test]
fn bouncy_ball_palette() {
    assert_eq!(ball_palette()[0], Color::rgb(0xd1, 0xf4, 0xa5));
}

#[test]
fn bubbles_take_five_to_twenty_members() {
    let mut rng = SimpleRng::new(0x00B0_BB1E);
    let groups = bubble_groups(30, &mut rng);
    let sizes: Vec<usize> = groups.iter().map(Vec::len).collect();
    assert_eq!(sizes, vec![20, 10]);
    let flat: Vec<usize> = groups.concat();
    assert_eq!(flat, (0..30).collect::<Vec<usize>>());
    let mut empty = SimpleRng::new(1);
    assert!(bubble_groups(0, &mut empty).is_empty());
}

#[test]
fn burn_order_and_timeline() {
    assert_eq!(column_pending(&[2, 1, 2, 1], &[1, 5, 0, 3]), vec![3, 1, 2, 0]);
    let fire = [Color::rgb(255, 255, 255), Color::rgb(0, 0, 0)];
    let t = burn_timeline(&fire, Color::rgb(10, 10, 10));
    assert_eq!(t.len(), 2 + 2 + 9);
    assert_eq!(t[0], (Color::rgb(0, 0, 0), 20));
    assert_eq!(t[2], (Color::rgb(255, 255, 255), 5));
    assert_eq!(t[12], (Color::rgb(10, 10, 10), 12));
    assert_eq!(burn_timeline(&[], Color::rgb(1, 2, 3)), vec![(Color::rgb(1, 2, 3), 12)]);
}

#[test]
fn colorshift_travel() {
    assert_eq!(text_extents(&[3, 1, 7], &[2, 9]), (1, 7, 2, 9));
    assert_eq!(text_extents(&[], &[]), (1, 1, 1, 1));
    assert_eq!(travel_index(5, 0, 1, 9, 0, 0, 12), 6);
    assert_eq!(travel_index(9, 0, 1, 9, 0, 0, 12), 0);
    assert_eq!(travel_index(5, 0, 1, 9, 0, 0, 0), 0);
}

#[test]
fn crumble_durations_are_clamped() {
    assert_eq!(fall_duration(1, 1), 18);
    assert_eq!(fall_duration(10, 1), 27);
    assert_eq!(fall_duration(100, 1), 48);
    assert_eq!(fly_duration(30, 1), 36);
    assert_eq!(return_duration(3, 1), 18);
}

#[test]
fn crumble_activates_unsupported_top_first() {
    let infos = [
        CharInfo { id: 0, input: c(1, 1), above: Some(2) },
        CharInfo { id: 1, input: c(2, 1), above: None },
        CharInfo { id: 2, input: c(1, 2), above: None },
    ];
    let mut phases = vec![Phase::Idle; 3];
    activate_unsupported(&infos, &mut phases);
    assert_eq!(phases, vec![Phase::Idle, Phase::Flash { frame: 0 }, Phase::Flash { frame: 0 }]);
    let mut stepping = vec![Phase::Flash { frame: 11 }, Phase::Fall { frame: 0 }, Phase::Done];
    step_all(&infos, &mut stepping, 1);
    assert_eq!(stepping, vec![Phase::Weaken { frame: 0 }, Phase::Fall { frame: 1 }, Phase::Done]);
}

#[test]
fn decrypt_symbols_and_seed() {
    let symbols = encrypted_symbols();
    assert_eq!(symbols.len(), 95 + 121);
    assert_eq!(symbols[0], " ");
    assert_eq!(symbols[94], "~");
    assert_eq!(symbols[95], "ç");
    assert_eq!(seed_from("abc"), 7414044167353981679);
}

#[test]
fn errorcorrect_colors_and_fades() {
    assert_eq!(error_color(), Color::rgb(0xe7, 0x4c, 0x3c));
    assert_eq!(correct_color(), Color::rgb(0x45, 0xbf, 0x55));
    assert_eq!(final_stops()[1], Color::rgb(0x00, 0xd1, 0xff));
    assert!(is_content("a", None, None));
    assert!(!is_content(" ", None, None));
    assert!(!is_content("\t", None, None));
    assert!(is_content(" ", Some(Color::rgb(1, 1, 1)), None));
    let mut fade = Fade::new(0, vec![Color::rgb(1, 1, 1), Color::rgb(2, 2, 2)]);
    let mut frames = 0;
    while fade.advance() {
        frames += 1;
    }
    assert_eq!(frames, 9);
    assert_eq!(fade.color(), Some(Color::rgb(2, 2, 2)));
}

#[test]
fn fireworks_draws_and_blossom() {
    let mut rng = fireworks::Rng::new(5);
    assert_eq!(rng.i32(1, 6), 3);
    assert_eq!(rng.i32(4, 4), 4);
    let palette = blossom_palette(Color::rgb(255, 0, 0));
    assert_eq!(palette.len(), 40);
    assert_eq!(palette[0], Color::rgb(255, 0, 0));
    assert_eq!(palette[1], Color::rgb(255, 0, 0));
    assert_eq!(palette[39], Color::rgb(255, 0, 0));
}

#[test]
fn highlight_columns_and_countdown() {
    let groups = column_groups(&[2, 1, 1], &[1, 1, 2], &[0, 1, 2]);
    assert_eq!(groups, vec![vec![2, 1], vec![0]]);
    let mut remaining = vec![None; 3];
    activate_group(&mut remaining, &[0, 2]);
    assert_eq!(remaining, vec![Some(5), None, Some(5)]);
    assert!(beam_live(&remaining));
    for _ in 0..5 {
        tick(&mut remaining);
    }
    assert_eq!(remaining, vec![Some(0), None, Some(0)]);
    assert!(!beam_live(&remaining));
}

#[test]
fn laser_tours_nearest_first() {
    let infos: Vec<EtchChar> = [c(1, 1), c(5, 1), c(2, 1)]
        .iter()
        .enumerate()
        .map(|(i, &coord)| EtchChar { id: i as u32, coord, symbol: "x".to_string(), fg: None, bg: None })
        .collect();
    assert_eq!(nearest_neighbor(&infos, &[0, 1, 2], c(6, 1)), vec![1, 2, 0]);
}

#[test]
fn matrix_generator_and_columns() {
    let mut rng = matrix::Rng::new(0);
    assert_eq!(rng.state, 1);
    assert_eq!(rng.next_u32(), 1015568748);
    assert_eq!(resolve_order(&[1, 2, 2], &[1, 3, 1]), vec![2, 1, 0]);
    let mut col = RainColumn { column: 1, head: 3, start_delay: 1, fall_delay: 0, fall_wait: 0, trail: 2, cycles_left: 1, done: false };
    let mut r = matrix::Rng::new(3);
    assert_eq!(col.advance(&mut r, 2, 1), ColumnStep::Waiting);
    assert_eq!(col.advance(&mut r, 2, 1), ColumnStep::Paint);
    assert_eq!(col.head, 2);
}

#[test]
fn launcher_circles_the_canvas() {
    let canvas = Canvas::new(3, 2);
    let path = perimeter_path(c(3, 2), &canvas);
    assert_eq!(path[0], c(3, 2));
    assert_eq!(*path.last().unwrap(), c(3, 2));
    assert_eq!(path.len(), 7);
}

#[test]
fn print_rows_and_typing() {
    let rows = group_rows(&[1, 2, 2], &[1, 2, 1], &[10, 11, 12]);
    assert_eq!(rows.len(), 2);
    assert_eq!(rows[0].untyped, vec![12, 11]);
    assert_eq!(rows[1].untyped, vec![10]);
    let seq = color_code_sequence(7, "Q", Color::rgb(1, 2, 3));
    assert_eq!(seq.len(), 9);
    assert_eq!(seq[0], ("538453d7".to_string(), None));
    assert_eq!(seq[1].0, "a97288ed");
    assert_eq!(seq[2].0, "52e2c3ab");
    assert_eq!(seq[3], ("*".to_string(), Some(Color::rgb(1, 2, 3))));
    assert_eq!(seq[8], ("Q".to_string(), Some(Color::rgb(1, 2, 3))));
}

#[test]
fn random_sequence_order() {
    assert_eq!(reveal_order(5), vec![2, 1, 0, 4, 3]);
    assert_eq!(reveal_order(1), vec![0]);
}

#[test]
fn spray_reads_six_digits() {
    assert_eq!(spray::hex_color("#8A008A"), Color::rgb(0x8a, 0, 0x8a));
    assert_eq!(spray::hex_color("zz00ffXX"), Color::rgb(255, 0, 255));
}

#[test]
fn synthgrid_gaps() {
    assert_eq!(find_even_gap(2), 1);
    assert_eq!(find_even_gap(3), 2);
    assert_eq!(find_even_gap(80), 1);
    assert_eq!(find_even_gap(81), 16);
}

#[test]
fn storm_generator() {
    let mut rng = StormRng(1);
    assert_eq!(rng.next_u32(), 270369);
    let mut again = StormRng(1);
    assert_eq!(again.gen_range(0, 5), 4);
}

#[test]
fn unstable_spectrum_holds_colors() {
    let spectrum = [Color::rgb(1, 1, 1), Color::rgb(2, 2, 2)];
    assert_eq!(spectrum_color(&spectrum, 9, 10), Color::rgb(1, 1, 1));
    assert_eq!(spectrum_color(&spectrum, 10, 10), Color::rgb(2, 2, 2));
    assert_eq!(spectrum_color(&spectrum, 1000, 10), Color::rgb(2, 2, 2));
    assert_eq!(spectrum_color(&[], 0, 1), Color::rgb(255, 255, 255));
}

#[test]
fn waves_step_through_phases() {
    assert_eq!(settle_len(), 13);
    let (p, paint, live) = advance_phase(waves::Phase::Wave { step: 0, hold: 2 }, 13);
    assert_eq!((p, paint, live), (waves::Phase::Wave { step: 0, hold: 1 }, Paint::Keep, true));
    let (p, paint, _) = advance_phase(p, 13);
    assert_eq!((p, paint), (waves::Phase::Wave { step: 1, hold: 2 }, Paint::Wave(1)));
    let (p, paint, live) = advance_phase(waves::Phase::Settle { step: 12, hold: 1 }, 13);
    assert_eq!((p, paint, live), (waves::Phase::Done, Paint::Final, false));
}

#[test]
fn wipe_groups_by_direction() {
    let coords = [c(1, 1), c(2, 1), c(1, 2)];
    let ids = [0, 1, 2];
    assert_eq!(group_characters(&coords, &ids, WipeDirection::ColumnLeftToRight, 1, 2, 1, 2), vec![vec![0, 2], vec![1]]);
    assert_eq!(group_characters(&coords, &ids, WipeDirection::RowTopToBottom, 1, 2, 1, 2), vec![vec![2], vec![0, 1]]);
    let w = Wipe::new();
    assert_eq!(w.final_gradient_steps, 12);
}

fn grid_of(rows: &[&str]) -> Vec<Vec<char>> {
    rows.iter().map(|r| r.chars().collect()).collect()
}

#[test]
fn pour_grid_splits_lines_and_expands_tabs() {
    assert_eq!(parse_input("ab\ncd\n"), grid_of(&["ab", "cd"]));
    assert_eq!(parse_input("a\tb\r\nc"), grid_of(&["a   b", "c"]));
    assert_eq!(parse_input(""), grid_of(&[""]));
    assert_eq!(parse_input("x\n\n"), grid_of(&["x", ""]));
    assert_eq!(parse_input("\t"), grid_of(&["    "]));
}

#[test]
fn pour_color_options() {
    assert_eq!(parse_hex("8A008A"), (0x8a, 0x00, 0x8a));
    assert_eq!(parse_hex(" #fff "), (255, 255, 255));
    assert_eq!(parse_hex("123"), (0x11, 0x22, 0x33));
    assert_eq!(parse_hex("42"), (42, 42, 42));
    assert_eq!(parse_hex("+7"), (7, 7, 7));
    assert_eq!(parse_hex("300"), (0x33, 0x00, 0x00));
    assert_eq!(parse_hex("256"), (0x22, 0x55, 0x66));
    assert_eq!(parse_hex("1000"), (255, 255, 255));
    assert_eq!(parse_hex("-1"), (255, 255, 255));
    assert_eq!(parse_hex("zz"), (255, 255, 255));
}

#[test]
fn pour_groups_follow_the_direction() {
    let grid = grid_of(&["ab", "c", "def"]);
    assert_eq!(build_groups("down", 3, 3, &grid), vec![vec![0, 1], vec![2], vec![3, 4, 5]]);
    assert_eq!(build_groups("up", 3, 3, &grid), vec![vec![3, 4, 5], vec![2], vec![0, 1]]);
    assert_eq!(build_groups("left", 3, 3, &grid), vec![vec![0, 2, 3], vec![1, 4], vec![5]]);
    assert_eq!(build_groups("right", 3, 3, &grid), vec![vec![5], vec![1, 4], vec![0, 2, 3]]);
    assert_eq!(build_groups("down", 3, 2, &grid), vec![vec![0, 1], vec![2], vec![3, 4]]);
    let gappy = grid_of(&["a", "", "b"]);
    assert_eq!(build_groups("down", 3, 1, &gappy), vec![vec![0], vec![1]]);
}

fn placed_row(text: &str) -> Vec<ttfx::terminal::PlacedCharacter> {
    text.chars()
        .enumerate()
        .map(|(i, ch)| ttfx::terminal::PlacedCharacter {
            id: ttfx::character::CharacterId(i as u32),
            symbol: ch.to_string(),
            coord: Coord::new(i as i32 + 1, 1),
            fg: None,
            bg: None,
            visual: ttfx::animation::CharacterVisual::new(&ch.to_string(), None),
            neighbors: ttfx::character::Neighbors::default(),
        })
        .collect()
}

#[test]
fn colorshift_frames_travel_the_rainbow() {
    let mut canvas = Canvas::new(3, 1);
    let frames = ttfx::effects::colorshift::Colorshift::new().frames(&mut canvas, &placed_row("abc"));
    assert_eq!(frames.len(), 73 * 5);
    let red = "\x1b[38;2;232;20;22m";
    let green = "\x1b[38;2;121;195;20m";
    let expected = format!("{red}a\x1b[0m{green}b\x1b[0m{red}c\x1b[0m\n");
    assert_eq!(frames[0], expected);
    assert_eq!(frames[4], expected);
    assert_ne!(frames[5], expected);
    let mut empty = Canvas::new(2, 2);
    assert_eq!(ttfx::effects::colorshift::Colorshift::new().frames(&mut empty, &[]), vec!["  \n  \n".to_string()]);
}

#[test]
fn highlight_frames_sweep_column_by_column() {
    let mut canvas = Canvas::new(2, 1);
    let frames = ttfx::effects::highlight::Highlight::new().frames(&mut canvas, &placed_row("ab"));
    let paint = |rgb: &str, ch: char| format!("\x1b[38;2;{rgb}m{ch}\x1b[0m");
    let (muted, lit, settled) = ("108;112;134", "255;203;107", "137;221;255");
    assert_eq!(frames.len(), 8);
    assert_eq!(frames[0], format!("{}{}\n", paint(muted, 'a'), paint(muted, 'b')));
    assert_eq!(frames[1], format!("{}{}\n", paint(lit, 'a'), paint(muted, 'b')));
    assert_eq!(frames[2], format!("{}{}\n", paint(lit, 'a'), paint(lit, 'b')));
    assert_eq!(frames[6], format!("{}{}\n", paint(settled, 'a'), paint(lit, 'b')));
    assert_eq!(frames[7], format!("{}{}\n", paint(settled, 'a'), paint(settled, 'b')));
    let mut empty = Canvas::new(1, 1);
    assert_eq!(ttfx::effects::highlight::Highlight::new().frames(&mut empty, &[]), vec![" \n".to_string()]);
}

#[test]
fn burn_frames_ignite_each_column_in_turn() {
    let mut canvas = Canvas::new(2, 1);
    let finals = [Color::rgb(1, 2, 3), Color::rgb(4, 5, 6)];
    let frames = ttfx::effects::burn::Burn::new().frames(&mut canvas, &placed_row("ab"), &finals);
    let paint = |rgb: &str, ch: char| format!("\x1b[38;2;{rgb}m{ch}\x1b[0m");
    let (ember, embers_out) = ("131;115;115", "81;1;0");
    assert_eq!(frames.len(), 2 + 41 * 25 + 9 * 12 - 1);
    assert_eq!(frames[0], format!("{}{}\n", paint(embers_out, 'a'), paint(ember, 'b')));
    assert_eq!(frames[1], format!("{}{}\n", paint(embers_out, 'a'), paint(embers_out, 'b')));
    assert_eq!(frames[frames.len() - 1], format!("{}{}\n", paint("1;2;3", 'a'), paint("4;5;6", 'b')));
    assert_eq!(frames[frames.len() - 2], format!("{}{}\n", paint("1;2;3", 'a'), paint("4;5;6", 'b')));
    let mut empty = Canvas::new(1, 1);
    assert_eq!(ttfx::effects::burn::Burn::new().frames(&mut empty, &[], &[]), vec![" \n".to_string()]);
}

#[test]
fn waves_frames_roll_then_settle() {
    let mut canvas = Canvas::new(2, 1);
    let waves: Vec<Color> = (0..15u8).map(|i| Color::rgb(i, i, i)).collect();
    let finals = [Color::rgb(1, 2, 3), Color::rgb(4, 5, 6)];
    let frames = ttfx::effects::waves::Waves::new().frames(&mut canvas, &placed_row("ab"), &waves, &finals);
    let paint = |rgb: &str, ch: char| format!("\x1b[38;2;{rgb}m{ch}\x1b[0m");
    assert_eq!(frames.len(), 2 + 275);
    assert_eq!(frames[0], format!("{} \n", paint("0;0;0", '\u{2581}')));
    assert_eq!(frames[1], format!("{}{}\n", paint("0;0;0", '\u{2581}'), paint("0;0;0", '\u{2581}')));
    assert_eq!(frames[2], format!("{}{}\n", paint("1;1;1", '\u{2582}'), paint("0;0;0", '\u{2581}')));
    assert_eq!(frames[15], format!("{}{}\n", paint("7;7;7", '\u{2588}'), paint("7;7;7", '\u{2588}')));
    assert_eq!(frames[210], format!("{}{}\n", paint("255;255;255", 'a'), paint("14;14;14", '\u{2581}')));
    assert_eq!(frames[276], format!("{}{}\n", paint("1;2;3", 'a'), paint("4;5;6", 'b')));
    assert_eq!(frames[275], frames[276]);
    let mut blank = Canvas::new(1, 1);
    let spaces = ttfx::effects::waves::Waves::new().frames(&mut blank, &placed_row(" "), &waves, &[Color::rgb(0, 0, 0)]);
    assert_eq!(spaces, vec![" \n".to_string()]);
}

#[test]
fn smoke_frames_conceal_then_reveal() {
    let mut canvas = Canvas::new(1, 1);
    let frames = ttfx::effects::smoke::Smoke::new().frames(&mut canvas, &placed_row("a"), &[Color::rgb(60, 120, 180)]);
    let paint = |rgb: &str, ch: char| format!("\x1b[38;2;{rgb}m{ch}\x1b[0m");
    assert_eq!(frames.len(), 308);
    assert_eq!(frames[0], format!("{}\n", paint("129;133;150", 'a')));
    assert_eq!(frames[209], format!("{}\n", paint("42;44;56", 'a')));
    assert_eq!(frames[210], format!("{}\n", paint("50;100;150", 'a')));
    assert_eq!(frames[240], format!("{}\n", paint("0;0;0", ' ')));
    assert_eq!(frames[241], frames[240]);
    assert_eq!(frames[242], format!("{}\n", paint("0;0;0", 'a')));
    assert_eq!(frames[307], format!("{}\n", paint("60;120;180", 'a')));
    let mut empty = Canvas::new(1, 1);
    assert_eq!(ttfx::effects::smoke::Smoke::new().frames(&mut empty, &[], &[]), vec![" \n".to_string()]);
}

#[test]
fn color_from_tuple_is_rgb() {
    assert_eq!(Color::from((1u8, 2u8, 3u8)), Color::rgb(1, 2, 3));
}

#[test]
fn even_gap_takes_every_dimension() {
    assert_eq!(ttfx::effects::synthgrid::find_even_gap(i32::MAX), ttfx::effects::synthgrid::find_even_gap(i32::MAX));
    assert_eq!(ttfx::effects::synthgrid::find_even_gap(25), 6);
    assert_eq!(ttfx::effects::synthgrid::find_even_gap(81), 16);
    assert_eq!(ttfx::effects::synthgrid::find_even_gap(7), 2);
    assert_eq!(ttfx::effects::synthgrid::find_even_gap(24), 1);
}

#[test]
fn decrypt_frames_type_scramble_and_resolve() {
    let mut canvas = Canvas::new(2, 1);
    let finals = [Color::rgb(1, 2, 3), Color::rgb(4, 5, 6)];
    let seed = seed_from("ab");
    let frames = ttfx::effects::decrypt::Decrypt::new().frames(&mut canvas, &placed_row("ab"), &finals, seed);
    let paint = |rgb: &str, ch: char| format!("\x1b[38;2;{rgb}m{ch}\x1b[0m");
    assert!(frames.len() >= 2 + 40 + 60 + 168 && frames.len() <= 2 + 40 + 300 + 168);
    assert!(frames[0].ends_with(" \n"));
    assert_eq!(frames[frames.len() - 1], format!("{}{}\n", paint("1;2;3", 'a'), paint("4;5;6", 'b')));
    let again = ttfx::effects::decrypt::Decrypt::new().frames(&mut Canvas::new(2, 1), &placed_row("ab"), &finals, seed);
    assert_eq!(frames, again);
    let mut empty = Canvas::new(1, 1);
    assert_eq!(ttfx::effects::decrypt::Decrypt::new().frames(&mut empty, &[], &[], 7), vec![" \n".to_string()]);
}

#[test]
fn overflow_frames_settle_then_hold() {
    let mut canvas = Canvas::new(2, 3);
    let finals = [Color::rgb(1, 2, 3), Color::rgb(4, 5, 6)];
    let frames = ttfx::effects::overflow::Overflow::new().frames(&mut canvas, &placed_row("ab"), &finals, 42);
    let paint = |rgb: &str, ch: char| format!("\x1b[38;2;{rgb}m{ch}\x1b[0m");
    let settled = format!("  \n  \n{}{}\n", paint("1;2;3", 'a'), paint("4;5;6", 'b'));
    assert!(frames.len() > 8);
    for frame in &frames[frames.len() - 8..] {
        assert_eq!(frame, &settled);
    }
    let again = ttfx::effects::overflow::Overflow::new().frames(&mut Canvas::new(2, 3), &placed_row("ab"), &finals, 42);
    assert_eq!(frames, again);
    let mut empty = Canvas::new(1, 1);
    assert_eq!(ttfx::effects::overflow::Overflow::new().frames(&mut empty, &[], &[], 1), vec![" \n".to_string()]);
}

#[test]
fn laseretch_frames_trace_and_cool() {
    let mut canvas = Canvas::new(3, 1);
    let frames = ttfx::effects::laseretch::Laseretch::new().frames(&mut canvas, &placed_row("a"), &[Color::rgb(1, 2, 3)]);
    let paint = |rgb: &str, ch: char| format!("\x1b[38;2;{rgb}m{ch}\x1b[0m");
    assert_eq!(frames.len(), 34);
    assert_eq!(frames[0], format!("{}\u{b7}\u{b7}\n", paint("230;62;49", 'a')));
    assert_eq!(frames[1], format!("{} *\n", paint("230;62;49", 'a')));
    assert_eq!(frames[26], format!("{}  \n", paint("1;2;3", 'a')));
    assert_eq!(frames[33], frames[26]);
    let mut blank = Canvas::new(1, 1);
    let spaces = ttfx::effects::laseretch::Laseretch::new().frames(&mut blank, &placed_row(" "), &[Color::rgb(1, 2, 3)]);
    assert_eq!(spaces, vec![format!("{}\n", paint("1;2;3", ' '))]);
    let mut empty = Canvas::new(1, 1);
    assert_eq!(ttfx::effects::laseretch::Laseretch::new().frames(&mut empty, &[], &[]), vec![" \n".to_string()]);
}

#[test]
fn matrix_frames_rain_pause_resolve_hold() {
    let mut canvas = Canvas::new(1, 2);
    let column = RainColumn {
        column: 1,
        head: 3,
        start_delay: 0,
        fall_delay: 0,
        fall_wait: 0,
        trail: 4,
        cycles_left: 1,
        done: false,
    };
    let trail = [Color::rgb(9, 9, 9), Color::rgb(0, 1, 0), Color::rgb(0, 2, 0), Color::rgb(0, 3, 0)];
    let scramble = Color::rgb(7, 7, 7);
    let highlight = Color::rgb(242, 242, 48);
    let frames = Matrix::new().frames(&mut canvas, &placed_row("a"), &[column], 7, &trail, scramble, highlight);
    let paint = |rgb: &str, ch: char| format!("\x1b[38;2;{rgb}m{ch}\x1b[0m");
    assert_eq!(frames.len(), 36);
    assert_eq!(frames[0], " \n \n");
    assert_eq!(frames[1], format!(" \n{}\n", paint("242;242;48", '9')));
    assert_eq!(frames[2], format!(" \n{}\n", paint("0;1;0", '3')));
    for frame in &frames[5..14] {
        assert_eq!(frame, " \n \n");
    }
    assert_eq!(frames[14], format!(" \n{}\n", paint("7;7;7", '\u{ff80}')));
    for frame in &frames[19..] {
        assert_eq!(frame, " \na\n");
    }
    let again = Matrix::new().frames(&mut Canvas::new(1, 2), &placed_row("a"), &[column], 7, &trail, scramble, highlight);
    assert_eq!(frames, again);
    let mut empty = Canvas::new(1, 1);
    assert_eq!(Matrix::new().frames(&mut empty, &[], &[], 1, &[], scramble, highlight), vec![" \n".to_string()]);
}

#[test]
fn vhstape_frames_glitch_then_settle() {
    let mut canvas = Canvas::new(4, 1);
    let finals = [Color::rgb(1, 2, 3), Color::rgb(4, 5, 6)];
    let frames = Vhstape::new().frames(&mut canvas, &placed_row("ab"), &finals, 99);
    let paint = |rgb: &str, ch: char| format!("\x1b[38;2;{rgb}m{ch}\x1b[0m");
    let settled = format!("{}{}  \n", paint("1;2;3", 'a'), paint("4;5;6", 'b'));
    assert_eq!(frames.len(), 1006);
    for frame in &frames[1000..] {
        assert_eq!(frame, &settled);
    }
    assert!(frames[..1000].iter().any(|f| !f.starts_with('\x1b')));
    let again = Vhstape::new().frames(&mut Canvas::new(4, 1), &placed_row("ab"), &finals, 99);
    assert_eq!(frames, again);
    assert!(Vhstape::new().frames(&mut Canvas::new(1, 1), &[], &[], 99).is_empty());
}

#[test]
fn sweep_frames_bar_then_text() {
    let trail: Vec<Color> = (0..7u8).map(|d| Color::rgb(10 + d, 0, 0)).collect();
    let mut canvas = Canvas::new(3, 1);
    let frames = ttfx::effects::sweep::Sweep::new().frames(&mut canvas, &placed_row("ab"), &trail);
    assert_eq!(frames.len(), 20);
    assert_eq!(frames[0], "   \n");
    assert_eq!(frames[1], "\x1b[38;2;10;0;0ma\x1b[0m  \n");
    assert_eq!(frames[2], "\x1b[38;2;11;0;0ma\x1b[0m\x1b[38;2;10;0;0mb\x1b[0m \n");
    for frame in &frames[9..] {
        assert_eq!(frame, "ab \n");
    }
    let mut empty = Canvas::new(1, 1);
    assert_eq!(ttfx::effects::sweep::Sweep::new().frames(&mut empty, &[], &trail), vec![" \n".to_string()]);
}

#[test]
fn wipe_frames_fade_in_column_by_column() {
    let finals = [Color::rgb(120, 60, 240), Color::rgb(24, 48, 96)];
    let mut canvas = Canvas::new(2, 1);
    let frames = ttfx::effects::wipe::Wipe::new().frames(&mut canvas, &placed_row("ab"), &finals);
    let paint = |rgb: &str, ch: char| format!("\x1b[38;2;{rgb}m{ch}\x1b[0m");
    assert_eq!(frames.len(), 66);
    assert_eq!(frames[0], format!("{} \n", paint("0;0;0", 'a')));
    assert_eq!(frames[1], format!("{}{}\n", paint("0;0;0", 'a'), paint("0;0;0", 'b')));
    assert_eq!(frames[65], format!("{}{}\n", paint("120;60;240", 'a'), paint("24;48;96", 'b')));
    assert!(ttfx::effects::wipe::Wipe::new().frames(&mut Canvas::new(1, 1), &[], &[]).is_empty());
}

#[test]
fn thunderstorm_frames_storm_then_settle() {
    let storm = ttfx::effects::thunderstorm::Thunderstorm::new();
    let placed = placed_row("ab");
    let glow: Vec<Vec<Color>> = (0..2).map(|_| (0..11).map(|f| Color::rgb(255, 255, 20 * f as u8)).collect()).collect();
    let settled = [Color::rgb(10, 20, 30), Color::rgb(40, 50, 60)];
    let bolts = [Color::rgb(255, 255, 255), Color::rgb(200, 200, 100)];
    let run = |seed: u32| storm.frames(&mut Canvas::new(3, 1), &placed, seed, &glow, &settled, &bolts);
    let frames = run(7);
    // One row: a storm of 8 + 100 frames, then the settled text held for 18 frames.
    assert_eq!(frames.len(), 108 + 18);
    let calm = |rgb: &str, ch: char| format!("\x1b[38;2;{rgb}m\x1b[38;2;{rgb}m{ch}\x1b[0m\x1b[0m");
    let settled_row = format!("{}{} \n", calm("10;20;30", 'a'), calm("40;50;60", 'b'));
    for k in 108..126 {
        assert_eq!(frames[k], settled_row);
    }
    assert!(frames[..108].iter().all(|f| f.ends_with('\n')));
    assert_eq!(frames, run(7));
    let other = run(8);
    assert_eq!(other.len(), 126);
    assert_eq!(other[125], settled_row);
}
