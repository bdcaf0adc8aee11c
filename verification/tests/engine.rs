use ttfx::animation::{Animation, AnimationError, CharacterVisual, Scene};
use ttfx::canvas::Canvas;
use ttfx::character::CharacterId;
use ttfx::geometry::Coord;
use ttfx::graphics::{Color, ColorPair, Gradient};
use ttfx::terminal::{
    apply_sgr, layout_text, link_neighbors, parse_ansi_text, parse_csi_params, text_origin, wrap_parsed_lines,
    Anchor, LayoutConfig, StyleState,
};

fn c(column: i32, row: i32) -> Coord {
    Coord::new(column, row)
}

#[test]
fn plain_visual_formats_as_its_symbol() {
    let v = CharacterVisual::new("a", None);
    assert_eq!(v.format_symbol(), "a");
    assert_eq!(v.formatted_symbol, "a");
}

#[test]
fn colored_visual_wraps_symbol_in_sgr() {
    let v = CharacterVisual::new("a", Some(ColorPair::fg(Color::rgb(255, 0, 0))));
    assert_eq!(v.format_symbol(), "\x1b[38;2;255;0;0ma\x1b[0m");
    let mut bold = CharacterVisual::new("b", None);
    bold.bold = true;
    bold.refresh();
    assert_eq!(bold.formatted_symbol, "\x1b[1mb\x1b[0m");
}

#[test]
fn animation_errors_have_messages() {
    assert!(!AnimationError::SceneNotFound("intro".to_string()).message().is_empty());
}

#[test]
fn canvas_put_then_get_and_render() {
    let mut canvas = Canvas::new(3, 2);
    assert_eq!(canvas.render(), "   \n   \n");
    canvas.put(c(2, 1), CharacterVisual::new("x", None));
    assert_eq!(canvas.get(c(2, 1)).unwrap().visual.symbol, "x");
    assert_eq!(canvas.get(c(1, 1)).unwrap().visual.symbol, " ");
    assert!(canvas.get(c(4, 1)).is_none());
    assert_eq!(canvas.render(), "   \n x \n");
    canvas.put(c(9, 9), CharacterVisual::new("y", None));
    assert_eq!(canvas.render(), "   \n x \n");
    canvas.clear();
    assert_eq!(canvas.render(), "   \n   \n");
}

#[test]
fn canvas_center_and_contains() {
    let canvas = Canvas::new(80, 24);
    assert_eq!(canvas.center(), c(40, 12));
    assert!(canvas.contains(c(1, 1)));
    assert!(canvas.contains(c(80, 24)));
    assert!(!canvas.contains(c(0, 1)));
    assert!(!canvas.contains(c(81, 24)));
}

#[test]
fn csi_params_parse_with_defaults() {
    assert_eq!(parse_csi_params("1;31"), vec![1, 31]);
    assert_eq!(parse_csi_params(""), vec![0]);
    assert_eq!(parse_csi_params("38;5;196"), vec![38, 5, 196]);
}

#[test]
fn sgr_sets_and_resets_style() {
    let mut s = StyleState::plain();
    apply_sgr(&mut s, &[1, 31]);
    assert!(s.bold);
    assert_eq!(s.fg, Some(Color::rgb(128, 0, 0)));
    apply_sgr(&mut s, &[38, 2, 1, 2, 3]);
    assert_eq!(s.fg, Some(Color::rgb(1, 2, 3)));
    apply_sgr(&mut s, &[0]);
    assert_eq!(s, StyleState::plain());
}

#[test]
fn ansi_text_splits_lines_and_expands_tabs() {
    let lines = parse_ansi_text("a\tb\r\ncd", 4);
    assert_eq!(lines.len(), 2);
    let first: String = lines[0].iter().map(|cell| cell.ch).collect();
    assert_eq!(first, "a   b");
    let second: String = lines[1].iter().map(|cell| cell.ch).collect();
    assert_eq!(second, "cd");
}

#[test]
fn ansi_text_keeps_styles_and_drops_escapes() {
    let lines = parse_ansi_text("\x1b[31mr\x1b[0mn", 4);
    assert_eq!(lines.len(), 1);
    assert_eq!(lines[0].len(), 2);
    assert_eq!(lines[0][0].ch, 'r');
    assert_eq!(lines[0][0].style.fg, Some(Color::rgb(128, 0, 0)));
    assert_eq!(lines[0][1].style, StyleState::plain());
}

#[test]
fn wrapping_splits_long_lines() {
    let lines = parse_ansi_text("abcde", 4);
    let wrapped = wrap_parsed_lines(lines, 2);
    let texts: Vec<String> = wrapped.iter().map(|l| l.iter().map(|cell| cell.ch).collect()).collect();
    assert_eq!(texts, vec!["ab".to_string(), "cd".to_string(), "e".to_string()]);
}

#[test]
fn text_is_centered_on_the_canvas() {
    let canvas = Canvas::new(10, 4);
    assert_eq!(text_origin(&canvas, 2, 2, Anchor::Center), c(5, 2));
    assert_eq!(text_origin(&canvas, 2, 2, Anchor::Sw), c(1, 1));
    assert_eq!(text_origin(&canvas, 2, 2, Anchor::Ne), c(9, 3));
}

#[test]
fn layout_places_characters_in_reading_order() {
    let (canvas, chars) = layout_text("ab\ncd", &LayoutConfig::default(), 10, 4);
    assert_eq!((canvas.width, canvas.height), (10, 4));
    let placed: Vec<(u32, String, Coord)> = chars.iter().map(|p| (p.id.0, p.symbol.clone(), p.coord)).collect();
    assert_eq!(
        placed,
        vec![
            (0, "a".to_string(), c(5, 3)),
            (1, "b".to_string(), c(6, 3)),
            (2, "c".to_string(), c(5, 2)),
            (3, "d".to_string(), c(6, 2)),
        ]
    );
    assert_eq!(chars[0].neighbors.right, Some(CharacterId(1)));
    assert_eq!(chars[0].neighbors.below, Some(CharacterId(2)));
    assert_eq!(chars[3].neighbors.above, Some(CharacterId(1)));
}

#[test]
fn neighbors_link_adjacent_cells() {
    let coords = [c(1, 1), c(2, 1), c(1, 2)];
    let ids = [CharacterId(0), CharacterId(1), CharacterId(2)];
    let n = link_neighbors(&coords, &ids);
    assert_eq!(n[0].right, Some(CharacterId(1)));
    assert_eq!(n[0].above, Some(CharacterId(2)));
    assert_eq!(n[1].left, Some(CharacterId(0)));
    assert_eq!(n[2].below, Some(CharacterId(0)));
    assert_eq!(n[1].above, None);
}

#[test]
fn compose_draws_later_sprites_over_earlier_ones() {
    let mut canvas = Canvas::new(3, 2);
    canvas.put(c(1, 2), CharacterVisual::new("z", None));
    let sprites = vec![
        (c(2, 1), CharacterVisual::new("a", None)),
        (c(2, 1), CharacterVisual::new("b", None)),
        (c(3, 2), CharacterVisual::new("c", None)),
        (c(7, 7), CharacterVisual::new("d", None)),
    ];
    assert_eq!(canvas.compose(&sprites), "  c\n b \n");
    assert_eq!(canvas.compose(&[]), "   \n   \n");
}

#[test]
fn scene_plays_frames_for_their_durations() {
    let mut scene = Scene::new("s");
    assert_eq!(scene.scene_id, "s");
    scene.add_frame("a", 2, None);
    scene.add_frame("b", 0, None);
    assert_eq!(scene.frames[1].duration, 1);
    assert_eq!(scene.current_visual().unwrap().symbol, "a");
    scene.advance();
    assert_eq!(scene.current_frame_index, 0);
    scene.advance();
    assert_eq!(scene.current_frame_index, 1);
    assert!(!scene.complete);
    scene.advance();
    assert!(scene.complete);
    assert_eq!(scene.current_frame_index, 1);
    scene.is_looping = true;
    scene.advance();
    assert_eq!(scene.current_frame_index, 0);
    assert!(!scene.complete);
    scene.reset();
    assert_eq!(scene.current_frame_index, 0);
    assert!(!scene.complete);
}

#[test]
fn empty_scene_completes() {
    let mut scene = Scene::new("empty");
    scene.advance();
    assert!(scene.complete);
    assert!(scene.current_visual().is_none());
    let mut other = Scene::new("other");
    assert_eq!(other.advance_eased(), None);
    assert!(other.complete);
}

#[test]
fn eased_scene_reports_elapsed_and_total() {
    let mut scene = Scene::new("e");
    scene.add_frame("a", 2, None);
    scene.add_frame("b", 2, None);
    assert_eq!(scene.advance_eased(), Some((1, 4)));
    scene.show_frame(9);
    assert_eq!(scene.current_frame_index, 1);
    assert_eq!(scene.advance_eased(), Some((2, 4)));
    assert_eq!(scene.advance_eased(), Some((3, 4)));
    assert_eq!(scene.advance_eased(), None);
    assert!(scene.complete);
    assert_eq!(scene.elapsed, 4);
    let mut looping = Scene::new("l");
    looping.add_frame("x", 1, None);
    looping.is_looping = true;
    assert_eq!(looping.advance_eased(), Some((0, 1)));
    assert!(!looping.complete);
}

#[test]
fn gradient_frames_cycle_symbols() {
    let mut scene = Scene::new("g");
    let gradient = Gradient::new(&[Color::rgb(0, 0, 0), Color::rgb(255, 255, 255)], 2);
    scene.apply_gradient_to_symbols(&gradient, "ab", 3);
    let n = gradient.spectrum().len();
    assert_eq!(scene.frames.len(), n);
    assert_eq!(scene.frames[0].character_visual.symbol, "a");
    assert_eq!(scene.frames[1].character_visual.symbol, "b");
    assert_eq!(scene.frames[2].character_visual.symbol, "a");
    assert_eq!(scene.frames[0].duration, 3);
    assert_eq!(scene.frames[2].character_visual.colors, Some(ColorPair::fg(Color::rgb(255, 255, 255))));
}

#[test]
fn scene_completes_after_the_sum_of_its_durations() {
    let mut scene = Scene::new("t");
    scene.add_frame("a", 2, None);
    scene.add_frame("b", 3, None);
    for tick in 0..4 {
        scene.advance();
        assert!(!scene.complete, "complete too early at tick {tick}");
    }
    scene.advance();
    assert!(scene.complete);
    assert_eq!(scene.current_frame_index, 1);
}

#[test]
fn reset_forgets_the_earlier_style() {
    let mut a = StyleState::plain();
    apply_sgr(&mut a, &[1, 4, 32, 44]);
    let mut b = StyleState::plain();
    apply_sgr(&mut a, &[0, 3, 35]);
    apply_sgr(&mut b, &[0, 3, 35]);
    assert_eq!(a, b);
    assert!(a.italic && !a.bold && !a.underline);
    assert_eq!(a.bg, None);
}

#[test]
fn wrapping_keeps_every_cell_in_order() {
    let lines = parse_ansi_text("abcdefg\n\nhi", 4);
    let wrapped = wrap_parsed_lines(lines, 3);
    let texts: Vec<String> = wrapped.iter().map(|l| l.iter().map(|cell| cell.ch).collect()).collect();
    assert_eq!(texts, vec!["abc", "def", "g", "", "hi"]);
    assert!(wrapped.iter().all(|l| l.len() <= 3));
}

#[test]
fn animation_keeps_one_scene_per_id() {
    let mut anim = Animation::new("x");
    assert_eq!(anim.current_character_visual.symbol, "x");
    let a = anim.new_scene("a");
    let b = anim.new_scene("b");
    assert_eq!(anim.new_scene("a"), a);
    assert_ne!(a, b);
    assert_eq!(anim.scenes.len(), 2);
    assert!(anim.query_scene("b").is_ok());
    match anim.query_scene("zz") {
        Err(e) => assert_eq!(e.message(), "scene 'zz' not found"),
        Ok(_) => panic!("unknown scene found"),
    }
}

#[test]
fn animation_plays_its_active_scene() {
    let mut anim = Animation::new("x");
    let i = anim.new_scene("s");
    anim.scenes[i].add_frame("a", 1, None);
    anim.scenes[i].add_frame("b", 1, None);
    anim.activate_scene("nope");
    assert!(!anim.is_active());
    anim.activate_scene("s");
    assert!(anim.is_active());
    assert_eq!(anim.current_character_visual.symbol, "a");
    assert_eq!(anim.step_animation(false), None);
    assert_eq!(anim.current_character_visual.symbol, "b");
    assert!(anim.is_active());
    assert_eq!(anim.step_animation(false), None);
    assert!(!anim.is_active());
    assert!(anim.active_scene_is_complete());
    anim.set_appearance("q", None);
    assert_eq!(anim.current_character_visual.symbol, "q");
}

#[test]
fn eased_animation_hands_the_frame_choice_back() {
    let mut anim = Animation::new("x");
    let i = anim.new_scene("e");
    anim.scenes[i].add_frame("a", 2, None);
    anim.scenes[i].add_frame("b", 2, None);
    anim.activate_scene("e");
    assert_eq!(anim.step_animation(true), Some((1, 4)));
    anim.show_eased_frame(1);
    assert_eq!(anim.current_character_visual.symbol, "b");
    assert!(anim.is_active());
    anim.deactivate_scene();
    assert!(!anim.is_active());
    assert_eq!(anim.step_animation(true), None);
}

#[test]
fn cleared_canvas_renders_spaces_and_get_sees_last_put() {
    let mut canvas = Canvas::new(3, 2);
    canvas.put(c(1, 1), CharacterVisual::new("a", None));
    canvas.put(c(2, 2), CharacterVisual::new("b", None));
    canvas.clear();
    assert_eq!(canvas.render(), "   \n   \n");
    canvas.clear();
    assert_eq!(canvas.render(), "   \n   \n");
    canvas.put(c(3, 1), CharacterVisual::new("x", None));
    canvas.put(c(3, 1), CharacterVisual::new("y", None));
    assert_eq!(canvas.get(c(3, 1)).unwrap().visual.symbol, "y");
    assert_eq!(canvas.get(c(1, 1)).unwrap().visual.symbol, " ");
    assert!(canvas.get(c(4, 1)).is_none());
}

#[test]
fn scene_plays_each_frame_for_its_duration_then_stays_complete() {
    let mut scene = Scene::new("s");
    scene.add_frame("a", 2, None);
    scene.add_frame("b", 0, None);
    scene.add_frame("c", 3, None);
    let mut shown = Vec::new();
    for _ in 0..8 {
        shown.push((scene.current_visual().unwrap().symbol.clone(), scene.complete));
        scene.advance();
    }
    let expect = [("a", false), ("a", false), ("b", false), ("c", false), ("c", false), ("c", false), ("c", true), ("c", true)];
    for (got, want) in shown.iter().zip(expect.iter()) {
        assert_eq!((got.0.as_str(), got.1), *want);
    }
}

#[test]
fn layout_then_render_shows_the_text() {
    let (mut canvas, chars) = layout_text("ab\ncd", &LayoutConfig::default(), 10, 4);
    let sprites: Vec<(Coord, CharacterVisual)> = chars.iter().map(|p| (p.coord, p.visual.clone())).collect();
    let blank = " ".repeat(10);
    assert_eq!(canvas.compose(&sprites), format!("{blank}\n    ab    \n    cd    \n{blank}\n"));
    canvas.clear();
    assert_eq!(canvas.render(), format!("{blank}\n").repeat(4));
}
