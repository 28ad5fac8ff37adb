use bracket_lib::terminal::VirtualKeyCode;
use pirate_sim::helpers::RectDimension;
use pirate_sim::render::{
    string_to_frame, Color, Frame, OffsetX, OffsetY, Placement, RenderEffect, RenderPacket,
    RenderTick, Renderer, Tile, GUI,
};

fn lettered_frame(text: &str, w: u8, h: u8) -> Frame {
    let mut frame = string_to_frame(text.to_string());
    frame.dimensions = RectDimension::new(w, h);
    frame
}

fn overlay(text: &str) -> Option<GUI> {
    Some(GUI {
        offset: (OffsetX::Left(0), OffsetY::Above(1)),
        to_render: Some(string_to_frame(text.to_string())),
    })
}

#[test]
fn a_short_string_is_one_line_of_three_rows() {
    let frame = string_to_frame("Seed: 42".to_string());
    assert_eq!(frame.dimensions, RectDimension::new(8, 3));
    assert_eq!(frame.to_render.len(), 8);
    let glyphs: String = frame.to_render.iter().map(|t| t.glyph()).collect();
    assert_eq!(glyphs, "Seed: 42");
    for tile in &frame.to_render {
        assert_eq!(tile.fg(), Color::white());
        assert_eq!(tile.bg(), Color::black());
    }
    assert_eq!(string_to_frame(String::new()).dimensions, RectDimension::new(0, 3));
    assert_eq!(string_to_frame("x".repeat(100)).dimensions, RectDimension::new(100, 3));
}

#[test]
fn a_long_string_is_cut_into_lines_of_a_hundred() {
    assert_eq!(string_to_frame("x".repeat(101)).dimensions, RectDimension::new(100, 1));
    assert_eq!(string_to_frame("x".repeat(199)).dimensions, RectDimension::new(100, 1));
    assert_eq!(string_to_frame("x".repeat(200)).dimensions, RectDimension::new(100, 2));
    assert_eq!(string_to_frame("x".repeat(1234)).dimensions, RectDimension::new(100, 12));
    assert_eq!(string_to_frame("x".repeat(1234)).to_render.len(), 1234);
    // the number of rows is cut to a byte
    assert_eq!(string_to_frame("x".repeat(25_600)).dimensions, RectDimension::new(100, 0));
}

#[test]
fn the_dimensions_go_by_bytes_and_the_tiles_by_characters() {
    let frame = string_to_frame("åäö".to_string());
    assert_eq!(frame.dimensions, RectDimension::new(6, 3));
    assert_eq!(frame.to_render.len(), 3);
    assert_eq!(frame.to_render[2].glyph(), 'ö');
}

#[test]
fn a_tile_keeps_its_character_and_colours() {
    let red = Color { r: 255, g: 0, b: 0, a: 255 };
    let tile = Tile::new('#', red, Color::black());
    assert_eq!(tile.glyph(), '#');
    assert_eq!(tile.fg(), red);
    assert_eq!(tile.bg(), Color { r: 0, g: 0, b: 0, a: 255 });
    assert_eq!(Color::white(), Color { r: 255, g: 255, b: 255, a: 255 });
}

#[test]
fn a_blank_renderer_shows_nothing() {
    let renderer = Renderer::new_blank(RectDimension::new(30, 10));
    assert_eq!(renderer.frame().dimensions, RectDimension::new(30, 10));
    assert!(renderer.frame().to_render.is_empty());
    assert!(!renderer.should_rerender());
    assert!(renderer.guis().is_empty());
    assert!(Frame::new(RectDimension::new(2, 2)).to_render.is_empty());
}

#[test]
fn a_new_frame_replaces_the_old_one() {
    let mut renderer = Renderer::new_blank(RectDimension::new(30, 10));
    let effect = renderer.handle_packet(RenderPacket::NewFrame(lettered_frame("abcd", 2, 2)));
    assert!(matches!(effect, RenderEffect::Nothing));
    assert!(renderer.should_rerender());
    assert_eq!(renderer.frame().dimensions, RectDimension::new(2, 2));
    assert_eq!(renderer.frame().to_render.len(), 4);
}

#[test]
fn a_change_of_size_is_handed_on() {
    let mut renderer = Renderer::new_blank(RectDimension::new(30, 10));
    match renderer.handle_packet(RenderPacket::ChangeSize(RectDimension::new(80, 25))) {
        RenderEffect::Resize(size) => assert_eq!(size, RectDimension::new(80, 25)),
        _ => panic!("a change of size asks for a resize"),
    }
    assert!(!renderer.should_rerender());
    assert_eq!(renderer.frame().dimensions, RectDimension::new(30, 10));
}

#[test]
fn overlays_get_their_ids_in_the_order_of_their_registration() {
    let mut renderer = Renderer::new_blank(RectDimension::new(30, 10));
    assert_eq!(renderer.register_gui(4, None), 0);
    assert!(!renderer.should_rerender());
    match renderer.handle_packet(RenderPacket::RegisterGUI(2, overlay("title"))) {
        RenderEffect::Reply(RenderTick::RegisteredGUI(priority, id)) => {
            assert_eq!((priority, id), (2, 1));
        }
        _ => panic!("a registration is answered with the id"),
    }
    assert!(renderer.should_rerender());
    match renderer.handle_packet(RenderPacket::RegisterGUIs(
        0,
        vec![overlay("Generating world!"), None, overlay("Seed: 42")],
    )) {
        RenderEffect::Reply(RenderTick::RegisteredGUIs(priority, ids)) => {
            assert_eq!(priority, 0);
            assert_eq!(ids, vec![2, 3, 4]);
        }
        _ => panic!("a registration is answered with the ids"),
    }
    assert_eq!(renderer.guis().len(), 5);
    let priorities: Vec<u8> = renderer.guis().iter().map(|g| g.0).collect();
    assert_eq!(priorities, vec![4, 2, 0, 0, 0]);
    assert!(renderer.guis()[3].1.is_none());
    assert!(renderer.guis()[4].1.is_some());
    match renderer.handle_packet(RenderPacket::RegisterGUIs(9, vec![])) {
        RenderEffect::Reply(RenderTick::RegisteredGUIs(9, ids)) => assert!(ids.is_empty()),
        _ => panic!("a registration is answered with the ids"),
    }
}

#[test]
fn overlays_without_a_frame_leave_the_screen_as_it_is() {
    let mut renderer = Renderer::new_blank(RectDimension::new(30, 10));
    renderer.handle_packet(RenderPacket::RegisterGUIs(1, vec![None, None]));
    assert!(!renderer.should_rerender());
    assert_eq!(renderer.guis().len(), 2);
}

#[test]
fn the_update_of_an_overlay_is_not_implemented() {
    let mut renderer = Renderer::new_blank(RectDimension::new(30, 10));
    renderer.register_gui(1, overlay("title"));
    let effect = renderer
        .handle_packet(RenderPacket::UpdateGUI { id: 0, update: lettered_frame("new", 3, 1) });
    assert!(matches!(effect, RenderEffect::NotImplemented));
    assert_eq!(renderer.guis().len(), 1);
    assert_eq!(renderer.guis()[0].1.as_ref().unwrap().to_render.as_ref().unwrap().to_render.len(), 5);
}

#[test]
fn overlays_are_drawn_by_priority_and_then_by_age() {
    let mut renderer = Renderer::new_blank(RectDimension::new(30, 10));
    for priority in [5u8, 1, 3, 1, 5, 0, 3] {
        renderer.register_gui(priority, None);
    }
    assert_eq!(renderer.draw_order(), vec![5, 1, 3, 2, 6, 0, 4]);
    assert_eq!(Renderer::new_blank(RectDimension::new(1, 1)).draw_order(), Vec::<usize>::new());
}

#[test]
fn tiles_are_placed_row_by_row_from_the_start_point() {
    let renderer = Renderer::new_blank(RectDimension::new(30, 10));
    let frame = lettered_frame("abcdef", 3, 2);
    let tiles = renderer.render_frame(&frame, (30, 10), (4, 2));
    let places: Vec<(usize, usize, char)> = tiles.iter().map(|p| (p.x, p.y, p.tile.glyph())).collect();
    assert_eq!(
        places,
        vec![(4, 2, 'a'), (5, 2, 'b'), (6, 2, 'c'), (4, 3, 'd'), (5, 3, 'e'), (6, 3, 'f')]
    );
    assert_eq!(
        tiles[0],
        Placement { x: 4, y: 2, tile: Tile::new('a', Color::white(), Color::black()), glyph: 97 }
    );
}

#[test]
fn each_tile_is_placed_with_its_number_in_the_code_page() {
    let renderer = Renderer::new_blank(RectDimension::new(30, 10));
    let frame = lettered_frame("~^☺♥░é€", 7, 1);
    let glyphs: Vec<u16> =
        renderer.render_frame(&frame, (30, 10), (0, 0)).iter().map(|p| p.glyph).collect();
    // a character without a place in the code page gets the number 0
    assert_eq!(glyphs, vec![126, 94, 1, 3, 176, 130, 0]);
}

#[test]
fn placing_stops_at_the_first_tile_that_does_not_fit() {
    let renderer = Renderer::new_blank(RectDimension::new(30, 10));
    let frame = lettered_frame("abcdef", 3, 2);
    // the column just beyond the screen still counts
    assert_eq!(renderer.render_frame(&frame, (2, 10), (0, 0)).len(), 6);
    assert_eq!(renderer.render_frame(&frame, (1, 10), (0, 0)).len(), 2);
    assert_eq!(renderer.render_frame(&frame, (30, 0), (0, 0)).len(), 3);
    assert_eq!(renderer.render_frame(&frame, (30, 10), (29, 0)).len(), 2);
    assert_eq!(renderer.render_frame(&frame, (30, 10), (0, 11)).len(), 0);
    // a frame with more tiles than cells is placed as far as its cells go
    let crowded = lettered_frame("abcdefgh", 3, 2);
    assert_eq!(renderer.render_frame(&crowded, (30, 10), (0, 0)).len(), 6);
    assert_eq!(renderer.render_frame(&lettered_frame("ab", 0, 0), (30, 10), (0, 0)).len(), 0);
}

#[test]
fn a_tick_tells_of_the_window_and_takes_in_the_packet() {
    let mut renderer = Renderer::new_blank(RectDimension::new(30, 10));
    let plan = renderer.tick(false, None, None, (30, 10));
    assert!(plan.to_send.is_empty());
    assert!(matches!(plan.effect, RenderEffect::Nothing));
    assert!(plan.redraw.is_none());

    let plan = renderer.tick(
        true,
        Some(VirtualKeyCode::A),
        Some(RenderPacket::NewFrame(lettered_frame("abcd", 2, 2))),
        (30, 10),
    );
    assert_eq!(plan.to_send.len(), 2);
    assert!(matches!(plan.to_send[0], RenderTick::LoopClosed));
    assert!(matches!(plan.to_send[1], RenderTick::Key(VirtualKeyCode::A)));
    assert!(matches!(plan.effect, RenderEffect::Nothing));
    let redraw = plan.redraw.unwrap();
    assert_eq!(redraw.tiles.len(), 4);
    assert_eq!((redraw.tiles[3].x, redraw.tiles[3].y), (1, 1));
    assert!(redraw.overlays.is_empty());
    assert!(!renderer.should_rerender());

    // nothing new: nothing to redraw
    let plan = renderer.tick(false, Some(VirtualKeyCode::Escape), None, (30, 10));
    assert_eq!(plan.to_send.len(), 1);
    assert!(matches!(plan.to_send[0], RenderTick::Key(VirtualKeyCode::Escape)));
    assert!(plan.redraw.is_none());
}

#[test]
fn a_tick_answers_a_registration_and_redraws_with_the_overlays() {
    let mut renderer = Renderer::new_blank(RectDimension::new(30, 10));
    let plan = renderer.tick(
        false,
        None,
        Some(RenderPacket::RegisterGUIs(3, vec![overlay("a"), overlay("b")])),
        (30, 10),
    );
    match plan.effect {
        RenderEffect::Reply(RenderTick::RegisteredGUIs(3, ids)) => assert_eq!(ids, vec![0, 1]),
        _ => panic!("a registration is answered with the ids"),
    }
    assert_eq!(plan.redraw.unwrap().overlays, vec![0, 1]);
    let plan = renderer.tick(false, None, Some(RenderPacket::RegisterGUI(1, overlay("c"))), (30, 10));
    assert_eq!(plan.redraw.unwrap().overlays, vec![2, 0, 1]);
    let plan = renderer.tick(
        false,
        None,
        Some(RenderPacket::UpdateGUI { id: 0, update: lettered_frame("z", 1, 1) }),
        (30, 10),
    );
    assert!(matches!(plan.effect, RenderEffect::NotImplemented));
    assert!(plan.redraw.is_none());
    let plan = renderer.tick(
        false,
        None,
        Some(RenderPacket::ChangeSize(RectDimension::new(9, 9))),
        (30, 10),
    );
    assert!(matches!(plan.effect, RenderEffect::Resize(_)));
}

#[test]
fn an_overlay_starts_so_far_from_its_edges() {
    let frame = RectDimension::new(10, 3);
    let at = |x, y| GUI { offset: (x, y), to_render: None }.origin(frame, (80, 25));
    assert_eq!(at(OffsetX::Left(0), OffsetY::Above(1)), Some((0, 1)));
    assert_eq!(at(OffsetX::Left(7), OffsetY::Below(1)), Some((7, 21)));
    assert_eq!(at(OffsetX::Righ(0), OffsetY::Below(0)), Some((70, 22)));
    assert_eq!(at(OffsetX::Righ(70), OffsetY::Above(0)), Some((0, 0)));
    assert_eq!(at(OffsetX::Righ(71), OffsetY::Above(0)), None);
    assert_eq!(at(OffsetX::Left(-1), OffsetY::Above(0)), None);
    assert_eq!(at(OffsetX::Left(0), OffsetY::Below(-1)), None);
    assert_eq!(at(OffsetX::Left(0), OffsetY::Below(23)), None);
    let wide = GUI { offset: (OffsetX::Righ(0), OffsetY::Above(0)), to_render: None };
    assert_eq!(wide.origin(frame, (300, 25)), None);
    assert_eq!(wide.origin(frame, (265, 25)), Some((255, 0)));
}
