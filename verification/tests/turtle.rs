use lsystem::canvas::Canvas;
use lsystem::grammar::G;
use lsystem::turtle::{draw_line, never_pops_empty, normalize, octant, Rasterizer};

const WHITE: (u8, u8, u8) = (255, 255, 255);
const BLACK: (u8, u8, u8) = (0, 0, 0);

fn black_pixels(canvas: &Canvas) -> Vec<(u32, u32)> {
    let mut found = Vec::new();
    for y in 0..canvas.height() {
        for x in 0..canvas.width() {
            let p = canvas.pixel(x, y);
            assert!(p == WHITE || p == BLACK);
            if p == BLACK {
                found.push((x, y));
            }
        }
    }
    found.sort();
    found
}

fn sorted(mut pixels: Vec<(u32, u32)>) -> Vec<(u32, u32)> {
    pixels.sort();
    pixels
}

#[test]
fn normalize_brings_angles_into_range() {
    assert_eq!(normalize(0), 0);
    assert_eq!(normalize(90), 90);
    assert_eq!(normalize(359), 359);
    assert_eq!(normalize(360), 0);
    assert_eq!(normalize(405), 45);
    assert_eq!(normalize(-45), 315);
    assert_eq!(normalize(-360), 0);
    assert_eq!(normalize(-361), 359);
    assert_eq!(normalize(-1), 359);
    assert_eq!(normalize(i32::MAX), 127);
    assert_eq!(normalize(i32::MIN), 232);
}

#[test]
fn octants_change_at_multiples_of_45() {
    assert_eq!(octant(0), (1, 0));
    assert_eq!(octant(44), (1, 0));
    assert_eq!(octant(45), (1, -1));
    assert_eq!(octant(89), (1, -1));
    assert_eq!(octant(90), (0, -1));
    assert_eq!(octant(134), (0, -1));
    assert_eq!(octant(135), (-1, -1));
    assert_eq!(octant(179), (-1, -1));
    assert_eq!(octant(180), (-1, 0));
    assert_eq!(octant(224), (-1, 0));
    assert_eq!(octant(225), (-1, 1));
    assert_eq!(octant(269), (-1, 1));
    assert_eq!(octant(270), (0, 1));
    assert_eq!(octant(314), (0, 1));
    assert_eq!(octant(315), (1, 1));
    assert_eq!(octant(359), (1, 1));
    assert_eq!(octant(360), (1, 1));
}

#[test]
fn upward_stroke_paints_its_length() {
    for size in 0u32..8 {
        let mut canvas = Canvas::new(21, 21);
        let mut position = (10, 10);
        draw_line(&mut canvas, &mut position, size, 90);
        assert_eq!(position, (10, 10 - size));
        let expected: Vec<(u32, u32)> = (1..=size).map(|k| (10, 10 - k)).collect();
        assert_eq!(black_pixels(&canvas), sorted(expected));
        assert_eq!(black_pixels(&canvas).len(), size as usize);
    }
}

#[test]
fn stroke_follows_its_octant() {
    let cases: [(i16, i64, i64); 9] = [
        (0, 1, 0),
        (45, 1, -1),
        (100, 0, -1),
        (135, -1, -1),
        (180, -1, 0),
        (260, -1, 1),
        (270, 0, 1),
        (315, 1, 1),
        (360, 1, 1),
    ];
    for (angle, dx, dy) in cases {
        let mut canvas = Canvas::new(30, 20);
        let mut position = (12, 9);
        draw_line(&mut canvas, &mut position, 4, angle);
        let expected: Vec<(u32, u32)> =
            (1..=4i64).map(|k| ((12 + k * dx) as u32, (9 + k * dy) as u32)).collect();
        assert_eq!(position, ((12 + 4 * dx) as u32, (9 + 4 * dy) as u32));
        assert_eq!(black_pixels(&canvas), sorted(expected));
    }
}

#[test]
fn stroke_near_an_edge_is_left_out() {
    let starts = [(5, 10), (0, 10), (15, 10), (20, 10), (10, 5), (10, 0), (10, 15), (10, 20)];
    for start in starts {
        for angle in [0i16, 90, 180, 270] {
            let mut canvas = Canvas::new(21, 21);
            let mut position = start;
            draw_line(&mut canvas, &mut position, 5, angle);
            assert_eq!(position, start);
            assert!(black_pixels(&canvas).is_empty());
        }
    }
}

#[test]
fn stroke_just_inside_the_margin_is_drawn() {
    let starts = [(6, 10), (14, 10), (10, 6), (10, 14), (6, 6), (14, 14)];
    for start in starts {
        let mut canvas = Canvas::new(21, 21);
        let mut position = start;
        draw_line(&mut canvas, &mut position, 5, 180);
        assert_eq!(position, (start.0 - 5, start.1));
        assert_eq!(black_pixels(&canvas).len(), 5);
    }
}

#[test]
fn margin_is_measured_against_the_edge_of_the_same_axis() {
    let mut wide = Canvas::new(40, 13);
    let mut position = (30, 6);
    draw_line(&mut wide, &mut position, 5, 0);
    assert_eq!(position, (35, 6));
    assert_eq!(black_pixels(&wide).len(), 5);

    let mut tall = Canvas::new(13, 40);
    let mut position = (6, 30);
    draw_line(&mut tall, &mut position, 5, 270);
    assert_eq!(position, (6, 35));

    let mut tall = Canvas::new(13, 40);
    let mut position = (7, 30);
    draw_line(&mut tall, &mut position, 5, 270);
    assert_eq!(position, (7, 30));
    assert!(black_pixels(&tall).is_empty());
}

#[test]
fn stroke_on_a_small_canvas_is_left_out() {
    let mut canvas = Canvas::new(3, 3);
    let mut position = (1, 1);
    draw_line(&mut canvas, &mut position, 5, 90);
    assert_eq!(position, (1, 1));
    assert!(black_pixels(&canvas).is_empty());
    draw_line(&mut canvas, &mut position, u32::MAX, 90);
    assert_eq!(position, (1, 1));
}

#[test]
fn stroke_of_no_length_paints_nothing() {
    let mut canvas = Canvas::new(9, 9);
    let mut position = (4, 4);
    draw_line(&mut canvas, &mut position, 0, 45);
    assert_eq!(position, (4, 4));
    assert!(black_pixels(&canvas).is_empty());
}

#[test]
fn standard_rasterizer() {
    let r = Rasterizer::standard();
    assert_eq!(r.stroke_length, 5);
    assert_eq!(r.leaf_length, 3);
    assert_eq!(r.branch_angle, 45);
}

#[test]
fn render_starts_at_the_centre_pointing_up() {
    let canvas = Rasterizer::standard().render("1", 21, 21);
    assert_eq!(canvas.width(), 21);
    assert_eq!(canvas.height(), 21);
    assert_eq!(black_pixels(&canvas), vec![(10, 5), (10, 6), (10, 7), (10, 8), (10, 9)]);

    let canvas = Rasterizer::standard().render("0", 22, 24);
    assert_eq!(black_pixels(&canvas), vec![(10, 8), (10, 9), (10, 10)]);
}

#[test]
fn render_of_nothing_is_white() {
    let canvas = Rasterizer::standard().render("", 7, 5);
    assert!(black_pixels(&canvas).is_empty());
    let canvas = Rasterizer::standard().render("xyz +-", 7, 5);
    assert!(black_pixels(&canvas).is_empty());
    let canvas = Rasterizer::standard().render("1", 1, 1);
    assert_eq!(canvas.pixel(0, 0), WHITE);
}

#[test]
fn render_continues_at_the_end_of_a_stroke() {
    let canvas = Rasterizer::standard().render("10", 41, 41);
    let expected: Vec<(u32, u32)> = (12..20).map(|y| (20, y)).collect();
    assert_eq!(black_pixels(&canvas), sorted(expected));
}

#[test]
fn brackets_save_and_restore_and_turn() {
    let canvas = Rasterizer::standard().render("[1]1", 21, 21);
    let mut expected = vec![(9, 9), (8, 8), (7, 7), (6, 6), (5, 5)];
    expected.extend([(11, 9), (12, 8), (13, 7), (14, 6), (15, 5)]);
    assert_eq!(black_pixels(&canvas), sorted(expected));
}

#[test]
fn closing_bracket_turns_the_restored_heading() {
    let canvas = Rasterizer::standard().render("[[]]0", 21, 21);
    assert_eq!(black_pixels(&canvas), vec![(11, 9), (12, 8), (13, 7)]);
    let canvas = Rasterizer::standard().render("[][]0", 21, 21);
    assert_eq!(black_pixels(&canvas), vec![(11, 10), (12, 10), (13, 10)]);
    let canvas = Rasterizer::standard().render("[][][]0", 21, 21);
    assert_eq!(black_pixels(&canvas), vec![(11, 11), (12, 12), (13, 13)]);
}

#[test]
fn heading_wraps_around() {
    let canvas = Rasterizer::standard().render("[[[[[[[[0", 21, 21);
    assert_eq!(black_pixels(&canvas), vec![(10, 7), (10, 8), (10, 9)]);
    let canvas = Rasterizer::standard().render("[[[[[[0", 21, 21);
    assert_eq!(black_pixels(&canvas), vec![(11, 10), (12, 10), (13, 10)]);
}

#[test]
fn zero_branch_angle_restores_the_heading() {
    let r = Rasterizer { stroke_length: 4, leaf_length: 2, branch_angle: 0 };
    let canvas = r.render("[1]0", 21, 21);
    assert_eq!(black_pixels(&canvas), vec![(10, 6), (10, 7), (10, 8), (10, 9)]);
    let r = Rasterizer { stroke_length: 4, leaf_length: 2, branch_angle: 360 };
    let canvas = r.render("[1]0", 21, 21);
    assert_eq!(black_pixels(&canvas), vec![(10, 6), (10, 7), (10, 8), (10, 9)]);
}

#[test]
fn lengths_and_angle_can_vary() {
    let r = Rasterizer { stroke_length: 2, leaf_length: 1, branch_angle: -90 };
    let canvas = r.render("[1]0", 11, 11);
    assert_eq!(black_pixels(&canvas), vec![(4, 5), (6, 5), (7, 5)]);
    let r = Rasterizer { stroke_length: 2, leaf_length: 1, branch_angle: i16::MIN };
    let canvas = r.render("[0]1", 11, 11);
    assert_eq!(i16::MIN as i32 % 360, -8);
    assert_eq!(black_pixels(&canvas), vec![(5, 3), (5, 4), (6, 4)]);
}

#[test]
fn balanced_words_can_be_drawn() {
    assert!(never_pops_empty(""));
    assert!(never_pops_empty("0"));
    assert!(never_pops_empty("[]"));
    assert!(never_pops_empty("1[0]0"));
    assert!(never_pops_empty("11[1[0]0]1[0]0"));
    assert!(never_pops_empty("[[][]]"));
}

#[test]
fn open_brackets_left_over_can_be_drawn() {
    assert!(never_pops_empty("["));
    assert!(never_pops_empty("[[]"));
    assert!(never_pops_empty("[1[0"));
}

#[test]
fn unmatched_closing_bracket_cannot_be_drawn() {
    assert!(!never_pops_empty("]"));
    assert!(!never_pops_empty("]["));
    assert!(!never_pops_empty("[]]"));
    assert!(!never_pops_empty("1[0]0]"));
    assert!(!never_pops_empty("[]][[]"));
}

#[test]
fn every_generation_of_the_plant_can_be_drawn() {
    let mut g = G::new("0, 1, [, ]", "0", vec!["1 -> 11", "0 -> 1[0]0"]);
    for _ in 0..7 {
        assert!(never_pops_empty(g.current_generation()));
        g.next_generation();
    }
}

#[test]
fn draw_uses_the_standard_rasterizer() {
    let mut g = G::new("0, 1, [, ]", "0", vec!["1 -> 11", "0 -> 1[0]0"]);
    g.advance_by(2);
    assert_eq!(g.current_generation(), "11[1[0]0]1[0]0");
    let drawn = g.draw(61, 61);
    let rendered = Rasterizer::standard().render("11[1[0]0]1[0]0", 61, 61);
    assert_eq!(drawn.width(), 61);
    assert_eq!(drawn.height(), 61);
    assert_eq!(drawn.to_rgb(), rendered.to_rgb());

    let mut expected: Vec<(u32, u32)> = (20..30).map(|y| (30, y)).collect();
    expected.extend((1..=5).map(|k| (30 - k, 20 - k)));
    expected.extend((1..=3).map(|k| (25 - k, 15)));
    expected.extend((1..=3).map(|k| (25, 15 - k)));
    expected.extend((1..=5).map(|k| (30 + k, 20 - k)));
    expected.extend((1..=3).map(|k| (35, 15 - k)));
    expected.extend((1..=3).map(|k| (35 + k, 15)));
    expected.sort();
    expected.dedup();
    assert_eq!(black_pixels(&drawn), expected);
}

#[test]
fn draw_of_the_first_word() {
    let g = G::new("0, 1, [, ]", "0", vec!["1 -> 11", "0 -> 1[0]0"]);
    let canvas = g.draw(1000, 1000);
    assert_eq!(black_pixels(&canvas), vec![(499, 496), (499, 497), (499, 498)]);
}
