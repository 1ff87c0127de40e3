use mazegen::{
    add_walls, algorithm_parse, color_parse, colors_parse, geometry_parse, gradient_parse, grid_geometry, image_geometry,
    opposite, square_ceil_7, take_wall, under_bias, wall_direction, AlgorithmKind, Coord,
    Direction, Geometry, Gradient, BIAS_RANGE,
};

#[test]
fn opposite_turns_round() {
    assert_eq!(opposite(&Direction::Up), Direction::Down);
    assert_eq!(opposite(&Direction::Down), Direction::Up);
    assert_eq!(opposite(&Direction::Left), Direction::Right);
    assert_eq!(opposite(&Direction::Right), Direction::Left);
    for d in [Direction::Up, Direction::Down, Direction::Left, Direction::Right] {
        assert_eq!(opposite(&opposite(&d)), d);
    }
}

#[test]
fn add_walls_parts_by_column_then_row() {
    let mut v = vec![Coord { x: 8, y: 1 }];
    let mut h = Vec::new();
    add_walls(
        &mut v,
        &mut h,
        vec![
            Coord { x: 0, y: 1 },
            Coord { x: 1, y: 0 },
            Coord { x: 1, y: 1 },
            Coord { x: 2, y: 2 },
            Coord { x: 3, y: 4 },
        ],
    );
    assert_eq!(v, vec![Coord { x: 8, y: 1 }, Coord { x: 0, y: 1 }, Coord { x: 2, y: 2 }]);
    assert_eq!(h, vec![Coord { x: 1, y: 0 }, Coord { x: 3, y: 4 }]);
}

#[test]
fn take_wall_takes_from_the_only_list_that_has_walls() {
    let mut v = vec![];
    let mut h = vec![Coord { x: 1, y: 0 }, Coord { x: 3, y: 0 }, Coord { x: 5, y: 0 }];
    // the side is not looked at
    let w = take_wall(&mut v, &mut h, 3, 0, BIAS_RANGE - 1);
    assert_eq!(w, Coord { x: 1, y: 0 });
    assert_eq!(h, vec![Coord { x: 5, y: 0 }, Coord { x: 3, y: 0 }]);
    let mut v = vec![Coord { x: 0, y: 1 }, Coord { x: 0, y: 3 }];
    let mut h = vec![];
    let w = take_wall(&mut v, &mut h, 1, u64::MAX, 1);
    assert_eq!(w, Coord { x: 0, y: 3 });
    assert_eq!(v, vec![Coord { x: 0, y: 1 }]);
}

#[test]
fn take_wall_follows_the_bias_when_both_lists_have_walls() {
    let half = BIAS_RANGE / 2;
    let mut v = vec![Coord { x: 0, y: 1 }, Coord { x: 0, y: 3 }];
    let mut h = vec![Coord { x: 1, y: 0 }];
    // a side whose share is just under the bias goes to the vertical list
    let w = take_wall(&mut v, &mut h, 0, (half - 1) << 11, half);
    assert_eq!(w, Coord { x: 0, y: 1 });
    assert_eq!(v, vec![Coord { x: 0, y: 3 }]);
    // a side whose share is the bias goes to the horizontal list
    let w = take_wall(&mut v, &mut h, 0, half << 11, half);
    assert_eq!(w, Coord { x: 1, y: 0 });
    assert!(h.is_empty());
}

#[test]
fn under_bias_reads_the_high_bits() {
    assert!(under_bias(0, 1));
    assert!(under_bias(2047, 1));
    assert!(!under_bias(2048, 1));
    assert!(under_bias(u64::MAX, BIAS_RANGE));
    assert!(!under_bias(u64::MAX, BIAS_RANGE - 1));
}

#[test]
fn wall_direction_follows_the_axis_of_the_slot() {
    let bias = BIAS_RANGE / 2;
    assert_eq!(wall_direction(&Coord { x: 2, y: 1 }, 0, 0, bias), Some(Direction::Up));
    assert_eq!(wall_direction(&Coord { x: 2, y: 1 }, 0, 7, bias), Some(Direction::Down));
    assert_eq!(wall_direction(&Coord { x: 1, y: 2 }, 0, 4, bias), Some(Direction::Left));
    assert_eq!(wall_direction(&Coord { x: 1, y: 2 }, 0, 5, bias), Some(Direction::Right));
    assert_eq!(wall_direction(&Coord { x: 2, y: 2 }, 0, 5, bias), None);
    assert_eq!(wall_direction(&Coord { x: 1, y: 1 }, 0, 0, bias), Some(Direction::Left));
    assert_eq!(wall_direction(&Coord { x: 1, y: 1 }, 0, 1, bias), Some(Direction::Right));
    assert_eq!(wall_direction(&Coord { x: 1, y: 1 }, u64::MAX, 0, bias), Some(Direction::Up));
    assert_eq!(wall_direction(&Coord { x: 1, y: 1 }, u64::MAX, 1, bias), Some(Direction::Down));
}

#[test]
fn geometry_parse_reads_width_and_height() {
    assert_eq!(geometry_parse("100x100"), Some(Geometry { width: 100, height: 100 }));
    assert_eq!(geometry_parse("5x7"), Some(Geometry { width: 5, height: 7 }));
    assert_eq!(geometry_parse("0x0"), Some(Geometry { width: 0, height: 0 }));
    assert_eq!(geometry_parse("+12x007"), Some(Geometry { width: 12, height: 7 }));
}

#[test]
fn geometry_parse_refuses_what_is_no_geometry() {
    for s in [
        "", "x", "10", "10x", "x10", "10x10x10", "10 x10", "ax10", "10xb", "-1x5", "+x5", "1.5x2",
        "10X10", "99999999999999999999999999x1", "1x99999999999999999999999999",
    ] {
        assert_eq!(geometry_parse(s), None, "{:?}", s);
    }
}

#[test]
fn geometry_parse_reads_the_largest_number() {
    let s = format!("{}x{}", usize::MAX, 1);
    assert_eq!(geometry_parse(&s), Some(Geometry { width: usize::MAX, height: 1 }));
}

#[test]
fn gradient_parse_knows_two_names() {
    assert_eq!(gradient_parse("length"), Some(Gradient::Length));
    assert_eq!(gradient_parse("solution"), Some(Gradient::Solution));
    assert_eq!(gradient_parse("Length"), None);
    assert_eq!(gradient_parse("lengths"), None);
    assert_eq!(gradient_parse(""), None);
}

#[test]
fn algorithm_parse_knows_three_names() {
    assert_eq!(algorithm_parse("prim"), Some(AlgorithmKind::Prim));
    assert_eq!(algorithm_parse("kruskal"), Some(AlgorithmKind::Kruskal));
    assert_eq!(algorithm_parse("backtracker"), Some(AlgorithmKind::Backtracker));
    assert_eq!(algorithm_parse("dijkstra"), None);
    assert_eq!(algorithm_parse(""), None);
}

#[test]
fn square_ceil_7_is_seven_times_a_power_of_two() {
    assert_eq!(square_ceil_7(0), 7);
    assert_eq!(square_ceil_7(6), 7);
    assert_eq!(square_ceil_7(7), 7);
    assert_eq!(square_ceil_7(13), 7);
    assert_eq!(square_ceil_7(14), 14);
    assert_eq!(square_ceil_7(27), 14);
    assert_eq!(square_ceil_7(28), 28);
    assert_eq!(square_ceil_7(97), 56);
    assert_eq!(square_ceil_7(100), 56);
    assert_eq!(square_ceil_7(u32::MAX), 7 * (1 << 29));
}

#[test]
fn grid_and_image_geometry_divide_and_multiply() {
    let g = Geometry { width: 100, height: 45 };
    assert_eq!(grid_geometry(4, &g), Geometry { width: 25, height: 11 });
    assert_eq!(grid_geometry(7, &g), Geometry { width: 14, height: 6 });
    assert_eq!(
        image_geometry(4, &Geometry { width: 25, height: 11 }),
        Some(Geometry { width: 100, height: 44 })
    );
    assert_eq!(image_geometry(2, &Geometry { width: usize::MAX, height: 1 }), None);
}

#[test]
fn color_parse_reads_red_green_and_blue() {
    assert_eq!(color_parse("#073642"), Some([0x07, 0x36, 0x42]));
    assert_eq!(color_parse("#d70000"), Some([215, 0, 0]));
    assert_eq!(color_parse("#ffffd7"), Some([255, 255, 215]));
    assert_eq!(color_parse("#FfAa09"), Some([255, 170, 9]));
    assert_eq!(color_parse("#000000"), Some([0, 0, 0]));
    // what follows the six digits is not looked at
    assert_eq!(color_parse("#10203040"), Some([16, 32, 48]));
}

#[test]
fn color_parse_refuses_what_is_no_colour() {
    for s in ["", "#", "073642", "#07364", "#07364g", " #073642", "#-73642", "##073642"] {
        assert_eq!(color_parse(s), None, "{:?}", s);
    }
}

#[test]
fn colors_parse_takes_one_or_two_foreground_colours() {
    assert_eq!(
        colors_parse("#073642", "#d70000 #ffffd7"),
        Some(([7, 54, 66], [[215, 0, 0], [255, 255, 215]]))
    );
    assert_eq!(
        colors_parse("#073642", "#d70000"),
        Some(([7, 54, 66], [[215, 0, 0], [215, 0, 0]]))
    );
    assert_eq!(colors_parse("073642", "#d70000"), None);
    assert_eq!(colors_parse("#073642", ""), None);
    assert_eq!(colors_parse("#073642", "#d70000 "), None);
    assert_eq!(colors_parse("#073642", " #d70000"), None);
    assert_eq!(colors_parse("#073642", "#d70000  #ffffd7"), None);
    assert_eq!(colors_parse("#073642", "#d70000 #ffffd7 #000000"), None);
    assert_eq!(colors_parse("#073642", "#d70000 ffffd7"), None);
}
