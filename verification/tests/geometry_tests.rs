use wasnn::geometry::{
    bounding_box, convex_hull, draw_polygon, fill_rect, find_contours, stroke_rect, Grid, Line,
    Point, Rect, RetrievalMode,
};

/// Return a list of the points on the border of `rect`, in counter-clockwise
/// order starting from the top-left corner.
///
/// If `omit_corners` is true, the corner points of the rect are not
/// included.
fn border_points(rect: Rect, omit_corners: bool) -> Vec<Point> {
    let mut points = Vec::new();

    let left_range = if omit_corners {
        rect.top() + 1..rect.bottom() - 1
    } else {
        rect.top()..rect.bottom()
    };

    // Left edge
    for y in left_range.clone() {
        points.push(Point::from_yx(y, rect.left()));
    }

    // Bottom edge
    for x in rect.left() + 1..rect.right() - 1 {
        points.push(Point::from_yx(rect.bottom() - 1, x));
    }

    // Right edge
    for y in left_range.rev() {
        points.push(Point::from_yx(y, rect.right() - 1));
    }

    // Top edge
    for x in (rect.left() + 1..rect.right() - 1).rev() {
        points.push(Point::from_yx(rect.top(), x));
    }

    points
}

/// Return coordinates of all points in `grid` with a non-zero value.
fn nonzero_points(grid: &Grid<i32>) -> Vec<Point> {
    let mut points = Vec::new();
    for y in 0..grid.rows() {
        for x in 0..grid.cols() {
            if grid.get(y, x) != 0 {
                points.push(Point::from_yx(y as i32, x as i32))
            }
        }
    }
    points
}

/// Create a grid from an MxN nested array.
fn image_from_2d_array<const M: usize, const N: usize>(xs: [[i32; N]; M]) -> Grid<i32> {
    let mut image = Grid::new(M, N, 0);
    for y in 0..M {
        for x in 0..N {
            image.set(y, x, xs[y][x]);
        }
    }
    image
}

/// Compare two single-channel images with i32 pixel values.
fn compare_images(a: &Grid<i32>, b: &Grid<i32>) {
    assert_eq!(a.rows(), b.rows());
    assert_eq!(a.cols(), b.cols());

    for y in 0..a.rows() {
        for x in 0..a.cols() {
            if a.get(y, x) != b.get(y, x) {
                panic!("mismatch at coord [{}, {}]", y, x);
            }
        }
    }
}

/// Convert a slice of `[y, x]` coordinates to `Point`s
fn points_from_coords(coords: &[[i32; 2]]) -> Vec<Point> {
    coords.iter().map(|[y, x]| Point::from_yx(*y, *x)).collect()
}

#[test]
fn test_bounding_box() {
    let rect = Rect::from_tlbr(5, 5, 10, 10);
    let border = border_points(rect, false /* omit_corners */);
    assert_eq!(bounding_box(&border), rect);
}

#[test]
fn test_convex_hull() {
    struct Case {
        points: &'static [[i32; 2]],
        hull: &'static [[i32; 2]],
    }

    let cases = [
        // Simple square. The hull is a re-ordering of the input.
        Case {
            points: &[[0, 0], [0, 4], [4, 4], [4, 0]],
            hull: &[[4, 0], [0, 0], [0, 4], [4, 4]],
        },
        // Square with an indent on each edge. The hull is just a rect.
        Case {
            points: &[
                // Top
                [0, 0],
                [1, 2],
                [0, 4],
                // Right
                [2, 3],
                [4, 4],
                // Bottom
                [3, 2],
                [4, 0],
                // Left
                [2, 1],
            ],
            // Hull starts with lowest, left-most corner then proceeds
            // clockwise.
            hull: &[[4, 0], [0, 0], [0, 4], [4, 4]],
        },
    ];

    for case in cases {
        let points = points_from_coords(case.points);
        let expected_hull = points_from_coords(case.hull);

        let hull = convex_hull(&points);

        assert_eq!(hull, expected_hull);
    }
}

#[test]
fn test_draw_polygon() {
    struct Case {
        points: &'static [[i32; 2]],
        expected: Grid<i32>,
    }

    let cases = [
        // A simple rect: Straight lines in each direction
        Case {
            points: &[[0, 0], [0, 4], [4, 4], [4, 0]],
            expected: image_from_2d_array([
                [1, 1, 1, 1, 1],
                [1, 0, 0, 0, 1],
                [1, 0, 0, 0, 1],
                [1, 0, 0, 0, 1],
                [1, 1, 1, 1, 1],
            ]),
        },
        // Slopes in each direction.
        Case {
            points: &[[0, 2], [2, 0], [4, 2], [2, 4]],
            expected: image_from_2d_array([
                [0, 0, 1, 0, 0],
                [0, 1, 0, 1, 0],
                [1, 0, 0, 0, 1],
                [0, 1, 0, 1, 0],
                [0, 0, 1, 0, 0],
            ]),
        },
        // Steep slopes in each direction.
        Case {
            points: &[[0, 2], [2, 1], [4, 2], [2, 3]],
            expected: image_from_2d_array([
                [0, 0, 1, 0, 0],
                [0, 1, 1, 0, 0],
                [0, 1, 0, 1, 0],
                [0, 0, 1, 1, 0],
                [0, 0, 1, 0, 0],
            ]),
        },
    ];

    for case in cases {
        let points: Vec<_> = case.points.iter().map(|[y, x]| Point::from_yx(*y, *x)).collect();

        let mut image = Grid::new(case.expected.rows(), case.expected.cols(), 0);
        draw_polygon(&mut image, &points, 1);
        compare_images(&image, &case.expected);
    }
}

#[test]
fn test_find_contours_in_empty_mask() {
    struct Case {
        size: [usize; 2],
    }

    let cases = [Case { size: [0, 0] }, Case { size: [1, 1] }, Case { size: [10, 10] }];

    for case in cases {
        let mask = Grid::new(case.size[0], case.size[1], 0);
        let contours = find_contours(&mask, RetrievalMode::List);
        assert_eq!(contours.len(), 0);
    }
}

#[test]
fn test_find_contours_single_rect() {
    struct Case {
        rect: Rect,
        value: i32,
    }

    let cases = [
        Case { rect: Rect::from_tlbr(5, 5, 10, 10), value: 1 },
        // Values > 1 in the mask are clamped to 1, so they don't affect
        // the contours found.
        Case { rect: Rect::from_tlbr(5, 5, 10, 10), value: 2 },
        // Values < 0 are clamped to 0 and ignored.
        Case { rect: Rect::from_tlbr(5, 5, 10, 10), value: -2 },
    ];

    for case in cases {
        let mut mask = Grid::new(20, 20, 0);
        fill_rect(&mut mask, case.rect, case.value);

        let contours = find_contours(&mask, RetrievalMode::List);

        if case.value > 0 {
            assert_eq!(contours.len(), 1);
            let border = contours.iter().next().unwrap();
            assert_eq!(border, border_points(case.rect, false /* omit_corners */));
        } else {
            assert!(contours.is_empty());
        }
    }
}

#[test]
fn test_find_contours_rect_touching_frame() {
    let mut mask = Grid::new(5, 5, 0);
    let rect = Rect::from_tlbr(0, 0, 5, 5);
    fill_rect(&mut mask, rect, 1);

    let contours = find_contours(&mask, RetrievalMode::List);
    assert_eq!(contours.len(), 1);

    let border = contours.iter().next().unwrap();
    assert_eq!(border, border_points(rect, false /* omit_corners */));
}

#[test]
fn test_find_contours_hollow_rect() {
    let mut mask = Grid::new(20, 20, 0);
    let rect = Rect::from_tlbr(5, 5, 12, 12);
    stroke_rect(&mut mask, rect, 1, 2);

    let contours = find_contours(&mask, RetrievalMode::List);

    // There should be two contours: one for the outer border of the rect
    // and one for the inner "hole" border.
    assert_eq!(contours.len(), 2);

    // Check outer border.
    let mut contours_iter = contours.iter();
    let outer_border = contours_iter.next().unwrap();
    let inner_border = contours_iter.next().unwrap();
    assert_eq!(outer_border, border_points(rect, false /* omit_corners */));

    // Check hole border.
    let inner_rect = rect.adjust_tlbr(1, 1, -1, -1);
    let mut expected_inner_border = border_points(inner_rect, true /* omit_corners */);

    // Due to the way the algorithm works, hole border points are returned
    // in the opposite order (clockwise instead of counter-clockwise) to
    // outer border points, and the start position is shifted by one.
    expected_inner_border.reverse();  // CCW => CW
    expected_inner_border.rotate_right(1);

    assert_eq!(inner_border, expected_inner_border);
}

#[test]
fn test_find_contours_external() {
    let mut mask = Grid::new(20, 20, 0);
    let rect = Rect::from_tlbr(5, 5, 12, 12);
    stroke_rect(&mut mask, rect, 1, 2);

    let contours = find_contours(&mask, RetrievalMode::External);

    // There should only be one, outermost contour.
    assert_eq!(contours.len(), 1);
    let outer_border = contours.iter().next().unwrap();
    assert_eq!(outer_border, border_points(rect, false /* omit_corners */));
}

#[test]
fn test_find_contours_single_point() {
    let mut mask = Grid::new(20, 20, 0);
    mask.set(5, 5, 1);

    let contours = find_contours(&mask, RetrievalMode::List);
    assert_eq!(contours.len(), 1);

    let border = contours.iter().next().unwrap();
    assert_eq!(border, [Point::from_yx(5, 5)]);
}

#[test]
fn test_find_contours_many_rects() {
    let mut mask = Grid::new(20, 20, 0);

    let rects = [Rect::from_tlbr(5, 5, 10, 10), Rect::from_tlbr(15, 15, 18, 18)];
    for rect in rects {
        fill_rect(&mut mask, rect, 1);
    }

    let contours = find_contours(&mask, RetrievalMode::List);
    assert_eq!(contours.len(), rects.len());

    for (i, rect) in rects.iter().enumerate() {
        let border = contours.polygon(i);
        assert_eq!(border, border_points(*rect, false /* omit_corners */));
    }
}

#[test]
fn test_find_contours_nested_rects() {
    let mut mask = Grid::new(15, 15, 0);

    let rects = [Rect::from_tlbr(5, 5, 11, 11), Rect::from_tlbr(7, 7, 9, 9)];
    for rect in rects {
        stroke_rect(&mut mask, rect, 1, 1);
    }

    let contours = find_contours(&mask, RetrievalMode::List);
    assert_eq!(contours.len(), rects.len());

    for (i, rect) in rects.iter().enumerate() {
        let border = contours.polygon(i);
        assert_eq!(border, border_points(*rect, false /* omit_corners */));
    }
}

#[test]
fn test_line_overlap() {
    struct Case {
        a: (i32, i32),
        b: (i32, i32),
        overlap: i32,
    }

    let cases = [
        // No overlap
        Case { a: (0, 10), b: (15, 20), overlap: 0 },
        // End of `a` overlaps start of `b`
        Case { a: (0, 10), b: (5, 15), overlap: 5 },
        // `a` overlaps all of `b`
        Case { a: (0, 10), b: (2, 8), overlap: 6 },
        // `a` and `b` start together, but `a` is shorter
        Case { a: (0, 5), b: (0, 10), overlap: 5 },
    ];

    for case in cases {
        // Horizontal lines
        let a = Line::from_endpoints(Point::from_yx(0, case.a.0), Point::from_yx(0, case.a.1));
        let b = Line::from_endpoints(Point::from_yx(0, case.b.0), Point::from_yx(0, case.b.1));
        assert_eq!(a.horizontal_overlap(b), case.overlap);
        assert_eq!(b.horizontal_overlap(a), case.overlap);

        // Vertical lines
        let a = Line::from_endpoints(Point::from_yx(case.a.0, 0), Point::from_yx(case.a.1, 0));
        let b = Line::from_endpoints(Point::from_yx(case.b.0, 0), Point::from_yx(case.b.1, 0));
        assert_eq!(a.vertical_overlap(b), case.overlap);
        assert_eq!(b.vertical_overlap(a), case.overlap);
    }
}

#[test]
fn test_rect_clamp() {
    struct Case {
        rect: Rect,
        boundary: Rect,
        expected: Rect,
    }

    let cases = [
        Case {
            rect: Rect::from_tlbr(-5, -10, 100, 200),
            boundary: Rect::from_tlbr(0, 0, 50, 100),
            expected: Rect::from_tlbr(0, 0, 50, 100),
        },
        Case {
            rect: Rect::from_tlbr(5, 10, 40, 80),
            boundary: Rect::from_tlbr(0, 0, 50, 100),
            expected: Rect::from_tlbr(5, 10, 40, 80),
        },
    ];

    for case in cases {
        assert_eq!(case.rect.clamp(case.boundary), case.expected);
    }
}

#[test]
fn test_stroke_rect() {
    let mut mask = Grid::new(10, 10, 0);
    let rect = Rect::from_tlbr(4, 4, 9, 9);

    stroke_rect(&mut mask, rect, 1, 1);
    let points = nonzero_points(&mask);

    assert_eq!(bounding_box(&points), rect);
}
