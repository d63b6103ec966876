use mazegen::generate_maze;
use mazegen::Maze;

#[test]
fn fresh_grid_renders_exactly() {
    let mut m = Maze::new(5);
    let _walls = m.collect_walls();
    // Before any merge, passages sit exactly at even-even coordinates.
    assert_eq!(m.render_verbose(), "01010\n11111\n01010\n11111\n01010\n");
    assert_eq!(m.render_compact(), "0101011111010101111101010\n");
}

#[test]
fn compact_output_is_one_line_of_size_squared_cells() {
    let m = generate_maze(5);
    let s = m.render_compact();
    assert_eq!(s.len(), 26);
    assert!(s.ends_with('\n'));
    let line = &s[..25];
    assert!(line.chars().all(|c| c == '0' || c == '1'));
    assert!(!line.contains('\n'));
}

#[test]
fn verbose_output_has_one_line_per_row() {
    let m = generate_maze(7);
    let s = m.render_verbose();
    let lines: Vec<&str> = s.split_terminator('\n').collect();
    assert_eq!(lines.len(), 7);
    for line in lines {
        assert_eq!(line.len(), 7);
        assert!(line.chars().all(|c| c == '0' || c == '1'));
    }
}

#[test]
fn rendering_twice_yields_identical_bytes() {
    let m = generate_maze(5);
    assert_eq!(m.render_compact(), m.render_compact());
    assert_eq!(m.render_verbose(), m.render_verbose());
    let n = generate_maze(9);
    assert_eq!(n.render_compact(), n.render_compact());
    assert_eq!(n.render_verbose(), n.render_verbose());
}

#[test]
fn generated_maze_has_no_open_two_by_two_block() {
    // A fully open 2 by 2 block would be a cycle, which the merge condition
    // rules out.
    for _ in 0..20 {
        let m = generate_maze(5);
        let s = m.render_compact();
        let b = s.as_bytes();
        for y in 0..4usize {
            for x in 0..4usize {
                let open = |xx: usize, yy: usize| b[yy * 5 + xx] == b'0';
                assert!(
                    !(open(x, y) && open(x + 1, y) && open(x, y + 1) && open(x + 1, y + 1)),
                    "open block at ({}, {}) in {}",
                    x,
                    y,
                    s
                );
            }
        }
    }
}

#[test]
fn rendered_maze_is_one_connected_region() {
    // A flood fill from the top-left passage must reach every open cell.
    let size = 5usize;
    let m = generate_maze(size);
    let s = m.render_compact();
    let b = s.as_bytes();
    let open = |x: usize, y: usize| b[y * size + x] == b'0';
    let mut seen = vec![false; size * size];
    let mut stack = vec![(0usize, 0usize)];
    seen[0] = true;
    while let Some((x, y)) = stack.pop() {
        let mut push = |xx: usize, yy: usize, seen: &mut Vec<bool>, stack: &mut Vec<(usize, usize)>| {
            if open(xx, yy) && !seen[yy * size + xx] {
                seen[yy * size + xx] = true;
                stack.push((xx, yy));
            }
        };
        if x > 0 {
            push(x - 1, y, &mut seen, &mut stack);
        }
        if x + 1 < size {
            push(x + 1, y, &mut seen, &mut stack);
        }
        if y > 0 {
            push(x, y - 1, &mut seen, &mut stack);
        }
        if y + 1 < size {
            push(x, y + 1, &mut seen, &mut stack);
        }
    }
    for y in 0..size {
        for x in 0..size {
            if open(x, y) {
                assert!(seen[y * size + x], "unreached open cell ({}, {}) in {}", x, y, s);
            }
        }
    }
}

#[test]
fn open_region_is_a_tree() {
    // Connected and acyclic: the open cells and their adjacencies form a
    // tree, so there is exactly one fewer edge than open cells.
    for size in [5usize, 7, 9] {
        let m = generate_maze(size);
        let s = m.render_compact();
        let b = s.as_bytes();
        let open = |x: usize, y: usize| b[y * size + x] == b'0';
        let mut cells = 0usize;
        let mut edges = 0usize;
        for y in 0..size {
            for x in 0..size {
                if open(x, y) {
                    cells += 1;
                    if x + 1 < size && open(x + 1, y) {
                        edges += 1;
                    }
                    if y + 1 < size && open(x, y + 1) {
                        edges += 1;
                    }
                }
            }
        }
        assert_eq!(edges + 1, cells, "open region is not a tree in {}", s);
    }
}

#[test]
fn batch_log_lines_have_the_right_shape() {
    // Three mazes in the log-to-file form: one line each, of length
    // size * size.
    let mut log = String::new();
    for _ in 0..3 {
        let m = generate_maze(5);
        log.push_str(&m.render_compact());
    }
    let lines: Vec<&str> = log.split_terminator('\n').collect();
    assert_eq!(lines.len(), 3);
    for line in lines {
        assert_eq!(line.len(), 25);
        assert!(line.chars().all(|c| c == '0' || c == '1'));
    }
}
