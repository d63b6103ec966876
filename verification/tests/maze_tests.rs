use mazegen::generate_maze;
use mazegen::Cell;
use mazegen::Maze;
use mazegen::Pos;

const WALL: u8 = 1;
const GROUND: u8 = 0;

fn cell(m: &Maze, x: isize, y: isize) -> Cell {
    m.get_cell(&Pos { x, y })
}

#[test]
fn new_grid_is_blank() {
    let m = Maze::new(5);
    assert_eq!(m.size, 5);
    assert_eq!(m.map.len(), 5);
    for row in &m.map {
        assert_eq!(row.len(), 5);
        for c in row {
            assert_eq!(c.cell_type, GROUND);
            assert_eq!(c.id, 0);
            assert!(c.neighbours.top.is_none());
            assert!(c.neighbours.bot.is_none());
            assert!(c.neighbours.left.is_none());
            assert!(c.neighbours.right.is_none());
        }
    }
}

#[test]
fn collector_marks_kinds_and_ids() {
    let mut m = Maze::new(5);
    let walls = m.collect_walls();
    // 16 wall cells and 9 passage cells on a 5 by 5 grid.
    assert_eq!(walls.len(), 16);
    let mut passages = 0;
    for y in 0..5isize {
        for x in 0..5isize {
            let c = cell(&m, x, y);
            assert_eq!(c.pos, Pos { x, y });
            if x % 2 == 0 && y % 2 == 0 {
                assert_eq!(c.cell_type, GROUND);
                assert_eq!(c.id as isize, y * 5 + x + 1);
                passages += 1;
            } else {
                assert_eq!(c.cell_type, WALL);
                assert_eq!(c.id, 0);
            }
        }
    }
    assert_eq!(passages, 9);
    // The worklist holds each wall cell once, as a snapshot.
    for w in &walls {
        assert_eq!(w.cell_type, WALL);
        assert_eq!(w.id, 0);
        assert!(w.pos.x % 2 == 1 || w.pos.y % 2 == 1);
    }
    for i in 0..walls.len() {
        for j in 0..walls.len() {
            if i != j {
                assert_ne!(walls[i].pos, walls[j].pos);
            }
        }
    }
}

#[test]
fn initial_passage_ids_are_pairwise_distinct() {
    let mut m = Maze::new(7);
    let _walls = m.collect_walls();
    let mut ids = Vec::new();
    for y in 0..7isize {
        for x in 0..7isize {
            let c = cell(&m, x, y);
            if c.cell_type == GROUND {
                assert!(c.id != 0);
                assert!(!ids.contains(&c.id));
                ids.push(c.id);
            }
        }
    }
    assert_eq!(ids.len(), 16);
}

#[test]
fn collector_precomputes_in_bounds_neighbours() {
    let mut m = Maze::new(5);
    let _walls = m.collect_walls();
    let corner = cell(&m, 0, 0);
    assert!(corner.neighbours.top.is_none());
    assert!(corner.neighbours.left.is_none());
    assert_eq!(corner.neighbours.bot, Some(Pos { x: 0, y: 1 }));
    assert_eq!(corner.neighbours.right, Some(Pos { x: 1, y: 0 }));
    assert!(!corner.is_verticaly_bound());
    assert!(!corner.is_horizontaly_bound());

    let inner = cell(&m, 2, 2);
    assert_eq!(inner.neighbours.top, Some(Pos { x: 2, y: 1 }));
    assert_eq!(inner.neighbours.bot, Some(Pos { x: 2, y: 3 }));
    assert_eq!(inner.neighbours.left, Some(Pos { x: 1, y: 2 }));
    assert_eq!(inner.neighbours.right, Some(Pos { x: 3, y: 2 }));
    assert!(inner.is_verticaly_bound());
    assert!(inner.is_horizontaly_bound());
    assert_eq!(*inner.get_top_pos(), Pos { x: 2, y: 1 });
    assert_eq!(*inner.get_bot_pos(), Pos { x: 2, y: 3 });
    assert_eq!(*inner.get_left_pos(), Pos { x: 1, y: 2 });
    assert_eq!(*inner.get_right_pos(), Pos { x: 3, y: 2 });
}

#[test]
fn set_cell_updates_kind_and_id_only() {
    let mut m = Maze::new(5);
    let _walls = m.collect_walls();
    let src = Cell::new(0, 0, GROUND, 42);
    m.set_cell(&Pos { x: 1, y: 0 }, &src);
    let c = cell(&m, 1, 0);
    assert_eq!(c.cell_type, GROUND);
    assert_eq!(c.id, 42);
    // Position and neighbours are kept.
    assert_eq!(c.pos, Pos { x: 1, y: 0 });
    assert_eq!(c.neighbours.left, Some(Pos { x: 0, y: 0 }));
}

#[test]
fn join_merges_two_distinct_components() {
    let mut m = Maze::new(5);
    let _walls = m.collect_walls();
    let a = cell(&m, 0, 0);
    let b = cell(&m, 2, 0);
    assert_ne!(a.id, b.id);
    let w = cell(&m, 1, 0);
    m.join_cells(&w);
    let wa = cell(&m, 1, 0);
    assert_eq!(wa.cell_type, GROUND);
    assert_eq!(wa.id, a.id);
    assert_eq!(cell(&m, 2, 0).id, a.id);
    assert_eq!(cell(&m, 0, 0).id, a.id);
}

#[test]
fn join_never_merges_a_component_with_itself() {
    let mut m = Maze::new(5);
    let _walls = m.collect_walls();
    let w = cell(&m, 1, 0);
    m.join_cells(&w);
    let before: Vec<Vec<Cell>> = m.map.clone();
    // Both sides of the wall at (1, 0) now share one id: a second attempt
    // must leave every cell unchanged.
    let w2 = cell(&m, 1, 0);
    m.join_cells(&w2);
    assert_eq!(m.map, before);
}

#[test]
fn wall_between_walls_is_a_no_op() {
    let mut m = Maze::new(5);
    let _walls = m.collect_walls();
    let before: Vec<Vec<Cell>> = m.map.clone();
    // The wall at (1, 1) separates only wall cells on both axes.
    let w = cell(&m, 1, 1);
    m.join_cells(&w);
    assert_eq!(m.map, before);
}

#[test]
fn merge_engine_empties_the_worklist() {
    let mut m = Maze::new(5);
    let mut walls = m.collect_walls();
    m.merge_walls(&mut walls);
    assert_eq!(walls.len(), 0);
}

#[test]
fn merge_step_consumes_one_wall() {
    let mut m = Maze::new(5);
    let mut walls = m.collect_walls();
    let n = walls.len();
    m.merge_step(&mut walls);
    assert_eq!(walls.len(), n - 1);
}

#[test]
fn finished_maze_is_connected() {
    for size in [5isize, 7, 9] {
        let m = generate_maze(size as usize);
        let origin = cell(&m, 0, 0);
        assert_eq!(origin.cell_type, GROUND);
        assert!(origin.id != 0);
        let mut distinct = Vec::new();
        for y in 0..size {
            for x in 0..size {
                let c = cell(&m, x, y);
                if c.cell_type == GROUND {
                    assert_eq!(c.id, origin.id);
                    if !distinct.contains(&c.id) {
                        distinct.push(c.id);
                    }
                }
                if x % 2 == 0 && y % 2 == 0 {
                    assert_eq!(c.cell_type, GROUND);
                }
            }
        }
        assert_eq!(distinct.len(), 1);
    }
}

#[test]
fn surviving_walls_separate_one_component() {
    let m = generate_maze(5);
    // After completion every remaining wall between two passages stands
    // between cells that already share a component.
    for y in 0..5isize {
        for x in 0..5isize {
            let c = cell(&m, x, y);
            if c.cell_type == WALL {
                if x % 2 == 1 && y % 2 == 0 {
                    assert_eq!(cell(&m, x - 1, y).id, cell(&m, x + 1, y).id);
                }
                if x % 2 == 0 && y % 2 == 1 {
                    assert_eq!(cell(&m, x, y - 1).id, cell(&m, x, y + 1).id);
                }
            }
        }
    }
}
