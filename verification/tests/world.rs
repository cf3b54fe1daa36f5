use conway_life::world::{alive_on_draw, World, WorldError, ALIVE_DRAWS, DRAW_RANGE};
use rand::XorShiftRng;

fn world_with(width: usize, height: usize, live: &[(usize, usize)]) -> World {
    let mut world = World::empty(width, height);
    for &(w, h) in live {
        world.set_alive(w, h, true);
    }
    world
}

fn cells_of(world: &World) -> Vec<bool> {
    let mut cells = Vec::new();
    for h in 0..world.height() {
        for w in 0..world.width() {
            cells.push(world.is_alive(w, h));
        }
    }
    cells
}

fn live_cells(world: &World) -> Vec<(usize, usize)> {
    let mut cells = Vec::new();
    for h in 0..world.height() {
        for w in 0..world.width() {
            if world.is_alive(w, h) {
                cells.push((w, h));
            }
        }
    }
    cells
}

fn scan_count(world: &World) -> usize {
    cells_of(world).iter().filter(|&&alive| alive).count()
}

/// The next generation worked out on a snapshot, every neighbour looked up
/// with plain modular arithmetic.
fn reference_step(cells: &[bool], width: usize, height: usize) -> Vec<bool> {
    let mut next = vec![false; cells.len()];
    for h in 0..height {
        for w in 0..width {
            let mut n = 0;
            for dh in [-1i64, 0, 1] {
                for dw in [-1i64, 0, 1] {
                    let row = (h as i64 + dh).rem_euclid(height as i64) as usize;
                    let col = (w as i64 + dw).rem_euclid(width as i64) as usize;
                    if (dh, dw) != (0, 0) && cells[row * width + col] {
                        n += 1;
                    }
                }
            }
            let alive = cells[h * width + w];
            next[h * width + w] = if alive { n == 2 || n == 3 } else { n == 3 };
        }
    }
    next
}

#[test]
fn an_empty_world_is_dead() {
    let world = World::empty(4, 3);
    assert_eq!(world.width(), 4);
    assert_eq!(world.height(), 3);
    assert_eq!(world.generation(), 0);
    assert_eq!(world.alive(), 0);
    assert_eq!(cells_of(&world), vec![false; 12]);
}

#[test]
fn a_world_may_have_no_cells() {
    for (w, h) in [(0, 0), (0, 5), (5, 0)] {
        let mut world = World::empty(w, h);
        assert_eq!((world.width(), world.height(), world.alive()), (w, h, 0));
        assert_eq!(world.next_generation(), vec![]);
        assert_eq!(world.generation(), 1);
        world.expand_to(2, 2);
        assert_eq!((world.width(), world.height(), world.alive()), (2, 2, 0));
        assert_eq!(world.generation(), 1);
    }
    let mut world = world_with(3, 3, &[(1, 1), (2, 2)]);
    world.expand_to(0, 7);
    assert_eq!((world.width(), world.height(), world.alive()), (0, 7, 0));
    assert!(World::from_cells(0, 9, vec![]).is_ok());
}

#[test]
fn from_cells_wants_one_cell_per_position() {
    assert_eq!(World::from_cells(2, 2, vec![true; 3]).err(), Some(WorldError::DimensionMismatch));
    assert_eq!(World::from_cells(2, 2, vec![true; 5]).err(), Some(WorldError::DimensionMismatch));
    assert_eq!(World::from_cells(0, 2, vec![true]).err(), Some(WorldError::DimensionMismatch));
    assert_eq!(
        World::from_cells(usize::MAX, 2, vec![false; 4]).err(),
        Some(WorldError::DimensionMismatch)
    );
    assert_eq!(
        World::from_cells(usize::MAX, usize::MAX, vec![true]).err(),
        Some(WorldError::DimensionMismatch)
    );
    assert!(World::from_cells(2, 2, vec![true; 4]).is_ok());
}

#[test]
fn from_cells_reads_back_cell_for_cell() {
    let buf = vec![
        true, false, false, true, true, //
        false, false, true, false, true, //
        true, true, true, false, false,
    ];
    let world = World::from_cells(5, 3, buf.clone()).unwrap();
    assert_eq!(world.generation(), 0);
    assert_eq!(world.alive(), 8);
    for h in 0..3 {
        for w in 0..5 {
            assert_eq!(world.is_alive(w, h), buf[h * 5 + w]);
        }
    }
    assert_eq!(cells_of(&world), buf);
}

#[test]
fn set_alive_counts_only_real_changes() {
    let mut world = World::empty(3, 2);
    world.set_alive(2, 1, true);
    assert_eq!(world.alive(), 1);
    world.set_alive(2, 1, true);
    assert_eq!(world.alive(), 1);
    world.set_alive(0, 0, false);
    assert_eq!(world.alive(), 0 + 1);
    world.set_alive(2, 1, false);
    assert_eq!(world.alive(), 0);
    world.set_alive(2, 1, false);
    assert_eq!(world.alive(), 0);
    assert_eq!(world.generation(), 0);
}

#[test]
fn set_alive_writes_the_named_cell() {
    let mut world = World::empty(4, 3);
    world.set_alive(1, 2, true);
    assert_eq!(live_cells(&world), vec![(1, 2)]);
    let mut want = vec![false; 12];
    want[2 * 4 + 1] = true;
    assert_eq!(cells_of(&world), want);
}

#[test]
fn a_lonely_cell_in_the_corner_dies() {
    let mut world = world_with(3, 3, &[(0, 0)]);
    let changes = world.next_generation();
    assert_eq!(changes, vec![(0, 0, false)]);
    assert!(!world.is_alive(0, 0));
    assert_eq!(world.alive(), 0);
    assert_eq!(world.generation(), 1);
}

#[test]
fn neighbours_are_found_across_the_edges() {
    // three cells in three corners of a 4x4 world are one another's
    // neighbours only around the torus; the fourth corner comes alive
    let mut world = world_with(4, 4, &[(0, 0), (3, 0), (0, 3)]);
    world.next_generation();
    assert!(world.is_alive(3, 3));
    assert_eq!(live_cells(&world), vec![(0, 0), (3, 0), (0, 3), (3, 3)]);
}

#[test]
fn a_block_stays_as_it_is() {
    for (width, height) in [(4, 4), (4, 7), (6, 5), (9, 9)] {
        for top in 0..height {
            for left in 0..width {
                let right = (left + 1) % width;
                let bottom = (top + 1) % height;
                let block = [(left, top), (right, top), (left, bottom), (right, bottom)];
                let mut world = world_with(width, height, &block);
                let before = cells_of(&world);
                for generation in 1..=5 {
                    assert_eq!(world.next_generation(), vec![]);
                    assert_eq!(cells_of(&world), before);
                    assert_eq!(world.alive(), 4);
                    assert_eq!(world.generation(), generation);
                }
            }
        }
    }
}

#[test]
fn a_blinker_turns_and_turns_back() {
    let mut world = world_with(5, 5, &[(1, 2), (2, 2), (3, 2)]);
    let flat = cells_of(&world);
    let changes = world.next_generation();
    assert_eq!(changes, vec![(2, 1, true), (1, 2, false), (3, 2, false), (2, 3, true)]);
    assert_eq!(live_cells(&world), vec![(2, 1), (2, 2), (2, 3)]);
    assert_eq!(world.alive(), 3);
    let changes = world.next_generation();
    assert_eq!(changes, vec![(2, 1, false), (1, 2, true), (3, 2, true), (2, 3, false)]);
    assert_eq!(cells_of(&world), flat);
    assert_eq!(world.generation(), 2);
}

#[test]
fn a_blinker_has_period_two_anywhere() {
    for (width, height) in [(4, 4), (5, 4), (4, 6), (7, 7)] {
        for row in 0..height {
            for centre in 0..width {
                let left = (centre + width - 1) % width;
                let right = (centre + 1) % width;
                let up = (row + height - 1) % height;
                let down = (row + 1) % height;
                let mut world = world_with(width, height, &[(left, row), (centre, row), (right, row)]);
                let flat = cells_of(&world);
                world.next_generation();
                let mut upright = live_cells(&world);
                upright.sort();
                let mut want = vec![(centre, up), (centre, row), (centre, down)];
                want.sort();
                assert_eq!(upright, want);
                world.next_generation();
                assert_eq!(cells_of(&world), flat);
            }
        }
    }
}

#[test]
fn changes_come_edges_first() {
    let mut world = world_with(4, 4, &[(0, 0), (1, 0), (2, 0)]);
    assert_eq!(
        world.next_generation(),
        vec![(0, 0, false), (2, 0, false), (1, 3, true), (1, 1, true)]
    );
    let mut world = world_with(6, 6, &[(5, 5), (0, 5), (1, 5), (1, 4), (0, 3)]);
    assert_eq!(
        world.next_generation(),
        vec![(0, 0, true), (5, 5, false), (0, 3, false), (5, 4, true)]
    );
    let live = [(0, 0), (4, 0), (0, 3), (2, 1), (2, 2), (3, 2), (4, 2), (0, 1)];
    let mut world = world_with(5, 4, &live);
    assert_eq!(world.next_generation(), vec![(1, 3, true), (0, 2, true)]);
}

#[test]
fn on_a_narrow_world_a_neighbour_counts_each_time_it_is_met() {
    let mut world = world_with(1, 1, &[(0, 0)]);
    assert_eq!(world.next_generation(), vec![(0, 0, false)]);
    assert_eq!(world.alive(), 0);

    let mut world = world_with(2, 2, &[(0, 0)]);
    assert_eq!(world.next_generation(), vec![(0, 0, false)]);

    let mut world = world_with(2, 2, &[(0, 0), (1, 0)]);
    assert_eq!(world.next_generation(), vec![]);
    assert_eq!(world.alive(), 2);

    let mut world = world_with(1, 3, &[(0, 0), (0, 1)]);
    assert_eq!(world.next_generation(), vec![(0, 0, false), (0, 1, false)]);
    assert_eq!(world.alive(), 0);

    let mut world = world_with(3, 1, &[(0, 0), (1, 0)]);
    assert_eq!(world.next_generation(), vec![(0, 0, false), (1, 0, false)]);
    assert_eq!(world.alive(), 0);
}

#[test]
fn every_cell_is_judged_on_the_old_generation() {
    let mut rng = XorShiftRng::new_unseeded();
    for (width, height) in [(1, 1), (1, 6), (6, 1), (2, 2), (2, 5), (3, 3), (8, 5), (17, 13)] {
        let mut world = World::random(&mut rng, width, height);
        for generation in 1..=8 {
            let before = cells_of(&world);
            let want = reference_step(&before, width, height);
            let changes = world.next_generation();
            let after = cells_of(&world);
            assert_eq!(after, want, "{}x{} generation {}", width, height, generation);
            assert_eq!(world.alive(), scan_count(&world));
            assert_eq!(world.generation(), generation);
            // the report names each flipped cell once, with its new state
            let flipped = (0..before.len()).filter(|&i| before[i] != after[i]).count();
            assert_eq!(changes.len(), flipped);
            let mut seen = vec![false; before.len()];
            for (w, h, alive) in changes {
                let i = h * width + w;
                assert!(!seen[i]);
                seen[i] = true;
                assert_ne!(before[i], after[i]);
                assert_eq!(after[i], alive);
            }
        }
    }
}

#[test]
fn the_callback_hears_every_change_in_order() {
    let mut world = world_with(4, 4, &[(0, 0), (1, 0), (2, 0)]);
    let mut heard = Vec::new();
    world.advance_generation(|w, h, alive| heard.push((w, h, alive)));
    assert_eq!(heard, vec![(0, 0, false), (2, 0, false), (1, 3, true), (1, 1, true)]);
    assert_eq!(live_cells(&world), vec![(1, 0), (1, 1), (1, 3)]);
    assert_eq!(world.generation(), 1);
    assert_eq!(world.alive(), 3);
}

#[test]
fn advancing_with_and_without_a_callback_is_the_same() {
    let mut rng = XorShiftRng::new_unseeded();
    let mut pushed = World::random(&mut rng, 11, 7);
    let mut pulled = World::from_cells(11, 7, cells_of(&pushed)).unwrap();
    for _ in 0..6 {
        let mut heard = Vec::new();
        pushed.advance_generation(|w, h, alive| heard.push((w, h, alive)));
        assert_eq!(heard, pulled.next_generation());
        assert_eq!(cells_of(&pushed), cells_of(&pulled));
        assert_eq!(pushed.generation(), pulled.generation());
        assert_eq!(pushed.alive(), pulled.alive());
    }
}

#[test]
fn shrinking_folds_the_world() {
    let mut world = world_with(4, 4, &[(3, 3)]);
    world.expand_to(2, 2);
    assert_eq!((world.width(), world.height()), (2, 2));
    assert!(world.is_alive(1, 1));
    assert_eq!(live_cells(&world), vec![(1, 1)]);
    assert_eq!(world.alive(), 1);
}

#[test]
fn cells_that_land_together_merge() {
    let mut world = world_with(5, 4, &[(0, 0), (2, 0), (4, 0), (1, 3), (3, 2)]);
    world.next_generation();
    let generation = world.generation();
    let mut world = world_with(5, 4, &[(0, 0), (2, 0), (4, 0), (1, 3), (3, 2)]);
    world.expand_to(2, 2);
    // (0,0), (2,0), (4,0) -> (0,0); (1,3) -> (1,1); (3,2) -> (1,0)
    assert_eq!(live_cells(&world), vec![(0, 0), (1, 0), (1, 1)]);
    assert_eq!(world.alive(), 3);
    assert_eq!(world.generation(), 0);
    assert_eq!(generation, 1);
}

#[test]
fn growing_keeps_every_cell_in_place() {
    let live = [(0, 0), (2, 1), (1, 2)];
    let mut world = world_with(3, 3, &live);
    world.next_generation();
    let before = live_cells(&world);
    let count = world.alive();
    world.expand_to(7, 5);
    assert_eq!((world.width(), world.height()), (7, 5));
    assert_eq!(live_cells(&world), before);
    assert_eq!(world.alive(), count);
    assert_eq!(world.generation(), 1);
}

#[test]
fn resizing_to_the_same_size_changes_nothing() {
    let mut world = world_with(4, 3, &[(0, 0), (3, 2), (1, 1)]);
    let before = cells_of(&world);
    world.expand_to(4, 3);
    assert_eq!(cells_of(&world), before);
    assert_eq!((world.width(), world.height(), world.alive()), (4, 3, 3));
}

#[test]
fn resizing_can_change_one_dimension() {
    let mut world = world_with(4, 3, &[(3, 0), (1, 2)]);
    world.expand_to(2, 3);
    assert_eq!(live_cells(&world), vec![(1, 0), (1, 2)]);
    world.expand_to(2, 2);
    assert_eq!(live_cells(&world), vec![(1, 0)]);
    assert_eq!(world.alive(), 1);
}

#[test]
fn the_count_of_live_cells_follows_every_change() {
    let mut rng = XorShiftRng::new_unseeded();
    let mut world = World::random(&mut rng, 9, 6);
    assert_eq!(world.alive(), scan_count(&world));
    let sizes = [(9, 6), (4, 6), (4, 3), (10, 10), (1, 1), (5, 2), (12, 7)];
    for (round, &(width, height)) in sizes.iter().enumerate() {
        world.expand_to(width, height);
        assert_eq!(world.alive(), scan_count(&world));
        world.set_alive(round % width, round % height, round % 2 == 0);
        assert_eq!(world.alive(), scan_count(&world));
        world.set_alive(0, 0, true);
        assert_eq!(world.alive(), scan_count(&world));
        world.advance_generation(|_, _, _| {});
        assert_eq!(world.alive(), scan_count(&world));
        world.next_generation();
        assert_eq!(world.alive(), scan_count(&world));
    }
    assert_eq!(world.generation(), 2 * sizes.len());
}

#[test]
fn three_draws_in_ten_are_alive() {
    assert_eq!((ALIVE_DRAWS, DRAW_RANGE), (3, 10));
    let alive: Vec<bool> = (0..10).map(alive_on_draw).collect();
    assert_eq!(alive, vec![true, true, true, false, false, false, false, false, false, false]);
}

#[test]
fn a_random_world_has_the_size_asked_for() {
    let mut rng = XorShiftRng::new_unseeded();
    let world = World::random(&mut rng, 13, 4);
    assert_eq!((world.width(), world.height()), (13, 4));
    assert_eq!(world.generation(), 0);
    assert_eq!(world.alive(), scan_count(&world));
    let world = World::random(&mut rng, 0, 4);
    assert_eq!((world.width(), world.height(), world.alive()), (0, 4, 0));
}

#[test]
fn a_random_world_is_about_a_third_alive() {
    let mut rng = XorShiftRng::new_unseeded();
    let world = World::random(&mut rng, 100, 100);
    let alive = world.alive();
    assert!(2600 < alive && alive < 3400, "{}", alive);
}

#[test]
fn a_random_world_follows_its_source() {
    let first = World::random(&mut XorShiftRng::new_unseeded(), 20, 20);
    let second = World::random(&mut XorShiftRng::new_unseeded(), 20, 20);
    assert_eq!(cells_of(&first), cells_of(&second));
    let mut rng = XorShiftRng::new_unseeded();
    let third = World::random(&mut rng, 20, 20);
    let fourth = World::random(&mut rng, 20, 20);
    assert_eq!(cells_of(&first), cells_of(&third));
    assert_ne!(cells_of(&third), cells_of(&fourth));
}

#[test]
fn a_row_is_drawn_cell_by_cell() {
    let world = world_with(5, 2, &[(0, 0), (3, 0), (4, 1)]);
    let mut sink = String::new();
    world.render_row(0, 'O', ' ', &mut sink);
    assert_eq!(sink, "O  O ");
    let mut sink = String::new();
    world.render_row(1, '#', '.', &mut sink);
    assert_eq!(sink, "....#");
}

#[test]
fn drawing_a_row_keeps_what_the_sink_held() {
    let world = world_with(3, 1, &[(1, 0)]);
    let mut sink = String::from("> ");
    world.render_row(0, 'O', '.', &mut sink);
    world.render_row(0, 'é', '-', &mut sink);
    assert_eq!(sink, "> .O.-é-");
}
