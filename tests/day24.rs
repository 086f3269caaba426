use aoc2022::day24::{
    distance_to, next_states, ESTIMATE_CAP, arrival_time, bfs_arrival_time, generator, journey, move_blizzard, part1, part2, Blizzard, Direction,
    SearchError, SliceCache, State, ValleyError, TICK_LIMIT,
};

const EXAMPLE_MAP: &str = "#.######\n\
                           #>>.<^<#\n\
                           #.<..<<#\n\
                           #>v.><>#\n\
                           #<^v^^>#\n\
                           ######.#\n";

const EXAMPLE: [&str; 4] = [">>.<^<", ".<..<<", ">v.><>", "<^v^^>"];

fn blizzards_of(rows: &[&str]) -> Vec<Blizzard> {
    let mut out = Vec::new();
    for (r, line) in rows.iter().enumerate() {
        for (c, ch) in line.chars().enumerate() {
            let heading = match ch {
                '>' => Direction::Right,
                'v' => Direction::Down,
                '<' => Direction::Left,
                '^' => Direction::Up,
                _ => continue,
            };
            out.push(Blizzard { row: r as i32, col: c as i32, heading });
        }
    }
    out
}

fn example() -> State {
    State::new(4, 6, 0, 5, blizzards_of(&EXAMPLE)).unwrap()
}

#[test]
fn day24_test_part1() {
    let world = generator(EXAMPLE_MAP).unwrap();
    assert_eq!(part1(&world), Ok(18));
}

#[test]
fn day24_test_part2() {
    let world = generator(EXAMPLE_MAP).unwrap();
    assert_eq!(part2(&world), Ok(54));
}

#[test]
fn map_reads_like_the_layout() {
    let world = generator(EXAMPLE_MAP).unwrap();
    let built = example();
    assert_eq!((world.height, world.width, world.start, world.end), (4, 6, (-1, 0), (4, 5)));
    assert_eq!(world.blizzards, built.blizzards);
    assert!(generator("#.#\n#x#\n#.#\n").is_none());
    assert!(generator("###\n#.#\n#.#\n").is_none());
    assert!(generator("#.#\n#.#\n").is_none());
    assert!(generator("#.##\n#.#\n#.#\n").is_none());
    let tiny = generator("#.#\n#>#\n#.#").unwrap();
    assert_eq!(tiny.blizzards, vec![Blizzard { row: 0, col: 0, heading: Direction::Right }]);
}

#[test]
fn legs_chain_through_one_cache() {
    let st = example();
    let mut cache = SliceCache::new(&st);
    let there = arrival_time(&st, &mut cache, st.start, st.end, 0, TICK_LIMIT).unwrap();
    assert_eq!(there, 18);
    let back = arrival_time(&st, &mut cache, st.end, st.start, there, TICK_LIMIT).unwrap();
    assert_eq!(back, 41);
    let again = arrival_time(&st, &mut cache, st.start, st.end, back, TICK_LIMIT).unwrap();
    assert_eq!(again, 54);
    assert!(there > 0 && back > there && again > back);
}

#[test]
fn journey_matches_part2() {
    let st = example();
    let mut cache = SliceCache::new(&st);
    let legs = vec![(st.start, st.end), (st.end, st.start), (st.start, st.end)];
    assert_eq!(journey(&st, &mut cache, &legs, TICK_LIMIT), Ok(54));
    assert_eq!(journey(&st, &mut cache, &vec![], TICK_LIMIT), Ok(0));
}

#[test]
fn astar_and_bfs_agree() {
    let st = example();
    let mut cache = SliceCache::new(&st);
    for t0 in 0..30 {
        let a = arrival_time(&st, &mut cache, st.start, st.end, t0, TICK_LIMIT);
        let b = bfs_arrival_time(&st, &mut cache, st.start, st.end, t0, TICK_LIMIT);
        assert_eq!(a, b);
        let a = arrival_time(&st, &mut cache, st.end, st.start, t0, TICK_LIMIT);
        let b = bfs_arrival_time(&st, &mut cache, st.end, st.start, t0, TICK_LIMIT);
        assert_eq!(a, b);
    }
}

#[test]
fn search_is_deterministic() {
    let st = example();
    let mut fresh = SliceCache::new(&st);
    let first = arrival_time(&st, &mut fresh, st.start, st.end, 5, TICK_LIMIT);
    let second = arrival_time(&st, &mut fresh, st.start, st.end, 5, TICK_LIMIT);
    let mut other = SliceCache::new(&st);
    let third = arrival_time(&st, &mut other, st.start, st.end, 5, TICK_LIMIT);
    assert_eq!(first, second);
    assert_eq!(first, third);
}

#[test]
fn limit_too_small_is_reported() {
    let st = example();
    let mut cache = SliceCache::new(&st);
    assert_eq!(arrival_time(&st, &mut cache, st.start, st.end, 0, 17), Err(SearchError::NotReachableWithinLimit));
    assert_eq!(bfs_arrival_time(&st, &mut cache, st.start, st.end, 0, 17), Err(SearchError::NotReachableWithinLimit));
    assert_eq!(arrival_time(&st, &mut cache, st.start, st.end, 0, 18), Ok(18));
    assert_eq!(arrival_time(&st, &mut cache, st.start, st.end, 20, 10), Err(SearchError::NotReachableWithinLimit));
}

#[test]
fn empty_valley_is_crossed_directly() {
    let st = State::new(3, 3, 0, 2, vec![]).unwrap();
    assert_eq!(part1(&st), Ok(6));
}

#[test]
fn slice_zero_is_initial_layout() {
    let st = example();
    let mut cache = SliceCache::new(&st);
    let occ = cache.slice_at(&st, 0);
    assert_eq!(occ.len(), 24);
    for r in 0..4 {
        for c in 0..6 {
            let expected = EXAMPLE[r].as_bytes()[c] != b'.';
            assert_eq!(occ[r * 6 + c], expected);
        }
    }
}

#[test]
fn slice_is_memoized() {
    let st = example();
    let mut cache = SliceCache::new(&st);
    let late = cache.slice_at(&st, 12);
    let early = cache.slice_at(&st, 3);
    assert_eq!(cache.slice_at(&st, 12), late);
    assert_eq!(cache.slice_at(&st, 3), early);
    let mut other = SliceCache::new(&st);
    assert_eq!(other.slice_at(&st, 3), early);
    // Every blizzard in a 4 x 6 valley is back home after 12 ticks.
    assert_eq!(late, cache.slice_at(&st, 0));
}

#[test]
fn blizzards_wrap_around() {
    let b = Blizzard { row: 2, col: 5, heading: Direction::Right };
    let r = move_blizzard(&b, 4, 6);
    assert_eq!((r.row, r.col, r.heading), (2, 0, Direction::Right));
    let b = Blizzard { row: 0, col: 3, heading: Direction::Up };
    assert_eq!(move_blizzard(&b, 4, 6), Blizzard { row: 3, col: 3, heading: Direction::Up });
    let b = Blizzard { row: 1, col: 0, heading: Direction::Left };
    assert_eq!(move_blizzard(&b, 4, 6), Blizzard { row: 1, col: 5, heading: Direction::Left });
    let b = Blizzard { row: 3, col: 1, heading: Direction::Down };
    assert_eq!(move_blizzard(&b, 4, 6), Blizzard { row: 0, col: 1, heading: Direction::Down });
    let mut b = Blizzard { row: 1, col: 2, heading: Direction::Right };
    let start = b;
    for _ in 0..6 {
        b = move_blizzard(&b, 4, 6);
    }
    assert_eq!(b, start);
}

#[test]
fn valley_pictures() {
    let st = generator(EXAMPLE_MAP).unwrap();
    assert_eq!(st.draw(), "# ######\n#>> <^<#\n# <  <<#\n#>v ><>#\n#<^v^^>#\n###### #\n");
    let mut cache = SliceCache::new(&st);
    let one = cache.state_at(&st, 1);
    assert_eq!(one.draw(), "# ######\n# >3 < #\n#<  << #\n#>2 22 #\n#>v  ^<#\n###### #\n");
    let crowded = State::new(1, 1, 0, 0, vec![Blizzard { row: 0, col: 0, heading: Direction::Up }; 12]).unwrap();
    assert_eq!(crowded.draw(), "# #\n#12#\n# #\n");
}

#[test]
fn bad_valleys_are_refused() {
    assert_eq!(State::new(0, 6, 0, 5, vec![]).err(), Some(ValleyError::BadDimensions));
    assert_eq!(State::new(4, 6, 6, 5, vec![]).err(), Some(ValleyError::BadEndpoint));
    let outside = vec![Blizzard { row: 4, col: 0, heading: Direction::Up }];
    assert_eq!(State::new(4, 6, 0, 5, outside).err(), Some(ValleyError::BlizzardOutside));
}

#[test]
fn far_targets_do_not_overflow() {
    let st = example();
    let mut cache = SliceCache::new(&st);
    assert_eq!(distance_to(&((0, 0), 0), (i32::MIN, i32::MIN)), ESTIMATE_CAP);
    assert_eq!(distance_to(&((0, 0), 0), (3, -4)), 7);
    assert_eq!(
        arrival_time(&st, &mut cache, st.start, (i32::MIN, i32::MIN), 0, 40),
        Err(SearchError::NotReachableWithinLimit)
    );
}

#[test]
fn neighbour_rule_lists_each_cell_once() {
    let st = State::new(3, 3, 0, 2, vec![]).unwrap();
    let mut cache = SliceCache::new(&st);
    let next = next_states(&st, &mut cache, &((1, 1), 0), 10);
    let cells: Vec<(i32, i32)> = next.iter().map(|s| s.0 .0).collect();
    assert_eq!(cells, vec![(1, 1), (0, 1), (2, 1), (1, 0), (1, 2)]);
    assert!(next.iter().all(|s| s.1 == 1 && s.0 .1 == 1));
    assert!(next_states(&st, &mut cache, &((1, 1), 10), 10).is_empty());
}
