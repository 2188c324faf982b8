use rand::rngs::StdRng;
use rand::SeedableRng;
use wordsearch::direction::Direction;
use wordsearch::error::GridError;
use wordsearch::grid::{Grid, Placement};

const ALL: [Direction; 8] = [
    Direction::East,
    Direction::Southeast,
    Direction::South,
    Direction::Southwest,
    Direction::West,
    Direction::Northwest,
    Direction::North,
    Direction::Northeast,
];

fn words(list: &[&str]) -> Vec<String> {
    list.iter().map(|w| w.to_string()).collect()
}

/// Whether `word` can be read in `rows` from `(x0, y0)` in direction `dir`.
fn reads(rows: &[Vec<char>], word: &str, dir: Direction, x0: usize, y0: usize) -> bool {
    let (dx, dy) = dir.next();
    word.chars().enumerate().all(|(i, letter)| {
        let x = x0 as isize + i as isize * dx;
        let y = y0 as isize + i as isize * dy;
        0 <= y
            && (y as usize) < rows.len()
            && 0 <= x
            && (x as usize) < rows[y as usize].len()
            && rows[y as usize][x as usize] == letter
    })
}

/// Whether `word` can be read somewhere in `rows`.
fn appears(rows: &[Vec<char>], word: &str) -> bool {
    (0..rows.len()).any(|y0| {
        (0..rows[y0].len()).any(|x0| ALL.iter().any(|dir| reads(rows, word, *dir, x0, y0)))
    })
}

/// The cells of a grid, row by row.
fn cells(grid: &Grid) -> Vec<Vec<Option<char>>> {
    (0..grid.height())
        .map(|y| (0..grid.width()).map(|x| grid.get(x, y)).collect())
        .collect()
}

#[test]
fn new_makes_an_empty_grid_of_the_default_size() {
    let grid = Grid::new(words(&["CAT", "DOG"]), None, None).unwrap();
    assert_eq!((grid.width(), grid.height()), (4, 4));
    assert_eq!(grid.empty_count(), 16);
    assert_eq!(cells(&grid), vec![vec![None; 4]; 4]);
}

#[test]
fn new_never_makes_a_grid_too_small_for_the_longest_word() {
    let grid = Grid::new(words(&["CAT", "GIRAFFE"]), Some(2), Some(3)).unwrap();
    assert_eq!((grid.width(), grid.height()), (7, 7));
    let grid = Grid::new(words(&["CAT", "GIRAFFE"]), Some(9), Some(8)).unwrap();
    assert_eq!((grid.width(), grid.height()), (9, 8));
    assert_eq!(grid.empty_count(), 72);
}

#[test]
fn new_refuses_a_list_without_words() {
    assert_eq!(Grid::new(Vec::new(), None, None).err(), Some(GridError::EmptyWordList));
    assert_eq!(Grid::new(Vec::new(), Some(3), Some(3)).err(), Some(GridError::EmptyWordList));
}

#[test]
fn get_outside_the_grid_is_none() {
    let mut grid = Grid::new(words(&["CAT"]), Some(3), Some(3)).unwrap();
    assert!(grid.try_word("CAT", Direction::East, 0, 0));
    assert_eq!(grid.get(2, 0), Some('T'));
    assert_eq!(grid.get(3, 0), None);
    assert_eq!(grid.get(0, 3), None);
    assert_eq!(grid.get(0, 1), None);
}

#[test]
fn try_word_writes_the_letters_along_the_direction() {
    for dir in ALL {
        let mut grid = Grid::new(words(&["CAT"]), Some(5), Some(5)).unwrap();
        assert!(grid.try_word("CAT", dir, 2, 2));
        let (dx, dy) = dir.next();
        let mut expected = vec![vec![None; 5]; 5];
        for (i, letter) in "CAT".chars().enumerate() {
            let x = (2 + i as isize * dx) as usize;
            let y = (2 + i as isize * dy) as usize;
            expected[y][x] = Some(letter);
        }
        assert_eq!(cells(&grid), expected);
        assert_eq!(grid.empty_count(), 22);
    }
}

#[test]
fn try_word_southwest_from_a_corner() {
    let mut grid = Grid::new(words(&["DOG"]), Some(3), Some(3)).unwrap();
    assert!(grid.try_word("DOG", Direction::Southwest, 2, 0));
    assert_eq!(
        cells(&grid),
        vec![
            vec![None, None, Some('D')],
            vec![None, Some('O'), None],
            vec![Some('G'), None, None],
        ]
    );
}

#[test]
fn words_that_share_the_letter_where_they_cross_are_both_placed() {
    let mut grid = Grid::new(words(&["CAT", "CAR"]), Some(4), Some(4)).unwrap();
    assert!(grid.try_word("CAT", Direction::East, 0, 0));
    assert!(grid.try_word("CAR", Direction::South, 0, 0));
    assert_eq!(
        cells(&grid),
        vec![
            vec![Some('C'), Some('A'), Some('T'), None],
            vec![Some('A'), None, None, None],
            vec![Some('R'), None, None, None],
            vec![None, None, None, None],
        ]
    );
    // The same word over itself is no conflict either.
    assert!(grid.try_word("CAT", Direction::East, 0, 0));
    assert_eq!(grid.empty_count(), 11);
}

#[test]
fn words_that_differ_where_they_cross_are_not_both_placed() {
    let mut grid = Grid::new(words(&["CAT", "DOG"]), Some(4), Some(4)).unwrap();
    assert!(grid.try_word("CAT", Direction::East, 0, 0));
    let before = cells(&grid);
    // `D` on `C`, `O` on `A`, `G` on `T`.
    assert!(!grid.try_word("DOG", Direction::South, 0, 0));
    assert!(!grid.try_word("DOG", Direction::Southwest, 2, 0));
    assert!(!grid.try_word("DOG", Direction::North, 2, 2));
    assert_eq!(cells(&grid), before);
    // Beside it there is room.
    assert!(grid.try_word("DOG", Direction::South, 3, 0));
    assert_eq!(grid.get(3, 0), Some('D'));
    assert_eq!(grid.get(3, 2), Some('G'));
}

#[test]
fn a_rejected_word_leaves_the_letters_that_matched_unwritten() {
    let mut grid = Grid::new(words(&["CAT", "COB"]), Some(3), Some(3)).unwrap();
    assert!(grid.try_word("CAT", Direction::South, 2, 0));
    let before = cells(&grid);
    // `C` and `O` meet empty cells, `B` meets the `C` of `CAT`.
    assert!(!grid.try_word("COB", Direction::East, 0, 0));
    assert_eq!(cells(&grid), before);
}

#[test]
fn try_word_rejects_a_word_that_leaves_the_grid() {
    let mut grid = Grid::new(words(&["CAT"]), Some(3), Some(3)).unwrap();
    assert!(!grid.try_word("CAT", Direction::East, 1, 0));
    assert!(!grid.try_word("CAT", Direction::West, 1, 0));
    assert!(!grid.try_word("CAT", Direction::North, 0, 1));
    assert!(!grid.try_word("CAT", Direction::South, 0, 1));
    assert!(!grid.try_word("CAT", Direction::East, 3, 0));
    assert!(!grid.try_word("CAT", Direction::East, 0, 3));
    assert!(!grid.try_word("CAT", Direction::East, usize::MAX, usize::MAX));
    assert!(!grid.try_word("CATS", Direction::East, 0, 0));
    assert_eq!(grid.empty_count(), 9);
}

#[test]
fn place_word_reports_exhaustion_on_a_grid_of_one_cell() {
    for seed in 0..20 {
        let mut rng = StdRng::seed_from_u64(seed);
        let mut grid = Grid::new(words(&["A"]), Some(1), Some(1)).unwrap();
        assert_eq!((grid.width(), grid.height()), (1, 1));
        assert_eq!(
            grid.place_word("AB", &mut rng),
            Err(GridError::PlacementExhausted { word: "AB".to_string(), attempts: 1 })
        );
        assert_eq!(grid.get(0, 0), None);
    }
}

#[test]
fn place_word_has_no_attempt_on_a_full_grid() {
    let mut rng = StdRng::seed_from_u64(1);
    let mut grid = Grid::new(words(&["AB"]), Some(2), Some(2)).unwrap();
    grid.fill(&mut rng);
    assert_eq!(grid.empty_count(), 0);
    let before = cells(&grid);
    let first = grid.get(0, 0).unwrap().to_string();
    // Even a word that the grid already shows gets no attempt.
    assert_eq!(
        grid.place_word(&first, &mut rng),
        Err(GridError::PlacementExhausted { word: first.clone(), attempts: 0 })
    );
    assert_eq!(cells(&grid), before);
}

#[test]
fn place_word_on_an_empty_grid_succeeds_at_once() {
    for seed in 0..50 {
        let mut rng = StdRng::seed_from_u64(seed);
        let mut grid = Grid::new(words(&["HORSE"]), Some(6), Some(7)).unwrap();
        let at = grid.place_word("HORSE", &mut rng).unwrap();
        assert_eq!(grid.empty_count(), 37);
        let rows: Vec<Vec<char>> = cells(&grid)
            .into_iter()
            .map(|row| row.into_iter().map(|cell| cell.unwrap_or('.')).collect())
            .collect();
        assert!(reads(&rows, "HORSE", at.dir, at.x, at.y));
        let (xs, ys) = at.dir.ranges(5, 6, 7).unwrap();
        assert!(xs.contains(&at.x) && ys.contains(&at.y));
    }
}

#[test]
fn place_word_finds_the_one_start_that_is_left() {
    for seed in 0..10 {
        let mut rng = StdRng::seed_from_u64(seed);
        let mut grid = Grid::new(words(&["ABC"]), Some(3), Some(3)).unwrap();
        // With the top row taken, only the left column, read downwards, begins with `A`
        // and is free below.
        assert!(grid.try_word("AXY", Direction::East, 0, 0));
        assert!(grid.try_word("ZZ", Direction::South, 1, 1));
        assert!(grid.try_word("ZZ", Direction::South, 2, 1));
        match grid.place_word("ABC", &mut rng) {
            Ok(at) => {
                assert_eq!(at, Placement { dir: Direction::South, x: 0, y: 0 });
                assert_eq!(grid.get(0, 1), Some('B'));
                assert_eq!(grid.get(0, 2), Some('C'));
                assert_eq!(grid.empty_count(), 0);
            }
            Err(error) => {
                assert_eq!(
                    error,
                    GridError::PlacementExhausted { word: "ABC".to_string(), attempts: 2 }
                );
                assert_eq!(grid.empty_count(), 2);
            }
        }
    }
}

#[test]
fn place_word_gives_up_on_a_word_that_conflicts_everywhere() {
    let mut rng = StdRng::seed_from_u64(3);
    let mut grid = Grid::new(words(&["AAA"]), Some(3), Some(3)).unwrap();
    // The middle row and the middle column hold `A`; every run of three cells crosses one.
    assert!(grid.try_word("AAA", Direction::East, 0, 1));
    assert!(grid.try_word("AAA", Direction::South, 1, 0));
    let before = cells(&grid);
    assert_eq!(grid.empty_count(), 4);
    assert_eq!(
        grid.place_word("BBB", &mut rng),
        Err(GridError::PlacementExhausted { word: "BBB".to_string(), attempts: 4 })
    );
    assert_eq!(cells(&grid), before);
}

#[test]
fn place_word_reports_a_word_without_letters() {
    let mut rng = StdRng::seed_from_u64(5);
    let mut grid = Grid::new(words(&["AB"]), Some(2), Some(2)).unwrap();
    assert_eq!(
        grid.place_word("", &mut rng),
        Err(GridError::PlacementExhausted { word: String::new(), attempts: 4 })
    );
}

#[test]
fn fill_leaves_no_cell_empty_and_no_letter_changed() {
    let mut rng = StdRng::seed_from_u64(11);
    let mut grid = Grid::new(words(&["cat"]), Some(5), Some(4)).unwrap();
    assert!(grid.try_word("cat", Direction::Southeast, 1, 0));
    grid.fill(&mut rng);
    assert_eq!(grid.empty_count(), 0);
    for y in 0..4 {
        for x in 0..5 {
            let letter = grid.get(x, y).unwrap();
            match (x, y) {
                (1, 0) => assert_eq!(letter, 'c'),
                (2, 1) => assert_eq!(letter, 'a'),
                (3, 2) => assert_eq!(letter, 't'),
                _ => assert!(('A'..='Z').contains(&letter)),
            }
        }
    }
}

#[test]
fn fill_draws_more_than_one_letter() {
    let mut rng = StdRng::seed_from_u64(12);
    let mut grid = Grid::new(words(&["A"]), Some(20), Some(20)).unwrap();
    grid.fill(&mut rng);
    let first = grid.get(0, 0);
    assert!(cells(&grid).iter().flatten().any(|cell| *cell != first));
}

#[test]
fn generate_cat_and_dog() {
    let mut rng = StdRng::seed_from_u64(42);
    let grid = Grid::new(words(&["CAT", "DOG"]), None, None).unwrap();
    let rows = grid.generate(&mut rng).unwrap();
    assert_eq!(rows.len(), 4);
    for row in &rows {
        assert_eq!(row.len(), 4);
        for letter in row {
            assert!(('A'..='Z').contains(letter));
        }
    }
    assert_eq!(rows.iter().map(|row| row.len()).sum::<usize>(), 16);
    assert!(appears(&rows, "CAT"));
    assert!(appears(&rows, "DOG"));
}

#[test]
fn generate_hides_every_word_and_leaves_no_gap() {
    let list = ["ZEBRA", "LION", "TIGER", "HIPPO", "OTTER", "MOLE", "YAK"];
    let mut solved = 0;
    for seed in 0..40 {
        let mut rng = StdRng::seed_from_u64(seed);
        let grid = Grid::new(words(&list), Some(9), Some(11)).unwrap();
        match grid.generate(&mut rng) {
            Ok(rows) => {
                solved += 1;
                assert_eq!(rows.len(), 11);
                for row in &rows {
                    assert_eq!(row.len(), 9);
                    assert!(row.iter().all(|letter| ('A'..='Z').contains(letter)));
                }
                for word in list {
                    assert!(appears(&rows, word));
                }
            }
            Err(GridError::PlacementExhausted { word, attempts }) => {
                assert!(list.contains(&word.as_str()));
                assert!(attempts <= 99);
            }
            Err(other) => panic!("{:?}", other),
        }
    }
    assert!(solved > 0);
}

#[test]
fn generate_with_the_same_seed_gives_the_same_puzzle() {
    let list = ["ZEBRA", "LION", "TIGER", "HIPPO", "OTTER", "MOLE", "YAK"];
    for seed in [0u64, 1, 2, 3, 1234567] {
        let mut first_rng = StdRng::seed_from_u64(seed);
        let mut second_rng = StdRng::seed_from_u64(seed);
        let first = Grid::new(words(&list), None, None).unwrap().generate(&mut first_rng);
        let second = Grid::new(words(&list), None, None).unwrap().generate(&mut second_rng);
        assert_eq!(first, second);
    }
}

#[test]
fn generate_with_another_seed_gives_another_puzzle() {
    let list = ["ZEBRA", "LION", "TIGER", "HIPPO", "OTTER", "MOLE", "YAK"];
    let mut first_rng = StdRng::seed_from_u64(1);
    let mut second_rng = StdRng::seed_from_u64(2);
    let first = Grid::new(words(&list), Some(12), Some(12)).unwrap().generate(&mut first_rng);
    let second = Grid::new(words(&list), Some(12), Some(12)).unwrap().generate(&mut second_rng);
    assert_ne!(first, second);
}

#[test]
fn generate_a_single_word_always_succeeds() {
    for seed in 0..30 {
        let mut rng = StdRng::seed_from_u64(seed);
        let grid = Grid::new(words(&["PUZZLE"]), None, None).unwrap();
        let rows = grid.generate(&mut rng).unwrap();
        assert_eq!(rows.len(), 6);
        assert!(rows.iter().all(|row| row.len() == 6));
        assert!(appears(&rows, "PUZZLE"));
    }
}

#[test]
fn generate_keeps_what_was_placed_by_hand() {
    let mut rng = StdRng::seed_from_u64(8);
    let mut grid = Grid::new(words(&["DOG"]), Some(5), Some(5)).unwrap();
    assert!(grid.try_word("CAT", Direction::South, 4, 1));
    let rows = grid.generate(&mut rng).unwrap();
    assert!(reads(&rows, "CAT", Direction::South, 4, 1));
    assert!(appears(&rows, "DOG"));
}

#[test]
fn generate_fails_on_the_second_of_two_words_for_one_cell() {
    let mut failed_on_a = false;
    let mut failed_on_b = false;
    for seed in 0..40 {
        let mut rng = StdRng::seed_from_u64(seed);
        let grid = Grid::new(words(&["A", "B"]), Some(1), Some(1)).unwrap();
        match grid.generate(&mut rng) {
            Err(GridError::PlacementExhausted { word, attempts }) => {
                assert_eq!(attempts, 0);
                match word.as_str() {
                    "A" => failed_on_a = true,
                    "B" => failed_on_b = true,
                    other => panic!("{}", other),
                }
            }
            other => panic!("{:?}", other),
        }
    }
    // The words are shuffled, so each of them comes second for some seed.
    assert!(failed_on_a && failed_on_b);
}

#[test]
fn generate_fails_on_a_word_without_letters() {
    let mut rng = StdRng::seed_from_u64(4);
    let grid = Grid::new(words(&["CAT", ""]), None, None).unwrap();
    match grid.generate(&mut rng) {
        Err(GridError::PlacementExhausted { word, .. }) => assert_eq!(word, ""),
        other => panic!("{:?}", other),
    }
}
