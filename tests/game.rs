use tiles2048::{ArrowDecoder, Direction, Table, Tile};

fn t(v: u32) -> Option<Tile> {
    Some(Tile::new(v))
}

fn values(cells: &[Option<Tile>]) -> Vec<Option<u32>> {
    cells.iter().map(|c| c.map(|x| x.value())).collect()
}

fn grid(vals: [u32; 16]) -> Table {
    let mut cells = [None; 16];
    for i in 0..16 {
        if vals[i] != 0 {
            cells[i] = t(vals[i]);
        }
    }
    Table::from_cells(cells)
}

fn grid_values(tbl: &Table) -> Vec<u32> {
    tbl.cells().iter().map(|c| c.map(|x| x.value()).unwrap_or(0)).collect()
}

fn sum(tbl: &Table) -> u64 {
    grid_values(tbl).iter().map(|&v| v as u64).sum()
}

#[test]
fn squeeze_all_empty() {
    let r = Tile::squeeze([None, None, None, None]);
    assert_eq!(values(&r), vec![None, None, None, None]);
}

#[test]
fn squeeze_four_equal() {
    let r = Tile::squeeze([t(2), t(2), t(2), t(2)]);
    assert_eq!(values(&r), vec![Some(4), Some(4), None, None]);
}

#[test]
fn squeeze_three_equal() {
    let r = Tile::squeeze([t(2), t(2), t(2), None]);
    assert_eq!(values(&r), vec![Some(4), Some(2), None, None]);
}

#[test]
fn squeeze_merge_after_distinct() {
    let r = Tile::squeeze([t(4), t(2), t(2), None]);
    assert_eq!(values(&r), vec![Some(4), Some(4), None, None]);
}

#[test]
fn squeeze_slides_over_gaps() {
    let r = Tile::squeeze([None, t(8), None, t(8)]);
    assert_eq!(values(&r), vec![Some(16), None, None, None]);
    let r = Tile::squeeze([t(2), None, t(4), t(2)]);
    assert_eq!(values(&r), vec![Some(2), Some(4), Some(2), None]);
}

#[test]
fn squeeze_merged_tile_does_not_merge_again() {
    let r = Tile::squeeze([t(2), t(2), t(4), None]);
    assert_eq!(values(&r), vec![Some(4), Some(4), None, None]);
}

#[test]
fn squeeze_twice_is_stable() {
    let once = Tile::squeeze([t(2), None, t(4), t(8)]);
    let twice = Tile::squeeze(once);
    assert_eq!(values(&once), vec![Some(2), Some(4), Some(8), None]);
    assert_eq!(values(&twice), values(&once));
}

#[test]
fn tile_new_and_double() {
    let mut x = Tile::new(8);
    assert_eq!(x.value(), 8);
    x.double();
    assert_eq!(x.value(), 16);
    assert_eq!(Tile::new(4), Tile::new(4));
    assert_ne!(Tile::new(4), Tile::new(2));
}

#[test]
fn new_table_is_empty() {
    let tbl = Table::new();
    assert_eq!(grid_values(&tbl), vec![0; 16]);
}

#[test]
fn move_left_and_right_on_a_row() {
    let start = grid([2, 2, 0, 0, 0, 0, 0, 0, 0, 0, 0, 0, 0, 0, 0, 0]);
    let mut left = start;
    left.swipe_left();
    assert_eq!(&grid_values(&left)[0..4], &[4, 0, 0, 0]);
    let mut right = start;
    right.swipe_right();
    assert_eq!(&grid_values(&right)[0..4], &[0, 0, 0, 4]);
}

#[test]
fn move_up_and_down_on_a_column() {
    let start = grid([2, 0, 0, 0, 0, 0, 0, 0, 2, 0, 0, 0, 4, 0, 0, 0]);
    let mut up = start;
    up.swipe_up();
    assert_eq!(grid_values(&up), vec![4, 0, 0, 0, 4, 0, 0, 0, 0, 0, 0, 0, 0, 0, 0, 0]);
    let mut down = start;
    down.swipe_down();
    assert_eq!(grid_values(&down), vec![0, 0, 0, 0, 0, 0, 0, 0, 4, 0, 0, 0, 4, 0, 0, 0]);
}

#[test]
fn swipe_by_direction_matches_named_moves() {
    let start = grid([2, 4, 4, 2, 0, 2, 2, 2, 8, 0, 8, 0, 2, 2, 4, 4]);
    let mut a = start;
    a.swipe(Direction::Left);
    let mut b = start;
    b.swipe_left();
    assert!(a == b);
    assert_eq!(
        grid_values(&a),
        vec![2, 8, 2, 0, 4, 2, 0, 0, 16, 0, 0, 0, 4, 8, 0, 0]
    );
}

#[test]
fn moves_keep_the_sum() {
    let start = grid([2, 4, 4, 2, 0, 2, 2, 2, 8, 0, 8, 0, 2, 2, 4, 4]);
    let total = sum(&start);
    for d in [Direction::Up, Direction::Down, Direction::Left, Direction::Right] {
        let mut g = start;
        g.swipe(d);
        assert_eq!(sum(&g), total);
    }
}

#[test]
fn unchanged_move_compares_equal() {
    let start = grid([2, 4, 0, 0, 0, 0, 0, 0, 0, 0, 0, 0, 0, 0, 0, 0]);
    let mut g = start;
    g.swipe_left();
    assert!(g == start);
    g.swipe_right();
    assert!(g != start);
}

#[test]
fn game_not_over_with_empty_cell() {
    let g = grid([2, 4, 2, 4, 4, 2, 4, 2, 2, 4, 2, 4, 4, 2, 4, 0]);
    assert!(!g.is_game_over());
    assert!(!Table::new().is_game_over());
}

#[test]
fn game_not_over_with_equal_row_neighbours() {
    let g = grid([2, 4, 2, 4, 4, 2, 4, 2, 2, 4, 2, 4, 4, 2, 8, 8]);
    assert!(!g.is_game_over());
}

#[test]
fn game_not_over_with_equal_column_neighbours() {
    let g = grid([2, 4, 2, 4, 4, 2, 4, 2, 2, 4, 2, 8, 4, 2, 4, 8]);
    assert!(!g.is_game_over());
}

#[test]
fn game_over_on_full_grid_without_pairs() {
    let g = grid([2, 4, 2, 4, 4, 2, 4, 2, 2, 4, 2, 4, 4, 2, 4, 2]);
    assert!(g.is_game_over());
}

#[test]
fn add_tile_fills_the_only_empty_cell() {
    for _ in 0..50 {
        let mut g = grid([2, 4, 2, 4, 4, 2, 4, 2, 2, 4, 0, 4, 4, 2, 4, 2]);
        assert_eq!(g.add_tile(), Ok(()));
        let v = grid_values(&g);
        assert!(v[10] == 2 || v[10] == 4);
        let mut rest = v.clone();
        rest[10] = 0;
        assert_eq!(rest, vec![2, 4, 2, 4, 4, 2, 4, 2, 2, 4, 0, 4, 4, 2, 4, 2]);
    }
}

#[test]
fn add_tile_on_full_grid_fails() {
    let start = grid([2, 4, 2, 4, 4, 2, 4, 2, 2, 4, 2, 4, 4, 2, 4, 2]);
    let mut g = start;
    assert_eq!(g.add_tile(), Err(()));
    assert!(g == start);
}

#[test]
fn add_tile_fills_one_cell_of_an_empty_table() {
    let mut g = Table::new();
    assert_eq!(g.add_tile(), Ok(()));
    assert_eq!(g.add_tile(), Ok(()));
    let v = grid_values(&g);
    assert_eq!(v.iter().filter(|&&x| x != 0).count(), 2);
    assert!(v.iter().all(|&x| x == 0 || x == 2 || x == 4));
}

#[test]
fn place_tile_picks_by_rolls() {
    let mut g = grid([2, 0, 4, 0, 0, 2, 2, 2, 2, 2, 2, 2, 2, 2, 2, 2]);
    assert_eq!(g.place_tile(4, 7), Ok(()));
    assert_eq!(grid_values(&g)[3], 4);
    assert_eq!(grid_values(&g)[1], 0);
    assert_eq!(g.place_tile(0, 2), Ok(()));
    assert_eq!(grid_values(&g)[1], 2);
    assert_eq!(g.place_tile(0, 2), Ok(()));
    assert_eq!(grid_values(&g)[4], 2);
    let full = g;
    assert_eq!(g.place_tile(3, 3), Err(()));
    assert!(g == full);
}

#[test]
fn doublable_check() {
    assert!(grid([2, 0, 0, 0, 0, 0, 0, 0, 0, 0, 0, 0, 0, 0, 0, 1 << 30]).is_doublable());
    assert!(!grid([0, 0, 0, 0, 0, 0, 0, 0, 0, 0, 0, 0, 0, 0, 0, 1 << 31]).is_doublable());
}

#[test]
fn direction_codes() {
    assert_eq!(Direction::from_code(0), Some(Direction::Up));
    assert_eq!(Direction::from_code(1), Some(Direction::Down));
    assert_eq!(Direction::from_code(2), Some(Direction::Right));
    assert_eq!(Direction::from_code(3), Some(Direction::Left));
    assert_eq!(Direction::from_code(4), None);
    assert_eq!(Direction::from_code(-1), None);
}

#[test]
fn tile_render_centres_value() {
    assert_eq!(Tile::new(2).render(), "  2   ");
    assert_eq!(Tile::new(16).render(), "  16  ");
    assert_eq!(Tile::new(128).render(), " 128  ");
    assert_eq!(Tile::new(2048).render(), " 2048 ");
    assert_eq!(Tile::new(1048576).render(), "1048576");
    assert_eq!(Tile::new(2).render(), format!("{:^6}", 2));
    assert_eq!(Tile::new(65536).render(), format!("{:^6}", 65536));
}

#[test]
fn table_render_layout() {
    let g = grid([2, 0, 0, 0, 0, 16, 0, 0, 0, 0, 128, 0, 0, 0, 0, 2048]);
    let rule = "-----------------------------\n";
    let expected = format!(
        "{r}|  2   |      |      |      |\n{r}|      |  16  |      |      |\n{r}|      |      | 128  |      |\n{r}|      |      |      | 2048 |\n{r}",
        r = rule
    );
    assert_eq!(g.render(), expected);
}

#[test]
fn arrow_decoder_reads_sequences() {
    let mut d = ArrowDecoder::new();
    assert_eq!(d.feed(0x1b), None);
    assert_eq!(d.feed(0x5b), None);
    assert_eq!(d.feed(0x43), Some(2));
    let mut d = ArrowDecoder::new();
    assert_eq!(d.feed(0x44), None);
    assert_eq!(d.feed(0x5b), None);
    assert_eq!(d.feed(0x41), None);
    assert_eq!(d.feed(0x1b), None);
    assert_eq!(d.feed(0x5b), None);
    assert_eq!(d.feed(0x42), Some(1));
    let mut d = ArrowDecoder::new();
    for ch in [0x1b, 0x5b, 0x44] {
        if let Some(c) = d.feed(ch) {
            assert_eq!(c, 3);
        }
    }
    let mut d = ArrowDecoder::new();
    assert_eq!(d.feed(0x1b), None);
    assert_eq!(d.feed(0x1b), None);
    assert_eq!(d.feed(0x5b), None);
    assert_eq!(d.feed(0x45), None);
    assert_eq!(d.feed(0x41), None);
}
