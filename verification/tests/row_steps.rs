use monster_town::cell::Container;
use monster_town::chance::Decision;
use monster_town::index::RowSetIndex;
use monster_town::row::advance_row;

const NO: Decision = Decision { wall_right: false, wall_below: false, spawn: false };
const RIGHT: Decision = Decision { wall_right: true, wall_below: false, spawn: false };
const BELOW: Decision = Decision { wall_right: false, wall_below: true, spawn: false };

fn blank() -> Container {
    Container {
        left_wall: false,
        right_wall: false,
        bottom_wall: false,
        top_wall: false,
        set: 0,
        let_spawn: false,
    }
}

fn in_set(set: usize) -> Container {
    Container { set, ..blank() }
}

fn sets(row: &[Container]) -> Vec<usize> {
    row.iter().map(|c| c.set).collect()
}

fn right_walls(row: &[Container]) -> Vec<bool> {
    row.iter().map(|c| c.right_wall).collect()
}

fn bottom_walls(row: &[Container]) -> Vec<bool> {
    row.iter().map(|c| c.bottom_wall).collect()
}

#[test]
fn index_lists_columns_by_set_in_order() {
    let row = vec![in_set(4), in_set(2), in_set(4), blank(), in_set(2), in_set(9)];
    let index = RowSetIndex::build(&row);
    assert_eq!(index.columns_of(4), vec![0, 2]);
    assert_eq!(index.columns_of(2), vec![1, 4]);
    assert_eq!(index.columns_of(9), vec![5]);
    assert_eq!(index.member_count(4), 2);
    assert_eq!(index.member_count(9), 1);
}

#[test]
fn index_has_no_entry_for_cells_without_set() {
    let row = vec![blank(), in_set(3), blank()];
    let index = RowSetIndex::build(&row);
    assert!(!index.contains_set(0));
    assert!(index.contains_set(3));
    assert!(!index.contains_set(1));
    assert_eq!(index.member_count(0), 0);
    assert_eq!(index.columns_of(0), Vec::<usize>::new());
    assert_eq!(index.columns_of(7), Vec::<usize>::new());
}

#[test]
fn index_of_empty_row_is_empty() {
    let index = RowSetIndex::build(&Vec::new());
    assert!(!index.contains_set(0));
    assert!(!index.contains_set(1));
}

#[test]
fn snapshot_lists_the_same_columns() {
    let row = vec![in_set(1), in_set(2), in_set(1)];
    let index = RowSetIndex::build(&row);
    let copy = index.snapshot();
    assert_eq!(copy.columns_of(1), vec![0, 2]);
    assert_eq!(copy.columns_of(2), vec![1]);
    assert!(!copy.contains_set(3));
}

#[test]
fn advance_row_needs_a_decision_per_cell() {
    assert!(advance_row(&vec![blank(), blank()], &vec![NO], true).is_none());
    assert!(advance_row(&vec![blank()], &vec![NO, NO], true).is_none());
    assert!(advance_row(&Vec::new(), &Vec::new(), true).is_none());
    assert!(advance_row(&vec![blank()], &vec![NO], true).is_some());
}

#[test]
fn first_row_from_blank_cells() {
    let scratch = vec![blank(); 4];
    let plan = vec![RIGHT, NO, RIGHT, NO];
    let (done, below) = advance_row(&scratch, &plan, true).unwrap();
    assert_eq!(sets(&done), vec![1, 2, 2, 4]);
    assert_eq!(right_walls(&done), vec![true, false, true, true]);
    assert_eq!(bottom_walls(&done), vec![false; 4]);
    assert!(done.iter().all(|c| c.top_wall));
    assert_eq!(done.iter().map(|c| c.left_wall).collect::<Vec<_>>(), vec![true, false, false, false]);
    assert_eq!(sets(&below), vec![1, 2, 2, 4]);
    assert_eq!(right_walls(&below), vec![false, false, false, true]);
}

#[test]
fn cells_under_bottom_walls_start_without_set() {
    let scratch = vec![in_set(5), in_set(5), in_set(5), in_set(7)];
    let both = Decision { wall_right: true, wall_below: true, spawn: false };
    let plan = vec![BELOW, BELOW, both, BELOW];
    let (done, below) = advance_row(&scratch, &plan, false).unwrap();
    assert_eq!(sets(&done), vec![5, 5, 5, 7]);
    assert_eq!(bottom_walls(&done), vec![true, true, false, false]);
    assert_eq!(right_walls(&done), vec![true, true, true, true]);
    assert_eq!(sets(&below), vec![0, 0, 5, 7]);
    assert_eq!(bottom_walls(&below), vec![false; 4]);
    assert_eq!(right_walls(&below), vec![false, false, false, true]);
    assert!(done.iter().all(|c| !c.top_wall));
}

#[test]
fn merged_set_keeps_one_way_down() {
    let scratch = vec![in_set(5), in_set(5), in_set(5), in_set(7)];
    let plan = vec![BELOW, BELOW, BELOW, BELOW];
    let (done, below) = advance_row(&scratch, &plan, false).unwrap();
    assert_eq!(sets(&done), vec![5, 5, 5, 5]);
    assert_eq!(right_walls(&done), vec![true, true, false, true]);
    assert_eq!(bottom_walls(&done), vec![true, true, true, false]);
    assert_eq!(sets(&below), vec![0, 0, 0, 5]);
}

#[test]
fn merge_moves_the_whole_right_set() {
    let scratch = vec![in_set(3), in_set(8), in_set(3), in_set(8)];
    let plan = vec![NO, RIGHT, RIGHT, NO];
    let (done, _) = advance_row(&scratch, &plan, false).unwrap();
    assert_eq!(sets(&done), vec![3, 3, 3, 3]);
    assert_eq!(right_walls(&done), vec![false, true, true, true]);
}

#[test]
fn orphans_take_the_smallest_free_ids_left_to_right() {
    let scratch = vec![blank(), in_set(1), blank(), in_set(3), blank()];
    let plan = vec![RIGHT; 5];
    let (done, _) = advance_row(&scratch, &plan, false).unwrap();
    assert_eq!(sets(&done), vec![2, 1, 4, 3, 5]);
    assert_eq!(right_walls(&done), vec![true; 5]);
}

#[test]
fn advance_row_leaves_its_input_alone() {
    let scratch = vec![blank(), in_set(1)];
    let before = scratch.clone();
    let _ = advance_row(&scratch, &vec![NO, NO], true).unwrap();
    assert_eq!(scratch, before);
}

#[test]
fn rows_advanced_one_by_one_chain() {
    let plan = vec![vec![BELOW, NO, RIGHT], vec![NO, RIGHT, NO]];
    let (first, scratch) = advance_row(&vec![blank(); 3], &plan[0], true).unwrap();
    let (second, _) = advance_row(&scratch, &plan[1], false).unwrap();
    assert_eq!(sets(&first), vec![1, 1, 1]);
    assert_eq!(bottom_walls(&first), vec![true, false, false]);
    assert_eq!(sets(&second), vec![2, 2, 2]);
    assert_eq!(right_walls(&second), vec![false, true, true]);
}
