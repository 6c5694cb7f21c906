use std::ops::Bound::{Excluded, Included, Unbounded};

use piecetable::{Buffer, Iter, PieceTable, Range};

fn drain<'a>(mut it: Iter<'a, i32>) -> Vec<&'a i32> {
    let mut out = Vec::new();
    while let Some(x) = it.next() {
        out.push(x);
    }
    out
}

fn drain_range<'a>(mut r: Range<'a, i32>) -> Vec<i32> {
    let mut out = Vec::new();
    while let Some(x) = r.next() {
        out.push(*x);
    }
    out
}

fn contents(table: &PieceTable<i32>) -> Vec<i32> {
    drain(table.iter()).into_iter().copied().collect()
}

#[test]
fn insert_linear_then_remove() {
    let mut table = PieceTable::new();

    table.insert(0, 1);
    table.insert(1, 2);
    table.insert(2, 3);

    table.insert(1, 27);

    table.insert(4, 4);
    table.insert(5, 5);

    table.remove(1);

    table.insert(5, 6);

    assert_eq!(vec![&1, &2, &3, &4, &5, &6], drain(table.iter()));
}

#[test]
fn source_then_mid_splice() {
    let src: Vec<i32> = (0..10).collect();
    let mut table = PieceTable::new().src(&src);
    table.insert(3, 42);
    assert_eq!(vec![2, 42, 3], drain_range(table.range(Included(2), Excluded(5))));
    assert_eq!(vec![0, 1, 2, 42, 3, 4, 5, 6, 7, 8, 9], contents(&table));
    assert_eq!(11, table.len());
}

#[test]
fn unbounded_included_excluded_ranges() {
    let src: Vec<i32> = (0..10).collect();
    let table = PieceTable::new().src(&src);
    assert_eq!(vec![0, 1, 2, 3, 4], drain_range(table.range(Unbounded, Excluded(5))));
    assert_eq!(vec![7, 8, 9], drain_range(table.range(Excluded(6), Included(9))));
    assert_eq!(src, drain_range(table.range(Unbounded, Unbounded)));
    assert_eq!(Vec::<i32>::new(), drain_range(table.range(Included(10), Unbounded)));
    assert_eq!(vec![9], drain_range(table.range(Included(9), Included(9))));
}

#[test]
fn range_example_from_a_large_source() {
    let src: Vec<i32> = (0..100).collect();
    let table = PieceTable::new().src(&src);
    assert_eq!(vec![55, 56, 57], drain_range(table.range(Included(55), Excluded(58))));
}

#[test]
fn backward_sweep_remove() {
    let src: Vec<i32> = (0..10).collect();
    let mut table = PieceTable::new().src(&src);
    for idx in (0..10).rev() {
        table.remove(idx);
        assert_eq!(src[..idx].to_vec(), contents(&table));
        assert_eq!(idx, table.len());
    }
    assert!(table.is_empty());
}

#[test]
fn remove_forward_and_backward_from_source() {
    let src: Vec<i32> = (0..10).collect();
    let mut table = PieceTable::new().src(&src);
    table.remove(5);
    table.remove(4);
    table.remove(3);
    table.remove(6);
    assert_eq!(vec![0, 1, 2, 6, 7, 8], contents(&table));
}

#[test]
fn insert_fast_path_uses_one_add_piece() {
    let mut table = PieceTable::new();
    table.insert(0, 10);
    table.insert(1, 11);
    table.insert(2, 12);
    table.insert(3, 13);
    assert_eq!(vec![10, 11, 12, 13], contents(&table));
    assert_eq!(1, table.piece_count());
    assert_eq!(4, table.add_buffer_len());
}

#[test]
fn insert_then_immediate_remove_is_undone() {
    let mut table = PieceTable::new();
    table.insert(0, 7);
    table.remove(0);
    assert!(table.is_empty());
    assert_eq!(0, table.len());
    assert_eq!(0, table.add_buffer_len());
    assert_eq!(0, table.piece_count());
    assert_eq!(Vec::<i32>::new(), contents(&table));
}

#[test]
fn undo_then_insert_again_reuses_the_piece() {
    let mut table = PieceTable::new();
    table.insert(0, 1);
    table.insert(1, 2);
    table.insert(2, 3);
    table.remove(2);
    table.remove(1);
    table.insert(1, 20);
    table.insert(2, 30);
    assert_eq!(vec![1, 20, 30], contents(&table));
    assert_eq!(1, table.piece_count());
    assert_eq!(3, table.add_buffer_len());
}

#[test]
fn insert_in_the_middle_of_a_source_piece() {
    let src: Vec<i32> = (0..100).collect();
    let mut table = PieceTable::new().src(&src);
    table.insert(11, 42);
    table.insert(12, 42);
    table.insert(13, 42);
    table.insert(27, 42);
    table.insert(28, 42);
    let mut expected = src.clone();
    for (i, v) in [(11, 42), (12, 42), (13, 42), (27, 42), (28, 42)] {
        expected.insert(i, v);
    }
    assert_eq!(expected, contents(&table));
    assert_eq!(5, table.piece_count());
}

#[test]
fn insert_at_the_head_of_a_piece() {
    let src: Vec<i32> = vec![1, 2, 3];
    let mut table = PieceTable::new().src(&src);
    table.insert(0, 0);
    assert_eq!(vec![0, 1, 2, 3], contents(&table));
    table.insert(4, 4);
    assert_eq!(vec![0, 1, 2, 3, 4], contents(&table));
    table.insert(3, 9);
    assert_eq!(vec![0, 1, 2, 9, 3, 4], contents(&table));
}

#[test]
fn index_matches_iteration() {
    let src: Vec<i32> = (0..20).collect();
    let mut table = PieceTable::new().src(&src);
    table.insert(5, 100);
    table.remove(10);
    table.insert(0, -1);
    table.push(77);
    let by_iter = contents(&table);
    let by_index: Vec<i32> = (0..table.len()).map(|i| *table.index(i)).collect();
    assert_eq!(by_iter, by_index);
    assert_eq!(by_iter.iter().sum::<i32>(), by_index.iter().sum::<i32>());
    assert_eq!(-1, *table.index(0));
    assert_eq!(100, *table.index(6));
    assert_eq!(77, *table.index(table.len() - 1));
}

#[test]
fn sum_over_a_source() {
    let src: Vec<i32> = (0..101).collect();
    let table = PieceTable::new().src(&src);
    assert_eq!(5050, drain(table.iter()).into_iter().fold(0, |acc, &x| acc + x));
}

#[test]
fn from_vec_iterates_to_the_same_elements() {
    let v = vec![3, 1, 4, 1, 5, 9, 2, 6];
    let table = PieceTable::from_vec(v.clone());
    assert_eq!(v, contents(&table));
    assert_eq!(8, table.len());
    let empty = PieceTable::<i32>::from_vec(Vec::new());
    assert!(empty.is_empty());
    assert_eq!(0, empty.piece_count());
}

#[test]
fn extend_appends_one_piece() {
    let mut table = PieceTable::new();
    table.insert(0, 1);
    table.insert(0, 0);
    table.reserve_data(3);
    table.extend(vec![2, 3, 4]);
    assert_eq!(vec![0, 1, 2, 3, 4], contents(&table));
    assert_eq!(5, table.len());
    table.extend(Vec::new());
    assert_eq!(5, table.len());
    table.insert(5, 5);
    table.remove(0);
    assert_eq!(vec![1, 2, 3, 4, 5], contents(&table));
}

#[test]
fn push_extends_the_last_piece() {
    let mut table = PieceTable::with_capacity(4, 1);
    for x in [5, 6, 7, 8] {
        table.push(x);
    }
    assert_eq!(vec![5, 6, 7, 8], contents(&table));
    assert_eq!(1, table.piece_count());
    assert_eq!(4, table.len());
}

#[test]
fn insert_and_remove_after_pushes() {
    let mut table = PieceTable::new();
    table.insert(0, 1);
    table.push(2);
    table.insert(1, 10);
    table.push(3);
    table.insert(2, 11);
    table.remove(2);
    table.remove(0);
    assert_eq!(vec![10, 2, 3], contents(&table));
}

#[test]
fn clear_drops_everything() {
    let src: Vec<i32> = (0..10).collect();
    let mut table = PieceTable::new().src(&src);
    table.insert(2, 5);
    table.clear();
    assert!(table.is_empty());
    assert_eq!(Vec::<i32>::new(), contents(&table));
    table.push(1);
    assert_eq!(vec![1], contents(&table));
}

#[test]
fn capacities_are_reserved() {
    let mut table: PieceTable<i32> = PieceTable::with_capacity(100, 50);
    assert!(table.capacity_data() >= 100);
    assert!(table.capacity_pieces() >= 50);
    table.reserve_data(300);
    table.reserve_piece(200);
    assert!(table.capacity_data() >= 300);
    assert!(table.capacity_pieces() >= 200);
    assert!(table.is_empty());
}

#[test]
fn default_is_empty() {
    let table: PieceTable<i32> = Default::default();
    assert!(table.is_empty());
    assert_eq!(0, table.len());
    let mut it = table.iter();
    assert!(it.next().is_none());
}

#[test]
fn pieces_stay_live_and_add_up() {
    let src: Vec<i32> = (0..30).collect();
    let mut table = PieceTable::new().src(&src);
    table.remove(15);
    table.insert(3, 1);
    table.insert(20, 2);
    table.remove(0);
    table.remove(28);
    assert_eq!(table.len(), contents(&table).len());
    assert!(table.piece_count() <= table.len());
}

#[test]
fn buffer_tags_compare() {
    assert_ne!(Buffer::Add, Buffer::Original);
}

/// A small deterministic generator, so that long recipes can be replayed.
struct Lcg(u64);

impl Lcg {
    fn below(&mut self, n: usize) -> usize {
        self.0 = self.0.wrapping_mul(6364136223846793005).wrapping_add(1442695040888963407);
        ((self.0 >> 33) as usize) % n
    }
}

fn replay_against_model(seed: u64, source_len: usize, steps: usize, clustered: bool) {
    let src: Vec<i32> = (0..source_len as i32).collect();
    let mut table = PieceTable::with_capacity(steps, steps).src(&src);
    let mut model = src.clone();
    let mut rng = Lcg(seed);
    let mut cursor = 0usize;
    for step in 0..steps {
        let do_insert = model.is_empty() || rng.below(2) == 0;
        if do_insert {
            let idx = if clustered && cursor <= model.len() && rng.below(4) != 0 {
                cursor
            } else {
                rng.below(model.len() + 1)
            };
            let value = 1000 + step as i32;
            model.insert(idx, value);
            table.insert(idx, value);
            cursor = idx + 1;
        } else {
            let idx = if clustered && cursor > 0 && cursor <= model.len() && rng.below(4) != 0 {
                cursor - 1
            } else {
                rng.below(model.len())
            };
            model.remove(idx);
            table.remove(idx);
            cursor = idx;
        }
        assert_eq!(model.len(), table.len());
    }
    assert_eq!(model, contents(&table));
    for (i, v) in model.iter().enumerate() {
        assert_eq!(v, table.index(i));
    }
    for _ in 0..20 {
        let lo = rng.below(model.len() + 1);
        let hi = lo + rng.below(model.len() - lo + 1);
        assert_eq!(model[lo..hi].to_vec(), drain_range(table.range(Included(lo), Excluded(hi))));
    }
}

#[test]
fn scattered_edits_from_empty_match_a_vector() {
    for seed in 0..8 {
        replay_against_model(seed, 0, 300, false);
    }
}

#[test]
fn clustered_edits_from_empty_match_a_vector() {
    for seed in 0..8 {
        replay_against_model(seed, 0, 300, true);
    }
}

#[test]
fn scattered_edits_on_a_source_match_a_vector() {
    for seed in 10..18 {
        replay_against_model(seed, 200, 300, false);
    }
}

#[test]
fn clustered_edits_on_a_source_match_a_vector() {
    for seed in 20..28 {
        replay_against_model(seed, 200, 300, true);
    }
}

#[test]
fn insert_then_remove_restores_the_add_buffer() {
    let src: Vec<i32> = (0..10).collect();
    let mut table = PieceTable::new().src(&src);
    table.insert(4, 1);
    table.insert(5, 2);
    let before = table.add_buffer_len();
    table.insert(3, 99);
    assert_eq!(before + 1, table.add_buffer_len());
    table.remove(3);
    assert_eq!(before, table.add_buffer_len());
    let mut expected = src.clone();
    expected.insert(4, 1);
    expected.insert(5, 2);
    assert_eq!(expected, contents(&table));
}

#[test]
fn extend_and_source_shape_the_pieces() {
    let src: Vec<i32> = (0..10).collect();
    let mut table = PieceTable::new().src(&src);
    assert_eq!(1, table.piece_count());
    assert_eq!(0, table.add_buffer_len());
    table.extend(vec![10, 11, 12]);
    assert_eq!(2, table.piece_count());
    assert_eq!(3, table.add_buffer_len());
    table.extend(Vec::new());
    assert_eq!(2, table.piece_count());
    let empty: Vec<i32> = Vec::new();
    let table = table.src(&empty);
    assert_eq!(0, table.piece_count());
    assert!(table.is_empty());
}

#[test]
fn push_after_a_source_adds_one_piece_then_grows_it() {
    let src: Vec<i32> = vec![1, 2];
    let mut table = PieceTable::new().src(&src);
    table.push(3);
    assert_eq!(2, table.piece_count());
    table.push(4);
    assert_eq!(2, table.piece_count());
    assert_eq!(2, table.add_buffer_len());
    assert_eq!(vec![1, 2, 3, 4], contents(&table));
}

#[test]
fn remove_in_the_middle_adds_at_most_one_piece() {
    let src: Vec<i32> = (0..10).collect();
    let mut table = PieceTable::new().src(&src);
    table.remove(5);
    assert_eq!(2, table.piece_count());
    table.remove(0);
    assert_eq!(2, table.piece_count());
    assert_eq!(vec![1, 2, 3, 4, 6, 7, 8, 9], contents(&table));
}
