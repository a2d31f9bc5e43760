use dstructs::Cell;
use dstructs::Channel;
use dstructs::FlatMap;
use dstructs::GameOfLife;
use dstructs::LRUCache;
use dstructs::Grid;
use dstructs::MinQueue;
use dstructs::ReceiveError;
use dstructs::State;
use dstructs::combinations;
use dstructs::common_lines;
use dstructs::longest_common_prefix;

#[test]
fn flat_map_insert_get_remove() {
    let mut map: FlatMap<i32> = FlatMap::new();
    assert!(map.is_empty());
    assert_eq!(map.insert(4, 40), None);
    assert_eq!(map.insert(1, 10), None);
    assert_eq!(map.insert(9, 90), None);
    assert_eq!(map.len(), 3);
    assert!(map.capacity() >= 3);
    assert_eq!(map.insert(4, 44), Some(40));
    assert_eq!(map.len(), 3);
    assert_eq!(map.get(4), Some(&44));
    assert_eq!(map.get(2), None);
    let keys: Vec<u64> = map.as_slice().iter().map(|p| p.0).collect();
    assert_eq!(keys, vec![1, 4, 9]);
    assert_eq!(map.remove(1), Some(10));
    assert_eq!(map.remove(1), None);
    assert_eq!(map.remove_entry(9), Some((9, 90)));
    assert_eq!(map.len(), 1);
}

#[test]
fn flat_map_stays_sorted() {
    let mut map: FlatMap<u64> = FlatMap::new();
    for k in [9u64, 2, 7, 1, 8, 3, 6, 4, 5] {
        map.insert(k, k * 2);
    }
    let keys: Vec<u64> = map.as_slice().iter().map(|p| p.0).collect();
    assert_eq!(keys, vec![1, 2, 3, 4, 5, 6, 7, 8, 9]);
}

#[test]
fn min_queue_tracks_minimum() {
    let mut q = MinQueue::new();
    assert!(q.is_empty());
    assert_eq!(q.min(), None);
    for v in [5u64, 3, 8, 3, 9] {
        q.push(v);
    }
    assert_eq!(q.len(), 5);
    assert_eq!(q.front(), Some(5));
    assert_eq!(q.min(), Some(3));
    assert_eq!(q.pop(), Some(5));
    assert_eq!(q.min(), Some(3));
    assert_eq!(q.pop(), Some(3));
    // one 3 is still queued
    assert_eq!(q.min(), Some(3));
    assert_eq!(q.pop(), Some(8));
    assert_eq!(q.pop(), Some(3));
    assert_eq!(q.min(), Some(9));
    assert_eq!(q.pop(), Some(9));
    assert_eq!(q.pop(), None);
    assert!(q.is_empty());
}

#[test]
fn min_queue_increasing_then_decreasing() {
    let mut q = MinQueue::new();
    for v in 1u64..=5 {
        q.push(v);
    }
    assert_eq!(q.min(), Some(1));
    for v in (6u64..=9).rev() {
        q.push(v);
    }
    assert_eq!(q.min(), Some(1));
    for expect in 1u64..=5 {
        assert_eq!(q.pop(), Some(expect));
    }
    assert_eq!(q.min(), Some(6));
    assert_eq!(q.pop(), Some(9));
    assert_eq!(q.pop(), Some(8));
    assert_eq!(q.pop(), Some(7));
    assert_eq!(q.pop(), Some(6));
    assert_eq!(q.pop(), None);
}

fn blinker() -> Grid<Cell> {
    let d = Cell::Dead;
    let a = Cell::Alive;
    // a horizontal bar of three cells in a 5x5 board
    let cells = [
        d, d, d, d, d,
        d, d, d, d, d,
        d, a, a, a, d,
        d, d, d, d, d,
        d, d, d, d, d,
    ];
    Grid::from_slice(&cells, 5, 5)
}

#[test]
fn game_of_life_blinker_oscillates() {
    let mut game = GameOfLife::from_grid(blinker());
    game.step();
    let g = game.get_grid();
    // the bar now stands vertically
    for (r, c, want) in [
        (1usize, 2usize, Cell::Alive),
        (2, 2, Cell::Alive),
        (3, 2, Cell::Alive),
        (2, 1, Cell::Dead),
        (2, 3, Cell::Dead),
    ] {
        assert!(*g.get(r, c) == want);
    }
    game.step();
    let g = game.get_grid();
    for (r, c, want) in [
        (2usize, 1usize, Cell::Alive),
        (2, 2, Cell::Alive),
        (2, 3, Cell::Alive),
        (1, 2, Cell::Dead),
        (3, 2, Cell::Dead),
    ] {
        assert!(*g.get(r, c) == want);
    }
}

#[test]
fn grid_edges_have_fewer_neighbours() {
    let g: Grid<Cell> = Grid::from_slice(&[Cell::Dead; 9], 3, 3);
    assert_eq!(g.neighbours(0, 0).len(), 3);
    assert_eq!(g.neighbours(0, 1).len(), 5);
    assert_eq!(g.neighbours(1, 1).len(), 8);
    assert_eq!(g.size(), (3, 3));
}

#[test]
fn grid_set_and_get() {
    let mut g: Grid<Cell> = Grid::from_slice(&[Cell::Dead; 6], 2, 3);
    g.set(Cell::Alive, 1, 2);
    assert!(*g.get(1, 2) == Cell::Alive);
    assert!(*g.get(0, 0) == Cell::Dead);
}

#[test]
fn common_lines_keeps_second_file_order_without_repeats() {
    let first: Vec<String> = ["pear", "apple", "plum"].iter().map(|s| s.to_string()).collect();
    let second: Vec<String> =
        ["apple", "cherry", "pear", "apple", "pear"].iter().map(|s| s.to_string()).collect();
    let out = common_lines(&first, second);
    assert_eq!(out, vec!["apple".to_string(), "pear".to_string()]);
}

#[test]
fn common_lines_empty_inputs() {
    let none: Vec<String> = Vec::new();
    let some: Vec<String> = vec!["a".to_string()];
    assert!(common_lines(&none, some.clone()).is_empty());
    assert!(common_lines(&some, none).is_empty());
}

#[test]
fn channel_buffers_in_order_and_closes() {
    let mut ch: Channel<u32> = Channel::new();
    assert_eq!(ch.senders_amount(), 1);
    assert!(!ch.is_hup());
    assert!(matches!(ch.recv(), Err(ReceiveError::Empty)));
    assert!(ch.send(1).is_ok());
    assert!(ch.send(2).is_ok());
    assert_eq!(ch.recv().ok(), Some(1));
    ch.hup();
    assert!(ch.is_hup());
    // a buffered value still comes out after the hang-up
    assert_eq!(ch.recv().ok(), Some(2));
    assert!(matches!(ch.recv(), Err(ReceiveError::Closed)));
    let lost = ch.send(3);
    assert_eq!(lost.err().map(|e| e.value), Some(3));
}

#[test]
fn channel_counts_senders() {
    let mut ch: Channel<u8> = Channel::new();
    ch.inc_senders_amount();
    ch.inc_senders_amount();
    assert_eq!(ch.senders_amount(), 3);
    ch.dec_senders_amount();
    assert_eq!(ch.senders_amount(), 2);
}

#[test]
fn longest_common_prefix_basic() {
    assert_eq!(longest_common_prefix(vec!["flower", "flow", "flight"]), "fl");
    assert_eq!(longest_common_prefix(vec!["dog", "racecar", "car"]), "");
    assert_eq!(longest_common_prefix(vec!["same", "same"]), "same");
    assert_eq!(longest_common_prefix(vec!["alone"]), "alone");
    assert_eq!(longest_common_prefix(vec![]), "");
    assert_eq!(longest_common_prefix(vec!["abc", ""]), "");
}

#[test]
fn state_walks_positions() {
    let mut st = State::new(vec!["ab", "ac"]);
    let mut syms = Vec::new();
    st.fill_next_start_symbols(&mut syms);
    assert_eq!(syms, vec!['a', 'a']);
    st.fill_next_start_symbols(&mut syms);
    assert_eq!(syms, vec!['b', 'c']);
    st.fill_next_start_symbols(&mut syms);
    assert!(syms.is_empty());
}

#[test]
fn combinations_enumerates_in_order() {
    let out = combinations(&[1, 2, 3, 4], 2);
    assert_eq!(
        out,
        vec![
            vec![1, 2],
            vec![1, 3],
            vec![1, 4],
            vec![2, 3],
            vec![2, 4],
            vec![3, 4],
        ]
    );
    assert_eq!(combinations(&[1, 2, 3], 0), vec![Vec::<i32>::new()]);
    assert_eq!(combinations(&[], 0), vec![Vec::<i32>::new()]);
    assert_eq!(combinations(&[5, 6], 2), vec![vec![5, 6]]);
    assert_eq!(combinations(&[7], 1), vec![vec![7]]);
}

#[test]
fn lru_cache_evicts_least_recently_used() {
    let mut cache: LRUCache<i32> = LRUCache::new(2);
    assert_eq!(cache.insert(1, 10), None);
    assert_eq!(cache.insert(2, 20), None);
    assert_eq!(cache.get(1).copied(), Some(10));
    // key 2 is now the least recently used and is pushed out
    assert_eq!(cache.insert(3, 30), None);
    assert_eq!(cache.get(2), None);
    assert_eq!(cache.get(1).copied(), Some(10));
    assert_eq!(cache.get(3).copied(), Some(30));
}

#[test]
fn lru_cache_updates_in_place() {
    let mut cache: LRUCache<i32> = LRUCache::new(2);
    assert_eq!(cache.insert(1, 10), None);
    assert_eq!(cache.insert(2, 20), None);
    assert_eq!(cache.insert(1, 11), Some(10));
    // updating key 1 made key 2 the eviction candidate
    assert_eq!(cache.insert(3, 30), None);
    assert_eq!(cache.get(2), None);
    assert_eq!(cache.get(1).copied(), Some(11));
    assert_eq!(cache.get(3).copied(), Some(30));
}
