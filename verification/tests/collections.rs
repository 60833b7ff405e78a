use rcomb::collections::comb_map::{CombMap, MaxDegree, HasStats};
use rcomb::collections::set::CombSet;
use rcomb::collections::par_map::CombParMap;
use rcomb::collections::csv_layout::{row_fields, ColumnGroup, CsvLayout};
use rcomb::collections::index::{CombIndex, HashIndex, KeepIndex, ReuseIndex};
use rcomb::{CombEq, CombGrad};

/// Numbers compared by value and hashed by parity.
#[derive(Clone, Copy, Debug, PartialEq, Eq)]
struct Num(usize);

impl CombEq for Num {
    fn hash(&self) -> Vec<usize> {
        vec![self.0 % 2]
    }
    fn is_isomorphic(&self, other: &Self) -> bool {
        self.0 == other.0
    }
}

impl CombGrad<usize> for Num {
    fn degree(&self) -> usize {
        self.0
    }
}

/// Numbers up to their residue modulo 3.
#[derive(Clone, Copy, Debug, PartialEq, Eq)]
struct Mod3(usize);

impl CombEq for Mod3 {
    fn hash(&self) -> Vec<usize> {
        vec![self.0 % 3]
    }
    fn is_isomorphic(&self, other: &Self) -> bool {
        self.0 % 3 == other.0 % 3
    }
}

#[test]
fn test_map() {
    let mut map = CombMap::<Num, usize>::new();
    assert_eq!(map.len(), 0);
    assert!(map.insert(Num(0), 1).is_none());
    assert_eq!(map.len(), 1);
    assert!(map.insert(Num(1), 2).is_none());
    assert_eq!(map.len(), 2);
    assert!(map.insert(Num(2), 4).is_none());
    assert_eq!(map.len(), 3);
    assert_eq!(map.get(&Num(0)), Some(&1));
    assert_eq!(map.get(&Num(1)), Some(&2));
    assert_eq!(map.get(&Num(2)), Some(&4));
    assert_eq!(map.insert(Num(2), 3), Some(4));
    assert_eq!(map.get(&Num(2)), Some(&3));
    assert_eq!(map.len(), 3);
    map.clear();
    assert_eq!(map.len(), 0);
    for i in 0..9 {
        map.insert(Num(i), i % 3);
    }
    assert_eq!(map.len(), 9);
    map.retain(|_, v| *v == 0);
    assert_eq!(map.len(), 3);
    let mut keys: Vec<usize> = map.keys().into_iter().map(|k| k.0).collect();
    keys.sort();
    assert_eq!(keys, vec![0, 3, 6]);
    map.extend(keys.iter().map(|&i| (Num(i + 1), 1)).collect());
    assert_eq!(map.len(), 6);
    map.insert_unchecked(Num(0), 111);
    assert_eq!(map.len(), 7);
    map.extend_unchecked(keys.iter().map(|&i| (Num(i + 1), 222)).collect());
    assert_eq!(map.len(), 10);
    assert_eq!(map.remove(&Num(6)), Some(0));
    assert_eq!(map.len(), 9);
    map.dedup();
    assert_eq!(map.len(), 5);
    assert_eq!(map.contains_key(&Num(6)), false);
}

#[test]
fn map_get_after_insert_finds_isomorphic_key() {
    let mut map = CombMap::<Mod3, &str>::new();
    assert_eq!(map.insert(Mod3(1), "one"), None);
    assert_eq!(map.get(&Mod3(4)), Some(&"one"));
    assert_eq!(map.insert(Mod3(7), "seven"), Some("one"));
    assert_eq!(map.len(), 1);
    assert_eq!(map.remove(&Mod3(10)), Some("seven"));
    assert!(map.is_empty());
    assert_eq!(map.get(&Mod3(1)), None);
}

#[test]
fn map_get_mut_writes_through_isomorphic_key() {
    let mut map = CombMap::<Mod3, usize>::new();
    map.insert(Mod3(2), 20);
    if let Some(v) = map.get_mut(&Mod3(5)) {
        *v += 1;
    }
    assert_eq!(map.get(&Mod3(8)), Some(&21));
    assert!(map.get_mut(&Mod3(0)).is_none());
    assert_eq!(map.len(), 1);
    if let Some(v) = map.par_get_mut(&Mod3(11)) {
        *v *= 2;
    }
    assert_eq!(map.get(&Mod3(2)), Some(&42));
    assert!(map.par_get_mut(&Mod3(1)).is_none());
}

#[test]
fn map_apply_and_stats() {
    let mut map = CombMap::<Num, usize>::new();
    for i in 0..5 {
        map.insert(Num(i), i * 10);
    }
    let doubled = map.apply(|v| v * 2);
    assert_eq!(doubled.get(&Num(3)), Some(&60));
    assert_eq!(doubled.len(), 5);
    let with = doubled.with_stats::<MaxDegree>();
    assert_eq!(with.stats().max_deg, 4);
    let mut values: Vec<usize> = with.into_values();
    values.sort();
    assert_eq!(values, vec![0, 20, 40, 60, 80]);
}

#[test]
fn set_insert_contains_remove() {
    let mut set = CombSet::<Mod3>::new();
    set.insert(Mod3(2));
    set.insert(Mod3(5));
    assert!(set.contains(&Mod3(8)));
    assert!(!set.contains(&Mod3(0)));
    assert_eq!(set.len(), 1);
    set.insert_unchecked(Mod3(11));
    assert_eq!(set.len(), 2);
    set.dedup();
    assert_eq!(set.len(), 1);
    set.remove(&Mod3(2));
    assert!(set.is_empty());
}

#[test]
fn index_keep_gives_fresh_indices() {
    let mut index = CombIndex::<Mod3, KeepIndex>::new();
    assert_eq!(index.insert(Mod3(0)), 0);
    assert_eq!(index.insert(Mod3(1)), 1);
    assert_eq!(index.insert(Mod3(4)), 1);
    assert_eq!(index.insert(Mod3(2)), 2);
    assert_eq!(index.len(), 3);
    assert_eq!(index.idx(&Mod3(5)), Some(2));
    assert_eq!(index.val(1), Some(&Mod3(1)));
    assert_eq!(index.remove_idx(0), Some((0, Mod3(0))));
    assert!(!index.contains_idx(0));
    assert_eq!(index.insert(Mod3(3)), 3);
    let listed: Vec<usize> = index.iter().into_iter().map(|(i, _)| i).collect();
    assert_eq!(listed, vec![1, 2, 3]);
}

#[test]
fn index_reuse_fills_the_gap() {
    let mut index = CombIndex::<Mod3, ReuseIndex>::new();
    index.insert(Mod3(0));
    index.insert(Mod3(1));
    index.insert(Mod3(2));
    assert_eq!(index.remove_val(&Mod3(3)), Some((0, Mod3(0))));
    assert_eq!(index.val(0), Some(&Mod3(2)));
    assert_eq!(index.idx(&Mod3(2)), Some(0));
    assert_eq!(index.insert(Mod3(6)), 2);
}

#[test]
fn index_retain_removes_marked() {
    let mut index = CombIndex::<Num, KeepIndex>::new();
    for i in 0..6 {
        index.insert(Num(i));
    }
    index.retain(|g| g.0 % 2 == 1);
    let listed: Vec<usize> = index.iter().into_iter().map(|(_, g)| g.0).collect();
    assert_eq!(listed, vec![0, 2, 4]);
    assert!(index.contains_val(&Num(2)));
    assert!(!index.contains_val(&Num(3)));
}

#[test]
fn hash_index_round_trip() {
    let mut index = HashIndex::<u64, ReuseIndex>::new();
    assert_eq!(index.insert(10), 0);
    assert_eq!(index.insert(20), 1);
    assert_eq!(index.insert(10), 0);
    assert_eq!(index.insert(30), 2);
    assert_eq!(index.idx(&20), Some(1));
    assert_eq!(index.remove_idx(1), Some((1, 20)));
    assert_eq!(index.val(1), Some(&30));
    assert_eq!(index.idx(&30), Some(1));
    assert_eq!(index.len(), 2);
    index.retain(|g| *g == 10);
    assert_eq!(index.len(), 1);
    assert_eq!(index.val(0), Some(&30));
}

#[test]
fn map_parallel_operations() {
    let mut map = CombMap::<Mod3, usize>::new();
    assert_eq!(map.par_insert(Mod3(1), 10), None);
    assert_eq!(map.par_insert(Mod3(2), 20), None);
    assert_eq!(map.par_insert(Mod3(4), 40), Some(10));
    assert_eq!(map.par_get(&Mod3(7)), Some(&40));
    assert!(map.par_contains_key(&Mod3(5)));
    assert!(!map.par_contains_key(&Mod3(3)));
    assert_eq!(map.par_remove(&Mod3(8)), Some(20));
    assert_eq!(map.len(), 1);
    map.insert_unchecked(Mod3(10), 100);
    map.insert_unchecked(Mod3(13), 130);
    assert_eq!(map.len(), 3);
    map.par_dedup();
    assert_eq!(map.len(), 1);
    let doubled = map.apply_ref(|v| v * 2);
    assert_eq!(doubled.len(), 1);
    let copy = map.clone_with(|v| *v);
    assert_eq!(copy.len(), 1);
    map.par_retain(|_, v| *v > 1000);
    assert!(map.is_empty());
    let applied = copy.par_apply(|v| v + 1);
    assert_eq!(applied.len(), 1);
}

#[test]
fn set_and_index_parallel_operations() {
    let mut set = CombSet::<Mod3>::new();
    set.par_insert(Mod3(1));
    set.par_insert(Mod3(4));
    assert_eq!(set.len(), 1);
    assert!(set.par_contains(&Mod3(7)));
    set.par_remove(&Mod3(1));
    assert!(set.is_empty());
    let mut index = CombIndex::<Mod3, KeepIndex>::new();
    assert_eq!(index.par_insert(Mod3(0)), 0);
    assert_eq!(index.par_insert(Mod3(3)), 0);
    assert_eq!(index.par_insert(Mod3(1)), 1);
    assert_eq!(index.par_idx(&Mod3(4)), Some(1));
    assert!(index.par_contains_val(&Mod3(6)));
    assert_eq!(index.par_remove_val(&Mod3(9)), Some((0, Mod3(0))));
    assert_eq!(index.par_remove_idx(1), Some((1, Mod3(1))));
    assert!(index.is_empty());
}

#[test]
fn par_map_round_trip() {
    let mut map = CombMap::<Mod3, usize>::new().par();
    assert_eq!(map.insert(Mod3(1), 10), None);
    assert_eq!(map.insert(Mod3(2), 20), None);
    assert_eq!(map.insert(Mod3(4), 40), Some(10));
    assert_eq!(map.get(&Mod3(7)), Some(&40));
    assert!(map.contains_key(&Mod3(5)));
    if let Some(v) = map.get_mut(&Mod3(5)) {
        *v = 25;
    }
    let halves = map.transform(|v| v / 5);
    assert_eq!(halves.get(&Mod3(2)), Some(&5));
    assert_eq!(map.remove(&Mod3(8)), Some(25));
    assert_eq!(map.len(), 1);
    map.insert_unchecked(Mod3(4), 4);
    assert_eq!(map.len(), 2);
    map.dedup();
    assert_eq!(map.len(), 1);
    let seq = map.seq();
    assert_eq!(seq.get(&Mod3(1)), Some(&40));
    let empty = CombParMap::<Mod3, usize>::new();
    assert!(empty.is_empty());
}

#[test]
fn map_transform_is_apply_ref() {
    let mut map = CombMap::<Num, usize>::new();
    for i in 0..4 {
        map.insert(Num(i), i);
    }
    let t = map.transform(|v| v + 100);
    assert_eq!(t.get(&Num(3)), Some(&103));
    assert_eq!(t.len(), 4);
}

#[test]
fn statistics_follow_insertions() {
    let mut map: CombMap<Num, usize, MaxDegree> = CombMap::new();
    assert_eq!(map.stats().max_deg, 0);
    map.insert(Num(3), 1);
    assert_eq!(map.stats().max_deg, 3);
    map.insert(Num(1), 2);
    assert_eq!(map.stats().max_deg, 3);
    map.insert(Num(3), 5);
    assert_eq!(map.stats().max_deg, 3);
    map.par_extend(vec![(Num(7), 0), (Num(7), 1)]);
    assert_eq!(map.stats().max_deg, 7);
    assert_eq!(map.len(), 3);
    let copy = map.clone_with(|v| *v);
    assert_eq!(copy.stats().max_deg, 7);
    let fresh = copy.with_stats::<MaxDegree>();
    assert_eq!(fresh.stats().max_deg, 7);
}

#[test]
fn parallel_dedup_keeps_a_key_of_each_class() {
    let mut map: CombMap<Mod3, usize> = CombMap::new();
    map.par_extend((0..30).map(|i| (Mod3(i), i)).collect());
    assert_eq!(map.len(), 3);
    let mut rests: Vec<usize> = map.keys().iter().map(|k| k.0 % 3).collect();
    rests.sort();
    assert_eq!(rests, vec![0, 1, 2]);
}

#[test]
fn csv_row_layout() {
    let layout = CsvLayout { n_pre: 2, key_idx: 2, n_mid: 1, value_idx: None, n_post: 2 };
    let got: Vec<(usize, usize, usize)> = layout
        .positions()
        .into_iter()
        .map(|(g, i, p)| (match g { ColumnGroup::Pre => 0, ColumnGroup::Mid => 1, ColumnGroup::Post => 2 }, i, p))
        .collect();
    assert_eq!(got, vec![(0, 0, 0), (0, 1, 1), (1, 0, 3), (2, 0, 5), (2, 1, 6)]);
    let with_value = CsvLayout { n_pre: 0, key_idx: 0, n_mid: 0, value_idx: Some(1), n_post: 1 };
    assert_eq!(with_value.positions().len(), 1);
    assert_eq!(with_value.positions()[0].2, 2);
    let row = row_fields(
        vec!["a".to_string()],
        "k".to_string(),
        vec!["m".to_string()],
        Some("v".to_string()),
        vec!["p".to_string()],
    );
    assert_eq!(row, vec!["a", "k", "m", "v", "p"]);
    assert_eq!(row_fields(vec![], "k".to_string(), vec![], None, vec![]), vec!["k"]);
}

#[test]
fn update_values_in_place() {
    let mut map: CombMap<Num, usize> = CombMap::new();
    map.insert(Num(1), 10);
    map.insert(Num(2), 20);
    map.update_values(|v| v + 1);
    assert_eq!(map.get(&Num(1)), Some(&11));
    assert_eq!(map.get(&Num(2)), Some(&21));
    assert_eq!(map.len(), 2);
    let copy = map.apply_ref(|v| v * 2);
    assert_eq!(copy.get(&Num(2)), Some(&42));
}
