use std::collections::{HashMap, HashSet};

use automata::bits::{has_bit, key_meets, key_of_set, with_bit};
use automata::table::{add_edge, copy_table, edge_list, empty_table, has_target, push_state};
use automata::utils::{
    append_hashset, append_shift_hashset, copy_set, has_no_member, map_keys, set_items, sets_meet,
    singleton,
};

fn set(items: &[usize]) -> HashSet<usize> {
    items.iter().cloned().collect()
}

#[test]
fn bits_stand_for_sets() {
    let k = key_of_set(&set(&[0, 5, 127]));
    assert_eq!(k, 1u128 | (1u128 << 5) | (1u128 << 127));
    assert!(has_bit(k, 5));
    assert!(!has_bit(k, 6));
    assert_eq!(with_bit(k, 6), k | (1u128 << 6));
    assert_eq!(with_bit(k, 5), k);
    assert!(key_meets(k, &set(&[4, 5])));
    assert!(!key_meets(k, &set(&[4, 6])));
    assert_eq!(key_of_set(&set(&[])), 0);
}

#[test]
fn sets_are_listed_copied_and_joined() {
    let s = set(&[3, 1, 2]);
    let mut items = set_items(&s);
    items.sort();
    assert_eq!(items, vec![1, 2, 3]);
    assert_eq!(copy_set(&s), s);
    let mut a = set(&[1]);
    append_hashset(&mut a, set(&[2, 3]));
    assert_eq!(a, s);
    let mut b = set(&[0]);
    append_shift_hashset(&mut b, &set(&[0, 1]), 10);
    assert_eq!(b, set(&[0, 10, 11]));
    assert!(sets_meet(&a, &set(&[3, 9])));
    assert!(!sets_meet(&a, &set(&[9])));
    assert_eq!(singleton(7), set(&[7]));
    assert!(has_no_member(&set(&[])));
    assert!(!has_no_member(&a));
    let mut m: HashMap<char, usize> = HashMap::new();
    m.insert('x', 1);
    m.insert('y', 2);
    let mut keys = map_keys(&m);
    keys.sort();
    assert_eq!(keys, vec!['x', 'y']);
}

#[test]
fn tables_hold_edges() {
    let mut t: Vec<HashMap<char, Vec<usize>>> = empty_table(2);
    assert_eq!(t.len(), 2);
    assert!(edge_list(&t).is_empty());
    add_edge(&mut t, 0, 'a', 1);
    add_edge(&mut t, 0, 'a', 0);
    add_edge(&mut t, 1, 'b', 0);
    push_state(&mut t);
    assert_eq!(t.len(), 3);
    assert!(has_target(&t, 0, &'a'));
    assert!(!has_target(&t, 0, &'b'));
    assert!(!has_target(&t, 2, &'a'));
    let mut edges = edge_list(&t);
    edges.sort();
    assert_eq!(edges, vec![(0, 'a', 0), (0, 'a', 1), (1, 'b', 0)]);
    let mut copy = edge_list(&copy_table(&t));
    copy.sort();
    assert_eq!(copy, edges);
}
