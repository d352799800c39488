use library::data_structure::sequence_model::Op;
use library::data_structure::skip_list::SkipList;
use library::misc::rand::Pcg32;

#[test]
fn new_list_is_empty() {
    let list: SkipList<i32> = SkipList::new();
    assert_eq!(list.len(), 0);
    assert_eq!(list.get(0), None);
}

#[test]
fn concrete_scenario() {
    let mut list: SkipList<i32> = SkipList::new();
    list.insert(0, 10);
    list.insert(1, 20);
    list.insert(0, 5);
    assert_eq!(list.len(), 3);
    assert_eq!(list.get(0), Some(5));
    assert_eq!(list.get(1), Some(10));
    assert_eq!(list.get(2), Some(20));
    assert_eq!(list.delete(0), Some(5));
    assert_eq!(list.len(), 2);
    assert_eq!(list.get(0), Some(10));
    assert_eq!(list.get(1), Some(20));
    assert_eq!(list.get(2), None);
}

#[test]
fn boundary_positions_report_absence() {
    let mut list: SkipList<u8> = SkipList::new();
    assert_eq!(list.get(0), None);
    assert_eq!(list.delete(0), None);
    assert_eq!(list.get(usize::MAX), None);
    assert_eq!(list.delete(usize::MAX), None);
    list.insert(0, 7);
    assert_eq!(list.get(1), None);
    assert_eq!(list.delete(1), None);
    assert_eq!(list.len(), 1);
    assert_eq!(list.get(0), Some(7));
}

#[test]
fn round_trip_in_insertion_order() {
    let mut list: SkipList<usize> = SkipList::with_rng(Pcg32::with_seed(42, 54));
    let n = 2000;
    for i in 0..n {
        list.insert(i, i * 3 + 1);
    }
    assert_eq!(list.len(), n);
    for i in 0..n {
        assert_eq!(list.get(i), Some(i * 3 + 1));
    }
}

#[test]
fn full_drain_returns_insertion_order() {
    let mut list: SkipList<i64> = SkipList::with_rng(Pcg32::with_seed(7, 1));
    let n = 500usize;
    for i in 0..n {
        // insert at the front, so that the sequence is n-1, n-2, ..., 0
        list.insert(0, i as i64);
    }
    for i in 0..n {
        assert_eq!(list.delete(0), Some((n - 1 - i) as i64));
    }
    assert_eq!(list.len(), 0);
    assert_eq!(list.delete(0), None);
}

#[test]
fn length_counts_inserts_less_deletes() {
    let mut list: SkipList<u32> = SkipList::with_rng(Pcg32::with_seed(3, 9));
    let mut inserts = 0usize;
    let mut deletes = 0usize;
    for i in 0..300u32 {
        list.insert((i as usize * 7) % (list.len() + 1), i);
        inserts += 1;
        if i % 3 == 0 {
            if list.delete((i as usize * 5) % (list.len() + 2)).is_some() {
                deletes += 1;
            }
        }
        assert_eq!(list.len(), inserts - deletes);
    }
}

#[test]
fn agrees_with_a_plain_vector() {
    let mut rng = Pcg32::with_seed(2024, 11);
    let mut list: SkipList<u32> = SkipList::with_rng(Pcg32::with_seed(1, 2));
    let mut model: Vec<u32> = Vec::new();
    for step in 0..5000u32 {
        let kind = rng.next_u32() % 4;
        let pos = (rng.next_u32() as usize) % (model.len() + 2);
        match kind {
            0 | 1 => {
                let p = pos.min(model.len());
                list.insert(p, step);
                model.insert(p, step);
            }
            2 => {
                let got = list.delete(pos);
                let want = if pos < model.len() { Some(model.remove(pos)) } else { None };
                assert_eq!(got, want);
            }
            _ => {
                assert_eq!(list.get(pos), model.get(pos).copied());
            }
        }
        assert_eq!(list.len(), model.len());
    }
    for (i, v) in model.iter().enumerate() {
        assert_eq!(list.get(i), Some(*v));
    }
}

#[test]
fn apply_all_gives_each_result() {
    let mut list: SkipList<i32> = SkipList::with_rng(Pcg32::with_seed(5, 5));
    let ops = vec![
        Op::Insert(0, 10),
        Op::Insert(1, 20),
        Op::Insert(0, 5),
        Op::Get(1),
        Op::Delete(0),
        Op::Get(5),
        Op::Delete(2),
    ];
    let results = list.apply_all(&ops);
    assert_eq!(results, vec![None, None, None, Some(10), Some(5), None, None]);
    assert_eq!(list.len(), 2);
    assert_eq!(list.apply(Op::Get(0)), Some(10));
    assert_eq!(list.apply(Op::Get(1)), Some(20));
}
