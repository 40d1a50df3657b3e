use version_vec::{Ordering, VersionVec};

fn vv(pairs: &[(usize, usize)]) -> VersionVec {
    VersionVec::from_vec(pairs.to_vec())
}

#[test]
fn new_is_empty() {
    let v = VersionVec::new();
    assert!(v.as_slice().is_empty());
    assert_eq!(v.get(0), None);
    assert_eq!(v.cmp(&VersionVec::new()), Ordering::Equal);
}

#[test]
fn from_vec_sorts_by_id() {
    let v = vv(&[(3, 30), (1, 10), (2, 20)]);
    assert_eq!(v.as_slice(), [(1, 10), (2, 20), (3, 30)]);
}

#[test]
fn from_vec_last_duplicate_wins() {
    let v = vv(&[(2, 5), (1, 10), (2, 7), (2, 3)]);
    assert_eq!(v.as_slice(), [(1, 10), (2, 3)]);
    assert_eq!(v.get(2), Some(3));
}

#[test]
fn get_on_explicit_zero() {
    let v = vv(&[(4, 0)]);
    assert_eq!(v.get(4), Some(0));
    assert_eq!(v.get(3), None);
}

#[test]
fn bump_keeps_sorted_order() {
    let mut v = VersionVec::new();
    v.bump_for(5);
    v.bump_for(1);
    v.bump_for(3);
    v.bump_for(5);
    assert_eq!(v.as_slice(), [(1, 1), (3, 1), (5, 2)]);
}

#[test]
fn bump_raises_one_counter_only() {
    let v = vv(&[(1, 10), (2, 20), (3, 30)]);
    let mut w = v.clone();
    w.bump_for(2);
    assert_eq!(w.get(2), Some(21));
    assert_eq!(w.get(1), v.get(1));
    assert_eq!(w.get(3), v.get(3));
    assert_eq!(w.cmp(&v), Ordering::Greater);
}

#[test]
fn bump_saturates_at_max() {
    let mut v = vv(&[(1, usize::MAX)]);
    v.bump_for(1);
    assert_eq!(v.as_slice(), [(1, usize::MAX)]);
}

#[test]
fn merge_in_place() {
    let mut v = vv(&[(1, 10), (3, 5)]);
    v.merge(&vv(&[(1, 4), (2, 7), (3, 9), (8, 1)]));
    assert_eq!(v.as_slice(), [(1, 10), (2, 7), (3, 9), (8, 1)]);
}

#[test]
fn merged_leaves_inputs() {
    let a = vv(&[(1, 10)]);
    let b = vv(&[(2, 20)]);
    let m = a.merged(&b);
    assert_eq!(m.as_slice(), [(1, 10), (2, 20)]);
    assert_eq!(a.as_slice(), [(1, 10)]);
    assert_eq!(b.as_slice(), [(2, 20)]);
}

#[test]
fn merge_commutes() {
    let a = vv(&[(1, 3), (4, 1), (9, 2)]);
    let b = vv(&[(2, 2), (4, 5), (9, 1)]);
    assert_eq!(a.merged(&b).as_slice(), b.merged(&a).as_slice());
    assert_eq!(a.merged(&b).as_slice(), [(1, 3), (2, 2), (4, 5), (9, 2)]);
}

#[test]
fn merge_with_itself() {
    let a = vv(&[(1, 3), (4, 0), (9, 2)]);
    assert_eq!(a.merged(&a).as_slice(), a.as_slice());
}

#[test]
fn merge_associates() {
    let a = vv(&[(1, 3), (5, 1)]);
    let b = vv(&[(1, 1), (2, 4)]);
    let c = vv(&[(2, 6), (5, 0), (7, 7)]);
    let left = a.merged(&b).merged(&c);
    let right = a.merged(&b.merged(&c));
    assert_eq!(left.as_slice(), right.as_slice());
    assert_eq!(left.as_slice(), [(1, 3), (2, 6), (5, 1), (7, 7)]);
}

#[test]
fn zero_entries_act_as_absent() {
    let a = vv(&[(1, 3), (2, 0), (5, 4)]);
    let zeros = vv(&[(1, 0), (2, 0), (5, 0)]);
    let empty = VersionVec::new();
    assert_eq!(a.merged(&zeros).as_slice(), a.merged(&empty).as_slice());
    assert_eq!(zeros.merged(&a).as_slice(), empty.merged(&a).as_slice());
    assert_eq!(a.cmp(&zeros), a.cmp(&empty));
    assert_eq!(zeros.cmp(&a), empty.cmp(&a));
    assert_eq!(zeros.cmp(&empty), Ordering::Equal);
}

#[test]
fn compare_is_antisymmetric() {
    let pairs = [
        (vv(&[(1, 2)]), vv(&[(1, 1)])),
        (vv(&[(1, 2), (3, 3)]), vv(&[(1, 2), (3, 3)])),
        (vv(&[(1, 2)]), vv(&[(2, 1)])),
        (vv(&[]), vv(&[(7, 1)])),
    ];
    for (a, b) in pairs.iter() {
        let there = a.cmp(b);
        let back = b.cmp(a);
        let expected = match there {
            Ordering::Less => Ordering::Greater,
            Ordering::Greater => Ordering::Less,
            other => other,
        };
        assert_eq!(back, expected);
    }
}

#[test]
fn compare_stops_at_conflict() {
    let a = vv(&[(1, 5), (2, 1), (3, 9)]);
    let b = vv(&[(1, 4), (2, 2), (3, 0)]);
    assert_eq!(a.cmp(&b), Ordering::Concurrent);
    assert_eq!(b.cmp(&a), Ordering::Concurrent);
}

#[test]
fn eat_absorbs_evidence() {
    let mut o = Ordering::Equal;
    o.eat(std::cmp::Ordering::Equal);
    assert_eq!(o, Ordering::Equal);
    o.eat(std::cmp::Ordering::Less);
    assert_eq!(o, Ordering::Less);
    o.eat(std::cmp::Ordering::Less);
    assert_eq!(o, Ordering::Less);
    o.eat(std::cmp::Ordering::Greater);
    assert_eq!(o, Ordering::Concurrent);
    o.eat(std::cmp::Ordering::Less);
    assert_eq!(o, Ordering::Concurrent);

    let mut g = Ordering::Equal;
    g.eat(std::cmp::Ordering::Greater);
    assert_eq!(g, Ordering::Greater);
    g.eat(std::cmp::Ordering::Less);
    assert_eq!(g, Ordering::Concurrent);
}
