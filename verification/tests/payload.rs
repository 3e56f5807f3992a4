use std::cmp;
use std::collections::HashSet;
use rand::Rng;
use rtrtr::payload::{
    Block, Diff, DiffBuilder, Pack, PackBuilder, PayloadError, PayloadSet, SetBuilder, Update,
};
use rtrtr::rtr::{compare, less, same, Action, Order, Payload, Prefix, RouteOrigin};

/// Creates a route origin payload item from a `u32`.
fn p(value: u32) -> Payload {
    Payload::Origin(
        RouteOrigin::new(Prefix::new_v4(value, 32).unwrap(), Some(32), 0).unwrap(),
    )
}

/// Creates a pack from a slice of `u32`s.
fn pack(values: &[u32]) -> Pack {
    let mut res = PackBuilder::empty();
    for value in values {
        res.insert_unchecked(p(*value));
    }
    res.finalize()
}

/// Creates a block of a pack made from a slice of `u32`s.
fn block(values: &[u32], range: std::ops::Range<usize>) -> Block {
    pack(values).block(range)
}

/// Checks that the items of a pack increase.
fn check_pack(pack: &Pack) {
    for window in pack.as_slice().windows(2) {
        assert!(less(&window[0], &window[1]))
    }
}

/// Returns the items of a set.
fn set_items(set: &PayloadSet) -> Vec<Payload> {
    let mut res = Vec::new();
    let mut iter = set.iter();
    while let Some(item) = iter.next() {
        res.push(item.clone());
    }
    res
}

/// Checks that a set conforms to all invariants.
fn check_set(set: &PayloadSet) {
    for block in set.as_blocks() {
        assert!(!block.is_empty())
    }
    for window in set_items(set).windows(2) {
        assert!(less(&window[0], &window[1]))
    }
    assert_eq!(set.len(), set_items(set).len());
}

/// Converts a set into a vec of integers.
fn set_to_vec(set: &PayloadSet) -> Vec<u32> {
    set_items(set)
        .iter()
        .map(|payload| match payload {
            Payload::Origin(item) => item.prefix.v4_addr(),
            _ => panic!("not a v4 prefix"),
        })
        .collect()
}

/// Returns the changes of a diff in order.
fn diff_items(diff: &Diff) -> Vec<(Payload, Action)> {
    let mut res = Vec::new();
    let mut iter = diff.iter();
    while let Some((item, action)) = iter.next() {
        res.push((item.clone(), action));
    }
    res
}

fn ordering(a: &Payload, b: &Payload) -> cmp::Ordering {
    match compare(a, b) {
        Order::Less => cmp::Ordering::Less,
        Order::Equal => cmp::Ordering::Equal,
        Order::Greater => cmp::Ordering::Greater,
    }
}

#[test]
fn set_iter() {
    let mut builder = SetBuilder::empty();
    builder.insert_block(block(&[1, 2, 4], 0..3));
    builder.insert_block(block(&[4, 5], 1..2));
    let set = builder.finalize();
    // The two blocks are kept as given: the whole of the first pack and
    // the second item of the second pack.
    assert_eq!(set.as_blocks().len(), 2);
    assert_eq!(set.as_blocks()[0].as_slice(), &[p(1), p(2), p(4)]);
    assert_eq!(set.as_blocks()[1].as_slice(), &[p(5)]);
    assert_eq!(set_items(&set), [p(1), p(2), p(4), p(5)]);
}

#[test]
fn set_builder() {
    let mut builder = SetBuilder::empty();
    builder.insert_pack(pack(&[1, 2, 11, 12]));
    builder.insert_pack(pack(&[5, 6, 7, 15, 18]));
    builder.insert_pack(pack(&[6, 7]));
    builder.insert_pack(pack(&[7]));
    builder.insert_pack(pack(&[17]));
    let set = builder.finalize();
    check_set(&set);
    assert_eq!(set_to_vec(&set), [1, 2, 5, 6, 7, 11, 12, 15, 17, 18]);
}

#[test]
fn diff_iter() {
    const A: Action = Action::Announce;
    const W: Action = Action::Withdraw;
    let mut builder = DiffBuilder::empty();
    for value in [6, 7, 15, 18] {
        builder.push(p(value), A).unwrap();
    }
    for value in [2, 8, 9] {
        builder.push(p(value), W).unwrap();
    }
    assert_eq!(
        diff_items(&builder.finalize()),
        [(p(2), W), (p(6), A), (p(7), A), (p(8), W), (p(9), W), (p(15), A), (p(18), A)]
    );
}

#[test]
fn mix_and_match() {
    fn random_vec<T: Rng>(rng: &mut T, len: usize) -> Vec<Payload> {
        let mut res = Vec::with_capacity(len);
        for _ in 0..len {
            res.push(p(rng.gen()))
        }
        res
    }

    fn build_pack(data: &[Payload]) -> Pack {
        let mut res = PackBuilder::empty();
        for item in data {
            res.insert_unchecked(item.clone());
        }
        let res = res.finalize();
        check_pack(&res);
        res
    }

    fn sort_and_dedup(mut vec: Vec<Payload>) -> Vec<Payload> {
        vec.sort_by(ordering);
        vec.dedup();
        vec
    }

    // Let’s make three vecs with payload data.
    let mut rng = rand_pcg::Pcg32::new(0xcafef00dd15ea5e5, 0xa02bdbf7bb3c0a7);
    let v1 = random_vec(&mut rng, 100);
    let v2 = random_vec(&mut rng, 10);
    let v3 = random_vec(&mut rng, 50);

    // Make packs from the vecs, check that they are the same as the vecs.
    let p1 = build_pack(&v1);
    let p2 = build_pack(&v2);
    let p3 = build_pack(&v3);
    let v1 = sort_and_dedup(v1);
    let v2 = sort_and_dedup(v2);
    let v3 = sort_and_dedup(v3);
    assert!(p1.as_slice().iter().eq(v1.iter()));
    assert!(p2.as_slice().iter().eq(v2.iter()));
    assert!(p3.as_slice().iter().eq(v3.iter()));

    // Now merge everything into one vec and one set and see if
    // they match.
    let mut v = v1.clone();
    v.extend_from_slice(&v2);
    v.extend_from_slice(&v3);
    let v = sort_and_dedup(v);

    let mut s = SetBuilder::empty();
    s.insert_pack(p1.clone());
    s.insert_pack(p2.clone());
    s.insert_pack(p3.clone());
    let s = s.finalize();

    assert!(set_items(&s).iter().eq(v.iter()));

    // Now make diffs and see if they are correct.
    let h1 = v1.iter().cloned().collect::<HashSet<_>>();
    let h2 = v2.iter().cloned().collect::<HashSet<_>>();
    let h3 = v3.iter().cloned().collect::<HashSet<_>>();
    let s1 = PayloadSet::from_pack(p1.clone());
    let s2 = PayloadSet::from_pack(p2.clone());
    let s3 = PayloadSet::from_pack(p3.clone());
    let d2 = s2.diff_from(&s1);
    let d3 = s3.diff_from(&s2);

    fn check_diff(d: &Diff, from: &HashSet<Payload>, to: &HashSet<Payload>) {
        let mut announced = to.difference(from).cloned().collect::<Vec<_>>();
        announced.sort_by(ordering);
        let mut withdrawn = from.difference(to).cloned().collect::<Vec<_>>();
        withdrawn.sort_by(ordering);
        let items = diff_items(d);
        assert!(items
            .iter()
            .filter(|(_, action)| *action == Action::Announce)
            .map(|(item, _)| item)
            .eq(announced.iter()));
        assert!(items
            .iter()
            .filter(|(_, action)| *action == Action::Withdraw)
            .map(|(item, _)| item)
            .eq(withdrawn.iter()));
    }
    check_diff(&d2, &h1, &h2);
    check_diff(&d3, &h2, &h3);

    // Now check that applying those diffs works.
    assert!(set_items(&d2.apply(&s1).unwrap()).iter().eq(set_items(&s2).iter()));
    assert!(set_items(&d3.apply(&s2).unwrap()).iter().eq(set_items(&s3).iter()));

    // Now merge the two diffs and see if that still works.
    assert!(set_items(&d2.extend(&d3).unwrap().apply(&s1).unwrap())
        .iter()
        .eq(set_items(&s3).iter()));
}

#[test]
fn pack_builder_errors() {
    let mut builder = PackBuilder::empty();
    assert_eq!(builder.insert(p(1)), Ok(()));
    assert_eq!(builder.insert(p(1)), Err(PayloadError::DuplicateAnnounce));
    assert!(builder.contains(&p(1)));
    assert_eq!(builder.len(), 1);
    assert_eq!(builder.remove(&p(2)), Err(PayloadError::UnknownWithdraw));
    assert_eq!(builder.remove(&p(1)), Ok(()));
    assert!(builder.is_empty());
}

#[test]
fn try_insert_overlapping() {
    let mut builder = SetBuilder::empty();
    assert_eq!(builder.try_insert_pack(pack(&[1, 2, 3])), Ok(()));
    assert_eq!(builder.try_insert_pack(pack(&[3, 4])), Err(PayloadError::Corrupt));
    assert_eq!(builder.try_insert_pack(pack(&[4, 5])), Ok(()));
    assert_eq!(set_to_vec(&builder.finalize()), [1, 2, 3, 4, 5]);
}

#[test]
fn block_overlaps() {
    assert!(block(&[1, 3, 5], 0..3).overlaps(&block(&[2, 5], 0..2)));
    assert!(!block(&[1, 3, 5], 0..2).overlaps(&block(&[2, 5], 0..2)));
}

#[test]
fn merge_and_filter() {
    let a = PayloadSet::from_pack(pack(&[1, 3, 5, 7]));
    let b = PayloadSet::from_pack(pack(&[2, 3, 4]));
    let merged = a.merge(&b);
    check_set(&merged);
    assert_eq!(set_to_vec(&merged), [1, 2, 3, 4, 5, 7]);
    let odd = merged.filter(|item| match item {
        Payload::Origin(origin) => origin.prefix.v4_addr() % 2 == 1,
        _ => false,
    });
    check_set(&odd);
    assert_eq!(set_to_vec(&odd), [1, 3, 5, 7]);
    let none = merged.filter(|_| false);
    assert!(none.is_empty());
}

#[test]
fn apply_errors() {
    let set = PayloadSet::from_pack(pack(&[1, 2, 3]));

    // Announcing something present already.
    let mut builder = DiffBuilder::empty();
    builder.push(p(2), Action::Announce).unwrap();
    assert_eq!(builder.finalize().apply(&set).unwrap_err(), PayloadError::DuplicateAnnounce);

    // Withdrawing something not present.
    let mut builder = DiffBuilder::empty();
    builder.push(p(4), Action::Withdraw).unwrap();
    assert_eq!(builder.finalize().apply(&set).unwrap_err(), PayloadError::UnknownWithdraw);

    // Relaxed application ignores both.
    let mut builder = DiffBuilder::empty();
    builder.push(p(2), Action::Announce).unwrap();
    builder.push(p(4), Action::Withdraw).unwrap();
    builder.push(p(3), Action::Withdraw).unwrap();
    assert_eq!(set_to_vec(&builder.finalize().apply_relaxed(&set)), [1, 2]);

    // Withdrawing something announced by the same diff is fine.
    let mut builder = DiffBuilder::empty();
    builder.push(p(5), Action::Announce).unwrap();
    builder.push(p(1), Action::Withdraw).unwrap();
    assert_eq!(set_to_vec(&builder.finalize().apply(&set).unwrap()), [2, 3, 5]);
}

#[test]
fn diff_builder_errors() {
    let mut builder = DiffBuilder::empty();
    assert_eq!(builder.push(p(1), Action::Announce), Ok(()));
    assert_eq!(builder.push(p(1), Action::Withdraw), Err(PayloadError::Corrupt));
    assert_eq!(builder.push(p(1), Action::Announce), Err(PayloadError::DuplicateAnnounce));
    assert_eq!(builder.push(p(2), Action::Withdraw), Ok(()));
    assert_eq!(builder.push(p(2), Action::Announce), Err(PayloadError::Corrupt));
    assert_eq!(builder.len(), 2);
}

#[test]
fn push_diff_stops_at_duplicate() {
    // The builder announces 3 and withdraws 6.
    let mut builder = DiffBuilder::empty();
    builder.push(p(3), Action::Announce).unwrap();
    builder.push(p(6), Action::Withdraw).unwrap();

    // A diff that withdraws 1, 3 and 5 and announces 2 and 4 chains onto
    // it: withdrawing 3 cancels its announcement, ...
    let mut d = DiffBuilder::empty();
    d.push(p(1), Action::Withdraw).unwrap();
    d.push(p(2), Action::Announce).unwrap();
    d.push(p(3), Action::Withdraw).unwrap();
    d.push(p(4), Action::Announce).unwrap();
    d.push(p(5), Action::Withdraw).unwrap();
    let d = d.finalize();
    let mut ok = DiffBuilder::empty();
    ok.push(p(3), Action::Announce).unwrap();
    ok.push(p(6), Action::Withdraw).unwrap();
    assert_eq!(ok.push_diff(&d), Ok(()));
    assert_eq!(
        diff_items(&ok.finalize()),
        vec![
            (p(1), Action::Withdraw),
            (p(2), Action::Announce),
            (p(4), Action::Announce),
            (p(5), Action::Withdraw),
            (p(6), Action::Withdraw),
        ]
    );

    // ... but announcing 3 again fails after 1 and 2 were added and
    // leaves them there, with 4 not added.
    let mut d = DiffBuilder::empty();
    d.push(p(1), Action::Withdraw).unwrap();
    d.push(p(2), Action::Announce).unwrap();
    d.push(p(3), Action::Announce).unwrap();
    d.push(p(4), Action::Announce).unwrap();
    let d = d.finalize();
    assert_eq!(builder.push_diff(&d), Err(PayloadError::DuplicateAnnounce));
    assert_eq!(
        diff_items(&builder.finalize()),
        vec![
            (p(1), Action::Withdraw),
            (p(2), Action::Announce),
            (p(3), Action::Announce),
            (p(6), Action::Withdraw),
        ]
    );
}

#[test]
fn extend_chains_and_fails() {
    let a = PayloadSet::from_pack(pack(&[1, 2]));
    let b = PayloadSet::from_pack(pack(&[2, 3]));
    let c = PayloadSet::from_pack(pack(&[1, 3, 4]));
    let ab = b.diff_from(&a);
    let bc = c.diff_from(&b);
    let ac = ab.extend(&bc).unwrap();
    assert_eq!(
        diff_items(&ac),
        diff_items(&c.diff_from(&a))
    );
    // Announcing the same thing twice doesn’t chain.
    assert_eq!(ab.extend(&ab).unwrap_err(), PayloadError::DuplicateAnnounce);
}

#[test]
fn diff_to_self_is_empty() {
    let a = PayloadSet::from_pack(pack(&[1, 2, 3]));
    let d = a.diff_from(&a);
    assert!(d.is_empty());
    assert_eq!(d.len(), 0);
}

#[test]
fn owned_iterators() {
    let set = PayloadSet::from_pack(pack(&[3, 1, 2]));
    let mut iter = set.owned_iter();
    assert_eq!(iter.peek(), Some(&p(1)));
    assert_eq!(iter.next(), Some(&p(1)));
    assert_eq!(iter.next(), Some(&p(2)));
    assert_eq!(iter.next(), Some(&p(3)));
    assert_eq!(iter.next(), None);

    let mut builder = DiffBuilder::empty();
    builder.push(p(2), Action::Announce).unwrap();
    builder.push(p(1), Action::Withdraw).unwrap();
    let mut iter = builder.finalize().into_owned_iter();
    assert_eq!(iter.peek(), Some((&p(1), Action::Withdraw)));
    assert_eq!(iter.next(), Some((&p(1), Action::Withdraw)));
    assert_eq!(iter.next(), Some((&p(2), Action::Announce)));
    assert_eq!(iter.next(), None);
}

#[test]
fn update_usable_diff() {
    let set = PayloadSet::from_pack(pack(&[1]));
    let diff = PayloadSet::from_pack(pack(&[1])).diff_from(&PayloadSet::default());
    let update = Update::new(10, set.clone(), Some(diff));
    assert_eq!(update.serial(), 10);
    assert!(update.get_usable_diff(9).is_some());
    assert!(update.get_usable_diff(10).is_none());
    let wrapped = Update::new(0, set.clone(), Some(PayloadSet::default().diff_from(&set)));
    assert!(wrapped.get_usable_diff(u32::MAX).is_some());
    let without = Update::new(10, set, None);
    assert!(without.get_usable_diff(9).is_none());

    let mut update = Update::new(7, PayloadSet::from_pack(pack(&[1, 2])), None);
    let mut builder = DiffBuilder::empty();
    builder.push(p(3), Action::Announce).unwrap();
    builder.push(p(1), Action::Withdraw).unwrap();
    update.apply_diff_relaxed(&builder.finalize());
    assert_eq!(update.serial(), 7);
    assert_eq!(set_to_vec(update.set()), [2, 3]);
    assert_eq!(set_to_vec(&update.into_set()), [2, 3]);
}

#[test]
fn payload_order() {
    // Route origins come before router keys before ASPAs.
    let origin = p(1);
    let key = Payload::RouterKey(rtrtr::rtr::RouterKey {
        key_identifier: [0; 20],
        asn: 1,
        key_info: vec![1, 2],
    });
    let aspa = Payload::Aspa(rtrtr::rtr::Aspa { customer: 1, providers: vec![2] });
    assert!(less(&origin, &key));
    assert!(less(&key, &aspa));
    assert!(same(&aspa, &aspa.clone()));
    // More-specific prefixes come right before the prefix covering them.
    let wide = Payload::Origin(
        RouteOrigin::new(Prefix::new_v4(0x0a00_0000, 8).unwrap(), None, 1).unwrap(),
    );
    let narrow = Payload::Origin(
        RouteOrigin::new(Prefix::new_v4(0x0a00_0000, 16).unwrap(), None, 1).unwrap(),
    );
    assert!(less(&narrow, &wide));
}
