use nec::Atom;
use nec::nec::DNEC;
use nec::nec::ElementBundle;
use nec::nec::UNEC;

fn atom(n: usize) -> Atom {
    Atom {
        proton: n,
        neutron: n,
    }
}

#[test]
fn unique_replace_keeps_len_and_second_element() {
    let mut c = UNEC::<Atom>::new();
    c.push("Hydrogen", atom(1));
    assert_eq!(c.len(), 1);
    c.push("Hydrogen", atom(2));
    assert_eq!(c.len(), 1);
    let e = c.get_by_name("Hydrogen").unwrap();
    assert_eq!(e.proton, 2);
    assert_eq!(c.get(0).unwrap().proton, 2);
    assert_eq!(c.get_name(0).unwrap(), "Hydrogen");

    // a third push still replaces in place
    c.push("Hydrogen", atom(7));
    assert_eq!(c.len(), 1);
    assert_eq!(c.at_name("Hydrogen").proton, 7);
}

#[test]
fn multi_append_keeps_push_order() {
    let mut c = DNEC::<Atom>::new();
    c.push("Hydrogen", atom(10));
    c.push("Hydrogen", atom(11));
    c.push("Hydrogen", atom(12));
    assert_eq!(c.len(), 3);
    let v = c.get_by_name("Hydrogen").unwrap();
    assert_eq!(v.len(), 3);
    assert_eq!(v[0].proton, 10);
    assert_eq!(v[1].proton, 11);
    assert_eq!(v[2].proton, 12);
}

#[test]
fn multi_remove_renumbers_every_name() {
    // positions 0..6 under names A B A A B A, each atom numbered by
    // its original position
    let mut c = DNEC::<Atom>::new();
    let pattern = ["A", "B", "A", "A", "B", "A"];
    for (i, name) in pattern.iter().enumerate() {
        c.push(name, atom(i));
    }
    let a = c.get_by_name("A").unwrap();
    let protons: Vec<usize> = a.iter().map(|e| e.proton).collect();
    assert_eq!(protons, vec![0, 2, 3, 5]);

    c.remove(0);
    assert_eq!(c.len(), 5);
    // A now sits at positions 1, 2, 4 and B at 0, 3
    let a = c.get_by_name("A").unwrap();
    let protons: Vec<usize> = a.iter().map(|e| e.proton).collect();
    assert_eq!(protons, vec![2, 3, 5]);
    let b = c.get_by_name("B").unwrap();
    let protons: Vec<usize> = b.iter().map(|e| e.proton).collect();
    assert_eq!(protons, vec![1, 4]);
    assert_eq!(c.get_name(0).unwrap(), "B");
    assert_eq!(c.get_name(1).unwrap(), "A");
    assert_eq!(c.get_name(2).unwrap(), "A");
    assert_eq!(c.get_name(3).unwrap(), "B");
    assert_eq!(c.get_name(4).unwrap(), "A");
}

#[test]
fn multi_remove_renumbers_across_a_longer_history() {
    // names A B A A B A A B B A over positions 0..10
    let mut c = DNEC::<Atom>::new();
    let pattern = ["A", "B", "A", "A", "B", "A", "A", "B", "B", "A"];
    for (i, name) in pattern.iter().enumerate() {
        c.push(name, atom(i));
    }
    c.remove(0);
    let a: Vec<usize> = c
        .get_by_name("A")
        .unwrap()
        .iter()
        .map(|e| e.proton)
        .collect();
    let b: Vec<usize> = c
        .get_by_name("B")
        .unwrap()
        .iter()
        .map(|e| e.proton)
        .collect();
    assert_eq!(a, vec![2, 3, 5, 6, 9]);
    assert_eq!(b, vec![1, 4, 7, 8]);

    c.remove(2);
    let a: Vec<usize> = c
        .get_by_name("A")
        .unwrap()
        .iter()
        .map(|e| e.proton)
        .collect();
    let b: Vec<usize> = c
        .get_by_name("B")
        .unwrap()
        .iter()
        .map(|e| e.proton)
        .collect();
    assert_eq!(a, vec![2, 5, 6, 9]);
    assert_eq!(b, vec![1, 4, 7, 8]);
}

#[test]
fn multi_removing_last_of_a_name_prunes_it() {
    let mut c = DNEC::<Atom>::new();
    c.push("A", atom(0));
    c.push("B", atom(1));
    c.remove(0);
    assert!(!c.contains_name("A"));
    assert!(c.get_by_name("A").is_none());
    assert!(c.contains_name("B"));
    let names = c.names();
    assert_eq!(names.len(), 1);
    assert!(names.contains(&"B".to_string()));
}

#[test]
fn unique_remove_renumbers_other_names() {
    let mut c = UNEC::<Atom>::new();
    c.push("X", atom(0));
    c.push("Y", atom(1));
    c.push("Z", atom(2));
    let gone = c.remove(0);
    assert_eq!(gone.name, "X");
    assert_eq!(gone.elem.proton, 0);
    assert_eq!(c.len(), 2);
    assert!(!c.contains_name("X"));
    // the index still finds the shifted elements
    assert_eq!(c.get_by_name("Y").unwrap().proton, 1);
    assert_eq!(c.get_by_name("Z").unwrap().proton, 2);
    // replacing after the shift touches the right slot
    c.push("Y", atom(9));
    assert_eq!(c.len(), 2);
    assert_eq!(c.get(0).unwrap().proton, 9);
    assert_eq!(c.get(1).unwrap().proton, 2);
}

#[test]
fn round_trip_multi_reproduces_pairs() {
    let pairs = vec![
        ("A".to_string(), atom(0)),
        ("B".to_string(), atom(1)),
        ("A".to_string(), atom(2)),
    ];
    let c = DNEC::<Atom>::from(pairs);
    assert_eq!(c.len(), 3);
    let mut it = c.iter();
    let expected = [("A", 0), ("B", 1), ("A", 2)];
    let mut i = 0;
    while let Some((name, e)) = it.next() {
        assert_eq!(name, expected[i].0);
        assert_eq!(e.proton, expected[i].1);
        i += 1;
    }
    assert_eq!(i, 3);
}

#[test]
fn round_trip_unique_with_distinct_names() {
    let pairs = vec![
        ("A".to_string(), atom(0)),
        ("B".to_string(), atom(1)),
        ("C".to_string(), atom(2)),
    ];
    let c = UNEC::<Atom>::from(pairs);
    assert_eq!(c.len(), 3);
    for (i, name) in ["A", "B", "C"].iter().enumerate() {
        assert_eq!(c.get_name(i).unwrap(), name);
        assert_eq!(c.get(i).unwrap().proton, i);
    }
}

#[test]
fn unique_from_duplicate_names_collapses() {
    let pairs = vec![
        ("A".to_string(), atom(0)),
        ("B".to_string(), atom(1)),
        ("A".to_string(), atom(2)),
    ];
    let c = UNEC::<Atom>::from(pairs);
    assert_eq!(c.len(), 2);
    assert_eq!(c.get_by_name("A").unwrap().proton, 2);
    assert_eq!(c.get_by_name("B").unwrap().proton, 1);
}

#[test]
fn boundary_lookups_on_empty_collections() {
    let mut u = UNEC::<Atom>::new();
    assert!(u.is_empty());
    assert!(u.get(0).is_none());
    assert!(u.get_name(0).is_none());
    assert!(u.get_by_name("A").is_none());
    assert!(u.try_remove(0).is_none());
    assert!(!u.contains_name("A"));
    assert_eq!(u.names().len(), 0);
    assert!(u.get_mut(0).is_none());

    let mut d = DNEC::<Atom>::new();
    assert!(d.get(0).is_none());
    assert!(d.get_by_name("A").is_none());
    assert!(d.try_remove(0).is_none());
}

#[test]
fn try_remove_out_of_range_leaves_collection_alone() {
    let mut d = DNEC::<Atom>::new();
    d.push("A", atom(0));
    assert!(d.try_remove(1).is_none());
    assert_eq!(d.len(), 1);
    let gone = d.try_remove(0).unwrap();
    assert_eq!(gone.name, "A");
    assert_eq!(gone.elem.proton, 0);
    assert_eq!(d.len(), 0);
}

#[test]
fn clone_is_independent_of_the_original() {
    let mut c = DNEC::<Atom>::new();
    c.push("A", atom(0));
    c.push("B", atom(1));
    let mut copy = c.clone();
    copy.push("C", atom(2));
    copy.remove(0);
    // the original keeps its length, names and contents
    assert_eq!(c.len(), 2);
    assert_eq!(c.get_name(0).unwrap(), "A");
    assert_eq!(c.get_name(1).unwrap(), "B");
    assert_eq!(c.get(0).unwrap().proton, 0);
    assert_eq!(c.get(1).unwrap().proton, 1);
    let names = c.names();
    assert!(names.contains(&"A".to_string()));
    assert!(!names.contains(&"C".to_string()));
    // while the copy went its own way
    assert_eq!(copy.len(), 2);
    assert_eq!(copy.get_name(0).unwrap(), "B");
    assert_eq!(copy.get_name(1).unwrap(), "C");
}

#[test]
fn get_mut_changes_the_element_and_keeps_the_name() {
    let mut c = UNEC::<Atom>::new();
    c.push("A", atom(0));
    {
        let e = c.get_mut(0).unwrap();
        e.proton = 42;
    }
    assert_eq!(c.get(0).unwrap().proton, 42);
    assert_eq!(c.get_name(0).unwrap(), "A");
    assert_eq!(c.get_by_name("A").unwrap().proton, 42);
}

#[test]
fn iter_mut_writes_reach_the_collection() {
    let mut c = DNEC::<Atom>::new();
    for i in 0..4 {
        c.push("A", atom(i));
    }
    {
        let mut it = c.iter_mut();
        while let Some(e) = it.next() {
            e.proton += 100;
        }
    }
    for i in 0..4 {
        assert_eq!(c.get(i).unwrap().proton, 100 + i);
        assert_eq!(c.get_name(i).unwrap(), "A");
    }
    // the index is still intact after mutation through the iterator
    let v = c.get_by_name("A").unwrap();
    assert_eq!(v.len(), 4);
    assert_eq!(v[3].proton, 103);
}

#[test]
fn into_iter_yields_owned_bundles_in_order() {
    let mut c = DNEC::<Atom>::new();
    c.push("A", atom(0));
    c.push("B", atom(1));
    let mut it = c.into_iter();
    let first = it.next().unwrap();
    assert_eq!(first.name, "A");
    assert_eq!(first.elem.proton, 0);
    let second = it.next().unwrap();
    assert_eq!(second.name, "B");
    assert_eq!(second.elem.proton, 1);
    assert!(it.next().is_none());
}

#[test]
fn push_named_uses_the_element_own_name() {
    let mut c = DNEC::<ElementBundle<Atom>>::new();
    c.push_named(ElementBundle {
        elem: atom(1),
        name: "Hydrogen".to_string(),
    });
    c.push_named(ElementBundle {
        elem: atom(1),
        name: "Hydrogen".to_string(),
    });
    c.push_named(ElementBundle {
        elem: atom(8),
        name: "Oxygen".to_string(),
    });
    assert_eq!(c.len(), 3);
    assert_eq!(c.get_by_name("Hydrogen").unwrap().len(), 2);

    let mut u = UNEC::<ElementBundle<Atom>>::new();
    u.push_named(ElementBundle {
        elem: atom(1),
        name: "Hydrogen".to_string(),
    });
    u.push_named(ElementBundle {
        elem: atom(2),
        name: "Hydrogen".to_string(),
    });
    assert_eq!(u.len(), 1);
    assert_eq!(u.get_by_name("Hydrogen").unwrap().elem.proton, 2);
}

#[test]
fn push_with_name_behaves_like_push() {
    let mut u = UNEC::<Atom>::new();
    u.push_with_name("A", atom(0));
    u.push_with_name("A", atom(1));
    assert_eq!(u.len(), 1);
    assert_eq!(u.get_by_name("A").unwrap().proton, 1);

    let mut d = DNEC::<Atom>::new();
    d.push_with_name("A", atom(0));
    d.push_with_name("A", atom(1));
    assert_eq!(d.len(), 2);
}

#[test]
fn bundle_clone_keeps_the_name() {
    let b = ElementBundle {
        elem: atom(3),
        name: "Li".to_string(),
    };
    let b2 = b.clone();
    assert_eq!(b2.name, "Li");
    assert_eq!(b2.elem.proton, 3);
}

#[test]
fn default_is_empty() {
    let c: UNEC<Atom> = Default::default();
    assert!(c.is_empty());
    let d: DNEC<Atom> = Default::default();
    assert_eq!(d.len(), 0);
}
