use nec::Atom;
use nec::nec::DNEC;
use nec::nec::UNEC;

#[test]
fn test_unec() {
    // build test data
    let v1: Vec<_> = (0..100)
        .map(|i| {
            (
                format!("NAME{}", i),
                Atom {
                    proton: i,
                    neutron: i,
                },
            )
        })
        .collect();

    // initial test
    let mut nec = UNEC::<Atom>::new();
    assert_eq!(nec.len(), 0);
    assert!(nec.get(0).is_none());

    //---------------------------------------------------------------------------
    // bulk construction
    //---------------------------------------------------------------------------
    nec = UNEC::<Atom>::from(v1);

    for i in 0..100 {
        assert_eq!(nec.get_name(i).unwrap(), &format!("NAME{}", i));
        let s = nec.get(i).unwrap();
        assert_eq!(s.proton, i);
        assert_eq!(s.neutron, i);
    }

    //---------------------------------------------------------------------------
    // iterators
    //---------------------------------------------------------------------------
    let mut i = 0;
    let mut it = nec.iter();
    while let Some((name, e)) = it.next() {
        assert_eq!(name, &format!("NAME{}", i));
        assert_eq!(e.proton, i);
        assert_eq!(e.neutron, i);
        i += 1;
    }

    i = 0;
    {
        let mut itm = nec.iter_mut();
        while let Some(e) = itm.next() {
            assert_eq!(e.proton, i);
            assert_eq!(e.neutron, i);
            i += 1;
        }
    }
    for i in 0..100 {
        assert_eq!(nec.get_name(i).unwrap(), &format!("NAME{}", i));
    }

    //---------------------------------------------------------------------------
    // enumerate and filter, written out
    //---------------------------------------------------------------------------
    let mut i = 0;
    let mut it2 = nec.iter();
    while let Some((name, s)) = it2.next() {
        assert_eq!(name, &format!("NAME{}", i));
        assert_eq!(s.proton, i);
        assert_eq!(s.neutron, i);
        i += 1;
    }

    {
        let mut even = 0;
        let mut it3 = nec.iter();
        while let Some((_, e)) = it3.next() {
            if e.proton % 2 == 0 {
                even += 1;
            }
        }
        assert_eq!(even, 50);
    }

    //---------------------------------------------------------------------------
    // contains, get_name()
    //---------------------------------------------------------------------------
    assert!(nec.contains_name("NAME5"));
    assert!(!nec.contains_name("NAME100"));

    assert_eq!(nec.get_name(10).unwrap(), "NAME10");

    //---------------------------------------------------------------------------
    // clone
    //---------------------------------------------------------------------------
    let nec2 = nec.clone();
    assert_eq!(nec.len(), 100);

    for i in 0..100 {
        assert_eq!(nec2.get_name(i).unwrap(), &format!("NAME{}", i));
        let e = nec2.get(i).unwrap();
        assert_eq!(e.proton, i);
        assert_eq!(e.neutron, i);
    }

    //---------------------------------------------------------------------------
    // names
    //---------------------------------------------------------------------------
    let names = nec2.names();
    assert!(names.contains(&"NAME5".to_string()));
    assert!(!names.contains(&"NAME100".to_string()));

    //---------------------------------------------------------------------------
    // indexes
    //---------------------------------------------------------------------------
    {
        let element50_name = nec.get_name(50).unwrap();
        assert_eq!(element50_name, "NAME50");

        let element50 = nec.at(50);
        assert_eq!(element50.proton, 50);
    }

    //---------------------------------------------------------------------------
    // clear
    //---------------------------------------------------------------------------
    nec.clear();
    assert_eq!(nec.len(), 0);
}

#[test]
fn test_dnec() {
    // initial test
    let mut nec = DNEC::<Atom>::new();
    assert_eq!(nec.len(), 0);
    assert!(nec.get(0).is_none());

    //---------------------------------------------------------------------------
    // fill nec with duplicate data
    //---------------------------------------------------------------------------
    for i in 0..50 {
        nec.push(
            "A",
            Atom {
                proton: i,
                neutron: i,
            },
        );
    }
    for i in 50..100 {
        nec.push(
            "B",
            Atom {
                proton: i,
                neutron: i,
            },
        );
    }

    //---------------------------------------------------------------------------
    // iterators
    //---------------------------------------------------------------------------
    let mut i = 0;
    let mut it = nec.iter();
    while let Some((_, e)) = it.next() {
        assert_eq!(e.proton, i);
        assert_eq!(e.neutron, i);
        i += 1;
    }

    i = 0;
    {
        let mut itm = nec.iter_mut();
        while let Some(e) = itm.next() {
            assert_eq!(e.proton, i);
            assert_eq!(e.neutron, i);
            i += 1;
        }
    }

    //---------------------------------------------------------------------------
    // enumerate and filter, written out
    //---------------------------------------------------------------------------
    let mut i = 0;
    let mut it2 = nec.iter();
    while let Some((_, s)) = it2.next() {
        assert_eq!(s.proton, i);
        assert_eq!(s.neutron, i);
        i += 1;
    }

    {
        let mut even = 0;
        let mut it3 = nec.iter();
        while let Some((_, e)) = it3.next() {
            if e.proton % 2 == 0 {
                even += 1;
            }
        }
        assert_eq!(even, 50);
    }

    //---------------------------------------------------------------------------
    // contains, get_name()
    //---------------------------------------------------------------------------
    assert!(nec.contains_name("A"));
    assert!(nec.contains_name("B"));
    assert!(!nec.contains_name("C"));

    assert_eq!(nec.get_name(10).unwrap(), "A");

    //---------------------------------------------------------------------------
    // clone
    //---------------------------------------------------------------------------
    let nec2 = nec.clone();
    assert_eq!(nec.len(), 100);

    for i in 0..100 {
        let e = nec2.get(i).unwrap();
        assert_eq!(e.proton, i);
        assert_eq!(e.neutron, i);
    }

    //---------------------------------------------------------------------------
    // names
    //---------------------------------------------------------------------------
    let names = nec2.names();
    assert!(names.contains(&"A".to_string()));
    assert!(!names.contains(&"C".to_string()));

    //---------------------------------------------------------------------------
    // get_name()
    //---------------------------------------------------------------------------
    {
        let element50_name = nec.get_name(50).unwrap().clone();
        assert_eq!(&element50_name, "B");
    }

    //---------------------------------------------------------------------------
    // remove
    //---------------------------------------------------------------------------
    assert_eq!(nec.get_name(49).unwrap(), "A");
    nec.remove(0);
    assert_eq!(nec.len(), 99);

    // test several locations
    assert_eq!(nec.get_name(0).unwrap(), "A");
    assert_eq!(nec.get_name(49).unwrap(), "B");

    //---------------------------------------------------------------------------
    // clear
    //---------------------------------------------------------------------------
    nec.clear();
    assert_eq!(nec.len(), 0);
}
