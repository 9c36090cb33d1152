use labrat_bridge::ptr::{Arena, Owned, Weak};

#[test]
fn upgrade_succeeds_while_owner_lives() {
    let mut arena: Arena<u32> = Arena::new();
    let o = Owned::new(&mut arena, 7);
    let w = Owned::downgrade(&o);
    let r = w.upgrade(&mut arena).expect("owner alive");
    assert_eq!(r.get(&arena).t, 7);
    // the owner still holds a count, so the value stays
    assert!(r.release(&mut arena).is_none());
    // the last count: the value comes back
    let back = Owned::release(o, &mut arena).expect("sole count");
    assert_eq!(back.t, 7);
}

#[test]
fn upgrade_fails_after_owner_released() {
    let mut arena: Arena<String> = Arena::new();
    let o = Owned::new(&mut arena, String::from("x"));
    let w = Owned::downgrade(&o);
    let back = Owned::release(o, &mut arena).expect("sole count");
    assert_eq!(back.t, "x");
    assert!(w.upgrade(&mut arena).is_none());
}

#[test]
fn dangling_weak_never_upgrades() {
    let mut arena: Arena<u8> = Arena::new();
    let w: Weak<u8> = Weak::new();
    assert!(w.upgrade(&mut arena).is_none());
    let _o = Owned::new(&mut arena, 1);
    assert!(w.clone().upgrade(&mut arena).is_none());
}

#[test]
fn get_mut_requires_exclusive_ownership() {
    let mut arena: Arena<i64> = Arena::new();
    let o = Owned::new(&mut arena, 5);
    {
        let w = Owned::get_mut(&o, &mut arena).expect("no strong handles out");
        w.t = 6;
    }
    let r = Owned::reference(&o, &mut arena);
    assert!(Owned::get_mut(&o, &mut arena).is_none());
    assert_eq!(r.get(&arena).t, 6);
    assert!(r.release(&mut arena).is_none());
    let w = Owned::get_mut(&o, &mut arena).expect("exclusive again");
    assert_eq!(w.t, 6);
    assert!(Owned::release(o, &mut arena).is_some());
}

#[test]
fn value_hands_out_weak_handles_to_itself() {
    let mut arena: Arena<u16> = Arena::new();
    let o = Owned::new(&mut arena, 3);
    let rf = Owned::reference(&o, &mut arena);
    let this = rf.get(&arena).weak();
    let r2 = this.upgrade(&mut arena).expect("entry alive");
    assert_eq!(r2.get(&arena).t, 3);
    assert!(r2.release(&mut arena).is_none());
    assert!(rf.release(&mut arena).is_none());
    assert!(Owned::release(o, &mut arena).is_some());
}

#[test]
fn entries_are_stable_and_independent() {
    let mut arena: Arena<u8> = Arena::new();
    let a = Owned::new(&mut arena, 1);
    let b = Owned::new(&mut arena, 2);
    let wa = Owned::downgrade(&a);
    assert!(Owned::release(b, &mut arena).is_some());
    let r = wa.upgrade(&mut arena).expect("first entry untouched");
    assert_eq!(r.get(&arena).t, 1);
    assert!(r.release(&mut arena).is_none());
    assert!(Owned::release(a, &mut arena).is_some());
}
