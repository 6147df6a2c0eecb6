use tracy::query::{Containers, World};

#[test]
fn handles_find_the_objects_they_were_given_for() {
    let mut w = World::<&str, u8>::new();
    let a = w.add("a");
    let b = w.add("b");
    assert_ne!(a, b);
    assert_eq!(w.get(a), Some(&"a"));
    assert_eq!(w.get(b), Some(&"b"));
    assert_eq!(w.handles(), vec![a, b]);
    *w.get_mut(a).unwrap() = "c";
    assert_eq!(w.objects().copied().collect::<Vec<_>>(), vec!["c", "b"]);
}

#[test]
fn a_handle_of_another_world_may_find_nothing() {
    let mut big = World::<u8, u8>::new();
    big.add(1);
    let far = big.add(2);
    let mut small = World::<u8, u8>::new();
    small.add(3);
    assert_eq!(small.get(far), None);
    assert!(small.get_mut(far).is_none());
}

#[test]
fn removing_a_light_removes_its_first_occurrence_only() {
    let mut w = World::<u8, String>::new();
    w.add_light("red".to_string());
    w.add_light("blue".to_string());
    w.add_light("red".to_string());
    w.remove_light(&"red".to_string());
    assert_eq!(w.lights().cloned().collect::<Vec<_>>(), vec!["blue", "red"]);
    w.remove_light(&"green".to_string());
    assert_eq!(w.lights().count(), 2);
    for l in w.lights_mut() {
        l.push('!');
    }
    assert_eq!(w.lights().cloned().collect::<Vec<_>>(), vec!["blue!", "red!"]);
}

#[test]
fn crossing_surfaces_enters_and_exits_objects() {
    let mut w = World::<u8, u8>::new();
    let a = w.add(1);
    let b = w.add(2);
    let mut c = Containers::new();
    assert_eq!(c.current(), None);
    c.cross(a);
    c.cross(b);
    assert!(c.contains(a));
    assert_eq!(c.current(), Some(b));
    c.cross(a);
    assert!(!c.contains(a));
    assert_eq!(c.current(), Some(b));
    c.cross(b);
    assert_eq!(c.current(), None);
}

#[test]
fn a_world_built_from_parts_keeps_their_order() {
    let w = World::<char, u8>::from_parts(vec![7, 8], vec!['x', 'y', 'z']);
    assert_eq!(w.lights().copied().collect::<Vec<_>>(), vec![7, 8]);
    assert_eq!(w.objects().copied().collect::<Vec<_>>(), vec!['x', 'y', 'z']);
    let hs = w.handles();
    assert_eq!(w.get(hs[0]), Some(&'x'));
    assert_eq!(w.get(hs[2]), Some(&'z'));
}
