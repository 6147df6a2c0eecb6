use tracy::query::World;

#[test]
fn creating_a_world() {
    let w = World::<String, String>::new();

    assert_eq!(w.objects().count(), 0);
    assert_eq!(w.lights().count(), 0);
}
