use raytracer::world::WorldKind;

#[test]
fn toggle_switches_worlds() {
    assert_eq!(WorldKind::Overworld.toggle(), WorldKind::Nether);
    assert_eq!(WorldKind::Nether.toggle(), WorldKind::Overworld);
    assert_eq!(WorldKind::Nether.toggle().toggle(), WorldKind::Nether);
}
