use ginger::TICKS_PER_BEAT;

#[test]
fn scaffold_builds() {
    assert_eq!(TICKS_PER_BEAT, 960);
}
