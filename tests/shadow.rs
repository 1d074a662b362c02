use raytracer::shadow::{is_blocked, visible_lights};

#[test]
fn empty_scene_blocks_nothing() {
    assert!(!is_blocked(&vec![]));
}

#[test]
fn any_hit_blocks() {
    assert!(!is_blocked(&vec![false, false, false]));
    assert!(is_blocked(&vec![false, true, false]));
    assert!(is_blocked(&vec![false, false, true]));
}

#[test]
fn unblocked_single_light_is_visible() {
    // one sphere, one light at the camera: the shadow ray meets nothing
    assert_eq!(visible_lights(&vec![vec![false]]), vec![true]);
}

#[test]
fn inserted_occluder_blocks_light() {
    // the same light after a second sphere is placed between it and the hit
    let before = vec![vec![false]];
    let after = vec![vec![false, true]];
    assert_eq!(visible_lights(&before), vec![true]);
    assert_eq!(visible_lights(&after), vec![false]);
}

#[test]
fn occluder_affects_only_its_light() {
    let hits = vec![vec![false, true], vec![false, false], vec![true, true]];
    assert_eq!(visible_lights(&hits), vec![false, true, false]);
}

#[test]
fn adding_surfaces_never_unblocks() {
    let base = vec![true, false];
    for at in 0..=base.len() {
        for added in [false, true] {
            let mut grown = base.clone();
            grown.insert(at, added);
            assert!(is_blocked(&grown));
        }
    }
}
