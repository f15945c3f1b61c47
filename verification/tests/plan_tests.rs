use dzi_assemble::manifest::parse_manifest;
use dzi_assemble::plan::{layer_jobs, layer_target, should_compose};

#[test]
fn scale_factors_for_1000_by_800() {
    assert_eq!(layer_target(1000, 1), 1000);
    assert_eq!(layer_target(800, 1), 800);
    assert_eq!(layer_target(1000, 0), 2000);
    assert_eq!(layer_target(800, 0), 1600);
    assert_eq!(layer_target(1000, 2), 500);
    assert_eq!(layer_target(800, 2), 400);
    assert_eq!(layer_target(1000, 3), 250);
    assert_eq!(layer_target(800, 3), 200);
}

#[test]
fn scale_rounds_halves_up() {
    // 5 * 0.5 = 2.5 rounds to 3; 3 * 0.5 = 1.5 rounds to 2
    assert_eq!(layer_target(5, 2), 3);
    assert_eq!(layer_target(3, 2), 2);
    // 1 * 0.25 = 0.25 rounds to 0
    assert_eq!(layer_target(1, 3), 0);
    // deep layers collapse to zero
    assert_eq!(layer_target(u32::MAX, 40), 0);
}

#[test]
fn doubling_saturates_at_u32_max() {
    assert_eq!(layer_target(u32::MAX, 0), u32::MAX);
    assert_eq!(layer_target(0x8000_0000, 0), u32::MAX);
    assert_eq!(layer_target(0x7fff_ffff, 0), 0xffff_fffe);
}

#[test]
fn layers_zero_and_one_always_compose() {
    assert!(should_compose(0, false));
    assert!(should_compose(1, false));
    assert!(!should_compose(2, false));
    assert!(!should_compose(3, false));
    assert!(should_compose(2, true));
    assert!(should_compose(3, true));
}

#[test]
fn four_layer_manifest_skip_toggle() {
    // four single-cell layers, indices 0 through 3
    let input = b"f\n100,80\n1,1\na\n1,1\nb\n1,1\nc\n1,1\nd\n".to_vec();
    let f = parse_manifest(&input).unwrap();
    assert_eq!(f.layers.len(), 4);

    let jobs_off = layer_jobs(&f, false);
    assert_eq!(jobs_off.len(), 2);
    assert_eq!(jobs_off[0].index, 0);
    assert_eq!(jobs_off[1].index, 1);

    let jobs_on = layer_jobs(&f, true);
    assert_eq!(jobs_on.len(), 4);
    for (i, job) in jobs_on.iter().enumerate() {
        assert_eq!(job.index, i);
    }
    assert_eq!((jobs_on[0].target_w, jobs_on[0].target_h), (200, 160));
    assert_eq!((jobs_on[1].target_w, jobs_on[1].target_h), (100, 80));
    assert_eq!((jobs_on[2].target_w, jobs_on[2].target_h), (50, 40));
    assert_eq!((jobs_on[3].target_w, jobs_on[3].target_h), (25, 20));
}
