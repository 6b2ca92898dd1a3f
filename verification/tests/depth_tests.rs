use topo_core::depth::CameraBits;
use topo_core::depth::DepthState;
use topo_core::depth::DepthVisibilityResolver;
use topo_core::depth::Size;
use topo_core::depth::depth_sample_offset;
use topo_core::depth::is_visible;
use topo_core::depth::pad_256;

fn state(width: u32, height: u32, yaw: f32) -> DepthState {
    DepthState {
        size: Size::new(width, height),
        camera: CameraBits {
            eye_x: 0f32.to_bits(),
            eye_y: 0f32.to_bits(),
            eye_z: 0f32.to_bits(),
            pitch: 0f32.to_bits(),
            yaw: yaw.to_bits(),
            fov_y: 45f32.to_bits(),
        },
    }
}

#[test]
fn pad_rounds_up_to_256() {
    assert_eq!(pad_256(1), 256);
    assert_eq!(pad_256(256), 256);
    assert_eq!(pad_256(257), 512);
    assert_eq!(pad_256(800 * 4), 3328);
}

#[test]
fn sample_offsets_use_padded_rows() {
    // 800 pixels: 3200 bytes of samples, padded to 3328 per row.
    assert_eq!(depth_sample_offset(0, 0, 800), 0);
    assert_eq!(depth_sample_offset(10, 0, 800), 40);
    assert_eq!(depth_sample_offset(10, 2, 800), 40 + 2 * 3328);
}

#[test]
fn readback_cycle_resolves_matching_fingerprint() {
    let mut resolver = DepthVisibilityResolver::new();
    let current = state(800, 600, 0.0);
    assert!(resolver.should_request(&current));

    resolver.on_copy_requested(current);
    assert!(!resolver.should_request(&current));
    resolver.on_mapped();
    assert!(resolver.resolve(&current));

    // Nothing changed: no new read-back is needed.
    assert!(!resolver.should_request(&current));

    // The camera moved: a new read-back is due.
    let turned = state(800, 600, 0.5);
    assert!(resolver.should_request(&turned));
}

#[test]
fn stale_readback_is_discarded_and_retried() {
    let mut resolver = DepthVisibilityResolver::new();
    let requested_under = state(800, 600, 0.0);
    resolver.on_copy_requested(requested_under);
    resolver.on_mapped();

    // The viewport changed while the copy was in flight.
    let current = state(1024, 768, 0.0);
    assert!(!resolver.resolve(&current));

    // The discard released the cycle, so the next frame retries.
    assert!(resolver.should_request(&current));
}

#[test]
fn visibility_margin_and_monotonicity() {
    let margin = 10_000; // ten distance units, in thousandths
    assert!(is_visible(50_000, 60_000, margin));
    assert!(is_visible(65_000, 60_000, margin)); // within the margin
    assert!(!is_visible(75_000, 60_000, margin));

    // Moving a peak further away never turns it visible.
    let mut last_visible = true;
    for peak in (0..200_000).step_by(5_000) {
        let now = is_visible(peak, 60_000, margin);
        assert!(last_visible || !now);
        last_visible = now;
    }
}
