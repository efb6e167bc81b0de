use ghdbscan::gpu_utils::{align_to, buffer_size, workgroup_count};

#[test]
fn test_workgroup_count() {
    assert_eq!(workgroup_count(100, 64), 2);
    assert_eq!(workgroup_count(64, 64), 1);
    assert_eq!(workgroup_count(65, 64), 2);
}

#[test]
fn test_align_to() {
    assert_eq!(align_to(100, 256), 256);
    assert_eq!(align_to(256, 256), 256);
    assert_eq!(align_to(257, 256), 512);
}

#[test]
fn workgroup_count_of_zero_is_zero() {
    assert_eq!(workgroup_count(0, 64), 0);
    assert_eq!(workgroup_count(1, 1), 1);
}

#[test]
fn align_to_zero_and_one() {
    assert_eq!(align_to(0, 256), 0);
    assert_eq!(align_to(7, 1), 7);
}

#[test]
fn buffer_size_counts_bytes() {
    assert_eq!(buffer_size::<u32>(10), 40);
    assert_eq!(buffer_size::<f64>(3), 24);
    assert_eq!(buffer_size::<u8>(0), 0);
}

#[test]
fn workgroup_count_at_the_top_of_the_range() {
    assert_eq!(workgroup_count(u32::MAX, 1), u32::MAX);
    assert_eq!(workgroup_count(u32::MAX - 63, 64), 67_108_863);
}

#[test]
fn align_to_at_the_top_of_the_range() {
    assert_eq!(align_to(u64::MAX, 1), u64::MAX);
    assert_eq!(align_to(u64::MAX - 255, 256), u64::MAX - 255);
}
