use chunk_pyramid::point3;
use chunk_pyramid::DownsampleDestination;

#[test]
fn downsample_destination_for_one_level_up() {
    let chunk_shape = point3(16, 16, 16);
    let level_delta = 1;

    let src_key = point3(16, 16, 16);
    let dst = DownsampleDestination::for_source_chunk(&chunk_shape, &src_key, level_delta);
    assert_eq!(
        dst,
        DownsampleDestination { dst_chunk_key: point3(0, 0, 0), dst_offset: point3(8, 8, 8) }
    );

    let src_key = point3(32, 32, 32);
    let dst = DownsampleDestination::for_source_chunk(&chunk_shape, &src_key, level_delta);
    assert_eq!(
        dst,
        DownsampleDestination { dst_chunk_key: point3(16, 16, 16), dst_offset: point3(0, 0, 0) }
    );
}

#[test]
fn downsample_destination_for_two_levels_up() {
    let chunk_shape = point3(16, 16, 16);
    let level_delta = 2;

    let src_key = point3(48, 48, 48);
    let dst = DownsampleDestination::for_source_chunk(&chunk_shape, &src_key, level_delta);
    assert_eq!(
        dst,
        DownsampleDestination { dst_chunk_key: point3(0, 0, 0), dst_offset: point3(12, 12, 12) }
    );

    let src_key = point3(64, 64, 64);
    let dst = DownsampleDestination::for_source_chunk(&chunk_shape, &src_key, level_delta);
    assert_eq!(
        dst,
        DownsampleDestination { dst_chunk_key: point3(16, 16, 16), dst_offset: point3(0, 0, 0) }
    );
}

#[test]
fn downsample_destination_delta_zero_is_identity() {
    let chunk_shape = point3(16, 16, 16);
    let src_key = point3(-32, 48, 0);
    let dst = DownsampleDestination::for_source_chunk(&chunk_shape, &src_key, 0);
    assert_eq!(
        dst,
        DownsampleDestination { dst_chunk_key: point3(-32, 48, 0), dst_offset: point3(0, 0, 0) }
    );
}

#[test]
fn downsample_destination_negative_keys() {
    let chunk_shape = point3(16, 16, 16);

    // One chunk below zero: its samples land in the high half of the coarse
    // chunk at -16, exactly mirroring the key 16 case above zero.
    let src_key = point3(-16, -16, -16);
    let dst = DownsampleDestination::for_source_chunk(&chunk_shape, &src_key, 1);
    assert_eq!(
        dst,
        DownsampleDestination { dst_chunk_key: point3(-16, -16, -16), dst_offset: point3(8, 8, 8) }
    );

    // Exactly one coarse span below zero: offset wraps back to zero.
    let src_key = point3(-32, -32, -32);
    let dst = DownsampleDestination::for_source_chunk(&chunk_shape, &src_key, 1);
    assert_eq!(
        dst,
        DownsampleDestination { dst_chunk_key: point3(-16, -16, -16), dst_offset: point3(0, 0, 0) }
    );
}

#[test]
fn downsample_destination_mixed_axes() {
    let chunk_shape = point3(4, 8, 16);
    let src_key = point3(4, -8, 48);
    let dst = DownsampleDestination::for_source_chunk(&chunk_shape, &src_key, 1);
    // per axis: floor(4/8)*4 = 0, floor(-8/16)*8 = -8, floor(48/32)*16 = 16
    // offsets: (4 mod 8)/2 = 2, (-8 mod 16)/2 = 4, (48 mod 32)/2 = 8
    assert_eq!(
        dst,
        DownsampleDestination { dst_chunk_key: point3(0, -8, 16), dst_offset: point3(2, 4, 8) }
    );
}

#[test]
fn downsample_destination_is_periodic() {
    // Shifting the source key by a whole number of coarse chunk spans
    // (shape << delta) moves the destination key by the same number of chunk
    // shapes and leaves the offset unchanged.
    let chunk_shape = point3(16, 16, 16);
    let delta = 1;
    let base = point3(48, -16, 16);
    let shifted = point3(48 + 32, -16 - 3 * 32, 16 + 32);
    let d0 = DownsampleDestination::for_source_chunk(&chunk_shape, &base, delta);
    let d1 = DownsampleDestination::for_source_chunk(&chunk_shape, &shifted, delta);
    assert_eq!(d0.dst_offset, d1.dst_offset);
    let expect = point3(
        d0.dst_chunk_key.coords[0] + 16,
        d0.dst_chunk_key.coords[1] - 3 * 16,
        d0.dst_chunk_key.coords[2] + 16,
    );
    assert_eq!(d1.dst_chunk_key, expect);
}
