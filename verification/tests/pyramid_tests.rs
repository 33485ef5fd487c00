use chunk_pyramid::point2;
use chunk_pyramid::point3;
use chunk_pyramid::Chunk;
use chunk_pyramid::ChunkMapBuilder;
use chunk_pyramid::ChunkPyramid;
use chunk_pyramid::PointDownsampler;
use chunk_pyramid::PyramidError;

fn build_pyramid(ambient: i32, num_levels: u8) -> ChunkPyramid<i32, ()> {
    let builder = ChunkMapBuilder::new(point3(4, 4, 4), ambient, ()).unwrap();
    chunk_pyramid::ChunkHashMapPyramid::new(&builder, num_levels)
}

#[test]
fn builder_rejects_bad_shapes() {
    assert!(ChunkMapBuilder::new(point3(15, 16, 16), 0i32, ()).is_none());
    assert!(ChunkMapBuilder::new(point3(0, 4, 4), 0i32, ()).is_none());
    assert!(ChunkMapBuilder::new(point3(-8, 4, 4), 0i32, ()).is_none());
    assert!(ChunkMapBuilder::new(chunk_pyramid::Point { coords: vec![] }, 0i32, ()).is_none());
    assert!(ChunkMapBuilder::new(point3(16, 16, 16), 0i32, ()).is_some());
    assert!(ChunkMapBuilder::new(point2(1, 1024), 0i32, ()).is_some());
}

#[test]
fn pyramid_level_access() {
    let p = build_pyramid(0, 3);
    assert_eq!(p.num_levels(), 3);
    assert_eq!(p.levels_slice().len(), 3);
    assert!(p.level(0).is_some());
    assert!(p.level(2).is_some());
    assert!(p.level(3).is_none());
    assert!(p.level(200).is_none());
}

#[test]
fn level_mut_roundtrip() {
    let mut p = build_pyramid(0, 2);
    let shape = point3(4, 4, 4);
    let key = point3(4, 0, 0);
    let chunk = Chunk::filled(&shape, 42, ());
    p.level_mut(0).write_chunk(&key, chunk);
    let level = p.level(0).unwrap();
    let stored = level.get_chunk(&key).unwrap();
    assert_eq!(stored.get(&point3(0, 0, 0)), 42);
    assert_eq!(stored.get(&point3(3, 3, 3)), 42);
    assert!(level.get_chunk(&point3(0, 0, 0)).is_none());
}

#[test]
fn chunk_put_and_get() {
    let shape = point3(4, 4, 4);
    let mut chunk: Chunk<i32, ()> = Chunk::filled(&shape, 0, ());
    chunk.put(&point3(1, 2, 3), 7);
    chunk.put(&point3(0, 0, 0), -5);
    assert_eq!(chunk.get(&point3(1, 2, 3)), 7);
    assert_eq!(chunk.get(&point3(0, 0, 0)), -5);
    assert_eq!(chunk.get(&point3(3, 2, 1)), 0);
}

#[test]
fn downsample_rejects_wrong_level_order() {
    let mut p = build_pyramid(0, 2);
    let key = point3(4, 4, 4);
    p.level_mut(0).write_chunk(&key, Chunk::filled(&point3(4, 4, 4), 3, ()));
    let before: Vec<Vec<i32>> =
        p.levels_slice().iter().map(|l| l.chunks.iter().flat_map(|e| e.1.data.clone()).collect()).collect();
    let counts: Vec<usize> = p.levels_slice().iter().map(|l| l.chunks.len()).collect();

    let r = p.downsample_chunk(&PointDownsampler, &key, 1, 1);
    assert_eq!(r, Err(PyramidError::InvalidLevelOrder));
    let r = p.downsample_chunk(&PointDownsampler, &key, 1, 0);
    assert_eq!(r, Err(PyramidError::InvalidLevelOrder));

    // every level's store is unchanged
    let after: Vec<Vec<i32>> =
        p.levels_slice().iter().map(|l| l.chunks.iter().flat_map(|e| e.1.data.clone()).collect()).collect();
    let counts_after: Vec<usize> = p.levels_slice().iter().map(|l| l.chunks.len()).collect();
    assert_eq!(before, after);
    assert_eq!(counts, counts_after);
}

#[test]
fn downsample_rejects_level_out_of_bounds() {
    let mut p = build_pyramid(0, 2);
    let key = point3(0, 0, 0);
    let r = p.downsample_chunk(&PointDownsampler, &key, 0, 2);
    assert_eq!(r, Err(PyramidError::LevelOutOfBounds));
    let r = p.downsample_chunk(&PointDownsampler, &key, 3, 9);
    assert_eq!(r, Err(PyramidError::LevelOutOfBounds));
    for l in p.levels_slice() {
        assert_eq!(l.chunks.len(), 0);
    }
}

#[test]
fn downsample_sparse_fallback_fills_with_source_ambient() {
    // No chunk at the source key: the destination footprint reads back as
    // the *source* store's ambient value; everything else keeps the
    // destination store's ambient value.
    let mut p = build_pyramid(7, 2);
    p.level_mut(0).ambient_value = 9;

    let key = point3(4, 4, 4);
    let r = p.downsample_chunk(&PointDownsampler, &key, 0, 1);
    assert_eq!(r, Ok(()));

    let dst_level = p.level(1).unwrap();
    let dst_chunk = dst_level.get_chunk(&point3(0, 0, 0)).unwrap();
    // destination offset (2,2,2), footprint extent (2,2,2)
    for x in 0..4 {
        for y in 0..4 {
            for z in 0..4 {
                let v = dst_chunk.get(&point3(x, y, z));
                let inside = x >= 2 && y >= 2 && z >= 2;
                assert_eq!(v, if inside { 9 } else { 7 });
            }
        }
    }
    // the source level itself is untouched
    assert_eq!(p.level(0).unwrap().chunks.len(), 0);
}

#[test]
fn downsample_uniform_source_reads_back_uniform() {
    // A source chunk filled uniformly with v: after downsampling with the
    // low-corner reducer, the destination footprint reads back as v.
    let mut p = build_pyramid(0, 2);
    let key = point3(4, 4, 4);
    p.level_mut(0).write_chunk(&key, Chunk::filled(&point3(4, 4, 4), 5, ()));

    let r = p.downsample_chunk(&PointDownsampler, &key, 0, 1);
    assert_eq!(r, Ok(()));

    let dst_chunk = p.level(1).unwrap().get_chunk(&point3(0, 0, 0)).unwrap();
    for x in 0..4 {
        for y in 0..4 {
            for z in 0..4 {
                let v = dst_chunk.get(&point3(x, y, z));
                let inside = x >= 2 && y >= 2 && z >= 2;
                assert_eq!(v, if inside { 5 } else { 0 });
            }
        }
    }
}

#[test]
fn downsample_picks_low_corner_samples() {
    let builder = ChunkMapBuilder::new(point2(4, 4), 0i32, ()).unwrap();
    let mut p: ChunkPyramid<i32, ()> = ChunkPyramid::new(&builder, 2);

    let shape = point2(4, 4);
    let mut src: Chunk<i32, ()> = Chunk::filled(&shape, 0, ());
    for x in 0..4 {
        for y in 0..4 {
            src.put(&point2(x, y), 10 * x + y);
        }
    }
    let key = point2(0, 0);
    p.level_mut(0).write_chunk(&key, src);

    let r = p.downsample_chunk(&PointDownsampler, &key, 0, 1);
    assert_eq!(r, Ok(()));

    // destination key (0,0), offset (0,0), footprint (2,2): each coarse
    // sample is the source sample at twice its coordinate.
    let dst_chunk = p.level(1).unwrap().get_chunk(&point2(0, 0)).unwrap();
    for x in 0..2 {
        for y in 0..2 {
            assert_eq!(dst_chunk.get(&point2(x, y)), 10 * (2 * x) + 2 * y);
        }
    }
    // outside the footprint the new chunk keeps the destination ambient
    assert_eq!(dst_chunk.get(&point2(3, 3)), 0);
    assert_eq!(dst_chunk.get(&point2(0, 2)), 0);
}

#[test]
fn downsample_two_levels_in_one_step() {
    // delta 2: footprint is the shape shrunk by 4, so it scales with delta.
    let mut p = build_pyramid(0, 3);
    let key = point3(4, 4, 4);
    p.level_mut(0).write_chunk(&key, Chunk::filled(&point3(4, 4, 4), 8, ()));

    let r = p.downsample_chunk(&PointDownsampler, &key, 0, 2);
    assert_eq!(r, Ok(()));

    // destination key (0,0,0), offset (1,1,1), footprint (1,1,1)
    let dst_chunk = p.level(2).unwrap().get_chunk(&point3(0, 0, 0)).unwrap();
    for x in 0..4 {
        for y in 0..4 {
            for z in 0..4 {
                let v = dst_chunk.get(&point3(x, y, z));
                let inside = x == 1 && y == 1 && z == 1;
                assert_eq!(v, if inside { 8 } else { 0 });
            }
        }
    }
    // the intermediate level was not written
    assert_eq!(p.level(1).unwrap().chunks.len(), 0);
}

#[test]
fn downsample_overwrites_only_the_footprint_of_existing_chunk() {
    let mut p = build_pyramid(0, 2);
    let key = point3(4, 4, 4);
    p.level_mut(0).write_chunk(&key, Chunk::filled(&point3(4, 4, 4), 6, ()));
    // pre-populate the destination chunk with a marker value
    p.level_mut(1).write_chunk(&point3(0, 0, 0), Chunk::filled(&point3(4, 4, 4), 11, ()));

    let r = p.downsample_chunk(&PointDownsampler, &key, 0, 1);
    assert_eq!(r, Ok(()));

    let dst_chunk = p.level(1).unwrap().get_chunk(&point3(0, 0, 0)).unwrap();
    for x in 0..4 {
        for y in 0..4 {
            for z in 0..4 {
                let v = dst_chunk.get(&point3(x, y, z));
                let inside = x >= 2 && y >= 2 && z >= 2;
                assert_eq!(v, if inside { 6 } else { 11 });
            }
        }
    }
}

#[test]
fn write_chunk_replaces_existing_entry() {
    let mut p = build_pyramid(0, 1);
    let key = point3(4, 0, 0);
    let level = p.level_mut(0);
    level.write_chunk(&key, Chunk::filled(&point3(4, 4, 4), 1, ()));
    level.write_chunk(&key, Chunk::filled(&point3(4, 4, 4), 2, ()));
    assert_eq!(level.chunks.len(), 1);
    assert_eq!(level.get_chunk(&key).unwrap().get(&point3(0, 0, 0)), 2);
}

#[test]
fn pop_chunk_removes_the_entry() {
    let mut p = build_pyramid(0, 1);
    let key = point3(-4, 0, 8);
    let level = p.level_mut(0);
    assert!(level.pop_chunk(&key).is_none());
    level.write_chunk(&key, Chunk::filled(&point3(4, 4, 4), 3, ()));
    let c = level.pop_chunk(&key).unwrap();
    assert_eq!(c.get(&point3(1, 1, 1)), 3);
    assert!(level.get_chunk(&key).is_none());
    assert_eq!(level.chunks.len(), 0);
}

#[test]
fn take_chunk_or_ambient_creates_when_absent() {
    let mut p = build_pyramid(7, 1);
    let key = point3(0, 0, 0);
    let level = p.level_mut(0);
    let c = level.take_chunk_or_ambient(&key);
    assert_eq!(c.get(&point3(2, 2, 2)), 7);
    // taking does not store anything by itself
    assert!(level.get_chunk(&key).is_none());
    level.write_chunk(&key, c);
    assert!(level.get_chunk(&key).is_some());
}
