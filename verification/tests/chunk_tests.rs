use voxl::chunk::Duo;
use voxl::chunk::DuoAlt;
use voxl::Chunk;
use voxl::Data;

#[test]
fn testing() {
    let mut chunk: Chunk<Data, u32, 512> = Chunk::default();
    chunk.set(7, 7, 7, 100);

    assert_eq!(chunk.index(7, 7, 7), 100);
}

#[test]
fn default_fill() {
    let chunk: Chunk<Data, u32, 512> = Chunk::default();
    for y in 0..8 {
        for x in 0..8 {
            for z in 0..8 {
                assert_eq!(chunk.index(y, x, z), 0);
            }
        }
    }
    let small: Chunk<Duo, u64, 8> = Chunk::default();
    for y in 0..2 {
        for x in 0..2 {
            for z in 0..2 {
                assert_eq!(small.index(y, x, z), 0);
            }
        }
    }
    let flags: Chunk<Duo, bool, 8> = Chunk::default();
    assert!(!flags.index(0, 0, 0));
    assert!(!flags.index(1, 1, 1));
}

#[test]
fn round_trip_every_coordinate() {
    let mut chunk: Chunk<Data, u32, 512> = Chunk::default();
    for y in 0..8u32 {
        for x in 0..8u32 {
            for z in 0..8u32 {
                chunk.set(y as usize, x as usize, z as usize, y * 100 + x * 10 + z);
            }
        }
    }
    for y in 0..8u32 {
        for x in 0..8u32 {
            for z in 0..8u32 {
                assert_eq!(
                    chunk.index(y as usize, x as usize, z as usize),
                    y * 100 + x * 10 + z
                );
            }
        }
    }
}

#[test]
fn concrete_addressing_side_two() {
    // side 2: plane 4, volume 8; (y, x, z) = (1, 1, 1) is flat 1*4 + 1 + 1*2 = 7.
    let mut chunk: Chunk<Duo, u32, 8> = Chunk::default();
    chunk.set(1, 1, 1, 5);
    assert_eq!(chunk.index(1, 1, 1), 5);
    for y in 0..2 {
        for x in 0..2 {
            for z in 0..2 {
                if (y, x, z) != (1, 1, 1) {
                    assert_eq!(chunk.index(y, x, z), 0);
                }
            }
        }
    }
}

#[test]
fn reinterpretation_preserves_raw_content() {
    let mut chunk: Chunk<Duo, u32, 8> = Chunk::default();
    let mut want = [[[0u32; 2]; 2]; 2];
    for y in 0..2 {
        for x in 0..2 {
            for z in 0..2 {
                let v = (y * 4 + x * 2 + z + 10) as u32;
                chunk.set(y, x, z, v);
                want[y][x][z] = v;
            }
        }
    }
    let relabeled: Chunk<DuoAlt, u32, 8> = chunk.new_accessor();
    for y in 0..2 {
        for x in 0..2 {
            for z in 0..2 {
                assert_eq!(relabeled.index(y, x, z), want[y][x][z]);
            }
        }
    }
}
