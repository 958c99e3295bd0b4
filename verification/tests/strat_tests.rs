use voxl::ChunkCoord;
use voxl::LoadStrat;

fn coord(y: i64, x: i64, z: i64) -> ChunkCoord {
    ChunkCoord { y, x, z }
}

#[test]
fn cube_minimal_case() {
    let strat = LoadStrat::Cube { side: 1 };
    let members = strat.members(coord(0, 0, 0));
    assert_eq!(members, vec![coord(0, 0, 0)]);
}

#[test]
fn cube_small_case() {
    let strat = LoadStrat::Cube { side: 3 };
    let members = strat.members(coord(0, 0, 0));
    let mut want = Vec::new();
    for dy in -1..=1 {
        for dx in -1..=1 {
            for dz in -1..=1 {
                want.push(coord(dy, dx, dz));
            }
        }
    }
    assert_eq!(members, want);
}

#[test]
fn cube_even_side() {
    // For an even side the extra offset goes to the positive side of each axis.
    let strat = LoadStrat::Cube { side: 2 };
    let members = strat.members(coord(0, 0, 0));
    let mut want = Vec::new();
    for dy in 0..=1 {
        for dx in 0..=1 {
            for dz in 0..=1 {
                want.push(coord(dy, dx, dz));
            }
        }
    }
    assert_eq!(members, want);
}

#[test]
fn cube_off_center() {
    let strat = LoadStrat::Cube { side: 3 };
    let members = strat.members(coord(10, -20, 30));
    assert_eq!(members.len(), 27);
    assert_eq!(members[0], coord(9, -21, 29));
    assert_eq!(members[13], coord(10, -20, 30));
    assert_eq!(members[26], coord(11, -19, 31));
}

#[test]
fn sphere_minimal_case() {
    let strat = LoadStrat::RuggedSphere { radius: 0 };
    let members = strat.members(coord(0, 0, 0));
    assert_eq!(members, vec![coord(0, 0, 0)]);
}

#[test]
fn sphere_radius_one_case() {
    let strat = LoadStrat::RuggedSphere { radius: 1 };
    let members = strat.members(coord(0, 0, 0));
    let want = vec![
        coord(0, 0, 0),
        coord(-1, 0, 0),
        coord(0, -1, 0),
        coord(0, 0, -1),
        coord(0, 0, 1),
        coord(0, 1, 0),
        coord(1, 0, 0),
    ];
    assert_eq!(members, want);
}

fn dist2(a: ChunkCoord, b: ChunkCoord) -> i64 {
    (a.y - b.y).pow(2) + (a.x - b.x).pow(2) + (a.z - b.z).pow(2)
}

#[test]
fn no_duplicates_deterministic_order() {
    let strat = LoadStrat::RuggedSphere { radius: 2 };
    let center = coord(5, -3, 7);
    let first = strat.members(center);
    let second = strat.members(center);
    assert_eq!(first, second);
    for i in 0..first.len() {
        for j in 0..i {
            assert_ne!(first[i], first[j]);
        }
    }
    let cube = LoadStrat::Cube { side: 4 };
    let first_cube = cube.members(center);
    let second_cube = cube.members(center);
    assert_eq!(first_cube, second_cube);
    for i in 0..first_cube.len() {
        for j in 0..i {
            assert_ne!(first_cube[i], first_cube[j]);
        }
    }
}

#[test]
fn sphere_orders_by_distance() {
    let strat = LoadStrat::RuggedSphere { radius: 3 };
    let center = coord(-1, 2, 0);
    let members = strat.members(center);
    for i in 1..members.len() {
        assert!(dist2(center, members[i - 1]) <= dist2(center, members[i]));
    }
}

#[test]
fn contains_agrees_with_members() {
    let center = coord(2, -1, 4);
    for strat in [
        LoadStrat::RuggedSphere { radius: 2 },
        LoadStrat::Cube { side: 4 },
        LoadStrat::Cube { side: 1 },
        LoadStrat::RuggedSphere { radius: 0 },
    ] {
        let members = strat.members(center);
        for dy in -4..=4 {
            for dx in -4..=4 {
                for dz in -4..=4 {
                    let cand = coord(center.y + dy, center.x + dx, center.z + dz);
                    let listed = members.contains(&cand);
                    assert_eq!(strat.contains(center, cand), listed);
                }
            }
        }
    }
}

#[test]
fn sphere_counts() {
    // Within radius 2 of the origin: 1 + 6 at distance 1, 12 at sqrt(2),
    // 8 at sqrt(3), 6 at 2.
    let strat = LoadStrat::RuggedSphere { radius: 2 };
    let members = strat.members(coord(0, 0, 0));
    assert_eq!(members.len(), 33);
    assert_eq!(members[0], coord(0, 0, 0));
    for c in &members {
        assert!(dist2(coord(0, 0, 0), *c) <= 4);
    }
}
