use yarra_editor::layers::LayerId;
use yarra_editor::stamps::{
    dependency_stamp, override_stamp, CoverageTile, EnvironmentCellRecord, Stamp,
};
use yarra_editor::world::{CellCoord, WorldSpaceId};

#[test]
fn preview_stamp_tracks_halo_but_not_unrelated_strokes() {
    let cell = CellCoord { x: 0, z: 0 };
    let stamp = |overrides: &[(CellCoord, Stamp)]| dependency_stamp(&[3; 32], 1, "a", cell, overrides);
    assert_eq!(stamp(&[]), stamp(&[(CellCoord { x: 2, z: 0 }, [1; 32])]));
    assert_ne!(stamp(&[]), stamp(&[(CellCoord { x: 1, z: 1 }, [1; 32])]));
    assert_ne!(stamp(&[]), dependency_stamp(&[3; 32], 2, "a", cell, &[]));
    assert_ne!(stamp(&[]), dependency_stamp(&[3; 32], 1, "b", cell, &[]));
}

#[test]
fn the_dependency_stamp_digests_its_message() {
    let cell = CellCoord { x: -1, z: 2 };
    let mut message = vec![7u8; 32];
    message.extend_from_slice(&5u64.to_le_bytes());
    message.extend_from_slice(b"gen");
    message.extend_from_slice(&(-1i32).to_le_bytes());
    message.extend_from_slice(&2i32.to_le_bytes());
    message.extend_from_slice(&0i32.to_le_bytes());
    message.extend_from_slice(&3i32.to_le_bytes());
    message.extend_from_slice(&[9u8; 32]);
    let expected = *blake3::hash(&message).as_bytes();
    let overrides = [(CellCoord { x: 0, z: 3 }, [9u8; 32]), (CellCoord { x: 5, z: 5 }, [4u8; 32])];
    assert_eq!(dependency_stamp(&[7; 32], 5, "gen", cell, &overrides), expected);
}

fn tile(layer: u128, samples: Vec<u8>) -> CoverageTile {
    CoverageTile { layer: LayerId(layer), samples }
}

#[test]
fn override_stamp_orders_tiles_by_layer() {
    let record = |tiles| EnvironmentCellRecord {
        space: WorldSpaceId(1),
        cell: CellCoord { x: 0, z: 0 },
        source_revision: 1,
        definition_revision: 4,
        tiles,
    };
    let a = record(vec![tile(2, vec![1, 2]), tile(1, vec![3])]);
    let b = record(vec![tile(1, vec![3]), tile(2, vec![1, 2])]);
    assert_eq!(override_stamp(&a), override_stamp(&b));
    let mut message = 4u64.to_le_bytes().to_vec();
    message.extend_from_slice(&1u128.to_be_bytes());
    message.extend_from_slice(&1u64.to_le_bytes());
    message.push(3);
    message.extend_from_slice(&2u128.to_be_bytes());
    message.extend_from_slice(&2u64.to_le_bytes());
    message.extend_from_slice(&[1, 2]);
    assert_eq!(override_stamp(&a), *blake3::hash(&message).as_bytes());
    let c = record(vec![tile(1, vec![4]), tile(2, vec![1, 2])]);
    assert_ne!(override_stamp(&b), override_stamp(&c));
}
