//! Dependency stamps of environment preview outputs. A stamp is the BLAKE3 digest of a byte
//! message built from exactly what an output depends on: the compile plan, the source epoch,
//! the runtime generation, the cell, and the local overrides of the cell's halo only, so that
//! an unrelated stroke never discards an output.

use vstd::prelude::*;
use vstd::string::StringSliceAdditionalSpecFns;
use crate::layers::LayerId;
use crate::ranked::{sort_by_rank, sort_ranked, Rank};
use crate::world::{CellCoord, WorldSpaceId};

verus! {

/// A 32-byte digest.
pub type Stamp = [u8; 32];

/// What `blake3::hash` returns for an input: the BLAKE3 digest of the bytes.
pub uninterp spec fn blake3_digest(input: Seq<u8>) -> Seq<u8>;

/// Calls `blake3::hash` and hands back the raw bytes of the digest.
#[verifier::external_body]
fn blake3_hash(input: &[u8]) -> (stamp: Stamp)
    ensures
        stamp@ == blake3_digest(input@),
{
    *blake3::hash(input).as_bytes()
}

/// The `n` low bytes of a number, least significant first.
pub open spec fn le_bytes(v: nat, n: nat) -> Seq<u8>
    decreases n,
{
    if n == 0 {
        Seq::empty()
    } else {
        seq![(v % 256) as u8] + le_bytes(v / 256, (n - 1) as nat)
    }
}

/// The `n` low bytes of a number, most significant first.
pub open spec fn be_bytes(v: nat, n: nat) -> Seq<u8>
    decreases n,
{
    if n == 0 {
        Seq::empty()
    } else {
        be_bytes(v / 256, (n - 1) as nat).push((v % 256) as u8)
    }
}

/// The little-endian bytes of a cell coordinate component.
pub open spec fn coordinate_bytes(v: i32) -> Seq<u8> {
    le_bytes((v as u32) as nat, 4)
}

fn push_le(out: &mut Vec<u8>, v: u128, n: usize)
    ensures
        final(out)@ == old(out)@ + le_bytes(v as nat, n as nat),
    decreases n,
{
    if n > 0 {
        out.push((v % 256) as u8);
        push_le(out, v / 256, n - 1);
        proof {
            assert(old(out)@ + le_bytes(v as nat, n as nat) =~= old(out)@.push((v % 256) as u8) + le_bytes(
                (v / 256) as nat,
                (n - 1) as nat,
            ));
        }
    } else {
        assert(old(out)@ + le_bytes(v as nat, 0) =~= old(out)@);
    }
}

pub(crate) fn push_be(out: &mut Vec<u8>, v: u128, n: usize)
    ensures
        final(out)@ == old(out)@ + be_bytes(v as nat, n as nat),
    decreases n,
{
    if n > 0 {
        push_be(out, v / 256, n - 1);
        out.push((v % 256) as u8);
        proof {
            assert(old(out)@ + be_bytes(v as nat, n as nat) =~= old(out)@ + be_bytes((v / 256) as nat, (n - 1) as nat)
                + seq![(v % 256) as u8]);
        }
    } else {
        assert(old(out)@ + be_bytes(v as nat, 0) =~= old(out)@);
    }
}

fn push_all(out: &mut Vec<u8>, bytes: &[u8])
    ensures
        final(out)@ == old(out)@ + bytes@,
{
    let mut i: usize = 0;
    while i < bytes.len()
        invariant
            i <= bytes@.len(),
            out@ == old(out)@ + bytes@.take(i as int),
        decreases bytes@.len() - i,
    {
        out.push(bytes[i]);
        proof {
            assert(bytes@.take(i + 1) =~= bytes@.take(i as int).push(bytes@[i as int]));
        }
        i = i + 1;
    }
    assert(bytes@.take(i as int) =~= bytes@);
}

/// The neighbor is the cell itself or one of its eight surrounding cells.
pub open spec fn in_halo(cell: CellCoord, neighbor: CellCoord) -> bool {
    -1 <= neighbor.x - cell.x <= 1 && -1 <= neighbor.z - cell.z <= 1
}

/// The bytes that the overrides of the cell's halo add to a dependency message, in the given
/// order; overrides outside the halo add nothing.
pub open spec fn halo_bytes(cell: CellCoord, overrides: Seq<(CellCoord, Stamp)>) -> Seq<u8>
    decreases overrides.len(),
{
    if overrides.len() == 0 {
        Seq::empty()
    } else {
        let (neighbor, stamp) = overrides.last();
        halo_bytes(cell, overrides.drop_last()) + if in_halo(cell, neighbor) {
            coordinate_bytes(neighbor.x) + coordinate_bytes(neighbor.z) + stamp@
        } else {
            Seq::empty()
        }
    }
}

/// The message a dependency stamp digests.
pub open spec fn dependency_message(
    plan: Seq<u8>,
    epoch: u64,
    generation: Seq<u8>,
    cell: CellCoord,
    overrides: Seq<(CellCoord, Stamp)>,
) -> Seq<u8> {
    plan + le_bytes(epoch as nat, 8) + generation + coordinate_bytes(cell.x) + coordinate_bytes(cell.z)
        + halo_bytes(cell, overrides)
}

/// The stamp of a preview output of a cell: the digest of the plan's fingerprint, the source
/// epoch, the runtime generation, the cell, and each override of the cell's halo.
pub fn dependency_stamp(
    plan: &Stamp,
    epoch: u64,
    generation: &str,
    cell: CellCoord,
    overrides: &[(CellCoord, Stamp)],
) -> (stamp: Stamp)
    ensures
        stamp@ == blake3_digest(dependency_message(plan@, epoch, generation.spec_bytes(), cell, overrides@)),
{
    let mut message: Vec<u8> = Vec::new();
    push_all(&mut message, plan.as_slice());
    push_le(&mut message, epoch as u128, 8);
    push_all(&mut message, generation.as_bytes());
    push_le(&mut message, (cell.x as u32) as u128, 4);
    push_le(&mut message, (cell.z as u32) as u128, 4);
    let ghost head = message@;
    let mut i: usize = 0;
    while i < overrides.len()
        invariant
            i <= overrides@.len(),
            message@ == head + halo_bytes(cell, overrides@.take(i as int)),
        decreases overrides@.len() - i,
    {
        let (neighbor, stamp) = overrides[i];
        proof {
            assert(overrides@.take(i + 1).drop_last() =~= overrides@.take(i as int));
        }
        let dx = neighbor.x as i64 - cell.x as i64;
        let dz = neighbor.z as i64 - cell.z as i64;
        if -1 <= dx && dx <= 1 && -1 <= dz && dz <= 1 {
            push_le(&mut message, (neighbor.x as u32) as u128, 4);
            push_le(&mut message, (neighbor.z as u32) as u128, 4);
            push_all(&mut message, stamp.as_slice());
        }
        proof {
            assert(message@ =~= head + halo_bytes(cell, overrides@.take(i + 1)));
        }
        i = i + 1;
    }
    assert(overrides@.take(i as int) =~= overrides@);
    proof {
        assert(message@ =~= dependency_message(plan@, epoch, generation.spec_bytes(), cell, overrides@));
    }
    blake3_hash(message.as_slice())
}

/// The message a cell's desired stamp digests: its dependency stamp, followed by the road stamp
/// when road edits reach the cell.
pub open spec fn desired_message(dependency: Seq<u8>, road: Seq<u8>, reached: bool) -> Seq<u8> {
    if reached {
        dependency + road
    } else {
        dependency
    }
}

/// The stamp a cell's preview output must carry: the digest of its dependency stamp, followed by
/// the road stamp (the digest of the road overrides) when road edits reach the cell.
pub fn desired_stamp(dependency: &Stamp, road: &Stamp, reached: bool) -> (stamp: Stamp)
    ensures
        stamp@ == blake3_digest(desired_message(dependency@, road@, reached)),
{
    let mut message: Vec<u8> = Vec::new();
    push_all(&mut message, dependency.as_slice());
    if reached {
        push_all(&mut message, road.as_slice());
    }
    proof {
        assert(message@ =~= desired_message(dependency@, road@, reached));
    }
    blake3_hash(message.as_slice())
}

/// A stroke far from a cell does not change the cell's dependency message, while a stroke in
/// the cell's halo does.
pub proof fn law_stamp_tracks_halo_only(
    plan: Seq<u8>,
    epoch: u64,
    generation: Seq<u8>,
    cell: CellCoord,
    overrides: Seq<(CellCoord, Stamp)>,
    stroke: (CellCoord, Stamp),
)
    ensures
        !in_halo(cell, stroke.0) ==> dependency_message(plan, epoch, generation, cell, overrides.push(stroke))
            == dependency_message(plan, epoch, generation, cell, overrides),
        in_halo(cell, stroke.0) ==> dependency_message(plan, epoch, generation, cell, overrides.push(stroke)).len()
            == dependency_message(plan, epoch, generation, cell, overrides).len() + 40,
{
    assert(overrides.push(stroke).drop_last() =~= overrides);
    if !in_halo(cell, stroke.0) {
        assert(halo_bytes(cell, overrides.push(stroke)) =~= halo_bytes(cell, overrides));
    } else {
        lemma_le_bytes_len((stroke.0.x as u32) as nat, 4);
        lemma_le_bytes_len((stroke.0.z as u32) as nat, 4);
    }
}

pub proof fn lemma_le_bytes_len(v: nat, n: nat)
    ensures
        le_bytes(v, n).len() == n,
    decreases n,
{
    if n > 0 {
        lemma_le_bytes_len(v / 256, (n - 1) as nat);
    }
}

/// The coverage samples of one layer in one cell.
#[derive(Clone, Debug, PartialEq, Eq)]
pub struct CoverageTile {
    pub layer: LayerId,
    pub samples: Vec<u8>,
}

/// The local environment coverage of one cell, painted against a definition revision.
#[derive(Clone, Debug, PartialEq, Eq)]
pub struct EnvironmentCellRecord {
    pub space: WorldSpaceId,
    pub cell: CellCoord,
    pub source_revision: i64,
    pub definition_revision: u64,
    pub tiles: Vec<CoverageTile>,
}

/// The tiles' positions, each ranked by its layer.
pub open spec fn ranked_tiles(tiles: Seq<CoverageTile>) -> Seq<(Rank, usize)> {
    Seq::new(tiles.len(), |i: int| ((0u8, tiles[i].layer.0), i as usize))
}

/// The tiles ordered by layer; tiles of one layer keep their order.
pub open spec fn tiles_by_layer(tiles: Seq<CoverageTile>) -> Seq<CoverageTile> {
    sort_by_rank(ranked_tiles(tiles)).map_values(|p: (Rank, usize)| tiles[p.1 as int])
}

/// The bytes a tile adds to an override message: its layer, its sample count and its
/// samples.
pub open spec fn tile_bytes(tile: CoverageTile) -> Seq<u8> {
    be_bytes(tile.layer.0 as nat, 16) + le_bytes(tile.samples@.len(), 8) + tile.samples@
}

/// The bytes of the tiles, in order.
pub open spec fn tiles_bytes(tiles: Seq<CoverageTile>) -> Seq<u8>
    decreases tiles.len(),
{
    if tiles.len() == 0 {
        Seq::empty()
    } else {
        tiles_bytes(tiles.drop_last()) + tile_bytes(tiles.last())
    }
}

/// The message an override stamp digests: the definition revision, then every tile in layer
/// order.
pub open spec fn override_message(record: EnvironmentCellRecord) -> Seq<u8> {
    le_bytes(record.definition_revision as nat, 8) + tiles_bytes(tiles_by_layer(record.tiles@))
}

/// The stamp of a cell's local coverage.
pub fn override_stamp(record: &EnvironmentCellRecord) -> (stamp: Stamp)
    ensures
        stamp@ == blake3_digest(override_message(*record)),
{
    let tiles = &record.tiles;
    let mut order: Vec<(Rank, usize)> = Vec::new();
    let mut i: usize = 0;
    while i < tiles.len()
        invariant
            i <= tiles@.len(),
            order@ == ranked_tiles(tiles@).take(i as int),
        decreases tiles@.len() - i,
    {
        order.push(((0u8, tiles[i].layer.0), i));
        proof {
            assert(ranked_tiles(tiles@).take(i + 1) =~= ranked_tiles(tiles@).take(i as int).push(((0u8, tiles@[i as int].layer.0), i)));
        }
        i = i + 1;
    }
    assert(ranked_tiles(tiles@).take(i as int) =~= ranked_tiles(tiles@));
    sort_ranked(&mut order);
    proof {
        let ranked = ranked_tiles(tiles@);
        crate::ranked::law_sort_by_rank_orders(ranked);
        assert forall|k: int| 0 <= k < order@.len() implies #[trigger] order@[k].1 < tiles@.len() by {
            let x = order@[k];
            assert(order@.contains(x));
            vstd::seq_lib::to_multiset_contains(order@, x);
            vstd::seq_lib::to_multiset_contains(ranked, x);
            let i = choose|i: int| 0 <= i < ranked.len() && ranked[i] == x;
            assert(ranked[i].1 == i);
        }
    }
    let ghost sorted_tiles = tiles_by_layer(tiles@);
    let mut message: Vec<u8> = Vec::new();
    push_le(&mut message, record.definition_revision as u128, 8);
    let ghost head = message@;
    let mut j: usize = 0;
    while j < order.len()
        invariant
            j <= order@.len(),
            order@ == sort_by_rank(ranked_tiles(tiles@)),
            order@.len() == tiles@.len(),
            forall|k: int| 0 <= k < order@.len() ==> #[trigger] order@[k].1 < tiles@.len(),
            sorted_tiles == tiles_by_layer(tiles@),
            message@ == head + tiles_bytes(sorted_tiles.take(j as int)),
        decreases order@.len() - j,
    {
        let index = order[j].1;
        let tile = &tiles[index];
        proof {
            assert(sorted_tiles[j as int] == tiles@[index as int]);
            assert(sorted_tiles.take(j + 1).drop_last() =~= sorted_tiles.take(j as int));
        }
        push_be(&mut message, tile.layer.0, 16);
        push_le(&mut message, tile.samples.len() as u128, 8);
        push_all(&mut message, tile.samples.as_slice());
        proof {
            assert(message@ =~= head + tiles_bytes(sorted_tiles.take(j + 1)));
        }
        j = j + 1;
    }
    proof {
        assert(sorted_tiles.take(j as int) =~= sorted_tiles);
        assert(message@ =~= override_message(*record));
    }
    blake3_hash(message.as_slice())
}

} // verus!
