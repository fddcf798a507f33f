use ca3d::chunk::Chunk;
use ca3d::datastore::DeviceCommand;
use ca3d::{ChunkManager, ChunkPos};

fn pos(x: i32, y: i32, z: i32) -> ChunkPos {
    ChunkPos::new(x, y, z)
}

fn offset_of(m: &ChunkManager, p: ChunkPos) -> u32 {
    m.offset_of(p)
}

fn neighbors_of(m: &ChunkManager, p: ChunkPos) -> u32 {
    for c in m.chunks().iter() {
        if c.pos == p {
            return c.neighbors;
        }
    }
    panic!("chunk {:?} not found", p);
}

#[test]
fn two_adjacent_chunks_get_both_offsets() {
    let mut m = ChunkManager::new(32);
    m.add_chunk(Chunk::new(pos(0, 0, 0)));
    m.add_chunk(Chunk::new(pos(1, 0, 0)));
    let cmds = m.finalize_changes_and_start_frame();
    assert_eq!(m.num_offsets(), 2);
    assert_eq!(neighbors_of(&m, pos(0, 0, 0)), 1);
    assert_eq!(neighbors_of(&m, pos(1, 0, 0)), 1);
    let mut offsets = vec![offset_of(&m, pos(0, 0, 0)), offset_of(&m, pos(1, 0, 0))];
    offsets.sort();
    assert_eq!(offsets, vec![0, 1]);
    // No payload lived anywhere before, so nothing is relocated and the one
    // initial group suffices; the atlas learns both positions, offset plus one.
    assert_eq!(
        cmds,
        vec![
            DeviceCommand::WriteAtlas { pos: pos(0, 0, 0), value: offset_of(&m, pos(0, 0, 0)) + 1 },
            DeviceCommand::WriteAtlas { pos: pos(1, 0, 0), value: offset_of(&m, pos(1, 0, 0)) + 1 },
        ]
    );
}

#[test]
fn removal_relocates_survivor_into_freed_slot() {
    let mut m = ChunkManager::new(32);
    m.add_chunk(Chunk::new(pos(0, 0, 0)));
    m.add_chunk(Chunk::new(pos(1, 0, 0)));
    m.finalize_changes_and_start_frame();
    let survivor_old_offset = offset_of(&m, pos(1, 0, 0));

    let removed = m.remove_chunk(pos(0, 0, 0));
    assert_eq!(removed.pos, pos(0, 0, 0));
    assert_eq!(removed.neighbors, 0);
    assert!(removed.residency.is_some());
    assert_eq!(neighbors_of(&m, pos(1, 0, 0)), 0);

    let cmds = m.finalize_changes_and_start_frame();
    assert_eq!(m.num_offsets(), 1);
    assert_eq!(offset_of(&m, pos(1, 0, 0)), 0);
    let mut expected = Vec::new();
    if survivor_old_offset != 0 {
        // The survivor did not already occupy the freed first slot, so its
        // payload is copied down before anything else happens.
        expected.push(DeviceCommand::CopyChunk { from_offset: survivor_old_offset, to_offset: 0 });
    }
    expected.push(DeviceCommand::WriteAtlas { pos: pos(0, 0, 0), value: 0 });
    if survivor_old_offset != 0 {
        expected.push(DeviceCommand::WriteAtlas { pos: pos(1, 0, 0), value: 1 });
    }
    assert_eq!(cmds, expected);
    // Offset zero is a valid offset: its atlas summary is one, not zero.
    assert_eq!(offset_of(&m, pos(1, 0, 0)) + 1, 1);
}

#[test]
fn full_neighborhood_counts_twenty_six() {
    let mut m = ChunkManager::new(32);
    // Insert the 3x3x3 block in a scrambled order.
    let mut cells: Vec<ChunkPos> = Vec::new();
    for dx in -1..=1 {
        for dy in -1..=1 {
            for dz in -1..=1 {
                cells.push(pos(dx, dy, dz));
            }
        }
    }
    for k in 0..27usize {
        m.add_chunk(Chunk::new(cells[(k * 7) % 27]));
    }
    m.finalize_changes_and_start_frame();
    assert_eq!(neighbors_of(&m, pos(0, 0, 0)), 26);
    assert_eq!(neighbors_of(&m, pos(1, 1, 1)), 7);
    assert_eq!(neighbors_of(&m, pos(1, 1, 0)), 11);
    assert_eq!(neighbors_of(&m, pos(1, 0, 0)), 17);

    // After removing a subset, each count equals the still-resident neighbors.
    m.remove_chunk(pos(1, 1, 1));
    m.remove_chunk(pos(-1, 0, 0));
    m.finalize_changes_and_start_frame();
    assert_eq!(neighbors_of(&m, pos(0, 0, 0)), 24);
    for c in m.chunks().iter() {
        let mut expected = 0;
        for other in m.chunks().iter() {
            let dx = (c.pos.x - other.pos.x).abs();
            let dy = (c.pos.y - other.pos.y).abs();
            let dz = (c.pos.z - other.pos.z).abs();
            if c.pos != other.pos && dx <= 1 && dy <= 1 && dz <= 1 {
                expected += 1;
            }
        }
        assert_eq!(c.neighbors, expected);
    }
}

#[test]
fn repeated_finalize_changes_nothing() {
    let mut m = ChunkManager::new(32);
    m.add_chunk(Chunk::new(pos(0, 0, 0)));
    m.add_chunk(Chunk::new(pos(5, 5, 5)));
    m.finalize_changes_and_start_frame();
    let offsets_before = (offset_of(&m, pos(0, 0, 0)), offset_of(&m, pos(5, 5, 5)));
    let cmds = m.finalize_changes_and_start_frame();
    assert!(cmds.is_empty());
    assert_eq!(m.num_offsets(), 2);
    assert_eq!((offset_of(&m, pos(0, 0, 0)), offset_of(&m, pos(5, 5, 5))), offsets_before);
    assert_eq!(m.group_count(), 1);
}

#[test]
fn finalize_on_fresh_registry_is_a_no_op() {
    let mut m = ChunkManager::new(32);
    let cmds = m.finalize_changes_and_start_frame();
    assert!(cmds.is_empty());
    assert_eq!(m.num_offsets(), 0);
}

#[test]
fn overflowing_one_group_creates_a_second() {
    let mut m = ChunkManager::new(4);
    for i in 0..5 {
        m.add_chunk(Chunk::new(pos(i, 0, 0)));
    }
    let cmds = m.finalize_changes_and_start_frame();
    assert_eq!(m.group_count(), 2);
    let creates = cmds
        .iter()
        .filter(|c| matches!(c, DeviceCommand::CreateGroup))
        .count();
    assert_eq!(creates, 1);
    // Offsets at and above the group capacity resolve to the second group.
    let mut seen_second_group = 0;
    for c in m.chunks().iter() {
        let (group, origin_x) = m.offset_to_group_and_origin_x(c.offset());
        assert_eq!(group, c.offset() / 4);
        assert_eq!(origin_x, c.offset() % 4);
        if c.offset() >= 4 {
            assert_eq!(group, 1);
            seen_second_group += 1;
        }
    }
    assert_eq!(seen_second_group, 1);
}

#[test]
fn capacity_never_decreases() {
    let mut m = ChunkManager::new(2);
    let mut max_capacity = m.group_count() as u64 * m.chunks_per_group() as u64;
    let mut observe = |m: &ChunkManager, max_capacity: &mut u64| {
        let cap = m.group_count() as u64 * m.chunks_per_group() as u64;
        assert!(cap >= *max_capacity);
        *max_capacity = cap;
    };
    for i in 0..7 {
        m.add_chunk(Chunk::new(pos(i, 0, 0)));
    }
    m.finalize_changes_and_start_frame();
    observe(&m, &mut max_capacity);
    for i in 0..6 {
        m.remove_chunk(pos(i, 0, 0));
    }
    m.finalize_changes_and_start_frame();
    observe(&m, &mut max_capacity);
    assert_eq!(m.num_offsets(), 1);
    m.add_chunk(Chunk::new(pos(0, 0, 0)));
    m.finalize_changes_and_start_frame();
    observe(&m, &mut max_capacity);
    assert_eq!(max_capacity, 8);
}

#[test]
fn upload_destination_follows_offset_and_parity() {
    let mut m = ChunkManager::new(4);
    for i in 0..5 {
        m.add_chunk(Chunk::new(pos(i, 0, 0)));
    }
    m.finalize_changes_and_start_frame();
    for c in m.chunks().iter() {
        let loc = m.upload_chunk_data(c.pos);
        assert_eq!(loc.group, c.offset() / 4);
        assert_eq!(loc.origin_x, (c.offset() % 4) * 64);
        assert_eq!(loc.origin_y, 0);
        assert_eq!(loc.origin_z, 0);
    }
    m.advance_which(1);
    assert_eq!(m.which(), 1);
    let loc = m.upload_chunk_data(pos(0, 0, 0));
    assert_eq!(loc.origin_z, 64);
    m.advance_which(3);
    assert_eq!(m.which(), 0);
}

#[test]
fn removed_position_can_be_reinserted_with_fresh_index() {
    let mut m = ChunkManager::new(32);
    m.add_chunk(Chunk::new(pos(2, 3, 4)));
    m.finalize_changes_and_start_frame();
    let removed = m.remove_chunk(pos(2, 3, 4));
    let old_index = removed.residency.as_ref().unwrap().index;
    m.add_chunk(Chunk::new(pos(2, 3, 4)));
    m.finalize_changes_and_start_frame();
    let chunk = m
        .chunks()
        .iter()
        .find(|c| c.pos == pos(2, 3, 4))
        .unwrap();
    let new_binding = chunk.residency.as_ref().unwrap();
    // The logical index is fresh, while the physical offset is reused.
    assert_ne!(new_binding.index, old_index);
    assert_eq!(new_binding.offset, 0);
}

#[test]
fn different_chunk_inserted_before_finalize_gets_fresh_index() {
    let mut m = ChunkManager::new(32);
    m.add_chunk(Chunk::new(pos(2, 3, 4)));
    m.finalize_changes_and_start_frame();
    // Within one frame: drop the chunk and register a different one.
    let removed = m.remove_chunk(pos(2, 3, 4));
    let old_index = removed.residency.as_ref().unwrap().index;
    m.add_chunk(Chunk::new(pos(9, 9, 9)));
    m.finalize_changes_and_start_frame();
    let binding = m
        .chunks()
        .iter()
        .find(|c| c.pos == pos(9, 9, 9))
        .unwrap()
        .residency
        .as_ref()
        .unwrap()
        .clone();
    // The released logical index never comes back, but its physical offset
    // becomes free for reuse at the finalization.
    assert_ne!(binding.index, old_index);
    assert_eq!(binding.offset, 0);
    assert_eq!(m.num_offsets(), 1);
}

#[test]
fn position_table_is_indexed_by_offset() {
    let mut m = ChunkManager::new(4);
    for i in 0..6 {
        m.add_chunk(Chunk::new(pos(i, 2, -3)));
    }
    m.finalize_changes_and_start_frame();
    m.remove_chunk(pos(2, 2, -3));
    m.finalize_changes_and_start_frame();
    let table = m.positions_by_offset();
    assert_eq!(table.len(), m.num_offsets() as usize);
    assert_eq!(table.len(), 5);
    for c in m.chunks().iter() {
        assert_eq!(table[c.offset() as usize], c.pos);
    }
}
