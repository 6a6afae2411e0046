use openmc::world::chunk::{is_opaque, ChunkData, ChunkPos, AIR, SAND, STONE, WATER};

#[test]
fn empty_chunks_are_all_air() {
    let data = ChunkData::empty();
    assert_eq!(data.get_padded(0, 0, 0), AIR);
    assert_eq!(data.get_padded(33, 32, 33), AIR);
    assert_eq!(data.get(31, 31, 31), AIR);
}

#[test]
fn set_and_get_agree_on_padded_and_local_coordinates() {
    let mut data = ChunkData::empty();
    data.set_padded(1, 5, 1, STONE);
    assert_eq!(data.get(0, 5, 0), STONE);
    data.set_padded(33, 32, 0, SAND);
    assert_eq!(data.get_padded(33, 32, 0), SAND);
    assert_eq!(data.get_padded(33, 31, 0), AIR);
}

#[test]
fn water_is_opaque_but_air_is_not() {
    assert!(is_opaque(WATER));
    assert!(is_opaque(STONE));
    assert!(!is_opaque(AIR));
}

#[test]
fn chunk_origins_are_block_coordinates() {
    let origin = ChunkPos::new(2, -1, 5).world_origin();
    assert_eq!((origin.x, origin.y, origin.z), (64, -32, 160));
}
