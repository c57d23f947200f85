use thingstore::depot::{Depot, Link};
use thingstore::registry::Registry;
use thingstore::world::{ArchtypeKey, PartBitmap, World};

#[derive(Clone, Copy)]
struct PosX(f32);
#[derive(Clone, Copy)]
struct PosY(f32);
#[derive(Clone, Copy)]
struct PosZ(f32);
#[derive(Clone, Copy)]
struct Orient([f32; 4]);

fn four_parts() -> Registry {
    let mut registry = Registry::new();
    registry.register_part::<PosX>();
    registry.register_part::<PosY>();
    registry.register_part::<PosZ>();
    registry.register_part::<Orient>();
    registry
}

fn key_of(parts: &[usize]) -> ArchtypeKey {
    let mut key = ArchtypeKey::new();
    for &p in parts {
        key.scalar_parts = key.scalar_parts.with(p);
    }
    key
}

fn scalar_bits(key: &ArchtypeKey) -> Vec<usize> {
    (0..256).filter(|&i| key.scalar_parts.contains(i)).collect()
}

#[test]
fn world_create_destroy() {
    let registry = Registry::new();
    let _world = World::new(&registry);
}

#[test]
fn registry_records_layouts() {
    let registry = four_parts();
    assert_eq!(registry.part_count(), 4);
    assert_eq!(registry.part(0).width, 4);
    assert_eq!(registry.part(3).width, 16);
    assert_eq!(registry.part(3).align, 4);
    let depot = Depot::new(&registry);
    let _ = depot;
    let link = Link { hash: 7 };
    assert_eq!(link.hash, 7);
}

#[test]
fn part_lifecycle_end_to_end() {
    let registry = four_parts();
    let mut world = World::new(&registry);

    let t = world.create_thing(&key_of(&[0, 1])).unwrap();
    let ab = world.archetype_of(t).unwrap();
    let ab_key = world.archetype_key(ab).unwrap();
    assert_eq!(scalar_bits(&ab_key), vec![0, 1]);
    let (first_chunk, first_slot) = world.location(t).unwrap();
    assert_eq!(first_slot, 0);
    assert_eq!(world.chunk_len(first_chunk), Some(1));

    assert!(world.add_part(t, 2));
    let abc = world.archetype_of(t).unwrap();
    assert_ne!(abc, ab);
    assert_eq!(scalar_bits(&world.archetype_key(abc).unwrap()), vec![0, 1, 2]);
    assert_eq!(scalar_bits(&world.key_of(t).unwrap()), vec![0, 1, 2]);
    // The slot it left is free again.
    assert_eq!(world.chunk_len(first_chunk), Some(0));
    let (abc_chunk, abc_slot) = world.location(t).unwrap();
    assert_ne!(abc_chunk, first_chunk);
    assert_eq!(abc_slot, 0);

    assert!(world.destroy_thing(t));
    assert!(!world.contains(t));
    assert!(world.key_of(t).is_none());
    assert_eq!(world.archetype_of(t), None);
    assert_eq!(world.location(t), None);
    assert!(!world.destroy_thing(t));
    assert_eq!(world.chunk_len(abc_chunk), Some(0));

    // The next thing of that archetype takes the freed slot.
    let u = world.create_thing(&key_of(&[0, 1, 2])).unwrap();
    assert_ne!(u, t);
    assert_eq!(world.archetype_of(u), Some(abc));
    assert_eq!(world.location(u), Some((abc_chunk, 0)));
    assert_eq!(world.archetype_count(), 2);
}

#[test]
fn swap_remove_keeps_chunks_dense() {
    let registry = four_parts();
    let mut world = World::new(&registry);
    let key = key_of(&[0, 3]);
    let a = world.create_thing(&key).unwrap();
    let b = world.create_thing(&key).unwrap();
    let c = world.create_thing(&key).unwrap();
    let (chunk, _) = world.location(a).unwrap();
    assert_eq!(world.location(c), Some((chunk, 2)));
    assert!(world.destroy_thing(a));
    // The last occupant moved into the freed slot.
    assert_eq!(world.location(c), Some((chunk, 0)));
    assert_eq!(world.location(b), Some((chunk, 1)));
    assert_eq!(world.chunk_len(chunk), Some(2));
    assert!(world.contains(b) && world.contains(c));
    assert_eq!(world.archetype_count(), 1);
}

#[test]
fn remove_part_and_same_key_same_archetype() {
    let registry = four_parts();
    let mut world = World::new(&registry);
    let x = world.create_thing(&key_of(&[1, 2])).unwrap();
    let y = world.create_thing(&key_of(&[1])).unwrap();
    assert_ne!(world.archetype_of(x), world.archetype_of(y));
    assert!(world.remove_part(x, 2));
    assert_eq!(world.archetype_of(x), world.archetype_of(y));
    assert_eq!(scalar_bits(&world.key_of(x).unwrap()), vec![1]);
    assert!(!world.remove_part(thingstore::world::ThingId(0), 1));
}

#[test]
fn chunk_fills_then_next_chunk() {
    let registry = four_parts();
    let mut world = World::new(&registry);
    // Orient is 16 bytes: 1024 of them fill a 16 KiB chunk.
    let key = key_of(&[3]);
    let first = world.create_thing(&key).unwrap();
    let (chunk, _) = world.location(first).unwrap();
    for _ in 1..1024 {
        world.create_thing(&key).unwrap();
    }
    assert_eq!(world.chunk_len(chunk), Some(1024));
    let next = world.create_thing(&key).unwrap();
    let (other, slot) = world.location(next).unwrap();
    assert_ne!(other, chunk);
    assert_eq!(slot, 0);
}

#[test]
fn query_finds_supersets() {
    let registry = four_parts();
    let mut world = World::new(&registry);
    let a = world.create_thing(&key_of(&[0, 1])).unwrap();
    let b = world.create_thing(&key_of(&[0, 1, 2])).unwrap();
    let _c = world.create_thing(&key_of(&[2])).unwrap();
    let (ca, _) = world.location(a).unwrap();
    let (cb, _) = world.location(b).unwrap();
    let mut required = PartBitmap::new();
    required = required.with(1);
    let q = world.query(&required);
    assert_eq!(q.chunks, vec![ca, cb]);
    assert_eq!(world.free_things(), (1 << 20) - 1 - 3);
}

#[test]
fn part_bytes_follow_their_thing() {
    let registry = four_parts();
    let mut world = World::new(&registry);
    let a = world.create_thing(&key_of(&[0, 1])).unwrap();
    let b = world.create_thing(&key_of(&[0, 1])).unwrap();
    let c = world.create_thing(&key_of(&[0, 1])).unwrap();
    // New things read zeros.
    assert_eq!(world.read_part(a, 0), Some(vec![0, 0, 0, 0]));
    assert!(world.write_part(a, 0, &[1, 2, 3, 4]));
    assert!(world.write_part(b, 0, &[5, 6, 7, 8]));
    assert!(world.write_part(c, 1, &[9, 9, 9, 9]));
    assert!(world.write_part(c, 0, &[10, 11, 12, 13]));
    assert_eq!(world.read_part(a, 0), Some(vec![1, 2, 3, 4]));
    assert_eq!(world.read_part(b, 0), Some(vec![5, 6, 7, 8]));
    // Wrong width, missing part, unknown slot.
    assert!(!world.write_part(a, 0, &[1, 2]));
    assert!(!world.write_part(a, 2, &[1, 2, 3, 4]));
    assert!(!world.write_part(a, 9, &[1]));
    assert_eq!(world.read_part(a, 2), None);

    // Destroying `a` moves `c` into its slot; `c` keeps its bytes.
    assert!(world.destroy_thing(a));
    assert_eq!(world.location(c).unwrap().1, 0);
    assert_eq!(world.read_part(c, 0), Some(vec![10, 11, 12, 13]));
    assert_eq!(world.read_part(c, 1), Some(vec![9, 9, 9, 9]));
    assert_eq!(world.read_part(b, 0), Some(vec![5, 6, 7, 8]));
    assert_eq!(world.read_part(a, 0), None);

    // Adding a part keeps the common parts and zeroes the new one.
    assert!(world.add_part(b, 3));
    assert_eq!(world.read_part(b, 0), Some(vec![5, 6, 7, 8]));
    assert_eq!(world.read_part(b, 3), Some(vec![0; 16]));
    assert!(world.remove_part(b, 0));
    assert_eq!(world.read_part(b, 0), None);
    assert_eq!(world.read_part(b, 1), Some(vec![0, 0, 0, 0]));

    // A reused slot starts from zeros again.
    let d = world.create_thing(&key_of(&[0, 1])).unwrap();
    assert_eq!(world.read_part(d, 0), Some(vec![0, 0, 0, 0]));
    assert_eq!(world.read_part(c, 0), Some(vec![10, 11, 12, 13]));
}

#[test]
fn too_wide_archetype_is_refused() {
    #[derive(Clone, Copy)]
    struct Big([u8; 20000]);
    let mut registry = Registry::new();
    registry.register_part::<Big>();
    registry.register_part::<u8>();
    let mut world = World::new(&registry);
    assert!(world.create_thing(&key_of(&[0])).is_none());
    assert_eq!(world.archetype_count(), 0);
    let small = world.create_thing(&key_of(&[1])).unwrap();
    assert!(!world.add_part(small, 0));
    assert_eq!(scalar_bits(&world.key_of(small).unwrap()), vec![1]);
}

#[test]
fn fresh_world_capacities_and_unknown_ids() {
    let registry = four_parts();
    let mut world = World::new(&registry);
    assert_eq!(world.free_things(), (1 << 20) - 1);
    assert_eq!(world.free_archetypes(), (1 << 14) - 1);
    assert_eq!(world.free_chunks(), (1 << 17) - 1);
    assert!(world.key_fits(&key_of(&[0, 1, 2, 3])));
    assert!(world.all_parts_fit());
    let t = world.create_thing(&key_of(&[0, 1])).unwrap();
    assert_eq!(world.free_archetypes(), (1 << 14) - 2);
    assert_eq!(world.free_chunks(), (1 << 17) - 2);
    assert_eq!(world.chunk_len(thingstore::world::ChunkId(0)), None);
    assert!(world.archetype_key(thingstore::world::ArchtypeId(0)).is_none());
    assert!(world.destroy_thing(t));
    let u = world.create_thing(&key_of(&[0, 1])).unwrap();
    assert_ne!(u, t);
    assert!(!world.contains(t));
}
