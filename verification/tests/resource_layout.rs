use std::any::TypeId;
use telepath::resource::{refusal_message, Refusal, ResourceLayout};

fn place<T: 'static>(layout: &mut ResourceLayout) -> Result<usize, Refusal> {
    layout.insert(
        TypeId::of::<T>(),
        std::mem::size_of::<T>(),
        std::mem::align_of::<T>(),
    )
}

#[test]
fn layout_insert_and_find() {
    let mut layout = ResourceLayout::new();
    assert_eq!(place::<u32>(&mut layout), Ok(0));
    assert_eq!(layout.find(TypeId::of::<u32>()), Some(0));
    assert_eq!(layout.find(TypeId::of::<u64>()), None);
    assert_eq!(layout.count(), 1);
}

#[test]
fn layout_multiple_types_are_packed_by_alignment() {
    let mut layout = ResourceLayout::new();
    assert_eq!(place::<u8>(&mut layout), Ok(0));
    assert_eq!(place::<u16>(&mut layout), Ok(2));
    assert_eq!(place::<u32>(&mut layout), Ok(4));
    assert_eq!(layout.find(TypeId::of::<u16>()), Some(2));
}

#[test]
fn layout_alignment_respected() {
    let mut layout = ResourceLayout::new();
    assert_eq!(place::<u8>(&mut layout), Ok(0));
    let off = place::<u64>(&mut layout).unwrap();
    assert_eq!(off, 8);
    assert_eq!(off % std::mem::align_of::<u64>(), 0);
}

#[test]
fn layout_refuses_a_ninth_resource() {
    let mut layout = ResourceLayout::new();
    place::<u8>(&mut layout).unwrap();
    place::<u16>(&mut layout).unwrap();
    place::<u32>(&mut layout).unwrap();
    place::<u64>(&mut layout).unwrap();
    place::<i8>(&mut layout).unwrap();
    place::<i16>(&mut layout).unwrap();
    place::<i32>(&mut layout).unwrap();
    place::<i64>(&mut layout).unwrap();
    let refused = place::<f32>(&mut layout).unwrap_err();
    assert_eq!(refused, Refusal::TooMany);
    assert!(refusal_message(refused).contains("too many resources"));
    assert_eq!(layout.count(), 8);
}

#[test]
fn layout_refuses_a_duplicate_type() {
    let mut layout = ResourceLayout::new();
    place::<u32>(&mut layout).unwrap();
    let refused = place::<u32>(&mut layout).unwrap_err();
    assert_eq!(refused, Refusal::Duplicate);
    assert!(refusal_message(refused).contains("duplicate"));
}

#[test]
fn layout_refuses_over_aligned_types() {
    let layout = ResourceLayout::new();
    let refused = layout
        .check_insert(TypeId::of::<u128>(), 16, 16)
        .unwrap_err();
    assert_eq!(refused, Refusal::OverAligned { align: 16 });
    assert_eq!(
        refusal_message(refused),
        "resource type alignment 16 exceeds AlignedStorage alignment (8)"
    );
}

#[test]
fn layout_refuses_when_storage_is_full() {
    let mut layout = ResourceLayout::new();
    assert_eq!(place::<[u8; 100]>(&mut layout), Ok(0));
    let refused = place::<[u64; 4]>(&mut layout).unwrap_err();
    assert_eq!(refused, Refusal::StorageFull { offset: 104, size: 32 });
    assert_eq!(refusal_message(refused), "resource storage full (104 + 32 > 128)");
    assert_eq!(layout.count(), 1);
}

#[test]
fn layout_slots_keep_registration_order() {
    let mut layout = ResourceLayout::new();
    place::<u8>(&mut layout).unwrap();
    place::<u64>(&mut layout).unwrap();
    let first = layout.slot(0);
    let second = layout.slot(1);
    assert_eq!(first.type_id, TypeId::of::<u8>());
    assert_eq!((second.offset, second.size), (8, 8));
}
