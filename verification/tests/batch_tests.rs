use batch_ring::tensor_batch::TensorBatch;

#[test]
fn tensor_batch_it_works() {
    let tensor_size = 8;
    let capacity = 8;
    let data: Vec<u8> = (0..tensor_size * capacity).map(|i| i as u8).collect();

    let mut stacked_tensors = TensorBatch::new(tensor_size, capacity);
    for i in 0..capacity {
        stacked_tensors.append(&data[i * tensor_size..(i + 1) * tensor_size]);
    }
    let final_data = stacked_tensors.get_data().unwrap();
    assert_eq!(final_data, &data)
}

#[test]
fn loom_concurrent_append_two_threads() {
    let tensor_size = 2;
    let capacity = 2;

    let mut stacked = TensorBatch::new(tensor_size, capacity);

    let r1 = stacked.append(&vec![1u8; 2]);
    let r2 = stacked.append(&vec![2u8; 2]);
    let r3 = stacked.append(&vec![2u8; 2]);

    let mut some = 0;
    let mut none = 0;
    [r1, r2, r3].into_iter().for_each(|x| match x {
        Some(_) => some += 1,
        None => none += 1,
    });
    assert!(some == 2);
    assert!(none == 1);

    // Check that all slots are written
    assert_eq!(stacked.written_count(), capacity);
    assert!(stacked.is_ready());
}

#[test]
fn slots_granted_in_order() {
    let mut batch = TensorBatch::new(1, 4);
    assert_eq!(batch.append(&[10u8]), Some(0));
    assert_eq!(batch.append(&[11u8]), Some(1));
    assert_eq!(batch.append(&[12u8]), Some(2));
    assert_eq!(batch.append(&[13u8]), Some(3));
    assert_eq!(batch.append(&[14u8]), None);
}

#[test]
fn rejected_append_leaves_counts() {
    let mut batch = TensorBatch::new(1, 1);
    assert_eq!(batch.append(&[5u8]), Some(0));
    assert_eq!(batch.reserved_count(), 1);
    assert_eq!(batch.written_count(), 1);
    assert_eq!(batch.append(&[6u8]), None);
    assert_eq!(batch.reserved_count(), 1);
    assert_eq!(batch.written_count(), 1);
    assert!(batch.written_count() <= batch.reserved_count());
    assert!(batch.reserved_count() <= batch.capacity());
}

#[test]
fn get_data_only_when_ready() {
    let mut batch = TensorBatch::new(2, 2);
    assert!(!batch.is_ready());
    assert!(batch.get_data().is_none());
    batch.append(&[1u8, 2u8]);
    assert!(!batch.is_ready());
    assert!(batch.get_data().is_none());
    batch.append(&[3u8, 4u8]);
    assert!(batch.is_ready());
    assert_eq!(batch.get_data().unwrap(), &vec![1u8, 2u8, 3u8, 4u8]);
}

#[test]
fn record_lands_in_reserved_slot() {
    let mut batch = TensorBatch::new(3, 2);
    assert_eq!(batch.append(&[7u8, 8u8, 9u8]), Some(0));
    assert_eq!(batch.append(&[1u8, 2u8, 3u8]), Some(1));
    assert_eq!(batch.get_data().unwrap(), &vec![7u8, 8u8, 9u8, 1u8, 2u8, 3u8]);
}

#[test]
fn reset_restores_fresh() {
    let mut batch = TensorBatch::new(1, 2);
    assert_eq!(batch.append(&[1u8]), Some(0));
    assert_eq!(batch.append(&[2u8]), Some(1));
    assert!(batch.is_full());
    assert!(batch.is_ready());
    batch.reset();
    assert_eq!(batch.reserved_count(), 0);
    assert_eq!(batch.written_count(), 0);
    assert!(!batch.is_full());
    assert!(!batch.is_ready());
    assert_eq!(batch.append(&[3u8]), Some(0));
    assert_eq!(batch.append(&[4u8]), Some(1));
    assert_eq!(batch.append(&[5u8]), None);
    assert!(batch.is_ready());
}

#[test]
fn geometry_accessors() {
    let batch = TensorBatch::new(16, 3);
    assert_eq!(batch.tensor_size(), 16);
    assert_eq!(batch.capacity(), 3);
    assert_eq!(batch.reserved_count(), 0);
    assert_eq!(batch.written_count(), 0);
}
