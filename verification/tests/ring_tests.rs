use batch_ring::is_power_of_two;
use batch_ring::tensor_batch::AppendError;
use batch_ring::BatchRingBuffer;

#[test]
fn lib_it_works() {
    let tensor_size = 1;
    let capacity = 1;
    let batches_nr = 4;

    let mut ringbatch = BatchRingBuffer::new(batches_nr, tensor_size, capacity);
    for i in 0..(capacity * batches_nr * 4) {
        println!("Inserting {i}");
        ringbatch.append(&vec![0u8; tensor_size]).unwrap();
        let consume = ringbatch.consume_buffer();
        println!("Consume {consume:?}")
    }
}

#[test]
fn round_trip_sixteen_pairs() {
    let mut ring = BatchRingBuffer::new(4, 1, 1);
    for i in 0..16 {
        assert_eq!(ring.append(&[i as u8]), Ok(0));
        let consume = ring.consume_buffer();
        if i == 0 {
            // the first record sits in the still-current batch: nothing is
            // pending reclamation until the head has moved past it.
            assert_eq!(consume, Err(AppendError::NotReady));
        } else {
            // exactly one batch is pending reclamation at a time.
            assert_eq!(consume, Ok(()));
            assert_eq!(ring.consume_buffer(), Err(AppendError::NotReady));
        }
    }
}

#[test]
fn backpressure_then_reclaim() {
    let mut ring = BatchRingBuffer::new(2, 1, 2);
    assert_eq!(ring.append(&[1u8]), Ok(0));
    assert_eq!(ring.append(&[2u8]), Ok(1));
    assert_eq!(ring.append(&[3u8]), Ok(0));
    assert_eq!(ring.append(&[4u8]), Ok(1));
    assert_eq!(ring.append(&[5u8]), Err(AppendError::AllBuffersFull));
    assert_eq!(ring.consume_buffer(), Ok(()));
    assert_eq!(ring.append(&[5u8]), Ok(0));
}

#[test]
fn reclaim_empty_not_ready() {
    let mut ring = BatchRingBuffer::new(2, 4, 3);
    assert_eq!(ring.consume_buffer(), Err(AppendError::NotReady));
    assert_eq!(ring.append(&[1u8, 2u8, 3u8, 4u8]), Ok(0));
    // the only written batch is still current, not yet retired.
    assert_eq!(ring.consume_buffer(), Err(AppendError::NotReady));
}

#[test]
fn power_of_two_check() {
    assert!(is_power_of_two(1));
    assert!(is_power_of_two(2));
    assert!(is_power_of_two(4));
    assert!(is_power_of_two(1024));
    assert!(!is_power_of_two(0));
    assert!(!is_power_of_two(3));
    assert!(!is_power_of_two(6));
    assert!(!is_power_of_two(usize::MAX));
}
