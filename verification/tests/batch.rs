use freetoken::batch::{indices, pair_sequences, seeds, Batch, BatchError};

fn refusal(b: &Batch, reqs: &[(usize, u32)]) -> BatchError {
    match b.begin(reqs) {
        Ok(_) => panic!("the step was accepted"),
        Err(e) => e,
    }
}

#[test]
fn steps_move_sequences_forward() {
    let mut b = Batch::new(3, 10, 100);
    let reqs = [(2, 5), (0, 6)];
    let s = b.begin(&reqs).unwrap();
    assert_eq!((s.positions, s.slots, s.max_pos), (vec![0, 0], vec![2, 0], 0));
    b.advance(&reqs);
    b.advance(&[(2, 1)]);
    assert_eq!(b.seq_pos, vec![1, 0, 2]);
    let s = b.begin(&[(0, 1), (1, 1), (2, 1)]).unwrap();
    assert_eq!((s.positions, s.max_pos), (vec![1, 0, 2], 2));
    b.reset_slot(2);
    assert_eq!(b.seq_pos, vec![1, 0, 0]);
}

#[test]
fn refused_steps() {
    let mut b = Batch::new(2, 1, 100);
    assert_eq!(refusal(&b, &[]), BatchError::BadBatchSize);
    assert_eq!(refusal(&b, &[(0, 1), (1, 1), (0, 1)]), BatchError::BadBatchSize);
    assert_eq!(refusal(&b, &[(2, 1)]), BatchError::BadSlot);
    assert_eq!(refusal(&b, &[(1, 100)]), BatchError::BadToken);
    b.advance(&[(0, 1)]);
    assert_eq!(refusal(&b, &[(0, 1)]), BatchError::ContextOverflow);
    assert_eq!(refusal(&b, &[(1, 100), (2, 1)]), BatchError::BadToken);
    assert!(b.begin(&[(1, 99)]).is_ok());
}

#[test]
fn two_entries_for_one_slot_count_twice() {
    let mut b = Batch::new(2, 1, 10);
    b.advance(&[(1, 0), (1, 0)]);
    assert_eq!(b.seq_pos, vec![0, 2]);
}

#[test]
fn constant_lists() {
    assert_eq!(pair_sequences(2, 3), vec![0, 0, 0, 1, 1, 1]);
    assert_eq!(pair_sequences(4, 0), Vec::<i32>::new());
    assert_eq!(indices(4), vec![0, 1, 2, 3]);
    assert_eq!(
        seeds(2),
        vec![0x9E37_79B9_7F4A_7C15, 0x9E37_79B9_7F4A_7C15u64.wrapping_mul(2)]
    );
}
