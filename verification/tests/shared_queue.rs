use deno_ops::shared_queue::SharedQueue;
use deno_ops::shared_queue::HEAD_INIT;
use deno_ops::shared_queue::MAX_RECORDS;
use deno_ops::shared_queue::RECORDS_SIZE;
use deno_ops::shared_queue::SIZE;

type Buf = Box<[u8]>;

#[test]
fn basic() {
    let mut q = SharedQueue::new();

    let h = q.head();
    assert!(h > 0);

    let r = vec![1u8, 2, 3, 4, 5].into_boxed_slice();
    let len = r.len() + h;
    assert!(q.push(r));
    assert_eq!(q.head(), len);

    let r = vec![6, 7].into_boxed_slice();
    assert!(q.push(r));

    let r = vec![8, 9, 10, 11].into_boxed_slice();
    assert!(q.push(r));
    assert_eq!(q.num_records(), 3);
    assert_eq!(q.len(), 3);

    let r = q.shift().unwrap();
    assert_eq!(r.as_ref(), vec![1, 2, 3, 4, 5].as_slice());
    assert_eq!(q.num_records(), 3);
    assert_eq!(q.len(), 2);

    let r = q.shift().unwrap();
    assert_eq!(r.as_ref(), vec![6, 7].as_slice());
    assert_eq!(q.num_records(), 3);
    assert_eq!(q.len(), 1);

    let r = q.shift().unwrap();
    assert_eq!(r.as_ref(), vec![8, 9, 10, 11].as_slice());
    assert_eq!(q.num_records(), 3);
    assert_eq!(q.len(), 0);

    assert!(q.shift().is_none());
    assert!(q.shift().is_none());

    assert_eq!(q.num_records(), 3);
    assert_eq!(q.len(), 0);

    q.reset();
    assert_eq!(q.num_records(), 0);
    assert_eq!(q.len(), 0);
}

fn alloc_buf(byte_length: usize) -> Buf {
    let mut v = Vec::new();
    v.resize(byte_length, 0);
    v.into_boxed_slice()
}

#[test]
fn overflow() {
    let mut q = SharedQueue::new();
    assert!(q.push(alloc_buf(RECORDS_SIZE - 1)));
    assert_eq!(q.len(), 1);
    assert!(!q.push(alloc_buf(2)));
    assert_eq!(q.len(), 1);
    assert!(q.push(alloc_buf(1)));
    assert_eq!(q.len(), 2);

    assert_eq!(q.shift().unwrap().len(), RECORDS_SIZE - 1);
    assert_eq!(q.len(), 1);
    assert_eq!(q.shift().unwrap().len(), 1);
    assert_eq!(q.len(), 0);

    assert!(!q.push(alloc_buf(1)));
}

#[test]
fn new_queue_is_empty_with_head_at_start() {
    let mut q = SharedQueue::new();
    assert_eq!(q.head(), HEAD_INIT);
    assert_eq!(HEAD_INIT, 412);
    assert_eq!(SIZE, 13212);
    assert_eq!(q.num_records(), 0);
    assert_eq!(q.len(), 0);
    assert!(q.shift().is_none());
}

#[test]
fn push_then_shift_gives_the_record_back() {
    let mut q = SharedQueue::new();
    assert!(q.push(vec![42u8, 0, 255].into_boxed_slice()));
    assert_eq!(q.shift().unwrap().as_ref(), &[42u8, 0, 255][..]);
    assert!(q.shift().is_none());
}

#[test]
fn records_come_out_in_push_order() {
    let mut q = SharedQueue::new();
    for i in 0..10u8 {
        assert!(q.push(vec![i; i as usize].into_boxed_slice()));
    }
    for i in 0..10u8 {
        assert_eq!(q.shift().unwrap().as_ref(), vec![i; i as usize].as_slice());
    }
    assert!(q.shift().is_none());
}

#[test]
fn empty_record_is_pushed_and_shifted() {
    let mut q = SharedQueue::new();
    assert!(q.push(Vec::new().into_boxed_slice()));
    assert_eq!(q.len(), 1);
    assert_eq!(q.head(), HEAD_INIT);
    assert_eq!(q.shift().unwrap().len(), 0);
    assert_eq!(q.len(), 0);
}

#[test]
fn refused_push_changes_nothing() {
    let mut q = SharedQueue::new();
    assert!(q.push(vec![1u8, 2].into_boxed_slice()));
    let head = q.head();
    assert!(!q.push(alloc_buf(RECORDS_SIZE)));
    assert_eq!(q.head(), head);
    assert_eq!(q.num_records(), 1);
    assert_eq!(q.shift().unwrap().as_ref(), &[1u8, 2][..]);
}

#[test]
fn record_filling_the_buffer_exactly_fits() {
    let mut q = SharedQueue::new();
    assert!(q.push(alloc_buf(RECORDS_SIZE)));
    assert_eq!(q.head(), SIZE);
    assert!(!q.push(alloc_buf(1)));
    assert!(q.push(alloc_buf(0)));
}

#[test]
fn head_grows_and_shift_leaves_it() {
    let mut q = SharedQueue::new();
    assert!(q.push(alloc_buf(7)));
    assert_eq!(q.head(), HEAD_INIT + 7);
    assert!(q.push(alloc_buf(3)));
    assert_eq!(q.head(), HEAD_INIT + 10);
    q.shift().unwrap();
    assert_eq!(q.head(), HEAD_INIT + 10);
}

#[test]
fn reset_empties_the_queue_and_restarts_the_head() {
    let mut q = SharedQueue::new();
    assert!(q.push(vec![1u8, 2, 3].into_boxed_slice()));
    assert!(q.push(vec![4u8].into_boxed_slice()));
    q.shift().unwrap();
    q.reset();
    assert_eq!(q.len(), 0);
    assert_eq!(q.num_records(), 0);
    assert_eq!(q.head(), HEAD_INIT);
    assert!(q.shift().is_none());
    assert!(q.push(vec![9u8].into_boxed_slice()));
    assert_eq!(q.shift().unwrap().as_ref(), &[9u8][..]);
}

#[test]
fn full_offset_table_still_works() {
    let mut q = SharedQueue::new();
    for i in 0..MAX_RECORDS {
        assert!(q.push(vec![i as u8, 1].into_boxed_slice()));
    }
    assert_eq!(q.len(), MAX_RECORDS);
    for i in 0..MAX_RECORDS {
        assert_eq!(q.shift().unwrap().as_ref(), &[i as u8, 1][..]);
    }
    assert_eq!(q.len(), 0);
}

#[test]
fn push_past_offset_table_writes_into_the_record_area() {
    let mut q = SharedQueue::new();
    for _ in 0..MAX_RECORDS {
        assert!(q.push(vec![7u8].into_boxed_slice()));
    }
    // The end offset of the extra record (412 + 101 = 513 = 0x0201) lands in
    // the first four bytes of the record area, over the first four records.
    assert!(q.push(vec![7u8].into_boxed_slice()));
    assert_eq!(q.len(), MAX_RECORDS + 1);
    assert_eq!(q.shift().unwrap().as_ref(), &[1u8][..]);
    assert_eq!(q.shift().unwrap().as_ref(), &[2u8][..]);
    assert_eq!(q.shift().unwrap().as_ref(), &[0u8][..]);
    assert_eq!(q.shift().unwrap().as_ref(), &[0u8][..]);
    assert_eq!(q.shift().unwrap().as_ref(), &[7u8][..]);
}

#[test]
fn offsets_and_ends_describe_the_records() {
    let mut q = SharedQueue::new();
    assert_eq!(q.get_offset(0), None);
    assert!(q.push(vec![1u8, 2, 3].into_boxed_slice()));
    assert!(q.push(vec![4u8].into_boxed_slice()));
    assert_eq!(q.get_offset(0), Some(HEAD_INIT));
    assert_eq!(q.get_end(0), Some(HEAD_INIT + 3));
    assert_eq!(q.get_offset(1), Some(HEAD_INIT + 3));
    assert_eq!(q.get_end(1), Some(HEAD_INIT + 4));
    assert_eq!(q.get_end(2), None);
    assert_eq!(q.get_offset(2), None);
}

#[test]
fn shift_reads_in_bounds_on_a_sound_queue() {
    let mut q = SharedQueue::new();
    assert!(q.shift_reads_in_bounds());
    assert!(q.push(vec![1u8].into_boxed_slice()));
    assert!(q.shift_reads_in_bounds());
    q.shift().unwrap();
    assert!(q.shift_reads_in_bounds());
}

#[test]
fn reset_queue_reads_like_a_new_one() {
    let mut q = SharedQueue::new();
    assert!(q.push(vec![5u8; 40].into_boxed_slice()));
    q.reset();
    let mut fresh = SharedQueue::new();
    assert!(q.push(vec![6u8, 7].into_boxed_slice()));
    assert!(fresh.push(vec![6u8, 7].into_boxed_slice()));
    assert_eq!(q.head(), fresh.head());
    assert_eq!(q.get_end(0), fresh.get_end(0));
    assert_eq!(q.shift().unwrap(), fresh.shift().unwrap());
    assert_eq!(q.len(), fresh.len());
}

#[test]
fn reset_keeps_the_record_area_bytes() {
    // Past MAX_RECORDS records a stored end can point above what was written
    // since the reset; the bytes read there are those left by earlier records.
    let mut reused = SharedQueue::new();
    assert!(reused.push(vec![0xABu8; 200].into_boxed_slice()));
    reused.reset();
    let mut fresh = SharedQueue::new();
    for q in [&mut reused, &mut fresh] {
        for _ in 0..=MAX_RECORDS {
            assert!(q.push(Vec::new().into_boxed_slice()));
        }
        // 612 = 0x0264, written over the stored end of record 100.
        assert!(q.push(vec![0x64u8, 0x02, 0, 0].into_boxed_slice()));
        for _ in 0..MAX_RECORDS {
            assert_eq!(q.shift().unwrap().len(), 0);
        }
        assert!(q.shift_reads_in_bounds());
    }
    let from_reused = reused.shift().unwrap();
    let from_fresh = fresh.shift().unwrap();
    assert_eq!(from_reused.len(), 200);
    assert_eq!(from_fresh.len(), 200);
    assert_eq!(&from_reused[..4], &[0x64u8, 0x02, 0, 0][..]);
    assert_eq!(&from_fresh[..4], &[0x64u8, 0x02, 0, 0][..]);
    assert_eq!(from_reused[8], 0xAB);
    assert_eq!(from_fresh[8], 0);
}
