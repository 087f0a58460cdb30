use pars::chunk::{assemble, plan_chunks, Chunk, ChunkData};

fn ranges(plan: &[Chunk]) -> Vec<(u64, u64)> {
    plan.iter().map(|c| (c.offset, c.length)).collect()
}

#[test]
fn plan_of_nothing_is_empty() {
    assert_eq!(ranges(&plan_chunks(0, 4)), vec![]);
    assert_eq!(ranges(&plan_chunks(0, u64::MAX)), vec![]);
}

#[test]
fn plan_cuts_into_blocks_and_a_rest() {
    assert_eq!(ranges(&plan_chunks(10, 4)), vec![(0, 4), (4, 4), (8, 2)]);
    assert_eq!(ranges(&plan_chunks(8, 4)), vec![(0, 4), (4, 4)]);
    assert_eq!(ranges(&plan_chunks(3, 16)), vec![(0, 3)]);
    assert_eq!(ranges(&plan_chunks(3, 1)), vec![(0, 1), (1, 1), (2, 1)]);
    assert_eq!(ranges(&plan_chunks(16384, 16384)), vec![(0, 16384)]);
    assert_eq!(ranges(&plan_chunks(16385, 16384)), vec![(0, 16384), (16384, 1)]);
}

#[test]
fn plan_reaches_the_largest_length() {
    assert_eq!(ranges(&plan_chunks(u64::MAX, u64::MAX)), vec![(0, u64::MAX)]);
    assert_eq!(
        ranges(&plan_chunks(u64::MAX, u64::MAX - 1)),
        vec![(0, u64::MAX - 1), (u64::MAX - 1, 1)]
    );
    let plan = plan_chunks(u64::MAX, 1 << 62);
    assert_eq!(plan.len(), 4);
    assert_eq!((plan[3].offset, plan[3].length), (3 << 62, (1 << 62) - 1));
}

#[test]
fn plan_has_no_gap_and_no_overlap() {
    for length in 0..40u64 {
        for block in 1..12u64 {
            let plan = plan_chunks(length, block);
            assert_eq!(plan.len() as u64, (length + block - 1) / block);
            let mut next = 0;
            for c in &plan {
                assert_eq!(c.offset, next);
                assert!(c.length > 0 && c.length <= block);
                next += c.length;
            }
            assert_eq!(next, length);
        }
    }
}

fn read(data: &[u8], plan: &[Chunk]) -> Vec<ChunkData> {
    plan.iter()
        .map(|c| ChunkData {
            offset: c.offset,
            bytes: data[c.offset as usize..(c.offset + c.length) as usize].to_vec(),
        })
        .collect()
}

#[test]
fn chunks_in_any_order_make_the_file_again() {
    let data: Vec<u8> = (0..97u32).map(|i| (i * 7 % 251) as u8).collect();
    for block in 1..20u64 {
        let plan = plan_chunks(data.len() as u64, block);
        let in_order = read(&data, &plan);
        assert_eq!(assemble(&in_order), data);
        let mut reversed = read(&data, &plan);
        reversed.reverse();
        assert_eq!(assemble(&reversed), data);
        let mut mixed = read(&data, &plan);
        let n = mixed.len();
        for i in 0..n {
            mixed.swap(i, (i * 5 + 3) % n);
        }
        assert_eq!(assemble(&mixed), data);
    }
}

#[test]
fn assembling_nothing_gives_nothing() {
    assert_eq!(assemble(&Vec::new()), Vec::<u8>::new());
}

#[test]
fn assembling_goes_by_offset_and_keeps_ties_in_order() {
    let parts = vec![
        ChunkData { offset: 5, bytes: vec![5] },
        ChunkData { offset: 2, bytes: vec![2, 3] },
        ChunkData { offset: 5, bytes: vec![6] },
        ChunkData { offset: 0, bytes: vec![] },
        ChunkData { offset: 2, bytes: vec![4] },
    ];
    assert_eq!(assemble(&parts), vec![2, 3, 4, 5, 6]);
}
