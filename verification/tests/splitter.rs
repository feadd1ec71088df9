use bratwurst::splitter::split_blocks;

#[test]
fn empty_input_yields_no_blocks() {
    let blocks = split_blocks(&Vec::new(), 4);
    assert!(blocks.is_empty());
}

#[test]
fn short_input_is_one_block() {
    let blocks = split_blocks(&vec![1, 2, 3], 4);
    assert_eq!(blocks.len(), 1);
    assert_eq!(blocks[0].rank, 0);
    assert_eq!(blocks[0].data, vec![1, 2, 3]);
}

#[test]
fn partial_final_block() {
    let input: Vec<u8> = (0..10).collect();
    let blocks = split_blocks(&input, 4);
    assert_eq!(blocks.len(), 3);
    assert_eq!(blocks[0].rank, 0);
    assert_eq!(blocks[1].rank, 1);
    assert_eq!(blocks[2].rank, 2);
    assert_eq!(blocks[0].data, vec![0, 1, 2, 3]);
    assert_eq!(blocks[1].data, vec![4, 5, 6, 7]);
    assert_eq!(blocks[2].data, vec![8, 9]);
}

#[test]
fn exact_multiple_has_no_empty_tail() {
    let input: Vec<u8> = (0..8).collect();
    let blocks = split_blocks(&input, 4);
    assert_eq!(blocks.len(), 2);
    assert_eq!(blocks[1].data, vec![4, 5, 6, 7]);
}

#[test]
fn block_size_one() {
    let blocks = split_blocks(&vec![9, 8], 1);
    assert_eq!(blocks.len(), 2);
    assert_eq!(blocks[0].data, vec![9]);
    assert_eq!(blocks[1].data, vec![8]);
}
