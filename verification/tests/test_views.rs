use grou_num::block_iterator::{calculate_block_length, BlockIterator};
use grou_num::grou::{Grou, GrouSubset};

fn num(limbs: &[u64]) -> Grou {
    Grou::from(limbs.to_vec())
}

#[test]
fn subset_bounds() {
    let g = num(&[1, 2, 3, 4]);
    assert_eq!(g.subset(1, 3).data, &[2, 3]);
    assert_eq!(g.subset(0, 4).data, &[1, 2, 3, 4]);
    assert_eq!(g.subset(2, 2).data, &[] as &[u64]);
    assert_eq!(g.subset(4, 4).data, &[] as &[u64]);
    assert_eq!(g.subset_all().data, &[1, 2, 3, 4]);
    assert_eq!(num(&[]).subset_all().data, &[] as &[u64]);
    assert_eq!(g.subset(1, 3), GrouSubset { data: &[2, 3] });
    assert_ne!(g.subset(1, 3), GrouSubset { data: &[2, 3, 0] });
}

#[test]
fn split_off_block_cuts_short_at_the_end() {
    let g = num(&[1, 2, 3, 4, 5]);
    assert_eq!(g.split_off_block(2, 0).data, &[1, 2]);
    assert_eq!(g.split_off_block(2, 3).data, &[4, 5]);
    assert_eq!(g.split_off_block(2, 4).data, &[5]);
    assert_eq!(g.split_off_block(2, 5).data, &[] as &[u64]);
    assert_eq!(g.split_off_block(2, 9).data, &[] as &[u64]);
    assert_eq!(g.split_off_block(0, 1).data, &[] as &[u64]);
    assert_eq!(g.split_off_block(usize::MAX, 1).data, &[2, 3, 4, 5]);
    assert_eq!(num(&[]).split_off_block(3, 0).data, &[] as &[u64]);
}

#[test]
fn split_of_small_numbers() {
    let g = num(&[]);
    let (low, high) = g.split_2();
    assert_eq!(low.data.len() + high.data.len(), 0);
    let (a, b, c) = g.split_3();
    assert_eq!(a.data.len() + b.data.len() + c.data.len(), 0);

    let g = num(&[1, 2, 3, 4]);
    let (a, b, c) = g.split_3();
    assert_eq!((a.data, b.data, c.data), (&[1, 2][..], &[3, 4][..], &[][..]));
    let (low, high) = g.split_2();
    assert_eq!((low.data, high.data), (&[1, 2][..], &[3, 4][..]));
    assert_eq!(g.chunk_length(1), 4);
    assert_eq!(g.chunk_length(3), 2);
    assert_eq!(g.chunk_length(5), 1);
}

#[test]
fn split_2_of_eleven_limbs() {
    let g = num(&[1, 2, 3, 4, 5, 6, 7, 8, 9, 10, 11]);
    let (low, high) = g.split_2();
    assert_eq!(low.data.len(), 6);
    assert_eq!(high.data.len(), 5);
}

#[test]
fn split_3_of_two_limbs() {
    let g = num(&[1, 2]);
    let (a, b, c) = g.split_3();
    assert_eq!([a.data.len(), b.data.len(), c.data.len()], [1, 1, 0]);
}

#[test]
fn block_iterator_covers_the_number() {
    let g = num(&[1, 2, 3, 4, 5, 6, 7]);
    let mut blocks = BlockIterator::new(&g, 3);
    assert_eq!(blocks.len(), 3);
    assert_eq!(blocks.next().map(|b| b.data), Some(&[1, 2, 3][..]));
    assert_eq!(blocks.next().map(|b| b.data), Some(&[4, 5, 6][..]));
    assert_eq!(blocks.next().map(|b| b.data), Some(&[7][..]));
    assert_eq!(blocks.next(), None);
    assert_eq!(blocks.next(), None);
    assert_eq!(blocks.len(), 3);
}

#[test]
fn block_iterator_ends_with_a_full_block() {
    let g = num(&[1, 2, 3, 4]);
    let mut blocks = BlockIterator::new(&g, 2);
    assert_eq!(blocks.unwrap_next().data, &[1, 2]);
    assert_eq!(blocks.unwrap_next().data, &[3, 4]);
    assert_eq!(blocks.next(), None);

    let mut blocks = BlockIterator::new(&g, 9);
    assert_eq!(blocks.unwrap_next().data, &[1, 2, 3, 4]);
    assert_eq!(blocks.next(), None);
}

#[test]
fn block_iterator_edge_cases() {
    let g = num(&[1, 2]);
    let mut blocks = BlockIterator::new(&g, 0);
    assert_eq!(blocks.next(), None);

    let g = num(&[]);
    let mut blocks = BlockIterator::new(&g, 4);
    assert_eq!(blocks.next().map(|b| b.data.len()), Some(0));
    assert_eq!(blocks.next(), None);

    // A fresh pass starts again at the beginning.
    let g = num(&[8, 9]);
    let mut first = BlockIterator::new(&g, 1);
    assert_eq!(first.unwrap_next().data, &[8]);
    let mut second = BlockIterator::new(&g, 1);
    assert_eq!(second.unwrap_next().data, &[8]);
    assert_eq!(first.unwrap_next().data, &[9]);
}

#[test]
fn block_length_rounds_up() {
    let a = num(&[1, 2, 3, 4, 5, 6, 7]);
    let b = num(&[1, 2]);
    assert_eq!(calculate_block_length(2, &a, &b), 4);
    assert_eq!(calculate_block_length(2, &b, &a), 4);
    assert_eq!(calculate_block_length(7, &a, &b), 1);
    assert_eq!(calculate_block_length(3, &b, &b), 1);
    assert_eq!(calculate_block_length(1, &a, &b), 7);
    assert_eq!(calculate_block_length(4, &num(&[]), &num(&[])), 0);
}
