use bfrs::transport::{Channel, ChunkedSender};
use bfrs::{ChunkedReceive, ChunkedReceiverWrapper};

fn filled(count: u32, chunk_size: usize) -> Channel<u32> {
    let mut sender = ChunkedSender::new(chunk_size);
    for item in 0..count {
        sender.send(item);
    }
    sender.flush()
}

fn batch_lengths(mut channel: Channel<u32>) -> Vec<usize> {
    let mut lengths = Vec::new();
    while let Some(batch) = channel.recv() {
        lengths.push(batch.len());
    }
    lengths
}

#[test]
fn full_batches_then_the_rest() {
    assert_eq!(batch_lengths(filled(10, 4)), vec![4, 4, 2]);
}

#[test]
fn no_partial_batch_when_items_divide_evenly() {
    assert_eq!(batch_lengths(filled(8, 4)), vec![4, 4]);
}

#[test]
fn nothing_sent_puts_nothing_on_the_wire() {
    assert_eq!(batch_lengths(filled(0, 4)), Vec::<usize>::new());
}

#[test]
fn chunk_larger_than_stream_is_one_batch() {
    assert_eq!(batch_lengths(filled(3, 64)), vec![3]);
}

#[test]
fn chunk_of_one_sends_every_item_alone() {
    assert_eq!(batch_lengths(filled(3, 1)), vec![1, 1, 1]);
}

#[test]
fn batches_keep_their_items_in_order() {
    let mut channel = filled(5, 2);
    let first: Vec<u32> = channel.recv().unwrap().into_iter().collect();
    let second: Vec<u32> = channel.recv().unwrap().into_iter().collect();
    let third: Vec<u32> = channel.recv().unwrap().into_iter().collect();
    assert_eq!(first, vec![0, 1]);
    assert_eq!(second, vec![2, 3]);
    assert_eq!(third, vec![4]);
    assert!(channel.recv().is_none());
}

#[test]
fn next_yields_items_first_in_first_out() {
    for chunk_size in [1usize, 2, 3, 7, 64] {
        let mut receiver = ChunkedReceiverWrapper::new(filled(7, chunk_size));
        let mut seen = Vec::new();
        while let Some(item) = receiver.next() {
            seen.push(item);
        }
        assert_eq!(seen, vec![0, 1, 2, 3, 4, 5, 6]);
    }
}

#[test]
fn next_after_the_end_stays_none() {
    let mut receiver = ChunkedReceiverWrapper::new(filled(1, 4));
    assert_eq!(receiver.next(), Some(0));
    assert_eq!(receiver.next(), None);
    assert_eq!(receiver.next(), None);
}

#[test]
fn next_on_an_empty_channel_is_none() {
    let mut receiver: ChunkedReceiverWrapper<Channel<u32>, u32> =
        ChunkedReceiverWrapper::new(Channel::new());
    assert_eq!(receiver.next(), None);
}

#[test]
fn next_skips_empty_batches() {
    let mut channel: Channel<u32> = Channel::new();
    channel.transmit(std::collections::VecDeque::new());
    channel.transmit(std::collections::VecDeque::from(vec![5, 6]));
    channel.transmit(std::collections::VecDeque::new());
    channel.transmit(std::collections::VecDeque::from(vec![7]));
    let mut receiver = ChunkedReceiverWrapper::new(channel);
    assert_eq!(receiver.next(), Some(5));
    assert_eq!(receiver.next(), Some(6));
    assert_eq!(receiver.next(), Some(7));
    assert_eq!(receiver.next(), None);
}
