//! A compiler pipeline and stepping interpreter for an eight-symbol
//! pointer-tape language.
//!
//! Source bytes pass through four stages (tokenizer, structural parser,
//! run-length normalizer, collector), each joined to the next by a chunked
//! transport that moves items in batches. The collected instruction tree is
//! then run by a machine that advances one instruction at a time and reports
//! every input and output it needs to the caller.
use std::collections::VecDeque;
use vstd::prelude::*;

pub mod ast;
pub mod collect;
pub mod deduplicate;
pub mod machine;
pub mod optimizations;
pub mod parse;
pub mod pipeline;
pub mod transport;

verus! {

broadcast use vstd::std_specs::vecdeque::group_vec_dequeue_axioms;

/// The consuming side of a chunked transport: a raw receiver of batches
/// together with the batch that is currently being handed out item by item.
pub struct ChunkedReceiverWrapper<T, U> {
    receiver: T,
    chunk: VecDeque<U>,
}

impl<T, U> ChunkedReceiverWrapper<T, U> {
    /// The raw receiver that batches are pulled from.
    pub closed spec fn source(self) -> T {
        self.receiver
    }

    /// The items of the current batch that have not been handed out yet.
    pub closed spec fn buffered(self) -> Seq<U> {
        self.chunk@
    }

    /// Wraps a raw receiver; nothing is buffered yet.
    pub fn new(receiver: T) -> (wrapper: Self)
        ensures
            wrapper.source() == receiver,
            wrapper.buffered() == Seq::<U>::empty(),
    {
        Self { receiver, chunk: VecDeque::new() }
    }
}

/// A stream that is pulled one item at a time.
pub trait ChunkedReceive<T> {
    /// Every item still to come, in the order in which `next` will yield them.
    spec fn remaining(&self) -> Seq<T>;

    /// Yields the first remaining item, or `None` once the stream has ended.
    fn next(&mut self) -> (item: Option<T>)
        ensures
            match item {
                Some(x) => {
                    &&& old(self).remaining().len() > 0
                    &&& x == old(self).remaining()[0]
                    &&& final(self).remaining() == old(self).remaining().skip(1)
                },
                None => {
                    &&& old(self).remaining().len() == 0
                    &&& final(self).remaining().len() == 0
                },
            },
    ;
}

impl<U> ChunkedReceive<U> for ChunkedReceiverWrapper<transport::Channel<U>, U> {
    open spec fn remaining(&self) -> Seq<U> {
        self.buffered() + self.source().items()
    }

    fn next(&mut self) -> (item: Option<U>) {
        loop
            invariant
                self.remaining() == old(self).remaining(),
            decreases self.receiver.wire().len(),
        {
            if self.chunk.len() > 0 {
                let item = self.chunk.pop_front();
                assert(self.remaining() =~= old(self).remaining().skip(1));
                return item;
            }
            let ghost before = self.receiver.wire();
            match self.receiver.recv() {
                Some(batch) => {
                    assert(before.drop_first() =~= before.skip(1));
                    assert(self.chunk@ =~= Seq::<U>::empty());
                    self.chunk = batch;
                    assert(self.remaining() =~= old(self).remaining());
                },
                None => {
                    assert(self.chunk@ =~= Seq::<U>::empty());
                    return None;
                },
            }
        }
    }
}

} // verus!
