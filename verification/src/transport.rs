//! The chunked transport: an in-memory, first-in-first-out channel of batches
//! and the sender that fills it.
use std::collections::VecDeque;
use vstd::prelude::*;
use vstd::std_specs::vecdeque::VecDequeAdditionalSpecFns;

verus! {

broadcast use vstd::std_specs::vecdeque::group_vec_dequeue_axioms;

/// The receiving end of a channel: the batches that were transmitted and have
/// not been received yet, oldest first.
#[derive(Debug)]
pub struct Channel<U> {
    batches: VecDeque<VecDeque<U>>,
}

impl<U> Channel<U> {
    /// The batches on the wire, oldest first.
    pub closed spec fn wire(self) -> Seq<Seq<U>> {
        Seq::new(self.batches@.len(), |i: int| self.batches@[i]@)
    }

    /// Every item on the wire in transmission order, batch boundaries forgotten.
    pub open spec fn items(self) -> Seq<U> {
        self.wire().flatten()
    }

    /// A channel on which nothing was transmitted.
    pub fn new() -> (channel: Self)
        ensures
            channel.wire() == Seq::<Seq<U>>::empty(),
    {
        let channel = Channel { batches: VecDeque::new() };
        assert(channel.wire() =~= Seq::<Seq<U>>::empty());
        channel
    }

    /// Puts one batch behind every batch already on the wire.
    pub fn transmit(&mut self, batch: VecDeque<U>)
        ensures
            final(self).wire() == old(self).wire().push(batch@),
    {
        self.batches.push_back(batch);
        assert(self.wire() =~= old(self).wire().push(batch@));
    }

    /// Takes the oldest batch off the wire; `None` when none is left.
    pub fn recv(&mut self) -> (batch: Option<VecDeque<U>>)
        ensures
            match batch {
                Some(b) => {
                    &&& old(self).wire().len() > 0
                    &&& b@ == old(self).wire()[0]
                    &&& final(self).wire() == old(self).wire().skip(1)
                },
                None => {
                    &&& old(self).wire().len() == 0
                    &&& final(self).wire() == old(self).wire()
                },
            },
    {
        let batch = self.batches.pop_front();
        assert(batch is Some ==> self.wire() =~= old(self).wire().skip(1));
        batch
    }

    /// An item on the wire is a strict part of the channel that carries it.
    pub proof fn lemma_items_decrease(self, k: int)
        requires
            0 <= k < self.items().len(),
        ensures
            decreases_to!(self => self.items()[k]),
    {
        let (i, j) = lemma_flatten_member(self.wire(), k);
        assert(decreases_to!(self => self.batches));
        assert(decreases_to!(self.batches => self.batches[i]));
        assert(decreases_to!(self.batches[i] => self.batches[i][j]));
    }
}

/// Every item of a flattened sequence sits at some place in some part.
pub proof fn lemma_flatten_member<U>(parts: Seq<Seq<U>>, k: int) -> (place: (int, int))
    requires
        0 <= k < parts.flatten().len(),
    ensures
        0 <= place.0 < parts.len(),
        0 <= place.1 < parts[place.0].len(),
        parts.flatten()[k] == parts[place.0][place.1],
    decreases parts.len(),
{
    if k < parts[0].len() {
        (0, k)
    } else {
        let rest = lemma_flatten_member(parts.drop_first(), k - parts[0].len());
        (rest.0 + 1, rest.1)
    }
}

/// Flattening after one more part is flattening, then appending that part.
pub proof fn lemma_flatten_push<U>(parts: Seq<Seq<U>>, part: Seq<U>)
    ensures
        parts.push(part).flatten() == parts.flatten() + part,
    decreases parts.len(),
{
    if parts.len() == 0 {
        let single = parts.push(part);
        assert(single.drop_first() =~= Seq::<Seq<U>>::empty());
        assert(single.drop_first().flatten() =~= Seq::<U>::empty());
        assert(single.first() == part);
        assert(single.flatten() =~= part);
        assert(parts.flatten() + part =~= part);
    } else {
        assert(parts.push(part).drop_first() =~= parts.drop_first().push(part));
        lemma_flatten_push(parts.drop_first(), part);
        assert(parts.push(part).flatten() =~= parts.flatten() + part);
    }
}

/// The batches in which `items` cross a transport that batches by `chunk_size`:
/// full batches in order, then one shorter batch for what is left over.
pub open spec fn chunked<U>(items: Seq<U>, chunk_size: nat) -> Seq<Seq<U>>
    decreases items.len(),
{
    if chunk_size == 0 || items.len() == 0 {
        Seq::empty()
    } else if items.len() <= chunk_size {
        seq![items]
    } else {
        seq![items.take(chunk_size as int)] + chunked(items.skip(chunk_size as int), chunk_size)
    }
}

/// Full batches followed by a shorter one are exactly the batching of the
/// items they hold.
pub proof fn lemma_chunked_wire<U>(sent: Seq<Seq<U>>, pending: Seq<U>, chunk_size: nat)
    requires
        chunk_size > 0,
        pending.len() < chunk_size,
        forall|i: int| 0 <= i < sent.len() ==> (#[trigger] sent[i]).len() == chunk_size,
    ensures
        chunked(sent.flatten() + pending, chunk_size) == if pending.len() > 0 {
            sent.push(pending)
        } else {
            sent
        },
    decreases sent.len(),
{
    let items = sent.flatten() + pending;
    if sent.len() == 0 {
        assert(items =~= pending);
        if pending.len() > 0 {
            assert(sent.push(pending) =~= seq![pending]);
        } else {
            assert(sent =~= Seq::<Seq<U>>::empty());
        }
    } else {
        let rest = sent.drop_first();
        let tail = rest.flatten() + pending;
        assert(items =~= sent[0] + tail);
        assert(sent[0].len() == chunk_size);
        lemma_chunked_wire(rest, pending, chunk_size);
        if tail.len() == 0 {
            assert(items =~= sent[0]);
            if rest.len() > 0 {
                assert(rest[0] == sent[1]);
                assert(rest.flatten().len() >= rest[0].len());
            }
            assert(sent =~= seq![sent[0]]);
        } else {
            assert(items.take(chunk_size as int) =~= sent[0]);
            assert(items.skip(chunk_size as int) =~= tail);
            if pending.len() > 0 {
                assert(seq![sent[0]] + rest.push(pending) =~= sent.push(pending));
            } else {
                assert(seq![sent[0]] + rest =~= sent);
            }
        }
    }
}

/// Batching changes nothing but the boundaries: the batches of `items`,
/// flattened, are `items` again, whatever the chunk size.
pub proof fn lemma_chunked_flatten<U>(items: Seq<U>, chunk_size: nat)
    requires
        chunk_size > 0,
    ensures
        chunked(items, chunk_size).flatten() == items,
    decreases items.len(),
{
    if items.len() == 0 {
        assert(chunked(items, chunk_size).flatten() =~= items);
    } else if items.len() <= chunk_size {
        seq![items].lemma_flatten_one_element();
        assert(seq![items].first() == items);
    } else {
        let head = items.take(chunk_size as int);
        let tail = items.skip(chunk_size as int);
        lemma_chunked_flatten(tail, chunk_size);
        let parts = seq![head] + chunked(tail, chunk_size);
        assert(parts.first() == head);
        assert(parts.drop_first() =~= chunked(tail, chunk_size));
        assert(parts.flatten() =~= head + tail);
        assert(head + tail =~= items);
    }
}

/// The chunk size is a matter of throughput only: batched by one size or by
/// another, the same items cross in the same order.
pub proof fn lemma_chunk_size_invariance<U>(items: Seq<U>, one: nat, other: nat)
    requires
        one > 0,
        other > 0,
    ensures
        chunked(items, one).flatten() == chunked(items, other).flatten(),
{
    lemma_chunked_flatten(items, one);
    lemma_chunked_flatten(items, other);
}

/// The producing side of a chunked transport. Items are gathered into a batch
/// and the batch goes onto the wire the moment it holds `chunk_size` items.
pub struct ChunkedSender<U> {
    channel: Channel<U>,
    batch: VecDeque<U>,
    chunk_size: usize,
}

impl<U> ChunkedSender<U> {
    /// The batches transmitted so far.
    pub closed spec fn sent(self) -> Seq<Seq<U>> {
        self.channel.wire()
    }

    /// The items of the batch in progress.
    pub closed spec fn pending(self) -> Seq<U> {
        self.batch@
    }

    /// The number of items at which a batch is transmitted.
    pub closed spec fn chunk_size(self) -> usize {
        self.chunk_size
    }

    /// Every item sent so far, in order.
    pub open spec fn items(self) -> Seq<U> {
        self.sent().flatten() + self.pending()
    }

    /// Every transmitted batch is full and the batch in progress is not.
    pub open spec fn wf(self) -> bool {
        &&& self.chunk_size() > 0
        &&& self.pending().len() < self.chunk_size()
        &&& forall|i: int| 0 <= i < self.sent().len() ==> (#[trigger] self.sent()[i]).len() == self.chunk_size()
    }

    /// Opens a fresh channel that batches by `chunk_size`.
    pub fn new(chunk_size: usize) -> (sender: Self)
        requires
            chunk_size > 0,
        ensures
            sender.wf(),
            sender.chunk_size() == chunk_size,
            sender.sent() == Seq::<Seq<U>>::empty(),
            sender.pending() == Seq::<U>::empty(),
            sender.items() == Seq::<U>::empty(),
    {
        let sender = ChunkedSender { channel: Channel::new(), batch: VecDeque::new(), chunk_size };
        assert(sender.pending() =~= Seq::<U>::empty());
        assert(sender.items() =~= Seq::<U>::empty());
        sender
    }

    /// Appends `item` to the batch in progress and transmits the batch if that
    /// filled it.
    pub fn send(&mut self, item: U)
        requires
            old(self).wf(),
        ensures
            final(self).wf(),
            final(self).chunk_size() == old(self).chunk_size(),
            final(self).items() == old(self).items().push(item),
            old(self).pending().len() + 1 == old(self).chunk_size() ==> {
                &&& final(self).sent() == old(self).sent().push(old(self).pending().push(item))
                &&& final(self).pending() == Seq::<U>::empty()
            },
            old(self).pending().len() + 1 < old(self).chunk_size() ==> {
                &&& final(self).sent() == old(self).sent()
                &&& final(self).pending() == old(self).pending().push(item)
            },
    {
        self.batch.push_back(item);
        if self.batch.len() == self.chunk_size {
            let mut full = VecDeque::new();
            std::mem::swap(&mut self.batch, &mut full);
            proof {
                lemma_flatten_push(self.channel.wire(), full@);
            }
            self.channel.transmit(full);
            assert(self.pending() =~= Seq::<U>::empty());
            assert(self.items() =~= old(self).items().push(item));
        } else {
            assert(self.items() =~= old(self).items().push(item));
        }
    }

    /// Ends the stream: transmits the batch in progress unless it is empty and
    /// hands over the receiving end.
    pub fn flush(self) -> (channel: Channel<U>)
        requires
            self.wf(),
        ensures
            channel.items() == self.items(),
            channel.wire() == chunked(self.items(), self.chunk_size() as nat),
    {
        proof {
            lemma_chunked_wire(self.sent(), self.pending(), self.chunk_size() as nat);
        }
        let ChunkedSender { mut channel, batch, chunk_size: _ } = self;
        if batch.len() > 0 {
            proof {
                lemma_flatten_push(channel.wire(), batch@);
            }
            channel.transmit(batch);
        } else {
            assert(self.items() =~= self.sent().flatten());
        }
        channel
    }
}

} // verus!
