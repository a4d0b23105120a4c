//! The normalizer: runs of single pointer or data steps merged into one
//! instruction each, runs that cancel left out.
use crate::ast::{syntax_trees, AstNode, SyntaxTree};
use crate::collect::Instruction;
use crate::transport::{chunked, Channel, ChunkedSender};
use crate::{ChunkedReceive, ChunkedReceiverWrapper};
use vstd::prelude::*;

verus! {

/// A normalized node as it travels between stages. A group carries the
/// receiving end of the channel on which its children travel.
#[derive(Debug)]
pub enum DeduplicatedAstNode {
    ModifyPointer(isize),
    ModifyData(isize),
    Output,
    Input,
    Group(Channel<DeduplicatedAstNode>),
}

/// The run that is being merged: nothing yet, pointer steps or data steps,
/// with the sum of the steps taken in so far.
#[derive(Clone, Copy, Debug, PartialEq, Eq, Structural)]
pub enum Pending {
    Empty,
    Pointer(isize),
    Data(isize),
}

/// The run that is being merged, with an unbounded sum.
pub enum Slot {
    Empty,
    Pointer(int),
    Data(int),
}

impl View for Pending {
    type V = Slot;

    open spec fn view(&self) -> Slot {
        match *self {
            Pending::Empty => Slot::Empty,
            Pending::Pointer(delta) => Slot::Pointer(delta as int),
            Pending::Data(delta) => Slot::Data(delta as int),
        }
    }
}

impl Pending {
    /// The nodes that the run leaves in the output when it ends: one node with
    /// its sum, or none if the sum is zero.
    pub open spec fn leaves(self) -> Seq<DeduplicatedAstNode> {
        match self {
            Pending::Empty => Seq::empty(),
            Pending::Pointer(delta) => if delta != 0 {
                seq![DeduplicatedAstNode::ModifyPointer(delta)]
            } else {
                Seq::empty()
            },
            Pending::Data(delta) => if delta != 0 {
                seq![DeduplicatedAstNode::ModifyData(delta)]
            } else {
                Seq::empty()
            },
        }
    }

    /// Whether the run takes in a pointer step (`pointer`) or data step of
    /// `step`: it does if the step is of its kind and the sum can still be held.
    pub open spec fn takes(self, pointer: bool, step: isize) -> bool {
        match self {
            Pending::Empty => false,
            Pending::Pointer(delta) => pointer && fits(delta + step),
            Pending::Data(delta) => !pointer && fits(delta + step),
        }
    }

    /// The nodes that a run leaves stand for what its sum leaves, and hold no
    /// channel.
    pub proof fn lemma_leaves(self, before: Seq<DeduplicatedAstNode>)
        ensures
            instructions(before + self.leaves()) == instructions(before) + flushed(self@),
            forall|chunk_size: nat|
                all_batched(before, chunk_size) ==> all_batched(
                    before + self.leaves(),
                    chunk_size,
                ),
    {
        assert(instructions(before + self.leaves()) =~= instructions(before) + flushed(self@));
    }

    /// Ends the run: sends what it leaves, which is nothing for a sum of zero.
    pub fn flush(self, sender: &mut ChunkedSender<DeduplicatedAstNode>)
        requires
            old(sender).wf(),
        ensures
            final(sender).wf(),
            final(sender).chunk_size() == old(sender).chunk_size(),
            final(sender).items() == old(sender).items() + self.leaves(),
            instructions(final(sender).items()) == instructions(old(sender).items()) + flushed(
                self@,
            ),
            forall|chunk_size: nat|
                all_batched(old(sender).items(), chunk_size) ==> all_batched(
                    final(sender).items(),
                    chunk_size,
                ),
    {
        let ghost before = sender.items();
        proof {
            self.lemma_leaves(before);
        }
        match self {
            Pending::Empty => {
                assert(before + self.leaves() =~= before);
            },
            Pending::Pointer(delta) => {
                let node = DeduplicatedAstNode::ModifyPointer(delta);
                if node.is_nonzero() {
                    sender.send(node);
                    assert(before.push(node) =~= before + self.leaves());
                } else {
                    assert(before + self.leaves() =~= before);
                }
            },
            Pending::Data(delta) => {
                let node = DeduplicatedAstNode::ModifyData(delta);
                if node.is_nonzero() {
                    sender.send(node);
                    assert(before.push(node) =~= before + self.leaves());
                } else {
                    assert(before + self.leaves() =~= before);
                }
            },
        }
    }

    /// Takes one pointer step (`pointer`) or data step of `step` into the run,
    /// or ends the run with it and starts the next.
    pub fn join(self, pointer: bool, step: isize, sender: &mut ChunkedSender<
        DeduplicatedAstNode,
    >) -> (next: Pending)
        requires
            old(sender).wf(),
            step == 1 || step == -1,
        ensures
            final(sender).wf(),
            final(sender).chunk_size() == old(sender).chunk_size(),
            next@ == joined(self@, pointer, step as int),
            final(sender).items() == if self.takes(pointer, step) {
                old(sender).items()
            } else {
                old(sender).items() + self.leaves()
            },
            instructions(final(sender).items()) == instructions(old(sender).items()) + displaced(
                self@,
                pointer,
                step as int,
            ),
            forall|chunk_size: nat|
                all_batched(old(sender).items(), chunk_size) ==> all_batched(
                    final(sender).items(),
                    chunk_size,
                ),
    {
        let ghost before = sender.items();
        match self {
            Pending::Pointer(delta) => {
                if pointer && ((step == 1 && delta < isize::MAX) || (step == -1 && delta
                    > isize::MIN)) {
                    assert(instructions(before) + Seq::<Instruction>::empty() =~= instructions(
                        before,
                    ));
                    return Pending::Pointer(delta + step);
                }
            },
            Pending::Data(delta) => {
                if !pointer && ((step == 1 && delta < isize::MAX) || (step == -1 && delta
                    > isize::MIN)) {
                    assert(instructions(before) + Seq::<Instruction>::empty() =~= instructions(
                        before,
                    ));
                    return Pending::Data(delta + step);
                }
            },
            Pending::Empty => {},
        }
        self.flush(sender);
        if pointer {
            Pending::Pointer(step)
        } else {
            Pending::Data(step)
        }
    }
}

/// Whether a sum can be held in a node's delta.
pub open spec fn fits(delta: int) -> bool {
    isize::MIN <= delta <= isize::MAX
}

/// What a run leaves in the output when it ends: one instruction with its
/// sum, or nothing if the sum is zero.
pub open spec fn flushed(slot: Slot) -> Seq<Instruction> {
    match slot {
        Slot::Empty => Seq::empty(),
        Slot::Pointer(delta) => if delta != 0 {
            seq![Instruction::ModifyPointer { offset: delta }]
        } else {
            Seq::empty()
        },
        Slot::Data(delta) => if delta != 0 {
            seq![Instruction::ModifyData { new_data: delta }]
        } else {
            Seq::empty()
        },
    }
}

/// The run after one more pointer step (`pointer`) or data step of `step`. A
/// step of the run's own kind joins it, as long as the sum can still be held;
/// any other step ends the run and starts the next.
pub open spec fn joined(slot: Slot, pointer: bool, step: int) -> Slot {
    match slot {
        Slot::Pointer(delta) if pointer && fits(delta + step) => Slot::Pointer(delta + step),
        Slot::Data(delta) if !pointer && fits(delta + step) => Slot::Data(delta + step),
        _ => if pointer {
            Slot::Pointer(step)
        } else {
            Slot::Data(step)
        },
    }
}

/// What that step puts into the output: nothing where it joins the run, else
/// what the run leaves.
pub open spec fn displaced(slot: Slot, pointer: bool, step: int) -> Seq<Instruction> {
    match slot {
        Slot::Pointer(delta) if pointer && fits(delta + step) => Seq::empty(),
        Slot::Data(delta) if !pointer && fits(delta + step) => Seq::empty(),
        _ => flushed(slot),
    }
}

/// The normalized form of `nodes` when the run `slot` is open before them.
/// A group is normalized by itself, starting from no run.
pub open spec fn normalize_from(nodes: Seq<SyntaxTree>, slot: Slot) -> Seq<Instruction>
    decreases nodes,
{
    if nodes.len() == 0 {
        flushed(slot)
    } else {
        let rest = nodes.skip(1);
        match nodes[0] {
            SyntaxTree::IncrementPointer => displaced(slot, true, 1) + normalize_from(
                rest,
                joined(slot, true, 1),
            ),
            SyntaxTree::DecrementPointer => displaced(slot, true, -1) + normalize_from(
                rest,
                joined(slot, true, -1),
            ),
            SyntaxTree::IncrementData => displaced(slot, false, 1) + normalize_from(
                rest,
                joined(slot, false, 1),
            ),
            SyntaxTree::DecrementData => displaced(slot, false, -1) + normalize_from(
                rest,
                joined(slot, false, -1),
            ),
            SyntaxTree::Output => flushed(slot).push(Instruction::Output) + normalize_from(
                rest,
                Slot::Empty,
            ),
            SyntaxTree::Input => flushed(slot).push(Instruction::Input) + normalize_from(
                rest,
                Slot::Empty,
            ),
            SyntaxTree::Group(children) => flushed(slot).push(
                Instruction::Group { contents: normalize_from(children, Slot::Empty) },
            ) + normalize_from(rest, Slot::Empty),
        }
    }
}

/// The normalized form of a run of syntax trees.
pub open spec fn normalize(nodes: Seq<SyntaxTree>) -> Seq<Instruction> {
    normalize_from(nodes, Slot::Empty)
}

/// The step that a node takes if it is a single pointer step (`pointer`) or a
/// single data step.
pub open spec fn step_of(node: SyntaxTree, pointer: bool) -> Option<int> {
    match node {
        SyntaxTree::IncrementPointer => if pointer {
            Some(1int)
        } else {
            None
        },
        SyntaxTree::DecrementPointer => if pointer {
            Some(-1int)
        } else {
            None
        },
        SyntaxTree::IncrementData => if pointer {
            None
        } else {
            Some(1int)
        },
        SyntaxTree::DecrementData => if pointer {
            None
        } else {
            Some(-1int)
        },
        _ => None,
    }
}

/// Whether `nodes` holds nothing but pointer steps (`pointer`), or nothing but
/// data steps.
pub open spec fn is_run(nodes: Seq<SyntaxTree>, pointer: bool) -> bool {
    forall|k: int| 0 <= k < nodes.len() ==> step_of(#[trigger] nodes[k], pointer) is Some
}

/// The sum of the steps of a run.
pub open spec fn net(nodes: Seq<SyntaxTree>, pointer: bool) -> int
    decreases nodes.len(),
{
    if nodes.len() == 0 {
        0
    } else {
        step_of(nodes[0], pointer).unwrap_or(0) + net(nodes.skip(1), pointer)
    }
}

/// An open run of pointer steps (`pointer`) or of data steps with the sum
/// `delta`.
pub open spec fn slot_of(pointer: bool, delta: int) -> Slot {
    if pointer {
        Slot::Pointer(delta)
    } else {
        Slot::Data(delta)
    }
}

/// An open run takes in every further step of its kind: what comes out at the
/// end is what the whole run leaves.
pub proof fn lemma_run_continues(nodes: Seq<SyntaxTree>, pointer: bool, delta: int)
    requires
        is_run(nodes, pointer),
        -isize::MAX <= delta - nodes.len(),
        delta + nodes.len() <= isize::MAX,
    ensures
        normalize_from(nodes, slot_of(pointer, delta)) == flushed(
            slot_of(pointer, delta + net(nodes, pointer)),
        ),
    decreases nodes.len(),
{
    if nodes.len() > 0 {
        let step = step_of(nodes[0], pointer)->0;
        let slot = slot_of(pointer, delta);
        let rest = nodes.skip(1);
        assert(is_run(rest, pointer)) by {
            assert forall|k: int| 0 <= k < rest.len() implies step_of(
                #[trigger] rest[k],
                pointer,
            ) is Some by {
                assert(rest[k] == nodes[k + 1]);
            }
        }
        assert(joined(slot, pointer, step) == slot_of(pointer, delta + step));
        assert(displaced(slot, pointer, step) == Seq::<Instruction>::empty());
        lemma_run_continues(rest, pointer, delta + step);
        assert(Seq::<Instruction>::empty() + normalize_from(rest, slot_of(pointer, delta + step))
            =~= normalize_from(rest, slot_of(pointer, delta + step)));
    }
}

/// A run of single steps of one kind, in whatever order they go up and down,
/// normalizes to one instruction with the sum of the steps, and to nothing at
/// all if the steps cancel.
pub proof fn lemma_run_is_merged(nodes: Seq<SyntaxTree>, pointer: bool)
    requires
        is_run(nodes, pointer),
        nodes.len() <= isize::MAX,
    ensures
        normalize(nodes) == flushed(slot_of(pointer, net(nodes, pointer))),
{
    if nodes.len() > 0 {
        let step = step_of(nodes[0], pointer)->0;
        let rest = nodes.skip(1);
        assert(is_run(rest, pointer)) by {
            assert forall|k: int| 0 <= k < rest.len() implies step_of(
                #[trigger] rest[k],
                pointer,
            ) is Some by {
                assert(rest[k] == nodes[k + 1]);
            }
        }
        assert(joined(Slot::Empty, pointer, step) == slot_of(pointer, step));
        assert(displaced(Slot::Empty, pointer, step) == Seq::<Instruction>::empty());
        lemma_run_continues(rest, pointer, step);
        assert(Seq::<Instruction>::empty() + normalize_from(rest, slot_of(pointer, step))
            =~= normalize_from(rest, slot_of(pointer, step)));
    }
}

/// Whether an instruction is one that normalizing leaves: a pointer or data
/// change is by a sum other than zero that a node can hold, no data change
/// goes to another cell than the current one, and a group holds such
/// instructions only.
pub open spec fn settled(instruction: Instruction) -> bool
    decreases instruction,
{
    match instruction {
        Instruction::ModifyPointer { offset } => offset != 0 && fits(offset),
        Instruction::ModifyData { new_data } => new_data != 0 && fits(new_data),
        Instruction::ModifyDataOffset { .. } => false,
        Instruction::Output => true,
        Instruction::Input => true,
        Instruction::Group { contents } => forall|k: int|
            0 <= k < contents.len() ==> settled(#[trigger] contents[k]),
    }
}

/// Whether the sum of a run can be held in a node.
pub open spec fn slot_fits(slot: Slot) -> bool {
    match slot {
        Slot::Empty => true,
        Slot::Pointer(delta) => fits(delta),
        Slot::Data(delta) => fits(delta),
    }
}

/// Whether every instruction of a run is settled.
pub open spec fn all_settled(run: Seq<Instruction>) -> bool {
    forall|k: int| 0 <= k < run.len() ==> settled(#[trigger] run[k])
}

/// Normalizing leaves no change by zero, at any depth: every instruction that
/// comes out is settled.
pub proof fn lemma_normalize_settled(nodes: Seq<SyntaxTree>, slot: Slot)
    requires
        slot_fits(slot),
    ensures
        all_settled(normalize_from(nodes, slot)),
    decreases nodes,
{
    if nodes.len() > 0 {
        let rest = nodes.skip(1);
        let ended = flushed(slot);
        assert(all_settled(ended));
        match nodes[0] {
            SyntaxTree::IncrementPointer => {
                lemma_normalize_settled(rest, joined(slot, true, 1));
                assert(all_settled(displaced(slot, true, 1)));
            },
            SyntaxTree::DecrementPointer => {
                lemma_normalize_settled(rest, joined(slot, true, -1));
                assert(all_settled(displaced(slot, true, -1)));
            },
            SyntaxTree::IncrementData => {
                lemma_normalize_settled(rest, joined(slot, false, 1));
                assert(all_settled(displaced(slot, false, 1)));
            },
            SyntaxTree::DecrementData => {
                lemma_normalize_settled(rest, joined(slot, false, -1));
                assert(all_settled(displaced(slot, false, -1)));
            },
            SyntaxTree::Output => {
                lemma_normalize_settled(rest, Slot::Empty);
                assert(all_settled(ended.push(Instruction::Output)));
            },
            SyntaxTree::Input => {
                lemma_normalize_settled(rest, Slot::Empty);
                assert(all_settled(ended.push(Instruction::Input)));
            },
            SyntaxTree::Group(children) => {
                lemma_normalize_settled(children, Slot::Empty);
                lemma_normalize_settled(rest, Slot::Empty);
                let group = Instruction::Group { contents: normalize_from(children, Slot::Empty) };
                assert(settled(group));
                assert(all_settled(ended.push(group)));
            },
        }
    }
}

/// Whether every node of a run is batched by `chunk_size`.
pub open spec fn all_batched(nodes: Seq<DeduplicatedAstNode>, chunk_size: nat) -> bool {
    forall|k: int| 0 <= k < nodes.len() ==> (#[trigger] nodes[k]).batched(chunk_size)
}

/// The instructions of a run of nodes, node by node.
pub open spec fn instructions(nodes: Seq<DeduplicatedAstNode>) -> Seq<Instruction> {
    nodes.map_values(|node: DeduplicatedAstNode| node.tree())
}

impl DeduplicatedAstNode {
    /// The instruction that this node stands for once every nested channel is
    /// read to its end.
    pub open spec fn tree(self) -> Instruction
        decreases self,
    {
        match self {
            DeduplicatedAstNode::ModifyPointer(delta) => Instruction::ModifyPointer {
                offset: delta as int,
            },
            DeduplicatedAstNode::ModifyData(delta) => Instruction::ModifyData {
                new_data: delta as int,
            },
            DeduplicatedAstNode::Output => Instruction::Output,
            DeduplicatedAstNode::Input => Instruction::Input,
            DeduplicatedAstNode::Group(children) => Instruction::Group {
                contents: children.items().map_values(
                    |child: DeduplicatedAstNode|
                        if decreases_to!(self => child) {
                            child.tree()
                        } else {
                            Instruction::Output
                        },
                ),
            },
        }
    }

    /// Whether every channel in this node, at any depth, carries its items in
    /// the batches that a transport of `chunk_size` makes of them.
    pub open spec fn batched(self, chunk_size: nat) -> bool
        decreases self,
    {
        match self {
            DeduplicatedAstNode::Group(children) => {
                &&& children.wire() == chunked(children.items(), chunk_size)
                &&& forall|k: int|
                    0 <= k < children.items().len() ==> decreases_to!(self => children.items()[k])
                        && (#[trigger] children.items()[k]).batched(chunk_size)
            },
            _ => true,
        }
    }

    /// A group is batched if its channel is and every node on it is.
    pub proof fn lemma_group_batched(children: Channel<DeduplicatedAstNode>, chunk_size: nat)
        requires
            children.wire() == chunked(children.items(), chunk_size),
            all_batched(children.items(), chunk_size),
        ensures
            DeduplicatedAstNode::Group(children).batched(chunk_size),
    {
        let group = DeduplicatedAstNode::Group(children);
        assert forall|k: int| 0 <= k < children.items().len() implies decreases_to!(group => #[trigger] children.items()[k]) by {
            children.lemma_items_decrease(k);
            assert(decreases_to!(group => group->Group_0));
        }
    }

    /// A group stands for the group of the instructions of the nodes on its
    /// channel.
    pub proof fn lemma_group_tree(children: Channel<DeduplicatedAstNode>)
        ensures
            DeduplicatedAstNode::Group(children).tree() == (Instruction::Group {
                contents: instructions(children.items()),
            }),
    {
        let group = DeduplicatedAstNode::Group(children);
        assert forall|k: int| 0 <= k < children.items().len() implies decreases_to!(group => #[trigger] children.items()[k]) by {
            children.lemma_items_decrease(k);
        }
        assert(group.tree()->Group_contents =~= instructions(children.items()));
    }

    /// Normalizes the stream on `receiver` onto a fresh channel that batches by
    /// `chunk_size`. The channel of every group is normalized in the same way
    /// onto a channel of its own.
    pub fn parse(receiver: Channel<AstNode>, chunk_size: usize) -> (channel: Channel<
        DeduplicatedAstNode,
    >)
        requires
            chunk_size > 0,
        ensures
            instructions(channel.items()) == normalize(syntax_trees(receiver.items())),
            all_settled(instructions(channel.items())),
            channel.wire() == chunked(channel.items(), chunk_size as nat),
            all_batched(channel.items(), chunk_size as nat),
        decreases receiver,
    {
        let ghost whole = receiver.items();
        let mut input = ChunkedReceiverWrapper::new(receiver);
        let mut sender = ChunkedSender::new(chunk_size);
        let mut pending = Pending::Empty;
        let ghost mut consumed: int = 0;
        assert(input.remaining() =~= whole.skip(0));
        assert(instructions(sender.items()) =~= Seq::<Instruction>::empty());
        assert(instructions(sender.items()) + normalize(syntax_trees(whole)) =~= normalize(
            syntax_trees(whole),
        ));
        loop
            invariant
                whole == receiver.items(),
                0 <= consumed <= whole.len(),
                input.remaining() == whole.skip(consumed),
                sender.wf(),
                sender.chunk_size() == chunk_size,
                all_batched(sender.items(), chunk_size as nat),
                instructions(sender.items()) + normalize_from(
                    syntax_trees(input.remaining()),
                    pending@,
                ) == normalize(syntax_trees(whole)),
            decreases input.remaining().len(),
        {
            let ghost ahead = input.remaining();
            let ghost done = instructions(sender.items());
            let ghost slot = pending@;
            let item = input.next();
            proof {
                if item is Some {
                    receiver.lemma_items_decrease(consumed);
                    assert(whole.skip(consumed).skip(1) =~= whole.skip(consumed + 1));
                    assert(syntax_trees(ahead).skip(1) =~= syntax_trees(ahead.skip(1)));
                    consumed = consumed + 1;
                }
            }
            match item {
                None => {
                    proof {
                        lemma_normalize_settled(syntax_trees(whole), Slot::Empty);
                    }
                    pending.flush(&mut sender);
                    return sender.flush();
                },
                Some(AstNode::IncrementPointer) => {
                    pending = pending.join(true, 1, &mut sender);
                },
                Some(AstNode::DecrementPointer) => {
                    pending = pending.join(true, -1, &mut sender);
                },
                Some(AstNode::IncrementData) => {
                    pending = pending.join(false, 1, &mut sender);
                },
                Some(AstNode::DecrementData) => {
                    pending = pending.join(false, -1, &mut sender);
                },
                Some(AstNode::Output) => {
                    pending.flush(&mut sender);
                    let ghost before = sender.items();
                    sender.send(Self::Output);
                    assert(instructions(before.push(Self::Output)) =~= instructions(before).push(
                        Instruction::Output,
                    ));
                    pending = Pending::Empty;
                },
                Some(AstNode::Input) => {
                    pending.flush(&mut sender);
                    let ghost before = sender.items();
                    sender.send(Self::Input);
                    assert(instructions(before.push(Self::Input)) =~= instructions(before).push(
                        Instruction::Input,
                    ));
                    pending = Pending::Empty;
                },
                Some(AstNode::Group(nested)) => {
                    proof {
                        AstNode::lemma_group_tree(nested);
                    }
                    pending.flush(&mut sender);
                    let inner = Self::parse(nested, chunk_size);
                    let node = Self::Group(inner);
                    proof {
                        Self::lemma_group_tree(inner);
                        Self::lemma_group_batched(inner, chunk_size as nat);
                    }
                    let ghost before = sender.items();
                    sender.send(node);
                    assert(instructions(before.push(node)) =~= instructions(before).push(
                        node.tree(),
                    ));
                    pending = Pending::Empty;
                },
            }
            assert(instructions(sender.items()) + normalize_from(
                syntax_trees(input.remaining()),
                pending@,
            ) =~= done + normalize_from(syntax_trees(ahead), slot));
        }
    }

    /// Whether this node changes anything: false only for a pointer or data
    /// change by zero.
    pub fn is_nonzero(&self) -> (nonzero: bool)
        ensures
            nonzero == !(self.tree() == (Instruction::ModifyPointer { offset: 0 }) || self.tree() == (
            Instruction::ModifyData { new_data: 0 })),
    {
        match self {
            Self::ModifyPointer(pointer_value) => *pointer_value != 0,
            Self::ModifyData(data_value) => *data_value != 0,
            _ => true,
        }
    }
}

} // verus!
