//! The collector: a stream of normalized nodes to an instruction tree that
//! owns all of its parts.
use crate::deduplicate::{instructions, DeduplicatedAstNode};
use crate::machine::{Machine, MachineState};
use crate::transport::Channel;
use crate::{ChunkedReceive, ChunkedReceiverWrapper};
use std::collections::VecDeque;
use vstd::pervasive::unreached;
use vstd::prelude::*;
use vstd::std_specs::vecdeque::VecDequeAdditionalSpecFns;

verus! {

broadcast use vstd::std_specs::vecdeque::group_vec_dequeue_axioms;

/// An instruction as a mathematical tree, with unbounded deltas.
pub enum Instruction {
    ModifyPointer { offset: int },
    ModifyData { new_data: int },
    ModifyDataOffset { new_data: int, offset: int },
    Output,
    Input,
    Group { contents: Seq<Instruction> },
}

/// An instruction ready to run. A group owns its body; no channel is left
/// anywhere in the tree.
#[derive(Debug, PartialEq, Eq)]
pub enum CollectedAstNode {
    ModifyPointer { offset: isize },
    ModifyData { new_data: isize },
    ModifyDataOffset { new_data: isize, offset: isize },
    Output,
    Input,
    Group { contents: VecDeque<Self> },
}

/// What can be loaded into a machine and run.
pub trait Execute: Sized {
    /// The instructions that are run, once, from first to last.
    spec fn body(&self) -> Seq<Instruction>;

    /// Whether this holds a body to run.
    spec fn runnable(&self) -> bool;

    /// Loads the body into a machine that stands at its first instruction,
    /// with the tape `state` and the pointer at `pointer`.
    fn execute(self, state: Vec<u8>, pointer: isize) -> (machine: Machine)
        requires
            self.runnable(),
        ensures
            machine.wf(),
            machine@ == (MachineState {
                program: self.body(),
                tape: state@,
                pointer: pointer as int,
                path: seq![0int],
            }),
    ;
}

impl Execute for VecDeque<CollectedAstNode> {
    open spec fn body(&self) -> Seq<Instruction> {
        program(self@)
    }

    open spec fn runnable(&self) -> bool {
        true
    }

    fn execute(self, state: Vec<u8>, pointer: isize) -> (machine: Machine) {
        Machine::new(self, state, pointer)
    }
}

impl Execute for CollectedAstNode {
    open spec fn body(&self) -> Seq<Instruction> {
        self.tree()->Group_contents
    }

    /// Only a group has a body.
    open spec fn runnable(&self) -> bool {
        self is Group
    }

    fn execute(self, state: Vec<u8>, pointer: isize) -> (machine: Machine) {
        match self {
            CollectedAstNode::Group { contents } => {
                proof {
                    CollectedAstNode::lemma_group_tree(contents);
                }
                Machine::new(contents, state, pointer)
            },
            _ => unreached(),
        }
    }
}

/// The instructions of a run of collected nodes, node by node.
pub open spec fn program(nodes: Seq<CollectedAstNode>) -> Seq<Instruction> {
    nodes.map_values(|node: CollectedAstNode| node.tree())
}

impl CollectedAstNode {
    /// The instruction that this node is.
    pub open spec fn tree(self) -> Instruction
        decreases self,
    {
        match self {
            CollectedAstNode::ModifyPointer { offset } => Instruction::ModifyPointer {
                offset: offset as int,
            },
            CollectedAstNode::ModifyData { new_data } => Instruction::ModifyData {
                new_data: new_data as int,
            },
            CollectedAstNode::ModifyDataOffset { new_data, offset } => Instruction::ModifyDataOffset {
                new_data: new_data as int,
                offset: offset as int,
            },
            CollectedAstNode::Output => Instruction::Output,
            CollectedAstNode::Input => Instruction::Input,
            CollectedAstNode::Group { contents } => Instruction::Group {
                contents: contents@.map_values(
                    |child: CollectedAstNode|
                        if decreases_to!(self => child) {
                            child.tree()
                        } else {
                            Instruction::Output
                        },
                ),
            },
        }
    }

    /// A group is the group of the instructions in its body.
    pub proof fn lemma_group_tree(contents: VecDeque<CollectedAstNode>)
        ensures
            (CollectedAstNode::Group { contents }).tree() == (Instruction::Group {
                contents: program(contents@),
            }),
    {
        let group = CollectedAstNode::Group { contents };
        assert forall|k: int| 0 <= k < contents@.len() implies decreases_to!(group => #[trigger] contents@[k]) by {
            assert(decreases_to!(group => contents));
            assert(decreases_to!(contents => contents[k]));
        }
        assert(group.tree()->Group_contents =~= program(contents@));
    }

    /// Drains `receiver`, and the channel of every group on it, into a tree.
    /// Each node becomes the instruction that it stands for.
    pub fn parse(receiver: Channel<DeduplicatedAstNode>) -> (res: VecDeque<Self>)
        ensures
            program(res@) == instructions(receiver.items()),
        decreases receiver,
    {
        let ghost whole = receiver.items();
        let mut input = ChunkedReceiverWrapper::new(receiver);
        let mut res: VecDeque<Self> = VecDeque::new();
        let ghost mut consumed: int = 0;
        assert(input.remaining() =~= whole.skip(0));
        assert(program(res@) =~= instructions(whole.take(0)));
        loop
            invariant
                whole == receiver.items(),
                0 <= consumed <= whole.len(),
                input.remaining() == whole.skip(consumed),
                program(res@) == instructions(whole.take(consumed)),
            decreases input.remaining().len(),
        {
            let ghost done = res@;
            let new_node = match input.next() {
                None => {
                    assert(whole.take(consumed) =~= whole);
                    return res;
                },
                Some(DeduplicatedAstNode::ModifyPointer(val)) => Self::ModifyPointer { offset: val },
                Some(DeduplicatedAstNode::ModifyData(val)) => Self::ModifyData { new_data: val },
                Some(DeduplicatedAstNode::Output) => Self::Output,
                Some(DeduplicatedAstNode::Input) => Self::Input,
                Some(DeduplicatedAstNode::Group(nested)) => {
                    proof {
                        receiver.lemma_items_decrease(consumed);
                        DeduplicatedAstNode::lemma_group_tree(nested);
                    }
                    let contents = Self::parse(nested);
                    proof {
                        Self::lemma_group_tree(contents);
                    }
                    Self::Group { contents }
                },
            };
            res.push_back(new_node);
            proof {
                assert(new_node.tree() == whole[consumed].tree());
                assert(whole.skip(consumed).skip(1) =~= whole.skip(consumed + 1));
                assert(whole.take(consumed + 1) =~= whole.take(consumed).push(whole[consumed]));
                assert(program(done.push(new_node)) =~= program(done).push(new_node.tree()));
                assert(instructions(whole.take(consumed).push(whole[consumed])) =~= instructions(
                    whole.take(consumed),
                ).push(whole[consumed].tree()));
                consumed = consumed + 1;
            }
        }
    }
}

} // verus!
