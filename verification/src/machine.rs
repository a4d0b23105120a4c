//! The executor: a machine that runs an instruction tree against a tape of
//! wrapping byte cells, one instruction per step. It never reads or writes by
//! itself: a step that needs a byte written or read says so, and the caller
//! does it.
use crate::collect::{program, CollectedAstNode, Instruction};
use std::collections::VecDeque;
use vstd::pervasive::unreached;
use vstd::prelude::*;
use vstd::std_specs::vecdeque::VecDequeAdditionalSpecFns;

verus! {

broadcast use vstd::std_specs::vecdeque::group_vec_dequeue_axioms;

/// What the caller has to do after a step.
#[derive(Clone, Copy, Debug, PartialEq, Eq, Structural)]
pub enum Action {
    /// Nothing: step again.
    Continue,
    /// Write this byte, then step again.
    Output(u8),
    /// Flush what was written, read one byte and `feed` it.
    Input,
    /// Nothing: the program has ended.
    Halt,
    /// Stop: the program used a cell that the tape does not have.
    OutOfRange,
}

/// The machine as a mathematical value. `path` is the place in the program:
/// its last entry counts the instructions passed in the block that is
/// running, the entries before it name, from the top level inwards, the
/// groups that the block lies in.
pub struct MachineState {
    pub program: Seq<Instruction>,
    pub tape: Seq<u8>,
    pub pointer: int,
    pub path: Seq<int>,
}

/// A machine state with the action that led to it.
pub struct Step {
    pub state: MachineState,
    pub action: Action,
}

/// The body of the group reached from `program` through the groups that
/// `frames` names; `program` itself for no frames.
pub open spec fn block(program: Seq<Instruction>, frames: Seq<int>) -> Seq<Instruction>
    decreases frames.len(),
{
    if frames.len() == 0 {
        program
    } else {
        let outer = block(program, frames.drop_last());
        let at = frames.last();
        if 0 <= at < outer.len() && outer[at] is Group {
            outer[at]->Group_contents
        } else {
            Seq::empty()
        }
    }
}

/// Whether every entry of `frames` names a group in the block that the
/// entries before it lead to.
pub open spec fn frames_valid(program: Seq<Instruction>, frames: Seq<int>) -> bool
    decreases frames.len(),
{
    frames.len() == 0 || {
        let outer = block(program, frames.drop_last());
        let at = frames.last();
        &&& frames_valid(program, frames.drop_last())
        &&& 0 <= at < outer.len()
        &&& outer[at] is Group
    }
}

/// The cell after `delta` is added to it: cells wrap around at 256.
pub open spec fn wrapped(cell: u8, delta: int) -> u8 {
    ((cell + delta) % 256) as u8
}

/// Whether a pointer can be held by the machine.
pub open spec fn representable(pointer: int) -> bool {
    isize::MIN <= pointer <= isize::MAX
}

impl MachineState {
    /// The block that is running.
    pub open spec fn running(self) -> Seq<Instruction> {
        block(self.program, self.path.drop_last())
    }

    /// The instruction that the next step runs; `None` at the end of the
    /// running block.
    pub open spec fn current(self) -> Option<Instruction> {
        if 0 <= self.path.last() < self.running().len() {
            Some(self.running()[self.path.last()])
        } else {
            None
        }
    }

    /// Whether the place is one in the program.
    pub open spec fn valid(self) -> bool {
        &&& self.path.len() >= 1
        &&& frames_valid(self.program, self.path.drop_last())
        &&& 0 <= self.path.last() <= self.running().len()
    }

    /// Whether `cell` is a cell of the tape.
    pub open spec fn on_tape(self, cell: int) -> bool {
        0 <= cell < self.tape.len()
    }

    /// The same state at another place.
    pub open spec fn at(self, path: Seq<int>) -> MachineState {
        MachineState { program: self.program, tape: self.tape, pointer: self.pointer, path }
    }

    /// The same state with `value` in the cell `cell`.
    pub open spec fn with_cell(self, cell: int, value: u8) -> MachineState {
        MachineState {
            program: self.program,
            tape: self.tape.update(cell, value),
            pointer: self.pointer,
            path: self.path,
        }
    }

    /// The same state with the pointer at `pointer`.
    pub open spec fn with_pointer(self, pointer: int) -> MachineState {
        MachineState { program: self.program, tape: self.tape, pointer, path: self.path }
    }

    /// The place behind the current instruction.
    pub open spec fn passed(self) -> Seq<int> {
        self.path.drop_last().push(self.path.last() + 1)
    }

    /// The place behind the group whose body is running.
    pub open spec fn left(self) -> Seq<int> {
        self.path.drop_last().drop_last().push(self.path[self.path.len() - 2] + 1)
    }

    /// The start of the running block.
    pub open spec fn restarted(self) -> Seq<int> {
        self.path.drop_last().push(0)
    }

    /// The start of the body of the current instruction, a group.
    pub open spec fn entered(self) -> Seq<int> {
        self.path.push(0)
    }

    /// The step taken at the end of the running block. The top level ends the
    /// program. The body of a group is left if the current cell is zero and
    /// run again if it is not.
    pub open spec fn next_at_end(self) -> Step {
        if self.path.len() == 1 {
            Step { state: self, action: Action::Halt }
        } else if !self.on_tape(self.pointer) {
            Step { state: self, action: Action::OutOfRange }
        } else if self.tape[self.pointer] == 0 {
            Step { state: self.at(self.left()), action: Action::Continue }
        } else {
            Step { state: self.at(self.restarted()), action: Action::Continue }
        }
    }

    /// The step that runs `instruction` as the current instruction. Every use
    /// of a cell outside the tape stops the machine where it stands, and so
    /// does a pointer that the machine cannot hold. A group is passed by if
    /// the current cell is zero and entered if it is not. An input is not
    /// passed: the machine waits there to be fed.
    pub open spec fn next_on(self, instruction: Instruction) -> Step {
        match instruction {
            Instruction::ModifyPointer { offset } => if representable(self.pointer + offset) {
                Step {
                    state: self.with_pointer(self.pointer + offset).at(self.passed()),
                    action: Action::Continue,
                }
            } else {
                Step { state: self, action: Action::OutOfRange }
            },
            Instruction::ModifyData { new_data } => if self.on_tape(self.pointer) {
                Step {
                    state: self.with_cell(
                        self.pointer,
                        wrapped(self.tape[self.pointer], new_data),
                    ).at(self.passed()),
                    action: Action::Continue,
                }
            } else {
                Step { state: self, action: Action::OutOfRange }
            },
            Instruction::ModifyDataOffset { new_data, offset } => if self.on_tape(
                self.pointer + offset,
            ) {
                Step {
                    state: self.with_cell(
                        self.pointer + offset,
                        wrapped(self.tape[self.pointer + offset], new_data),
                    ).at(self.passed()),
                    action: Action::Continue,
                }
            } else {
                Step { state: self, action: Action::OutOfRange }
            },
            Instruction::Output => if self.on_tape(self.pointer) {
                Step {
                    state: self.at(self.passed()),
                    action: Action::Output(self.tape[self.pointer]),
                }
            } else {
                Step { state: self, action: Action::OutOfRange }
            },
            Instruction::Input => if self.on_tape(self.pointer) {
                Step { state: self, action: Action::Input }
            } else {
                Step { state: self, action: Action::OutOfRange }
            },
            Instruction::Group { contents } => if !self.on_tape(self.pointer) {
                Step { state: self, action: Action::OutOfRange }
            } else if self.tape[self.pointer] == 0 {
                Step { state: self.at(self.passed()), action: Action::Continue }
            } else {
                Step { state: self.at(self.entered()), action: Action::Continue }
            },
        }
    }

    /// One step of the machine.
    pub open spec fn next(self) -> Step {
        match self.current() {
            Some(instruction) => self.next_on(instruction),
            None => self.next_at_end(),
        }
    }

    /// Whether the machine waits at an input for a byte that it can store.
    pub open spec fn awaits_input(self) -> bool {
        self.current() == Some(Instruction::Input) && self.on_tape(self.pointer)
    }

    /// The state after `byte` was fed: stored in the current cell with the
    /// input passed, if the machine was waiting for it; else unchanged.
    pub open spec fn fed(self, byte: u8) -> MachineState {
        if self.awaits_input() {
            self.with_cell(self.pointer, byte).at(self.passed())
        } else {
            self
        }
    }

    /// The state after `steps` steps in which every input, if any, is still
    /// waited at.
    pub open spec fn run(self, steps: nat) -> MachineState
        decreases steps,
    {
        if steps == 0 {
            self
        } else {
            self.next().state.run((steps - 1) as nat)
        }
    }
}

/// A group met while the current cell is zero is passed by in one step that
/// asks nothing of the caller and leaves tape and pointer as they were,
/// whatever the group's body holds.
pub proof fn lemma_group_at_zero_cell_is_passed(state: MachineState)
    requires
        state.valid(),
        state.current() is Some,
        state.current()->0 is Group,
        state.on_tape(state.pointer),
        state.tape[state.pointer] == 0,
    ensures
        state.next().action == Action::Continue,
        state.next().state == state.at(state.passed()),
        state.next().state.tape == state.tape,
        state.next().state.pointer == state.pointer,
        state.next().state.program == state.program,
{
}

/// Running `first + second` steps is running `first` steps and then `second`.
pub proof fn lemma_run_split(state: MachineState, first: nat, second: nat)
    ensures
        state.run(first + second) == state.run(first).run(second),
    decreases first,
{
    if first > 0 {
        lemma_run_split(state.next().state, (first - 1) as nat, second);
        assert(state.run(first + second) == state.next().state.run((first + second - 1) as nat));
    }
}

/// The program `[-]`: one group that takes one from the current cell.
pub open spec fn clear_cell() -> Seq<Instruction> {
    seq![Instruction::Group { contents: seq![Instruction::ModifyData { new_data: -1 }] }]
}

/// The machine inside the group of `[-]`, at the start of its body.
pub open spec fn clearing(tape: Seq<u8>, pointer: int) -> MachineState {
    MachineState { program: clear_cell(), tape, pointer, path: seq![0int, 0int] }
}

/// The machine behind the group of `[-]`.
pub open spec fn cleared(tape: Seq<u8>, pointer: int) -> MachineState {
    MachineState { program: clear_cell(), tape, pointer, path: seq![1int] }
}

/// One round of `[-]` takes two steps: it lowers the cell by one and then
/// either starts the next round or, at zero, leaves the group.
pub proof fn lemma_clear_cell_round(tape: Seq<u8>, pointer: int)
    requires
        0 <= pointer < tape.len(),
        tape[pointer] >= 1,
    ensures
        clearing(tape, pointer).run(2) == if tape[pointer] == 1 {
            cleared(tape.update(pointer, 0), pointer)
        } else {
            clearing(tape.update(pointer, (tape[pointer] - 1) as u8), pointer)
        },
{
    reveal_with_fuel(block, 3);
    reveal_with_fuel(MachineState::run, 3);
    let start = clearing(tape, pointer);
    let lower = (tape[pointer] - 1) as u8;
    assert(start.path.drop_last() =~= seq![0int]);
    assert(seq![0int].drop_last() =~= Seq::<int>::empty());
    assert(start.running() == seq![Instruction::ModifyData { new_data: -1 }]);
    assert(start.current() == Some(Instruction::ModifyData { new_data: -1 }));
    assert(wrapped(tape[pointer], -1) == lower);
    let middle = start.next().state;
    assert(start.passed() =~= seq![0int, 1int]);
    assert(middle.path == seq![0int, 1int]);
    assert(middle.path.drop_last() =~= seq![0int]);
    assert(middle.running() == seq![Instruction::ModifyData { new_data: -1 }]);
    assert(middle.current() is None);
    assert(middle.tape == tape.update(pointer, lower));
    assert(middle.left() =~= seq![1int]);
    assert(middle.restarted() =~= seq![0int, 0int]);
    assert(start.run(2) == middle.next().state);
}

/// From inside the group, `[-]` on a cell that holds `rounds` or more stands
/// at the start of its body again after `rounds` rounds, the cell lowered by
/// `rounds`, as long as that leaves the cell above zero.
pub proof fn lemma_clear_cell_rounds(tape: Seq<u8>, pointer: int, rounds: nat)
    requires
        0 <= pointer < tape.len(),
        rounds < tape[pointer],
    ensures
        clearing(tape, pointer).run(2 * rounds) == clearing(
            tape.update(pointer, (tape[pointer] - rounds) as u8),
            pointer,
        ),
    decreases rounds,
{
    if rounds == 0 {
        assert(tape.update(pointer, tape[pointer]) =~= tape);
    } else {
        let lower = tape.update(pointer, (tape[pointer] - 1) as u8);
        lemma_clear_cell_round(tape, pointer);
        lemma_clear_cell_rounds(lower, pointer, (rounds - 1) as nat);
        lemma_run_split(clearing(tape, pointer), 2, (2 * (rounds - 1)) as nat);
        assert(lower.update(pointer, (lower[pointer] - (rounds - 1)) as u8) =~= tape.update(
            pointer,
            (tape[pointer] - rounds) as u8,
        ));
    }
}

/// The program `[-]`, started on a cell that holds a value from 1 to 255,
/// enters its group with the first step and then takes exactly as many rounds
/// of two steps as the cell holds: after fewer rounds it stands at the start
/// of the body with the cell lowered by the rounds taken, after all of them it
/// stands behind the group with the cell at zero. The pointer and every other
/// cell stay as they were, no step asks anything of the caller, and the step
/// after the last round ends the program.
pub proof fn lemma_clear_cell(tape: Seq<u8>, pointer: int, rounds: nat)
    requires
        0 <= pointer < tape.len(),
        tape[pointer] >= 1,
        rounds <= tape[pointer],
    ensures
        ({
            let start = MachineState { program: clear_cell(), tape, pointer, path: seq![0int] };
            let after = start.run(1 + 2 * rounds);
            &&& rounds < tape[pointer] ==> after == clearing(
                tape.update(pointer, (tape[pointer] - rounds) as u8),
                pointer,
            )
            &&& rounds == tape[pointer] ==> after == cleared(tape.update(pointer, 0), pointer)
            &&& rounds == tape[pointer] ==> after.next().action == Action::Halt
        }),
{
    reveal_with_fuel(block, 3);
    reveal_with_fuel(MachineState::run, 2);
    let start = MachineState { program: clear_cell(), tape, pointer, path: seq![0int] };
    assert(start.path.drop_last() =~= Seq::<int>::empty());
    assert(start.running() == clear_cell());
    assert(start.current() is Some && start.current()->0 is Group);
    assert(start.entered() =~= seq![0int, 0int]);
    assert(start.next().state == clearing(tape, pointer));
    assert(start.run(1) == clearing(tape, pointer));
    lemma_run_split(start, 1, 2 * rounds);
    if rounds < tape[pointer] {
        lemma_clear_cell_rounds(tape, pointer, rounds);
    } else {
        let before = (rounds - 1) as nat;
        let last = tape.update(pointer, 1u8);
        lemma_clear_cell_rounds(tape, pointer, before);
        lemma_clear_cell_round(last, pointer);
        lemma_run_split(clearing(tape, pointer), 2 * before, 2);
        assert(last.update(pointer, 0u8) =~= tape.update(pointer, 0u8));
        let end = cleared(tape.update(pointer, 0), pointer);
        assert(end.path.drop_last() =~= Seq::<int>::empty());
        assert(end.running() == clear_cell());
        assert(end.current() is None);
    }
}

/// A valid run of frames stays valid when it is cut short.
pub proof fn lemma_frames_prefix(program: Seq<Instruction>, frames: Seq<int>, len: int)
    requires
        frames_valid(program, frames),
        0 <= len <= frames.len(),
    ensures
        frames_valid(program, frames.take(len)),
    decreases frames.len() - len,
{
    if len == frames.len() {
        assert(frames.take(len) =~= frames);
    } else {
        lemma_frames_prefix(program, frames, len + 1);
        assert(frames.take(len + 1).drop_last() =~= frames.take(len));
    }
}

/// A place as the machine holds it, entry by entry as integers.
pub open spec fn frames(path: Seq<usize>) -> Seq<int> {
    path.map_values(|at: usize| at as int)
}

/// What the machine finds at its place: the end of the running block, or an
/// instruction, of a group only that it is one.
#[derive(Clone, Copy, Debug, PartialEq, Eq, Structural)]
pub enum Fetched {
    End,
    ModifyPointer(isize),
    ModifyData(isize),
    ModifyDataOffset(isize, isize),
    Output,
    Input,
    Group,
}

impl Fetched {
    /// Whether this is what stands at the place `current`.
    pub open spec fn shows(self, current: Option<Instruction>) -> bool {
        match self {
            Fetched::End => current is None,
            Fetched::ModifyPointer(offset) => current == Some(
                Instruction::ModifyPointer { offset: offset as int },
            ),
            Fetched::ModifyData(new_data) => current == Some(
                Instruction::ModifyData { new_data: new_data as int },
            ),
            Fetched::ModifyDataOffset(new_data, offset) => current == Some(
                Instruction::ModifyDataOffset { new_data: new_data as int, offset: offset as int },
            ),
            Fetched::Output => current == Some(Instruction::Output),
            Fetched::Input => current == Some(Instruction::Input),
            Fetched::Group => current is Some && current->0 is Group,
        }
    }
}

/// Adds `delta` to a cell, wrapping around at 256.
pub fn wrap_add(cell: u8, delta: isize) -> (sum: u8)
    ensures
        sum == wrapped(cell, delta as int),
{
    let low: isize = match delta.checked_rem_euclid(256) {
        Some(low) => low,
        None => unreached(),
    };
    let wide: isize = cell as isize + low;
    let sum: isize = if wide >= 256 {
        wide - 256
    } else {
        wide
    };
    assert(sum == (cell + delta) % 256);
    sum as u8
}

/// A program being run: the instruction tree, the tape, the pointer and the
/// place in the tree.
pub struct Machine {
    program: VecDeque<CollectedAstNode>,
    state: Vec<u8>,
    pointer: isize,
    path: Vec<usize>,
}

impl View for Machine {
    type V = MachineState;

    closed spec fn view(&self) -> MachineState {
        MachineState {
            program: program(self.program@),
            tape: self.state@,
            pointer: self.pointer as int,
            path: frames(self.path@),
        }
    }
}

impl Machine {
    /// The place is one in the program, and no group on the way to it is the
    /// last that a block could hold.
    pub closed spec fn wf(&self) -> bool {
        &&& self@.valid()
        &&& forall|depth: int|
            0 <= depth < self.path@.len() - 1 ==> (#[trigger] self.path@[depth]) < usize::MAX
    }

    /// A machine at the start of `program`, with the tape `state` and the
    /// pointer at `pointer`.
    pub fn new(program: VecDeque<CollectedAstNode>, state: Vec<u8>, pointer: isize) -> (machine:
        Self)
        ensures
            machine.wf(),
            machine@ == (MachineState {
                program: crate::collect::program(program@),
                tape: state@,
                pointer: pointer as int,
                path: seq![0int],
            }),
    {
        let mut path: Vec<usize> = Vec::new();
        path.push(0);
        let machine = Machine { program, state, pointer, path };
        assert(frames(machine.path@) =~= seq![0int]);
        assert(machine@.path.drop_last() =~= Seq::<int>::empty());
        machine
    }

    /// The tape.
    pub fn state(&self) -> (tape: &Vec<u8>)
        ensures
            tape@ == self@.tape,
    {
        &self.state
    }

    /// The pointer.
    pub fn pointer(&self) -> (pointer: isize)
        ensures
            pointer == self@.pointer,
    {
        self.pointer
    }

    /// Looks up what stands at the machine's place.
    pub fn fetch(&self) -> (found: Fetched)
        requires
            self.wf(),
        ensures
            found.shows(self@.current()),
            found != Fetched::End ==> self@.path.last() < usize::MAX,
    {
        let depth = self.path.len() - 1;
        let ghost outer = self@.path.drop_last();
        let mut block_here: &VecDeque<CollectedAstNode> = &self.program;
        let mut level: usize = 0;
        assert(outer.take(0) =~= Seq::<int>::empty());
        while level < depth
            invariant
                self.wf(),
                depth == self.path.len() - 1,
                outer == self@.path.drop_last(),
                level <= depth,
                program(block_here@) == block(self@.program, outer.take(level as int)),
            decreases depth - level,
        {
            let at = self.path[level];
            proof {
                lemma_frames_prefix(self@.program, outer, level + 1);
                assert(outer.take(level + 1).drop_last() =~= outer.take(level as int));
                assert(outer.take(level + 1).last() == at);
                assert(program(block_here@)[at as int] == block_here@[at as int].tree());
            }
            match &block_here[at] {
                CollectedAstNode::Group { contents } => {
                    proof {
                        CollectedAstNode::lemma_group_tree(*contents);
                    }
                    block_here = contents;
                },
                // A frame names a group: nothing else is met on the way down.
                _ => unreached(),
            }
            level += 1;
        }
        assert(outer.take(depth as int) =~= outer);
        let at = self.path[depth];
        if at >= block_here.len() {
            Fetched::End
        } else {
            assert(program(block_here@)[at as int] == block_here@[at as int].tree());
            match &block_here[at] {
                CollectedAstNode::ModifyPointer { offset } => Fetched::ModifyPointer(*offset),
                CollectedAstNode::ModifyData { new_data } => Fetched::ModifyData(*new_data),
                CollectedAstNode::ModifyDataOffset { new_data, offset } => Fetched::ModifyDataOffset(
                    *new_data,
                    *offset,
                ),
                CollectedAstNode::Output => Fetched::Output,
                CollectedAstNode::Input => Fetched::Input,
                CollectedAstNode::Group { contents } => {
                    proof {
                        CollectedAstNode::lemma_group_tree(*contents);
                    }
                    Fetched::Group
                },
            }
        }
    }

    /// Moves the place behind the current instruction.
    fn pass(&mut self)
        requires
            old(self).wf(),
            old(self)@.current() is Some,
            old(self)@.path.last() < usize::MAX,
        ensures
            final(self).wf(),
            final(self)@ == old(self)@.at(old(self)@.passed()),
    {
        let at = self.path.pop().unwrap();
        assert(frames(self.path@) =~= old(self)@.path.drop_last());
        self.path.push(at + 1);
        assert(frames(self.path@) =~= old(self)@.passed());
        assert(self@.path.drop_last() =~= old(self)@.path.drop_last());
    }

    /// Whether the pointer is at a cell of the tape.
    fn on_tape(&self) -> (on_tape: bool)
        ensures
            on_tape == self@.on_tape(self@.pointer),
    {
        self.pointer >= 0 && (self.pointer as usize) < self.state.len()
    }

    /// Takes one step and says what the caller has to do.
    pub fn step(&mut self) -> (action: Action)
        requires
            old(self).wf(),
        ensures
            final(self).wf(),
            final(self)@ == old(self)@.next().state,
            action == old(self)@.next().action,
    {
        let found = self.fetch();
        match found {
            Fetched::End => {
                if self.path.len() == 1 {
                    return Action::Halt;
                }
                if !self.on_tape() {
                    return Action::OutOfRange;
                }
                let ghost before = self@.path;
                if self.state[self.pointer as usize] == 0 {
                    self.path.pop();
                    let group = self.path.pop().unwrap();
                    assert(frames(self.path@) =~= before.drop_last().drop_last());
                    self.path.push(group + 1);
                    assert(frames(self.path@) =~= old(self)@.left());
                    assert(self@.path.drop_last() =~= before.drop_last().drop_last());
                } else {
                    self.path.pop();
                    self.path.push(0);
                    assert(frames(self.path@) =~= old(self)@.restarted());
                    assert(self@.path.drop_last() =~= before.drop_last());
                }
                Action::Continue
            },
            Fetched::ModifyPointer(offset) => {
                match self.pointer.checked_add(offset) {
                    Some(pointer) => {
                        self.pointer = pointer;
                        self.pass();
                        Action::Continue
                    },
                    None => Action::OutOfRange,
                }
            },
            Fetched::ModifyData(new_data) => {
                if !self.on_tape() {
                    return Action::OutOfRange;
                }
                let cell = self.pointer as usize;
                let value = wrap_add(self.state[cell], new_data);
                self.state.set(cell, value);
                self.pass();
                Action::Continue
            },
            Fetched::ModifyDataOffset(new_data, offset) => {
                let target: i128 = self.pointer as i128 + offset as i128;
                if target < 0 || target >= self.state.len() as i128 {
                    return Action::OutOfRange;
                }
                let cell = target as usize;
                let value = wrap_add(self.state[cell], new_data);
                self.state.set(cell, value);
                self.pass();
                Action::Continue
            },
            Fetched::Output => {
                if !self.on_tape() {
                    return Action::OutOfRange;
                }
                let byte = self.state[self.pointer as usize];
                self.pass();
                Action::Output(byte)
            },
            Fetched::Input => {
                if !self.on_tape() {
                    return Action::OutOfRange;
                }
                Action::Input
            },
            Fetched::Group => {
                if !self.on_tape() {
                    return Action::OutOfRange;
                }
                if self.state[self.pointer as usize] == 0 {
                    self.pass();
                } else {
                    self.path.push(0);
                    assert(frames(self.path@) =~= old(self)@.entered());
                    assert(self@.path.drop_last() =~= old(self)@.path);
                }
                Action::Continue
            },
        }
    }

    /// Hands the machine the byte that was read for the input it waits at.
    /// A machine that does not wait for one stays as it is and says so.
    pub fn feed(&mut self, byte: u8) -> (accepted: bool)
        requires
            old(self).wf(),
        ensures
            final(self).wf(),
            accepted == old(self)@.awaits_input(),
            final(self)@ == old(self)@.fed(byte),
    {
        match self.fetch() {
            Fetched::Input => {
                if !self.on_tape() {
                    return false;
                }
                let cell = self.pointer as usize;
                self.state.set(cell, byte);
                self.pass();
                true
            },
            _ => false,
        }
    }
}

} // verus!
