//! A small interpreter for an eight-instruction tape language: a program,
//! an instruction pointer, a data tape that grows on demand, an input
//! queue and a jump-back stack.  Output bytes are collected and handed to
//! the caller; a step budget bounds every run, since programs of this
//! language need not halt.

use vstd::prelude::*;
use crate::codec::zeros;

verus! {

/// Why a run stopped.
#[derive(Clone, Copy, Debug, PartialEq, Eq, Structural)]
pub enum BfStatus {
    /// The program ran off its end, or a jump found no matching bracket.
    Done,
    /// An input instruction found the queue empty.
    NeedInput,
    /// The step budget ran out.
    OutOfSteps,
}

/// The interpreter state.
pub struct BrainF {
    pub instructions: Vec<u8>,
    pub instruction_pointer: usize,
    pub data: Vec<u8>,
    pub data_pointer: usize,
    pub input: Vec<u8>,
    pub input_pos: usize,
    pub jump_back_table: Vec<usize>,
}

impl BrainF {
    /// A fresh interpreter with thirty thousand zeroed cells.
    pub fn new() -> (r: BrainF)
        ensures
            r.instructions@ == Seq::<u8>::empty(),
            r.instruction_pointer == 0,
            r.data@ == zeros(30000),
            r.data_pointer == 0,
            r.input@ == Seq::<u8>::empty(),
            r.input_pos == 0,
            r.jump_back_table@ == Seq::<usize>::empty(),
    {
        let mut data: Vec<u8> = Vec::new();
        crate::codec::push_zeros(&mut data, 30000);
        proof {
            assert(data@ =~= zeros(30000));
        }
        BrainF {
            instructions: Vec::new(),
            instruction_pointer: 0,
            data,
            data_pointer: 0,
            input: Vec::new(),
            input_pos: 0,
            jump_back_table: Vec::new(),
        }
    }

    /// Loads a program and resets every pointer and the tape.
    pub fn load(&mut self, program: Vec<u8>)
        ensures
            final(self).instructions@ == program@,
            final(self).instruction_pointer == 0,
            final(self).data_pointer == 0,
            final(self).data@ == zeros(30000),
            final(self).input_pos == final(self).input@.len(),
            final(self).jump_back_table@ == Seq::<usize>::empty(),
    {
        self.instructions = program;
        self.instruction_pointer = 0;
        self.data_pointer = 0;
        let mut data: Vec<u8> = Vec::new();
        crate::codec::push_zeros(&mut data, 30000);
        proof {
            assert(data@ =~= zeros(30000));
        }
        self.data = data;
        self.input = Vec::new();
        self.input_pos = 0;
        self.jump_back_table = Vec::new();
    }

    /// Grows the tape with zeroes until the index lies on it.
    pub fn init_to_index(&mut self, index: usize)
        requires
            index < usize::MAX,
        ensures
            final(self).data@.len() > index,
            final(self).data@ == old(self).data@ + zeros(
                if old(self).data@.len() > index {
                    0
                } else {
                    (index + 1 - old(self).data@.len()) as nat
                },
            ),
            *final(self) == (BrainF { data: final(self).data, ..*old(self) }),
    {
        if self.data.len() <= index {
            while self.data.len() <= index
                invariant
                    index < usize::MAX,
                    old(self).data@.len() <= self.data@.len(),
                    self.data@.len() <= index + 1,
                    self.data@ == old(self).data@ + zeros(
                        (self.data@.len() - old(self).data@.len()) as nat,
                    ),
                    *self == (BrainF { data: self.data, ..*old(self) }),
                decreases index + 1 - self.data@.len(),
            {
                self.data.push(0);
                proof {
                    assert(self.data@ =~= old(self).data@ + zeros(
                        (self.data@.len() - old(self).data@.len()) as nat,
                    ));
                }
            }
        }
        proof {
            assert(self.data@ =~= old(self).data@ + zeros(
                if old(self).data@.len() > index {
                    0
                } else {
                    (index + 1 - old(self).data@.len()) as nat
                },
            ));
        }
    }

    /// The cell at an index; cells off the end read as zero and the tape
    /// grows to cover them.
    pub fn data_at(&mut self, index: usize) -> (r: u8)
        requires
            index < usize::MAX,
        ensures
            final(self).data@.len() > index,
            r == if index < old(self).data@.len() {
                old(self).data@[index as int]
            } else {
                0u8
            },
            final(self).data@ == old(self).data@ + zeros(
                if old(self).data@.len() > index {
                    0
                } else {
                    (index + 1 - old(self).data@.len()) as nat
                },
            ),
            *final(self) == (BrainF { data: final(self).data, ..*old(self) }),
    {
        self.init_to_index(index);
        self.data[index]
    }

    /// Writes the cell at an index, growing the tape to cover it.
    pub fn set_data_at(&mut self, index: usize, value: u8)
        requires
            index < usize::MAX,
        ensures
            final(self).data@.len() > index,
            final(self).data@[index as int] == value,
            forall|i: int|
                0 <= i < final(self).data@.len() && i != index ==> final(self).data@[i] == if i
                    < old(self).data@.len() {
                    old(self).data@[i]
                } else {
                    0u8
                },
            *final(self) == (BrainF { data: final(self).data, ..*old(self) }),
    {
        self.init_to_index(index);
        self.data.set(index, value);
    }

    /// Steps the cell at an index up by one, wrapping at the top.
    pub fn inc_data_at(&mut self, index: usize)
        requires
            index < usize::MAX,
        ensures
            final(self).data@.len() > index,
            ({
                let was: u8 = if index < old(self).data@.len() {
                    old(self).data@[index as int]
                } else {
                    0u8
                };
                final(self).data@[index as int] == (if was == 255 {
                    0u8
                } else {
                    (was + 1) as u8
                })
            }),
            forall|i: int|
                0 <= i < final(self).data@.len() && i != index ==> final(self).data@[i] == (if i
                    < old(self).data@.len() {
                    old(self).data@[i]
                } else {
                    0u8
                }),
            *final(self) == (BrainF { data: final(self).data, ..*old(self) }),
    {
        let v = self.data_at(index);
        let ghost mid = self.data@;
        let nv: u8 = if v == 255 {
            0
        } else {
            v + 1
        };
        self.set_data_at(index, nv);
        proof {
            assert forall|i: int|
                0 <= i < self.data@.len() && i != index implies self.data@[i] == (if i < old(
                self,
            ).data@.len() {
                old(self).data@[i]
            } else {
                0u8
            }) by {
                assert(self.data@[i] == (if i < mid.len() {
                    mid[i]
                } else {
                    0u8
                }));
                if i < mid.len() {
                    if i < old(self).data@.len() {
                        assert(mid[i] == old(self).data@[i]);
                    } else {
                        assert(mid[i] == zeros((mid.len() - old(self).data@.len()) as nat)[i - old(
                            self,
                        ).data@.len()]);
                    }
                }
            }
        }
    }

    /// Steps the cell at an index down by one, wrapping at the bottom.
    pub fn dec_data_at(&mut self, index: usize)
        requires
            index < usize::MAX,
        ensures
            final(self).data@.len() > index,
            ({
                let was: u8 = if index < old(self).data@.len() {
                    old(self).data@[index as int]
                } else {
                    0u8
                };
                final(self).data@[index as int] == (if was == 0 {
                    255u8
                } else {
                    (was - 1) as u8
                })
            }),
            forall|i: int|
                0 <= i < final(self).data@.len() && i != index ==> final(self).data@[i] == (if i
                    < old(self).data@.len() {
                    old(self).data@[i]
                } else {
                    0u8
                }),
            *final(self) == (BrainF { data: final(self).data, ..*old(self) }),
    {
        let v = self.data_at(index);
        let ghost mid = self.data@;
        let nv: u8 = if v == 0 {
            255
        } else {
            v - 1
        };
        self.set_data_at(index, nv);
        proof {
            assert forall|i: int|
                0 <= i < self.data@.len() && i != index implies self.data@[i] == (if i < old(
                self,
            ).data@.len() {
                old(self).data@[i]
            } else {
                0u8
            }) by {
                assert(self.data@[i] == (if i < mid.len() {
                    mid[i]
                } else {
                    0u8
                }));
                if i < mid.len() {
                    if i < old(self).data@.len() {
                        assert(mid[i] == old(self).data@[i]);
                    } else {
                        assert(mid[i] == zeros((mid.len() - old(self).data@.len()) as nat)[i - old(
                            self,
                        ).data@.len()]);
                    }
                }
            }
        }
    }

    /// Queues an input byte.
    pub fn push_input(&mut self, b: u8)
        ensures
            final(self).input@ == old(self).input@.push(b),
            final(self).instructions == old(self).instructions,
    {
        self.input.push(b);
    }

    /// Runs at most `steps` instructions, collecting the output.  The run
    /// ends when the program does, when input runs dry, or when the budget
    /// does; the program text is never touched, and the input queue only
    /// drains.
    pub fn bf_loop(&mut self, steps: u64) -> (r: (BfStatus, Vec<u8>))
        ensures
            final(self).instructions == old(self).instructions,
            final(self).input@ == old(self).input@,
            old(self).input_pos <= final(self).input_pos <= final(self).input@.len() || final(self).input_pos == old(self).input_pos,
            r.0 is NeedInput ==> final(self).input_pos >= final(self).input@.len(),
    {
        let mut out: Vec<u8> = Vec::new();
        let mut left = steps;
        loop
            invariant
                self.instructions == old(self).instructions,
                self.input@ == old(self).input@,
                old(self).input_pos <= self.input_pos,
                self.input_pos <= self.input@.len() || self.input_pos == old(self).input_pos,
            decreases left,
        {
            if left == 0 {
                return (BfStatus::OutOfSteps, out);
            }
            left = left - 1;
            if self.instruction_pointer >= self.instructions.len() {
                return (BfStatus::Done, out);
            }
            let instruction = self.instructions[self.instruction_pointer];
            if self.data_pointer >= usize::MAX - 1 {
                // the tape pointer ran to the end of the address space
                return (BfStatus::Done, out);
            }
            if instruction == 43 {
                self.inc_data_at(self.data_pointer);
                self.instruction_pointer = self.instruction_pointer + 1;
            } else if instruction == 45 {
                self.dec_data_at(self.data_pointer);
                self.instruction_pointer = self.instruction_pointer + 1;
            } else if instruction == 60 {
                if self.data_pointer != 0 {
                    self.data_pointer = self.data_pointer - 1;
                }
                self.instruction_pointer = self.instruction_pointer + 1;
            } else if instruction == 62 {
                self.data_pointer = self.data_pointer + 1;
                self.instruction_pointer = self.instruction_pointer + 1;
            } else if instruction == 46 {
                let b = self.data_at(self.data_pointer);
                out.push(b);
                self.instruction_pointer = self.instruction_pointer + 1;
            } else if instruction == 44 {
                if self.input_pos < self.input.len() {
                    let b = self.input[self.input_pos];
                    self.input_pos = self.input_pos + 1;
                    self.set_data_at(self.data_pointer, b);
                    self.instruction_pointer = self.instruction_pointer + 1;
                } else {
                    return (BfStatus::NeedInput, out);
                }
            } else if instruction == 91 {
                if self.data_at(self.data_pointer) == 0 {
                    // skip forward past the matching closing bracket
                    self.instruction_pointer = self.instruction_pointer + 1;
                    let mut level: u64 = 1;
                    let n = self.instructions.len();
                    while level != 0 && self.instruction_pointer < n
                        invariant
                            self.instructions == old(self).instructions,
                            self.input@ == old(self).input@,
                            old(self).input_pos <= self.input_pos,
                            self.input_pos <= self.input@.len() || self.input_pos == old(self).input_pos,
                            n == self.instructions@.len(),
                        decreases n - self.instruction_pointer,
                    {
                        let ni = self.instructions[self.instruction_pointer];
                        if ni == 91 {
                            if level < u64::MAX {
                                level = level + 1;
                            }
                        } else if ni == 93 {
                            level = level - 1;
                        }
                        self.instruction_pointer = self.instruction_pointer + 1;
                    }
                    if level != 0 {
                        // the program ran out before the bracket matched
                        return (BfStatus::Done, out);
                    }
                } else {
                    self.instruction_pointer = self.instruction_pointer + 1;
                    self.jump_back_table.push(self.instruction_pointer);
                }
            } else if instruction == 93 {
                if self.data_at(self.data_pointer) != 0 {
                    match self.jump_back_table.pop() {
                        Some(back) => {
                            self.jump_back_table.push(back);
                            self.instruction_pointer = back;
                        },
                        None => {
                            self.instruction_pointer = self.instruction_pointer + 1;
                        },
                    }
                } else {
                    self.instruction_pointer = self.instruction_pointer + 1;
                    self.jump_back_table.pop();
                }
            } else {
                self.instruction_pointer = self.instruction_pointer + 1;
            }
        }
    }

    /// One bounded run with a generous default budget; reports whether the
    /// program finished, and the output so far.
    pub fn handle_bf_loop(&mut self) -> (r: (bool, Vec<u8>))
        ensures
            final(self).instructions == old(self).instructions,
    {
        let (status, out) = self.bf_loop(1000000);
        match status {
            BfStatus::Done => (true, out),
            BfStatus::NeedInput => (false, out),
            BfStatus::OutOfSteps => (true, out),
        }
    }

    /// An input keystroke: queued, then the program runs on.
    pub fn handle_scancode(&mut self, scancode: u8) -> (r: (bool, Vec<u8>))
        ensures
            final(self).instructions == old(self).instructions,
    {
        self.push_input(scancode);
        self.handle_bf_loop()
    }
}

} // verus!
