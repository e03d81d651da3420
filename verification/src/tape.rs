//! The tape: a fixed number of byte cells and a pointer to one of them.

use vstd::prelude::*;

verus! {

/// What a tape holds: its cells and the index of the cell the pointer is at.
pub struct TapeState {
    /// The cells, the first at index 0.
    pub cells: Seq<u8>,
    /// The index of the current cell.
    pub pointer: int,
}

impl TapeState {
    /// The pointer is at one of the cells.
    pub open spec fn valid(self) -> bool {
        0 <= self.pointer < self.cells.len()
    }

    /// A tape of `size` cells that are all zero, with the pointer at the first.
    pub open spec fn blank(size: nat) -> TapeState {
        TapeState { cells: Seq::new(size, |i: int| 0u8), pointer: 0 }
    }

    /// The byte in the current cell.
    pub open spec fn current(self) -> u8 {
        self.cells[self.pointer]
    }

    /// The tape with the pointer `amount` cells further right, going on at the
    /// first cell behind the last.
    pub open spec fn move_right(self, amount: usize) -> TapeState {
        TapeState { pointer: (self.pointer + amount) % (self.cells.len() as int), ..self }
    }

    /// The tape with the pointer `amount` cells further left. The difference is
    /// taken as the machine takes it in a word, where a number below zero wraps
    /// around to the top of the word's range, and then reduced modulo the
    /// number of cells.
    pub open spec fn move_left(self, amount: usize) -> TapeState {
        let difference = self.pointer - amount;
        let wrapped = if difference < 0 {
            difference + usize::MAX + 1
        } else {
            difference
        };
        TapeState { pointer: wrapped % (self.cells.len() as int), ..self }
    }

    /// The tape with `byte` in the current cell.
    pub open spec fn store(self, byte: u8) -> TapeState {
        TapeState { cells: self.cells.update(self.pointer, byte), ..self }
    }

    /// The tape with `amount` added to the current cell, modulo 256.
    pub open spec fn increment(self, amount: u8) -> TapeState {
        self.store(((self.current() + amount) % 256) as u8)
    }

    /// The tape with `amount` subtracted from the current cell, modulo 256.
    pub open spec fn decrement(self, amount: u8) -> TapeState {
        self.store(((self.current() - amount) % 256) as u8)
    }
}

/// No operation takes the pointer off the tape or changes the number of cells.
pub proof fn lemma_tape_stays_valid(tape: TapeState, amount: usize, byte: u8)
    requires
        tape.valid(),
    ensures
        tape.move_right(amount).valid(),
        tape.move_left(amount).valid(),
        tape.store(byte).valid(),
        tape.increment(byte).valid(),
        tape.decrement(byte).valid(),
        tape.move_right(amount).cells == tape.cells,
        tape.move_left(amount).cells == tape.cells,
        tape.store(byte).cells.len() == tape.cells.len(),
        tape.increment(byte).cells.len() == tape.cells.len(),
        tape.decrement(byte).cells.len() == tape.cells.len(),
{
    let size = tape.cells.len() as int;
    vstd::arithmetic::div_mod::lemma_mod_bound(tape.pointer + amount, size);
    let difference = tape.pointer - amount;
    let wrapped = if difference < 0 {
        difference + usize::MAX + 1
    } else {
        difference
    };
    vstd::arithmetic::div_mod::lemma_mod_bound(wrapped, size);
}

/// A tape of `N` cells.
#[derive(Debug)]
pub struct Tape<const N: usize> {
    cells: [u8; N],
    pointer: usize,
}

impl<const N: usize> View for Tape<N> {
    type V = TapeState;

    closed spec fn view(&self) -> TapeState {
        TapeState { cells: self.cells@, pointer: self.pointer as int }
    }
}

impl<const N: usize> Tape<N> {
    /// The invariant of a tape: the pointer is at one of its cells.
    #[verifier::type_invariant]
    pub closed spec fn pointer_in_tape(self) -> bool {
        self.pointer < N
    }

    /// A tape that keeps its invariant holds `N` cells and has its pointer at
    /// one of them.
    pub proof fn lemma_valid(self)
        requires
            self.pointer_in_tape(),
        ensures
            self@.valid(),
            self@.cells.len() == N,
    {
    }

    /// A tape whose cells are all zero, with the pointer at the first cell.
    pub fn new() -> (tape: Self)
        requires
            N > 0,
        ensures
            tape@ == TapeState::blank(N as nat),
            tape@.valid(),
            tape@.cells.len() == N,
    {
        let tape = Tape { cells: [0u8;N], pointer: 0 };
        assert(tape@.cells =~= TapeState::blank(N as nat).cells);
        tape
    }

    /// The index of the current cell.
    pub fn pointer(&self) -> (pointer: usize)
        ensures
            pointer == self@.pointer,
            self@.valid(),
            self@.cells.len() == N,
    {
        proof {
            use_type_invariant(self);
        }
        self.pointer
    }

    /// The byte in the current cell.
    pub fn current(&self) -> (byte: u8)
        ensures
            byte == self@.current(),
            self@.valid(),
            self@.cells.len() == N,
    {
        proof {
            use_type_invariant(self);
        }
        self.cells[self.pointer]
    }

    /// The byte in the cell at `index`, or `None` where the tape has no such cell.
    pub fn cell(&self, index: usize) -> (byte: Option<u8>)
        ensures
            byte == if index < N {
                Some(self@.cells[index as int])
            } else {
                None
            },
    {
        if index < N {
            Some(self.cells[index])
        } else {
            None
        }
    }

    /// Moves the pointer `amount` cells to the right, around the end of the tape.
    pub fn move_right(&mut self, amount: usize)
        ensures
            final(self)@ == old(self)@.move_right(amount),
            final(self)@.valid(),
            final(self)@.cells.len() == N,
    {
        proof {
            use_type_invariant(&*self);
        }
        let step = amount % N;
        let room = N - self.pointer;
        assert((self.pointer + amount) % (N as int) == (self.pointer + step) % (N as int)) by {
            vstd::arithmetic::div_mod::lemma_add_mod_noop_right(
                self.pointer as int,
                amount as int,
                N as int,
            );
        }
        if step >= room {
            assert((self.pointer + step) % (N as int) == self.pointer + step - N) by {
                vstd::arithmetic::div_mod::lemma_fundamental_div_mod_converse(
                    self.pointer + step,
                    N as int,
                    1,
                    self.pointer + step - N,
                );
            }
            self.pointer = step - room;
        } else {
            assert((self.pointer + step) % (N as int) == self.pointer + step) by {
                vstd::arithmetic::div_mod::lemma_small_mod((self.pointer + step) as nat, N as nat);
            }
            self.pointer = self.pointer + step;
        }
    }

    /// Moves the pointer `amount` cells to the left: the difference wraps in a
    /// machine word and is then reduced modulo the number of cells.
    pub fn move_left(&mut self, amount: usize)
        ensures
            final(self)@ == old(self)@.move_left(amount),
            final(self)@.valid(),
            final(self)@.cells.len() == N,
    {
        proof {
            use_type_invariant(&*self);
        }
        self.pointer = self.pointer.wrapping_sub(amount) % N;
    }

    /// Puts `byte` into the current cell.
    pub fn store(&mut self, byte: u8)
        ensures
            final(self)@ == old(self)@.store(byte),
            final(self)@.valid(),
            final(self)@.cells.len() == N,
    {
        proof {
            use_type_invariant(&*self);
        }
        self.cells[self.pointer] = byte;
    }

    /// Adds `amount` to the current cell, modulo 256.
    pub fn increment(&mut self, amount: u8)
        ensures
            final(self)@ == old(self)@.increment(amount),
            final(self)@.valid(),
            final(self)@.cells.len() == N,
    {
        proof {
            use_type_invariant(&*self);
        }
        let byte = self.cells[self.pointer].wrapping_add(amount);
        self.cells[self.pointer] = byte;
    }

    /// Subtracts `amount` from the current cell, modulo 256.
    pub fn decrement(&mut self, amount: u8)
        ensures
            final(self)@ == old(self)@.decrement(amount),
            final(self)@.valid(),
            final(self)@.cells.len() == N,
    {
        proof {
            use_type_invariant(&*self);
        }
        let byte = self.cells[self.pointer].wrapping_sub(amount);
        self.cells[self.pointer] = byte;
    }
}

} // verus!
