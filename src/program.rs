use vstd::prelude::*;
use std::collections::VecDeque;
use crate::token::Token;
use crate::brackets::{
    balanced, depth, skip_end, skip_to_matching, lemma_depth_step,
    lemma_skip_end_depth,
};

verus! {

/// What one step of the machine reports.
#[derive(PartialEq, Eq, Structural, Copy, Clone, Debug)]
pub enum Event {
    /// A command ran; there is more to run.
    Continued,
    /// A read needs the next input byte: hand it over with `feed`.
    NeedsInput,
    /// A byte is complete and goes out; at the end of the program, this is the
    /// byte that was partly written.
    Output(u8),
    /// The program has ended and nothing is left to write.
    Halted,
}

/// The machine in mathematical terms: the commands, the position of the next
/// one, the tape as groups of eight bits with the cursor as a bit index into
/// them, the positions of the loops entered and not yet left, and the two
/// shift registers.
pub struct Machine {
    pub code: Seq<Token>,
    pub pc: int,
    pub cells: Seq<u8>,
    pub cursor: int,
    pub stack: Seq<usize>,
    /// The input byte being read, most significant bit first.
    pub in_byte: u8,
    /// How many bits of `in_byte` have been read; eight when a new byte is due.
    pub in_bits: int,
    /// The output byte being assembled, most significant bit first.
    pub out_byte: u8,
    /// How many bits of `out_byte` have been written.
    pub out_bits: int,
}

/// The mask of bit `k` of a byte.
pub open spec fn bit_mask(k: int) -> u8 {
    (1u8 << (k as u8)) as u8
}

/// The tape bit at a bit index.
pub open spec fn bit_at(cells: Seq<u8>, cursor: int) -> bool {
    cells[cursor / 8] & bit_mask(cursor % 8) != 0
}

/// The tape with the bit at `cursor` set to `b`.
pub open spec fn with_bit(cells: Seq<u8>, cursor: int, b: bool) -> Seq<u8> {
    let c = cells[cursor / 8];
    let m = bit_mask(cursor % 8);
    cells.update(cursor / 8, if b { c | m } else { c & !m })
}

/// The machine before its first step.
pub open spec fn initial(code: Seq<Token>) -> Machine {
    Machine {
        code,
        pc: 0,
        cells: seq![0u8],
        cursor: 0,
        stack: Seq::empty(),
        in_byte: 0,
        in_bits: 8,
        out_byte: 0,
        out_bits: 0,
    }
}

/// A move left; past the leftmost cell, a zero cell is added in front.
pub open spec fn moved_left(m: Machine) -> Machine {
    if m.cursor == 0 {
        Machine { pc: m.pc + 1, cells: seq![0u8] + m.cells, cursor: 7, ..m }
    } else {
        Machine { pc: m.pc + 1, cursor: m.cursor - 1, ..m }
    }
}

/// A move right; past the rightmost cell, a zero cell is added at the end.
pub open spec fn moved_right(m: Machine) -> Machine {
    let c = m.cursor + 1;
    Machine {
        pc: m.pc + 1,
        cells: if c / 8 >= m.cells.len() { m.cells.push(0u8) } else { m.cells },
        cursor: c,
        ..m
    }
}

/// A flip of the bit under the cursor.
pub open spec fn flipped(m: Machine) -> Machine {
    Machine { pc: m.pc + 1, cells: with_bit(m.cells, m.cursor, !bit_at(m.cells, m.cursor)), ..m }
}

/// An opening bracket: enter the loop when the bit is one, else go past its end.
pub open spec fn entered(m: Machine) -> Machine {
    if bit_at(m.cells, m.cursor) {
        Machine { pc: m.pc + 1, stack: m.stack.push(m.pc as usize), ..m }
    } else {
        Machine { pc: skip_end(m.code, m.pc + 1, 1), ..m }
    }
}

/// A closing bracket: go back to the opening bracket, which tests the bit again.
pub open spec fn returned(m: Machine) -> Machine {
    Machine { pc: m.stack.last() as int, stack: m.stack.drop_last(), ..m }
}

/// A read: the next bit of the input byte goes to the bit under the cursor.
pub open spec fn read_bit(m: Machine) -> Machine {
    Machine {
        pc: m.pc + 1,
        cells: with_bit(m.cells, m.cursor, m.in_byte & bit_mask(7 - m.in_bits) != 0),
        in_bits: m.in_bits + 1,
        ..m
    }
}

/// A write: the bit under the cursor goes into the output byte, which goes out
/// when its eighth bit is in.
pub open spec fn written(m: Machine) -> (Machine, Event) {
    let b = if bit_at(m.cells, m.cursor) {
        m.out_byte | bit_mask(7 - m.out_bits)
    } else {
        m.out_byte
    };
    if m.out_bits == 7 {
        (Machine { pc: m.pc + 1, out_byte: 0, out_bits: 0, ..m }, Event::Output(b))
    } else {
        (Machine { pc: m.pc + 1, out_byte: b, out_bits: m.out_bits + 1, ..m }, Event::Continued)
    }
}

/// One step of the machine. Past the last command, a partly written byte goes
/// out first; then the machine stays halted.
pub open spec fn next(m: Machine) -> (Machine, Event) {
    if m.pc >= m.code.len() {
        if m.out_bits > 0 {
            (Machine { out_byte: 0, out_bits: 0, ..m }, Event::Output(m.out_byte))
        } else {
            (m, Event::Halted)
        }
    } else {
        match m.code[m.pc] {
            Token::MoveLeft => (moved_left(m), Event::Continued),
            Token::MoveRight => (moved_right(m), Event::Continued),
            Token::BracketLeft => (entered(m), Event::Continued),
            Token::BracketRight => (returned(m), Event::Continued),
            Token::Read => if m.in_bits >= 8 {
                (m, Event::NeedsInput)
            } else {
                (read_bit(m), Event::Continued)
            },
            Token::Write => written(m),
            Token::Flip => (flipped(m), Event::Continued),
        }
    }
}

/// The machine after the next input byte has been handed over.
pub open spec fn fed(m: Machine, byte: u8) -> Machine {
    Machine { in_byte: byte, in_bits: 0, ..m }
}

/// Runs at most `fuel` steps on the given input bytes, one byte handed over at
/// each `NeedsInput`. Stops early when the program halts or the input runs out.
/// Gives the machine at the end, the bytes written out, and the input left.
pub open spec fn run_steps(m: Machine, input: Seq<u8>, fuel: nat) -> (Machine, Seq<u8>, Seq<u8>)
    decreases fuel,
{
    if fuel == 0 {
        (m, Seq::empty(), input)
    } else {
        let (m2, e) = next(m);
        match e {
            Event::Halted => (m, Seq::empty(), input),
            Event::NeedsInput => if input.len() == 0 {
                (m, Seq::empty(), input)
            } else {
                run_steps(fed(m, input[0]), input.drop_first(), (fuel - 1) as nat)
            },
            Event::Output(b) => {
                let r = run_steps(m2, input, (fuel - 1) as nat);
                (r.0, seq![b] + r.1, r.2)
            },
            Event::Continued => run_steps(m2, input, (fuel - 1) as nat),
        }
    }
}

/// What holds of the machine in every state it reaches: the program is
/// well-bracketed, the loop stack holds exactly the positions of the loops that
/// enclose the next command, in order, and the cursor is on the tape.
pub open spec fn machine_ok(m: Machine) -> bool {
    &&& balanced(m.code)
    &&& m.code.len() <= usize::MAX
    &&& 0 <= m.pc <= m.code.len()
    &&& depth(m.code.take(m.pc)) == m.stack.len()
    &&& forall|k: int|
        0 <= k < m.stack.len() ==> {
            let j = #[trigger] m.stack[k] as int;
            &&& j < m.pc
            &&& m.code[j] == Token::BracketLeft
            &&& depth(m.code.take(j)) == k
        }
    &&& forall|a: int, b: int| 0 <= a < b < m.stack.len() ==> m.stack[a] < m.stack[b]
    &&& 0 <= m.cursor < m.cells.len() * 8
    &&& 0 <= m.in_bits <= 8
    &&& 0 <= m.out_bits < 8
}

/// The machine's invariant holds from the start.
pub proof fn lemma_initial_ok(code: Seq<Token>)
    requires
        balanced(code),
        code.len() <= usize::MAX,
    ensures
        machine_ok(initial(code)),
{
    assert(code.take(0) =~= Seq::<Token>::empty());
}

/// Every step keeps the machine's invariant.
pub proof fn lemma_next_keeps_ok(m: Machine)
    requires
        machine_ok(m),
    ensures
        machine_ok(next(m).0),
{
    if m.pc < m.code.len() {
        let pc = m.pc;
        lemma_depth_step(m.code, pc);
        assert(depth(m.code.take(pc + 1)) >= 0);
        match m.code[pc] {
            Token::BracketLeft => {
                if bit_at(m.cells, m.cursor) {
                    let s2 = m.stack.push(pc as usize);
                    assert forall|k: int| 0 <= k < s2.len() implies {
                        let j = #[trigger] s2[k] as int;
                        &&& j < pc + 1
                        &&& m.code[j] == Token::BracketLeft
                        &&& depth(m.code.take(j)) == k
                    } by {
                        if k < m.stack.len() {
                            assert(s2[k] == m.stack[k]);
                        }
                    }
                    assert forall|a: int, b: int| 0 <= a < b < s2.len() implies s2[a] < s2[b] by {
                        assert(s2[a] == m.stack[a]);
                        if b < m.stack.len() {
                            assert(s2[b] == m.stack[b]);
                        }
                    }
                } else {
                    lemma_skip_end_depth(m.code, pc + 1, 1);
                }
            },
            Token::BracketRight => {
                let n = m.stack.len();
                assert(n >= 1);
                let s2 = m.stack.drop_last();
                let j = m.stack[n - 1] as int;
                assert(depth(m.code.take(j)) == n - 1);
                assert forall|k: int| 0 <= k < s2.len() implies {
                    let i = #[trigger] s2[k] as int;
                    &&& i < j
                    &&& m.code[i] == Token::BracketLeft
                    &&& depth(m.code.take(i)) == k
                } by {
                    assert(s2[k] == m.stack[k]);
                    assert(m.stack[k] < m.stack[n - 1]);
                }
            },
            _ => {},
        }
    }
}

/// Running two flips in a row changes nothing but the position in the program.
pub proof fn lemma_flip_twice(m: Machine)
    requires
        machine_ok(m),
        m.pc + 1 < m.code.len(),
        m.code[m.pc] == Token::Flip,
        m.code[m.pc + 1] == Token::Flip,
    ensures
        next(next(m).0) == (Machine { pc: m.pc + 2, ..m }, Event::Continued),
{
    let i = m.cursor / 8;
    let k = m.cursor % 8;
    let c = m.cells[i];
    let mask = bit_mask(k);
    let kk = k as u8;
    assert(kk < 8);
    assert(mask == (1u8 << kk) as u8);
    assert(((c | ((1u8 << kk) as u8)) & !((1u8 << kk) as u8) == c) || (c & ((1u8 << kk) as u8) != 0)) by (bit_vector)
        requires
            kk < 8,
    ;
    assert(((c & !((1u8 << kk) as u8)) | ((1u8 << kk) as u8) == c) || (c & ((1u8 << kk) as u8) == 0)) by (bit_vector)
        requires
            kk < 8,
    ;
    assert(((c | ((1u8 << kk) as u8)) & ((1u8 << kk) as u8)) != 0) by (bit_vector)
        requires
            kk < 8,
    ;
    assert(((c & !((1u8 << kk) as u8)) & ((1u8 << kk) as u8)) == 0) by (bit_vector)
        requires
            kk < 8,
    ;
    let m1 = next(m).0;
    assert(m1.cells[i] == if c & mask != 0 { c & !mask } else { c | mask });
    assert(m1.cells.update(i, c) =~= m.cells);
}

/// A move right and then a move left bring the cursor back to the same bit and
/// change no bit: at most, a zero cell has been added at the right end.
pub proof fn lemma_right_then_left(m: Machine)
    requires
        machine_ok(m),
        m.pc + 1 < m.code.len(),
        m.code[m.pc] == Token::MoveRight,
        m.code[m.pc + 1] == Token::MoveLeft,
    ensures
        next(next(m).0).1 == Event::Continued,
        next(next(m).0).0 == (Machine { pc: m.pc + 2, cells: next(m).0.cells, ..m }),
        next(m).0.cells == m.cells || next(m).0.cells == m.cells.push(0u8),
{
}

/// A move left and then a move right come back to the same bit and change no bit:
/// at most, a zero cell has been added at the left end, which moves every bit
/// index up by eight.
pub proof fn lemma_left_then_right(m: Machine)
    requires
        machine_ok(m),
        m.pc + 1 < m.code.len(),
        m.code[m.pc] == Token::MoveLeft,
        m.code[m.pc + 1] == Token::MoveRight,
    ensures
        next(next(m).0).1 == Event::Continued,
        m.cursor != 0 ==> next(next(m).0).0 == (Machine { pc: m.pc + 2, ..m }),
        m.cursor == 0 ==> next(next(m).0).0 == (Machine {
            pc: m.pc + 2,
            cells: seq![0u8] + m.cells,
            cursor: 8,
            ..m
        }),
{
}

/// On a fresh tape the bit under the cursor is zero, so a loop at the start of a
/// program is passed over in one step and nothing else changes.
pub proof fn lemma_leading_loop_skipped(code: Seq<Token>)
    requires
        code.len() > 0,
        code[0] == Token::BracketLeft,
    ensures
        next(initial(code)) == (Machine { pc: skip_end(code, 1, 1), ..initial(code) }, Event::Continued),
{
    assert(0u8 & ((1u8 << 0u8) as u8) == 0) by (bit_vector);
}

/// Relies on VecDeque's IndexMut: writes one element in place.
#[verifier::external_body]
fn store(cells: &mut VecDeque<u8>, i: usize, v: u8)
    requires
        i < old(cells)@.len(),
    ensures
        final(cells)@ == old(cells)@.update(i as int, v),
{
    cells[i] = v;
}

/// Relies on VecDeque::as_slices: two slices that hold the contents, in order.
#[verifier::external_body]
fn slices(cells: &VecDeque<u8>) -> (r: (&[u8], &[u8]))
    ensures
        r.0@ + r.1@ == cells@,
{
    cells.as_slices()
}

proof fn lemma_split_cursor(cell: int, bit: int)
    requires
        0 <= cell,
        0 <= bit < 8,
    ensures
        (cell * 8 + bit) / 8 == cell,
        (cell * 8 + bit) % 8 == bit,
{
}

/// A program loaded into the machine, with its tape, loop stack and shift
/// registers.
pub struct Program {
    source: Vec<Token>,
    cells: VecDeque<u8>,
    stack: Vec<usize>,
    input: u8,
    read_bits: u8,
    write: u8,
    write_bits: u8,
    source_ptr: usize,
    cell: usize,
    bit: u8,
}

impl View for Program {
    type V = Machine;

    closed spec fn view(&self) -> Machine {
        Machine {
            code: self.source@,
            pc: self.source_ptr as int,
            cells: self.cells@,
            cursor: self.cell as int * 8 + self.bit as int,
            stack: self.stack@,
            in_byte: self.input,
            in_bits: self.read_bits as int,
            out_byte: self.write,
            out_bits: self.write_bits as int,
        }
    }
}

impl Program {
    spec fn cursor_ok(&self) -> bool {
        self.bit < 8 && self.cell < self.cells@.len()
    }

    /// The program can run: its invariant holds.
    pub closed spec fn wf(&self) -> bool {
        self.cursor_ok() && machine_ok(self@)
    }

    pub(crate) fn new(source: Vec<Token>) -> (p: Program)
        requires
            balanced(source@),
        ensures
            p.wf(),
            p@ == initial(source@),
    {
        let mut cells: VecDeque<u8> = VecDeque::new();
        cells.push_back(0u8);
        let p = Program {
            source,
            cells,
            stack: Vec::new(),
            input: 0,
            read_bits: 8,
            write: 0,
            write_bits: 0,
            source_ptr: 0,
            cell: 0,
            bit: 0,
        };
        proof {
            vstd::std_specs::vec::axiom_spec_len(&p.source);
            assert(p@.cells =~= seq![0u8]);
            assert(p@ == initial(source@));
            lemma_initial_ok(source@);
        }
        p
    }

    /// The tape, as the two halves of its ring buffer of cells.
    pub fn tape(&self) -> (r: (&[u8], &[u8]))
        ensures
            r.0@ + r.1@ == self@.cells,
    {
        slices(&self.cells)
    }

    /// Whether the program has run past its last command.
    pub fn is_halted(&self) -> (r: bool)
        ensures
            r == (self@.pc >= self@.code.len()),
    {
        self.source_ptr >= self.source.len()
    }

    fn get_cell(&self) -> (b: bool)
        requires
            self.cursor_ok(),
        ensures
            b == bit_at(self@.cells, self@.cursor),
    {
        proof {
            lemma_split_cursor(self.cell as int, self.bit as int);
        }
        self.cells[self.cell] & (1u8 << self.bit) != 0
    }

    fn set_cell(&mut self, v: bool)
        requires
            old(self).cursor_ok(),
        ensures
            final(self).cursor_ok(),
            final(self)@ == (Machine { cells: with_bit(old(self)@.cells, old(self)@.cursor, v), ..old(self)@ }),
    {
        proof {
            lemma_split_cursor(self.cell as int, self.bit as int);
        }
        let item: u8 = 1u8 << self.bit;
        let c = self.cells[self.cell];
        if v {
            store(&mut self.cells, self.cell, c | item);
        } else {
            store(&mut self.cells, self.cell, c & !item);
        }
    }

    fn flip_cell(&mut self)
        requires
            old(self).cursor_ok(),
        ensures
            final(self).cursor_ok(),
            final(self)@ == (Machine {
                cells: with_bit(old(self)@.cells, old(self)@.cursor, !bit_at(old(self)@.cells, old(self)@.cursor)),
                ..old(self)@
            }),
    {
        let v = !self.get_cell();
        self.set_cell(v);
    }

    fn move_left(&mut self)
        requires
            old(self).wf(),
            old(self)@.pc < old(self)@.code.len(),
        ensures
            final(self).cursor_ok(),
            final(self)@ == moved_left(old(self)@),
    {
        self.source_ptr = self.source_ptr + 1;
        if self.bit > 0 {
            self.bit = self.bit - 1;
        } else if self.cell > 0 {
            self.cell = self.cell - 1;
            self.bit = 7;
        } else {
            self.cells.push_front(0u8);
            self.bit = 7;
        }
    }

    fn move_right(&mut self)
        requires
            old(self).wf(),
            old(self)@.pc < old(self)@.code.len(),
        ensures
            final(self).cursor_ok(),
            final(self)@ == moved_right(old(self)@),
    {
        self.source_ptr = self.source_ptr + 1;
        let n = self.cells.len();
        if self.bit < 7 {
            self.bit = self.bit + 1;
            proof {
                lemma_split_cursor(self.cell as int, self.bit as int);
            }
        } else {
            self.bit = 0;
            self.cell = self.cell + 1;
            proof {
                lemma_split_cursor(self.cell as int, 0);
            }
            if self.cell == n {
                self.cells.push_back(0u8);
            }
        }
    }

    fn flip(&mut self)
        requires
            old(self).wf(),
            old(self)@.pc < old(self)@.code.len(),
        ensures
            final(self).cursor_ok(),
            final(self)@ == flipped(old(self)@),
    {
        self.source_ptr = self.source_ptr + 1;
        self.flip_cell();
    }

    fn bracket_left(&mut self)
        requires
            old(self).wf(),
            old(self)@.pc < old(self)@.code.len(),
        ensures
            final(self).cursor_ok(),
            final(self)@ == entered(old(self)@),
    {
        if self.get_cell() {
            self.stack.push(self.source_ptr);
            self.source_ptr = self.source_ptr + 1;
        } else {
            self.source_ptr = skip_to_matching(&self.source, self.source_ptr + 1);
        }
    }

    fn bracket_right(&mut self)
        requires
            old(self).wf(),
            old(self)@.pc < old(self)@.code.len(),
            old(self)@.code[old(self)@.pc] == Token::BracketRight,
        ensures
            final(self).cursor_ok(),
            final(self)@ == returned(old(self)@),
    {
        proof {
            lemma_depth_step(self@.code, self@.pc);
            assert(depth(self@.code.take(self@.pc + 1)) >= 0);
        }
        let j = self.stack.pop().unwrap();
        self.source_ptr = j;
    }

    fn read(&mut self)
        requires
            old(self).wf(),
            old(self)@.pc < old(self)@.code.len(),
            old(self)@.in_bits < 8,
        ensures
            final(self).cursor_ok(),
            final(self)@ == read_bit(old(self)@),
    {
        self.source_ptr = self.source_ptr + 1;
        let v = self.input & (1u8 << (7 - self.read_bits)) != 0;
        self.set_cell(v);
        self.read_bits = self.read_bits + 1;
    }

    fn write(&mut self) -> (e: Event)
        requires
            old(self).wf(),
            old(self)@.pc < old(self)@.code.len(),
        ensures
            final(self).cursor_ok(),
            (final(self)@, e) == written(old(self)@),
    {
        self.source_ptr = self.source_ptr + 1;
        if self.get_cell() {
            self.write = self.write | (1u8 << (7 - self.write_bits));
        }
        if self.write_bits == 7 {
            let b = self.write;
            self.write = 0;
            self.write_bits = 0;
            Event::Output(b)
        } else {
            self.write_bits = self.write_bits + 1;
            Event::Continued
        }
    }

    /// Runs one command, or reports what the machine waits for.
    pub fn step(&mut self) -> (e: Event)
        requires
            old(self).wf(),
        ensures
            final(self).wf(),
            (final(self)@, e) == next(old(self)@),
    {
        proof {
            lemma_next_keeps_ok(self@);
        }
        if self.source_ptr >= self.source.len() {
            if self.write_bits > 0 {
                let b = self.write;
                self.write = 0;
                self.write_bits = 0;
                return Event::Output(b);
            }
            return Event::Halted;
        }
        match self.source[self.source_ptr] {
            Token::MoveLeft => {
                self.move_left();
                Event::Continued
            },
            Token::MoveRight => {
                self.move_right();
                Event::Continued
            },
            Token::BracketLeft => {
                self.bracket_left();
                Event::Continued
            },
            Token::BracketRight => {
                self.bracket_right();
                Event::Continued
            },
            Token::Read => {
                if self.read_bits >= 8 {
                    Event::NeedsInput
                } else {
                    self.read();
                    Event::Continued
                }
            },
            Token::Write => self.write(),
            Token::Flip => {
                self.flip();
                Event::Continued
            },
        }
    }

    /// Runs the program on `input` for at most `max_steps` steps (see
    /// `run_steps`) and returns the bytes it wrote, the last one partial if the
    /// program ended with fewer than eight bits written since the last full byte.
    pub fn run_on(&mut self, input: &Vec<u8>, max_steps: usize) -> (out: Vec<u8>)
        requires
            old(self).wf(),
        ensures
            final(self).wf(),
            final(self)@ == run_steps(old(self)@, input@, max_steps as nat).0,
            out@ == run_steps(old(self)@, input@, max_steps as nat).1,
    {
        let ghost m0 = self@;
        let mut out: Vec<u8> = Vec::new();
        let mut fuel: usize = max_steps;
        let mut used: usize = 0;
        proof {
            assert(input@.skip(0) =~= input@);
            assert(out@ + run_steps(m0, input@, max_steps as nat).1 =~= run_steps(m0, input@, max_steps as nat).1);
        }
        while fuel > 0
            invariant
                self.wf(),
                m0 == old(self)@,
                used <= input@.len(),
                ({
                    let whole = run_steps(m0, input@, max_steps as nat);
                    let rest = run_steps(self@, input@.skip(used as int), fuel as nat);
                    &&& whole.0 == rest.0
                    &&& whole.1 == out@ + rest.1
                }),
            decreases fuel,
        {
            let ghost before = self@;
            let ghost left = input@.skip(used as int);
            let e = self.step();
            match e {
                Event::Halted => {
                    assert(run_steps(before, left, fuel as nat) == (before, Seq::<u8>::empty(), left));
                    assert(out@ + Seq::<u8>::empty() =~= out@);
                    return out;
                },
                Event::NeedsInput => {
                    if used >= input.len() {
                        assert(left.len() == 0);
                        assert(run_steps(before, left, fuel as nat) == (before, Seq::<u8>::empty(), left));
                        assert(out@ + Seq::<u8>::empty() =~= out@);
                        return out;
                    }
                    self.feed(input[used]);
                    proof {
                        assert(left.drop_first() =~= input@.skip(used + 1));
                    }
                    used = used + 1;
                },
                Event::Output(b) => {
                    proof {
                        let r = run_steps(self@, left, (fuel - 1) as nat);
                        assert(out@ + (seq![b] + r.1) =~= out@.push(b) + r.1);
                    }
                    out.push(b);
                },
                Event::Continued => {},
            }
            fuel = fuel - 1;
        }
        assert(out@ + Seq::<u8>::empty() =~= out@);
        out
    }

    /// Hands the machine the next input byte, to be read most significant bit
    /// first by the next eight reads.
    pub fn feed(&mut self, byte: u8)
        requires
            old(self).wf(),
        ensures
            final(self).wf(),
            final(self)@ == fed(old(self)@, byte),
    {
        self.input = byte;
        self.read_bits = 0;
    }
}

} // verus!
