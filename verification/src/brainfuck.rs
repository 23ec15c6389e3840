//! A Brainfuck machine: the table that pairs each bracket with its partner,
//! and one instruction step at a time.

use vstd::prelude::*;
use vstd::string::*;

verus! {

/// How deep inside brackets the program is after its first `k` bytes: the
/// number of `[` among them less the number of `]`.
pub open spec fn depth(b: Seq<u8>, k: int) -> int
    decreases k,
{
    if k <= 0 || k > b.len() {
        0
    } else {
        depth(b, k - 1) + (if b[k - 1] == 91u8 {
            1int
        } else if b[k - 1] == 93u8 {
            -1int
        } else {
            0int
        })
    }
}

/// No prefix closes more brackets than it opens, and the whole opens as many
/// as it closes.
pub open spec fn balanced(b: Seq<u8>) -> bool {
    &&& forall|k: int| 0 <= k <= b.len() ==> #[trigger] depth(b, k) >= 0
    &&& depth(b, b.len() as int) == 0
}

/// The `[` at `i` and the `]` at `j` are partners: `j` is the first place
/// after `i` where the depth falls back to what it was before `i`.
pub open spec fn matching(b: Seq<u8>, i: int, j: int) -> bool {
    &&& 0 <= i < j < b.len()
    &&& b[i] == 91u8
    &&& b[j] == 93u8
    &&& depth(b, j + 1) == depth(b, i)
    &&& forall|k: int| i < k <= j ==> #[trigger] depth(b, k) > depth(b, i)
}

/// Why a program's brackets do not pair up.
#[derive(Debug, PartialEq, Eq, Structural)]
pub enum BracketError {
    /// A `]` comes with no `[` open before it.
    UnmatchedClose,
    /// A `[` is never closed.
    UnmatchedOpen,
}

/// `e` is what is wrong with the brackets of `b`: `UnmatchedClose` where
/// some prefix closes more than it opens, else `UnmatchedOpen` where some `[`
/// is never closed.
pub open spec fn bracket_error(b: Seq<u8>, e: BracketError) -> bool {
    match e {
        BracketError::UnmatchedClose => exists|k: int| 0 <= k <= b.len() && #[trigger] depth(b, k) < 0,
        BracketError::UnmatchedOpen => {
            &&& forall|k: int| 0 <= k <= b.len() ==> #[trigger] depth(b, k) >= 0
            &&& depth(b, b.len() as int) > 0
        },
    }
}

proof fn lemma_depth_step(b: Seq<u8>, k: int)
    requires
        0 <= k < b.len(),
    ensures
        depth(b, k + 1) == depth(b, k) + (if b[k] == 91u8 {
            1int
        } else if b[k] == 93u8 {
            -1int
        } else {
            0int
        }),
{
}

/// For each byte of the program, the position of its partner bracket; 0 for
/// bytes that are not brackets. An error where the brackets do not pair up:
/// `UnmatchedClose` where some prefix closes more than it opens, else
/// `UnmatchedOpen` where some `[` is left open.
pub fn build_bucket_map(program: &str) -> (r: Result<Vec<usize>, BracketError>)
    ensures
        ({
            let b = program.spec_bytes();
            match r {
                Ok(map) => {
                    &&& balanced(b)
                    &&& map@.len() == b.len()
                    &&& forall|i: int|
                        0 <= i < b.len() && b[i] == 91u8 ==> matching(b, i, #[trigger] map@[i] as int)
                    &&& forall|j: int|
                        0 <= j < b.len() && b[j] == 93u8 ==> matching(b, #[trigger] map@[j] as int, j)
                    &&& forall|k: int|
                        0 <= k < b.len() && b[k] != 91u8 && b[k] != 93u8 ==> #[trigger] map@[k] == 0
                },
                Err(e) => bracket_error(b, e),
            }
        }),
{
    let bytes = program.as_bytes();
    let length = bytes.len();
    let ghost b = bytes@;
    let mut stack: Vec<usize> = Vec::new();
    let mut map: Vec<usize> = Vec::new();
    while map.len() < length
        invariant
            map@.len() <= length,
            forall|k: int| 0 <= k < map@.len() ==> map@[k] == 0,
        decreases length - map@.len(),
    {
        map.push(0);
    }
    let mut i: usize = 0;
    while i < length
        invariant
            b == bytes@,
            b == program.spec_bytes(),
            length == b.len(),
            i <= length,
            map@.len() == length,
            stack@.len() == depth(b, i as int),
            forall|k: int| 0 <= k <= i ==> #[trigger] depth(b, k) >= 0,
            forall|d: int, e: int| 0 <= d < e < stack@.len() ==> stack@[d] < stack@[e],
            forall|d: int|
                0 <= d < stack@.len() ==> {
                    &&& #[trigger] stack@[d] < i
                    &&& b[stack@[d] as int] == 91u8
                    &&& depth(b, stack@[d] as int) == d
                    &&& map@[stack@[d] as int] == 0
                },
            forall|d: int, k: int|
                0 <= d < stack@.len() && stack@[d] < k <= i ==> #[trigger] depth(b, k) > d
                    && #[trigger] stack@[d] == stack@[d],
            forall|k: int|
                0 <= k < i && b[k] == 91u8 && !stack@.contains(k as usize) ==> matching(
                    b,
                    k,
                    #[trigger] map@[k] as int,
                ),
            forall|j: int| 0 <= j < i && b[j] == 93u8 ==> matching(b, #[trigger] map@[j] as int, j),
            forall|k: int| i <= k < length ==> #[trigger] map@[k] == 0,
            forall|k: int| 0 <= k < length && b[k] != 91u8 && b[k] != 93u8 ==> #[trigger] map@[k] == 0,
        decreases length - i,
    {
        proof {
            lemma_depth_step(b, i as int);
        }
        let ghost old_stack = stack@;
        let ghost old_map = map@;
        if bytes[i] == 91u8 {
            stack.push(i);
            proof {
                assert forall|k: int|
                    0 <= k < i + 1 && b[k] == 91u8 && !stack@.contains(
                        k as usize,
                    ) implies matching(b, k, #[trigger] map@[k] as int) by {
                    if old_stack.contains(k as usize) {
                        let e = choose|e: int| 0 <= e < old_stack.len() && old_stack[e] == k as usize;
                        assert(stack@[e] == k as usize);
                    }
                    if k == i {
                        assert(stack@[old_stack.len() as int] == i);
                    }
                }
            }
        } else if bytes[i] == 93u8 {
            match stack.pop() {
                Some(open) => {
                    let ghost d = stack@.len() as int;
                    proof {
                        assert(old_stack[d] == open);
                        assert forall|k: int| open < k <= i implies #[trigger] depth(b, k) > d by {
                            assert(old_stack[d] == old_stack[d]);
                        }
                        assert(matching(b, open as int, i as int));
                    }
                    map.set(open, i);
                    map.set(i, open);
                    proof {
                        assert forall|k: int|
                            0 <= k < i + 1 && b[k] == 91u8 && !stack@.contains(
                                k as usize,
                            ) implies matching(b, k, #[trigger] map@[k] as int) by {
                            if k != open {
                                if old_stack.contains(k as usize) {
                                    let e = choose|e: int|
                                        0 <= e < old_stack.len() && old_stack[e] == k as usize;
                                    assert(e != d);
                                    assert(stack@[e] == k as usize);
                                }
                                assert(map@[k] == old_map[k]);
                            }
                        }
                    }
                },
                None => {
                    assert(depth(b, i + 1) < 0);
                    return Err(BracketError::UnmatchedClose);
                },
            }
        }
        i = i + 1;
    }
    if stack.len() > 0 {
        return Err(BracketError::UnmatchedOpen);
    }
    Ok(map)
}

proof fn lemma_matching_unique_open(b: Seq<u8>, i1: int, i2: int, j: int)
    requires
        matching(b, i1, j),
        matching(b, i2, j),
    ensures
        i1 == i2,
{
    if i1 < i2 {
        assert(depth(b, i2) > depth(b, i1));
    } else if i2 < i1 {
        assert(depth(b, i1) > depth(b, i2));
    }
}

proof fn lemma_matching_unique_close(b: Seq<u8>, i: int, j1: int, j2: int)
    requires
        matching(b, i, j1),
        matching(b, i, j2),
    ensures
        j1 == j2,
{
    if j1 < j2 {
        assert(depth(b, j1 + 1) > depth(b, i));
    } else if j2 < j1 {
        assert(depth(b, j2 + 1) > depth(b, i));
    }
}

/// In a bracket table of the kind `build_bucket_map` returns, following the
/// table twice from a bracket comes back to it: the partner of a bracket's
/// partner is the bracket itself, and partners are brackets of the other
/// kind.
pub proof fn lemma_partner_of_partner(b: Seq<u8>, map: Seq<usize>, k: int)
    requires
        map.len() == b.len(),
        forall|i: int| 0 <= i < b.len() && b[i] == 91u8 ==> matching(b, i, #[trigger] map[i] as int),
        forall|j: int| 0 <= j < b.len() && b[j] == 93u8 ==> matching(b, #[trigger] map[j] as int, j),
        0 <= k < b.len(),
        b[k] == 91u8 || b[k] == 93u8,
    ensures
        0 <= map[k] < b.len(),
        b[k] == 91u8 ==> b[map[k] as int] == 93u8,
        b[k] == 93u8 ==> b[map[k] as int] == 91u8,
        map[map[k] as int] == k,
{
    let p = map[k] as int;
    if b[k] == 91u8 {
        assert(matching(b, k, p));
        assert(matching(b, map[p] as int, p));
        lemma_matching_unique_open(b, k, map[p] as int, p);
    } else {
        assert(matching(b, p, k));
        assert(matching(b, p, map[p] as int));
        lemma_matching_unique_close(b, p, k, map[p] as int);
    }
}

/// The number of memory cells.
pub const MEMORY_SIZE: usize = 30000;

/// Why an instruction cannot run.
#[derive(Debug, PartialEq, Eq, Structural)]
pub enum Fault {
    /// `>` with the data pointer at the largest `usize`.
    PointerOverflow,
    /// `<` with the data pointer at 0.
    PointerUnderflow,
    /// A cell is read or written with the data pointer past the last cell.
    PointerOutOfRange,
    /// `+` on a cell that holds 255.
    CellOverflow,
    /// `-` on a cell that holds 0.
    CellUnderflow,
}

/// What one instruction does: from memory `mem`, data pointer `dp` and
/// program counter `pc`, the next memory, data pointer, program counter and
/// the byte printed, if any.
pub open spec fn next_state(prog: Seq<u8>, map: Seq<usize>, mem: Seq<u8>, dp: int, pc: int) -> Result<
    (Seq<u8>, int, int, Option<u8>),
    Fault,
> {
    let op = prog[pc];
    if op == 62u8 {
        if dp >= usize::MAX {
            Err(Fault::PointerOverflow)
        } else {
            Ok((mem, dp + 1, pc + 1, None))
        }
    } else if op == 60u8 {
        if dp == 0 {
            Err(Fault::PointerUnderflow)
        } else {
            Ok((mem, dp - 1, pc + 1, None))
        }
    } else if op == 43u8 || op == 45u8 || op == 46u8 || op == 44u8 || op == 91u8 || op == 93u8 {
        if dp >= mem.len() {
            Err(Fault::PointerOutOfRange)
        } else if op == 43u8 {
            if mem[dp] == 255 {
                Err(Fault::CellOverflow)
            } else {
                Ok((mem.update(dp, (mem[dp] + 1) as u8), dp, pc + 1, None))
            }
        } else if op == 45u8 {
            if mem[dp] == 0 {
                Err(Fault::CellUnderflow)
            } else {
                Ok((mem.update(dp, (mem[dp] - 1) as u8), dp, pc + 1, None))
            }
        } else if op == 46u8 {
            Ok((mem, dp, pc + 1, Some(mem[dp])))
        } else if op == 44u8 {
            Ok((mem.update(dp, op), dp, pc + 1, None))
        } else if op == 91u8 {
            Ok((mem, dp, if mem[dp] == 0 { map[pc] + 1 } else { pc + 1 }, None))
        } else {
            Ok((mem, dp, if mem[dp] != 0 { map[pc] + 1 } else { pc + 1 }, None))
        }
    } else {
        Ok((mem, dp, pc + 1, None))
    }
}

/// A byte that is not one of the eight commands `> < + - . , [ ]` (a space,
/// a line end, a comment letter) is skipped: one step on it leaves memory
/// and the data pointer as they are, prints nothing and moves the program
/// counter to the next byte.
pub proof fn lemma_non_command_skipped(prog: Seq<u8>, map: Seq<usize>, mem: Seq<u8>, dp: int, pc: int)
    requires
        0 <= pc < prog.len(),
        prog[pc] != 62u8 && prog[pc] != 60u8 && prog[pc] != 43u8 && prog[pc] != 45u8 && prog[pc]
            != 46u8 && prog[pc] != 44u8 && prog[pc] != 91u8 && prog[pc] != 93u8,
    ensures
        next_state(prog, map, mem, dp, pc) == Ok::<(Seq<u8>, int, int, Option<u8>), Fault>(
            (mem, dp, pc + 1, None),
        ),
{
}

/// One step changes at most the cell under the data pointer, keeps the
/// number of cells, moves the data pointer by at most one, and prints only
/// on `.`, and then the cell under the data pointer.
pub proof fn lemma_step_frame(prog: Seq<u8>, map: Seq<usize>, mem: Seq<u8>, dp: int, pc: int)
    requires
        0 <= pc < prog.len(),
        0 <= dp,
    ensures
        next_state(prog, map, mem, dp, pc) matches Ok((mem2, dp2, pc2, out)) ==> {
            &&& mem2.len() == mem.len()
            &&& forall|k: int| 0 <= k < mem.len() && k != dp ==> mem2[k] == mem[k]
            &&& dp - 1 <= dp2 <= dp + 1
            &&& (out is Some <==> prog[pc] == 46u8)
            &&& (out matches Some(b) ==> 0 <= dp < mem.len() && b == mem[dp])
        },
{
    let op = prog[pc];
    let r = next_state(prog, map, mem, dp, pc);
    if let Ok((mem2, dp2, pc2, out)) = r {
        if op == 62u8 || op == 60u8 {
            assert(mem2 == mem && out is None);
        } else if op == 43u8 || op == 45u8 || op == 46u8 || op == 44u8 || op == 91u8 || op == 93u8 {
            assert(0 <= dp < mem.len());
            assert(dp2 == dp);
            if op == 43u8 || op == 45u8 || op == 44u8 {
                let x: u8 = if op == 43u8 {
                    (mem[dp] + 1) as u8
                } else if op == 45u8 {
                    (mem[dp] - 1) as u8
                } else {
                    op
                };
                assert(mem2 == mem.update(dp, x));
                assert(mem2.len() == mem.len());
                assert(out is None);
            } else if op == 46u8 {
                assert(mem2 == mem && out == Some(mem[dp]));
            } else {
                assert(mem2 == mem && out is None);
            }
        } else {
            assert(mem2 == mem && dp2 == dp && out is None);
        }
    }
}

/// A program loaded with its bracket table, its memory and its two
/// pointers.
pub struct Machine {
    program: Vec<u8>,
    map: Vec<usize>,
    memory: Vec<u8>,
    dp: usize,
    pc: usize,
}

impl Machine {
    /// The program's bytes.
    pub closed spec fn program(&self) -> Seq<u8> {
        self.program@
    }

    /// The bracket table.
    pub closed spec fn table(&self) -> Seq<usize> {
        self.map@
    }

    /// The memory cells.
    pub closed spec fn memory(&self) -> Seq<u8> {
        self.memory@
    }

    /// The data pointer.
    pub closed spec fn dp_spec(&self) -> int {
        self.dp as int
    }

    /// The program counter.
    pub closed spec fn pc_spec(&self) -> int {
        self.pc as int
    }

    /// The table has an entry for each byte and each entry is a position in
    /// the program; the counter never passes the program's end.
    pub closed spec fn wf(&self) -> bool {
        &&& self.map@.len() == self.program@.len()
        &&& forall|k: int| 0 <= k < self.map@.len() ==> #[trigger] self.map@[k] < self.program@.len()
        &&& self.pc <= self.program@.len()
    }

    /// Loads `program` with all `MEMORY_SIZE` cells at 0 and both pointers
    /// at 0, or reports why its brackets do not pair up.
    pub fn new(program: &str) -> (r: Result<Machine, BracketError>)
        ensures
            match r {
                Ok(m) => {
                    &&& m.wf()
                    &&& m.program() == program.spec_bytes()
                    &&& balanced(m.program())
                    &&& forall|i: int|
                        0 <= i < m.program().len() && m.program()[i] == 91u8 ==> matching(
                            m.program(),
                            i,
                            #[trigger] m.table()[i] as int,
                        )
                    &&& forall|j: int|
                        0 <= j < m.program().len() && m.program()[j] == 93u8 ==> matching(
                            m.program(),
                            #[trigger] m.table()[j] as int,
                            j,
                        )
                    &&& m.memory() == Seq::new(MEMORY_SIZE as nat, |k: int| 0u8)
                    &&& m.dp_spec() == 0
                    &&& m.pc_spec() == 0
                },
                Err(e) => bracket_error(program.spec_bytes(), e),
            },
    {
        let map = match build_bucket_map(program) {
            Ok(map) => map,
            Err(e) => {
                return Err(e);
            },
        };
        let bytes = program.as_bytes();
        let mut prog: Vec<u8> = Vec::new();
        let mut i: usize = 0;
        while i < bytes.len()
            invariant
                i <= bytes@.len(),
                prog@ == bytes@.subrange(0, i as int),
            decreases bytes@.len() - i,
        {
            prog.push(bytes[i]);
            i = i + 1;
            assert(prog@ =~= bytes@.subrange(0, i as int));
        }
        assert(prog@ =~= bytes@);
        let mut memory: Vec<u8> = Vec::new();
        while memory.len() < MEMORY_SIZE
            invariant
                memory@.len() <= MEMORY_SIZE,
                forall|k: int| 0 <= k < memory@.len() ==> memory@[k] == 0,
            decreases MEMORY_SIZE - memory@.len(),
        {
            memory.push(0);
        }
        let m = Machine { program: prog, map, memory, dp: 0, pc: 0 };
        proof {
            assert(m.memory@ =~= Seq::new(MEMORY_SIZE as nat, |k: int| 0u8));
            let b = m.program@;
            assert forall|k: int| 0 <= k < m.map@.len() implies #[trigger] m.map@[k] < b.len() by {
                if b[k] == 91u8 {
                    assert(matching(b, k, m.map@[k] as int));
                } else if b[k] == 93u8 {
                    assert(matching(b, m.map@[k] as int, k));
                }
            }
        }
        Ok(m)
    }

    /// Whether the program counter is still inside the program.
    pub fn is_running(&self) -> (r: bool)
        ensures
            r == (self.pc_spec() < self.program().len()),
    {
        self.pc < self.program.len()
    }

    /// The data pointer.
    pub fn data_pointer(&self) -> (r: usize)
        ensures
            r == self.dp_spec(),
    {
        self.dp
    }

    /// The program counter.
    pub fn counter(&self) -> (r: usize)
        ensures
            r == self.pc_spec(),
    {
        self.pc
    }

    /// The value of cell `k`.
    pub fn cell(&self, k: usize) -> (r: u8)
        requires
            k < self.memory().len(),
        ensures
            r == self.memory()[k as int],
    {
        self.memory[k]
    }

    /// Runs the instruction under the program counter: moves or changes the
    /// current cell, prints it (`.` returns it), stores the instruction's own
    /// byte in it (`,`), or jumps to the partner bracket. On a fault nothing
    /// changes.
    pub fn step(&mut self) -> (r: Result<Option<u8>, Fault>)
        requires
            old(self).wf(),
            old(self).pc_spec() < old(self).program().len(),
        ensures
            final(self).wf(),
            final(self).program() == old(self).program(),
            final(self).table() == old(self).table(),
            match next_state(
                old(self).program(),
                old(self).table(),
                old(self).memory(),
                old(self).dp_spec(),
                old(self).pc_spec(),
            ) {
                Ok((mem, dp, pc, out)) => {
                    &&& r == Ok::<Option<u8>, Fault>(out)
                    &&& final(self).memory() == mem
                    &&& final(self).dp_spec() == dp
                    &&& final(self).pc_spec() == pc
                },
                Err(f) => {
                    &&& r == Err::<Option<u8>, Fault>(f)
                    &&& final(self).memory() == old(self).memory()
                    &&& final(self).dp_spec() == old(self).dp_spec()
                    &&& final(self).pc_spec() == old(self).pc_spec()
                },
            },
    {
        let n = self.program.len();
        let op = self.program[self.pc];
        assert(self.map@[self.pc as int] < self.program@.len());
        let mut out: Option<u8> = None;
        if op == 62u8 {
            if self.dp == usize::MAX {
                return Err(Fault::PointerOverflow);
            }
            self.dp = self.dp + 1;
        } else if op == 60u8 {
            if self.dp == 0 {
                return Err(Fault::PointerUnderflow);
            }
            self.dp = self.dp - 1;
        } else if op == 43u8 || op == 45u8 || op == 46u8 || op == 44u8 || op == 91u8 || op == 93u8 {
            if self.dp >= self.memory.len() {
                return Err(Fault::PointerOutOfRange);
            }
            let cell = self.memory[self.dp];
            if op == 43u8 {
                if cell == 255 {
                    return Err(Fault::CellOverflow);
                }
                self.memory.set(self.dp, cell + 1);
            } else if op == 45u8 {
                if cell == 0 {
                    return Err(Fault::CellUnderflow);
                }
                self.memory.set(self.dp, cell - 1);
            } else if op == 46u8 {
                out = Some(cell);
            } else if op == 44u8 {
                self.memory.set(self.dp, op);
            } else if op == 91u8 {
                if cell == 0 {
                    self.pc = self.map[self.pc];
                }
            } else {
                if cell != 0 {
                    self.pc = self.map[self.pc];
                }
            }
        }
        self.pc = self.pc + 1;
        Ok(out)
    }
}

} // verus!
