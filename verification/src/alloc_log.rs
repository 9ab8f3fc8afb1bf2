//! Size-filtered logging of allocations: which of them are worth a line, and what
//! the line holds.
//!
//! Nothing here allocates, so that a global allocator can call it.

use vstd::prelude::*;

verus! {

/// Only log allocations/frees this size or larger.
pub const THRESHOLD: usize = 1024;

/// How many frames of the call stack to print.
pub const BT_DEPTH: i32 = 12;

/// What was done with the memory.
#[derive(Clone, Copy, Debug, PartialEq, Eq, Structural)]
pub enum Operation {
    Alloc,
    AllocZeroed,
    Realloc,
    Free,
}

/// A line of the log: pointer and size as the console's 32-bit numbers.
#[derive(Clone, Copy, Debug, PartialEq, Eq, Structural)]
pub struct LogLine {
    pub operation: Operation,
    pub pointer: u32,
    pub size: u32,
}

/// What to do with a line.
#[derive(Clone, Copy, Debug, PartialEq, Eq, Structural)]
pub enum Output {
    /// Leave it out: another line is being written.
    Skip,
    /// Print it.
    Print,
    /// Print it, and behind it so many frames of the call stack.
    PrintWithStack { depth: i32 },
}

/// The low 32 bits of an address or a size.
pub open spec fn low_word(n: usize) -> u32 {
    (n as nat % 0x1_0000_0000) as u32
}

/// The line for a chunk of memory, where it is large enough.
pub open spec fn line_for(operation: Operation, pointer: usize, size: usize) -> Option<LogLine> {
    if size >= THRESHOLD {
        Some(LogLine { operation, pointer: low_word(pointer), size: low_word(size) })
    } else {
        None
    }
}

/// The line for new memory. A null pointer is no memory.
pub open spec fn gained(operation: Operation, pointer: usize, size: usize) -> Option<LogLine> {
    if pointer == 0 {
        None
    } else {
        line_for(operation, pointer, size)
    }
}

fn low(n: usize) -> (word: u32)
    ensures
        word == low_word(n),
{
    let wide: u64 = n as u64;
    (wide % 0x1_0000_0000) as u32
}

fn line(operation: Operation, pointer: usize, size: usize) -> (line: Option<LogLine>)
    ensures
        line == line_for(operation, pointer, size),
{
    if size >= THRESHOLD {
        Some(LogLine { operation, pointer: low(pointer), size: low(size) })
    } else {
        None
    }
}

/// The rules of the logging allocator. Each method says what to log once the
/// platform's allocator has done its part.
#[derive(Clone, Copy, Debug)]
pub struct LoggingAlloc;

impl LoggingAlloc {
    /// After an allocation of `size` bytes gave `pointer`.
    pub fn allocated(&self, pointer: usize, size: usize) -> (log: Option<LogLine>)
        ensures
            log == gained(Operation::Alloc, pointer, size),
    {
        if pointer == 0 {
            None
        } else {
            line(Operation::Alloc, pointer, size)
        }
    }

    /// After an allocation of `size` zeroed bytes gave `pointer`.
    pub fn alloc_zeroed(&self, pointer: usize, size: usize) -> (log: Option<LogLine>)
        ensures
            log == gained(Operation::AllocZeroed, pointer, size),
    {
        if pointer == 0 {
            None
        } else {
            line(Operation::AllocZeroed, pointer, size)
        }
    }

    /// Before the `size` bytes at `pointer` are freed.
    pub fn dealloc(&self, pointer: usize, size: usize) -> (log: Option<LogLine>)
        ensures
            log == line_for(Operation::Free, pointer, size),
    {
        line(Operation::Free, pointer, size)
    }

    /// After a chunk was resized to `new_size` bytes, now at `pointer`.
    pub fn realloc(&self, pointer: usize, new_size: usize) -> (log: Option<LogLine>)
        ensures
            log == gained(Operation::Realloc, pointer, new_size),
    {
        if pointer == 0 {
            None
        } else {
            line(Operation::Realloc, pointer, new_size)
        }
    }
}

impl LogLine {
    /// The format of the line for the console's `printf`, with the pointer and
    /// the size to fill in.
    pub open spec fn format_text(self) -> Seq<char> {
        match self.operation {
            Operation::Alloc => "[alloc] p=%x s=%u\n"@,
            Operation::AllocZeroed => "[alloc0] p=%x s=%u\n"@,
            Operation::Realloc => "[realloc] p=%x s=%u\n"@,
            Operation::Free => "[free] p=%x s=%u\n"@,
        }
    }

    /// The format of the line.
    pub fn format(&self) -> (format: &'static str)
        ensures
            format@ == self.format_text(),
    {
        match self.operation {
            Operation::Alloc => "[alloc] p=%x s=%u\n",
            Operation::AllocZeroed => "[alloc0] p=%x s=%u\n",
            Operation::Realloc => "[realloc] p=%x s=%u\n",
            Operation::Free => "[free] p=%x s=%u\n",
        }
    }

    /// What to do with the line. Every free is kept, to be paired with its
    /// allocation; an allocation is left out while another one is being logged.
    pub fn output(&self, logging_already: bool) -> (output: Output)
        ensures
            output == match self.operation {
                Operation::Free => Output::Print,
                _ => if logging_already {
                    Output::Skip
                } else {
                    Output::PrintWithStack { depth: BT_DEPTH }
                },
            },
    {
        match self.operation {
            Operation::Free => Output::Print,
            _ => {
                if logging_already {
                    Output::Skip
                } else {
                    Output::PrintWithStack { depth: BT_DEPTH }
                }
            },
        }
    }
}

// ---------------------------------------------------------------------------
// Laws
// ---------------------------------------------------------------------------

/// An allocation that got a line gets one for its free, with the same pointer and
/// size: what is held can be told from what was given back.
pub proof fn law_frees_pair_with_allocations(operation: Operation, pointer: usize, size: usize)
    requires
        gained(operation, pointer, size) is Some,
    ensures
        ({
            let gain = gained(operation, pointer, size)->0;
            let free = line_for(Operation::Free, pointer, size);
            &&& free is Some
            &&& free->0.pointer == gain.pointer
            &&& free->0.size == gain.size
        }),
{
}

/// Memory gets a line just when it is at least 1024 bytes, and new memory only where there
/// is any. The line says what was done, and pointer and size as far as 32 bits go.
pub proof fn law_lines_say_what_was_done(operation: Operation, pointer: usize, size: usize)
    ensures
        line_for(operation, pointer, size) is Some <==> size >= 1024,
        gained(operation, pointer, size) is Some <==> size >= 1024 && pointer != 0,
        gained(operation, pointer, size) is Some ==> gained(operation, pointer, size) == line_for(
            operation,
            pointer,
            size,
        ),
        line_for(operation, pointer, size) matches Some(line) ==> {
            &&& line.operation == operation
            &&& line.pointer == pointer as int % 0x1_0000_0000
            &&& line.size == size as int % 0x1_0000_0000
        },
{
}

/// Lines of different operations look different, and each has a place for the pointer and
/// one for the size.
pub proof fn law_formats_differ(a: LogLine, b: LogLine)
    ensures
        a.format_text() == b.format_text() <==> a.operation == b.operation,
{
    reveal_strlit("[alloc] p=%x s=%u\n");
    reveal_strlit("[alloc0] p=%x s=%u\n");
    reveal_strlit("[realloc] p=%x s=%u\n");
    reveal_strlit("[free] p=%x s=%u\n");
    if a.operation != b.operation {
        let x = a.format_text();
        let y = b.format_text();
        assert(x.len() != y.len() || x[1] != y[1]);
    }
}

} // verus!
