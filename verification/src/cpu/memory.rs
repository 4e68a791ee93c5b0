//! The memory of the machine: 162 nine-trit cells.
//!
//! The machine addresses cells with signed balanced-ternary values in
//! [-81, +80]; adding 81 maps them onto array indices 0..161.  Any
//! address outside that range is an error.

use vstd::prelude::*;

use crate::ternary::word::{all_zero, lemma_tryte9_width, Tryte9};

verus! {

broadcast use lemma_tryte9_width;

/// The number of memory cells.
pub const MEMORY_SIZE: usize = 162;

/// The array index a signed cell address maps to.
pub open spec fn mem_index(addr_val: int) -> int {
    addr_val + 81
}

/// True when a signed cell address names one of the 162 cells.
pub open spec fn addr_in_range(addr_val: int) -> bool {
    -81 <= addr_val <= 80
}

/// The memory: 162 nine-trit cells.
#[derive(Clone, Copy, Debug)]
pub struct Memory {
    cells: [Tryte9; 162],
}

impl View for Memory {
    type V = Seq<Tryte9>;

    closed spec fn view(&self) -> Seq<Tryte9> {
        self.cells@
    }
}

/// Every memory holds exactly 162 cells.
pub broadcast proof fn lemma_memory_len(m: Memory)
    ensures
        (#[trigger] m@).len() == 162,
{
}

/// Errors of the memory subsystem.
#[derive(Clone, Debug, PartialEq, Eq, Structural)]
pub enum MemoryError {
    /// The signed cell address lies outside [-81, +80].
    AddressOutOfRange(i32),
    /// A program image does not fit between its start index and the
    /// end of memory.
    ProgramTooLarge { size: usize, available: usize },
}

impl Memory {
    /// A memory with every cell zeroed.
    pub fn new() -> (r: Self)
        ensures
            forall|i: int| 0 <= i < 162 ==> all_zero((#[trigger] r@[i])@),
            forall|i: int| 0 <= i < 162 ==> (#[trigger] r@[i]).val() == 0,
    {
        let zero = Tryte9::zero();
        proof {
            crate::ternary::word::lemma_all_zero_iff(zero@);
        }
        Memory { cells: vstd::array::array_fill_for_copy_types::<Tryte9, 162>(zero) }
    }

    /// Read a cell by array index.
    pub fn read(&self, addr: usize) -> (r: Tryte9)
        requires
            addr < 162,
        ensures
            r == self@[addr as int],
    {
        self.cells[addr]
    }

    /// Write a cell by array index.
    pub fn write(&mut self, addr: usize, value: Tryte9)
        requires
            addr < 162,
        ensures
            final(self)@ == old(self)@.update(addr as int, value),
    {
        self.cells[addr] = value;
    }

    /// Map a ternary cell address onto an array index; an address
    /// outside [-81, +80] is an error.
    fn addr_to_index(&self, addr: Tryte9) -> (r: Result<usize, MemoryError>)
        ensures
            addr_in_range(addr.val()) ==> r == Ok::<usize, MemoryError>(
                mem_index(addr.val()) as usize,
            ),
            !addr_in_range(addr.val()) ==> (r matches Err(MemoryError::AddressOutOfRange(v))
                && v as int == addr.val()),
    {
        let signed_addr = addr.to_i32();
        if signed_addr < -81 || signed_addr > 80 {
            return Err(MemoryError::AddressOutOfRange(signed_addr));
        }
        Ok((signed_addr + 81) as usize)
    }

    /// Read the cell a ternary address names.
    pub fn read_ternary(&self, addr: Tryte9) -> (r: Result<Tryte9, MemoryError>)
        ensures
            addr_in_range(addr.val()) ==> r == Ok::<Tryte9, MemoryError>(
                self@[mem_index(addr.val())],
            ),
            !addr_in_range(addr.val()) ==> (r matches Err(MemoryError::AddressOutOfRange(v))
                && v as int == addr.val()),
    {
        match self.addr_to_index(addr) {
            Ok(index) => Ok(self.cells[index]),
            Err(e) => Err(e),
        }
    }

    /// Write the cell a ternary address names.
    pub fn write_ternary(&mut self, addr: Tryte9, value: Tryte9) -> (r: Result<(), MemoryError>)
        ensures
            addr_in_range(addr.val()) ==> r == Ok::<(), MemoryError>(()) && final(self)@ == old(
                self,
            )@.update(mem_index(addr.val()), value),
            !addr_in_range(addr.val()) ==> *final(self) == *old(self) && (r matches Err(
            MemoryError::AddressOutOfRange(v)) && v as int == addr.val()),
    {
        match self.addr_to_index(addr) {
            Ok(index) => {
                self.cells[index] = value;
                Ok(())
            },
            Err(e) => Err(e),
        }
    }

    /// The ternary address of an array index.
    pub fn index_to_addr(&self, index: usize) -> (r: Tryte9)
        requires
            index < 162,
        ensures
            r.val() == index as int - 81,
    {
        let signed_addr = (index as i32) - 81;
        Tryte9::from_i32(signed_addr)
    }

    /// Zero every cell.
    pub fn clear(&mut self)
        ensures
            forall|i: int| 0 <= i < 162 ==> (#[trigger] final(self)@[i]).val() == 0,
    {
        let zero = Tryte9::zero();
        let mut i: usize = 0;
        while i < 162
            invariant
                i <= 162,
                self@.len() == 162,
                zero.val() == 0,
                forall|j: int| 0 <= j < i ==> (#[trigger] self@[j]).val() == 0,
            decreases 162 - i,
        {
            let ghost prev = self@;
            self.cells[i] = zero;
            proof {
                assert(self@ =~= prev.update(i as int, zero));
            }
            i = i + 1;
        }
    }

    /// Copy a program image into memory starting at an array index;
    /// refused when it does not fit before the end of memory.
    pub fn load_program(&mut self, start_addr: usize, program: &[Tryte9]) -> (r: Result<
        (),
        MemoryError,
    >)
        ensures
            start_addr + program@.len() <= 162 ==> {
                &&& r == Ok::<(), MemoryError>(())
                &&& final(self)@.len() == 162
                &&& forall|j: int|
                    start_addr <= j < start_addr + program@.len() ==> final(self)@[j] == program@[j
                        - start_addr]
                &&& forall|j: int|
                    0 <= j < 162 && !(start_addr <= j < start_addr + program@.len())
                        ==> final(self)@[j] == old(self)@[j]
            },
            start_addr + program@.len() > 162 ==> *final(self) == *old(self) && (r matches Err(
            MemoryError::ProgramTooLarge { size, available }) && size == program@.len()
                && available == (if start_addr <= 162 {
                162 - start_addr
            } else {
                0int
            })),
    {
        if start_addr > 162 || program.len() > 162 - start_addr {
            let available: usize = if start_addr <= 162 {
                162 - start_addr
            } else {
                0
            };
            return Err(MemoryError::ProgramTooLarge { size: program.len(), available });
        }
        let mut i: usize = 0;
        while i < program.len()
            invariant
                i <= program@.len(),
                start_addr + program@.len() <= 162,
                self@.len() == 162,
                forall|j: int|
                    start_addr <= j < start_addr + i ==> self@[j] == program@[j - start_addr],
                forall|j: int|
                    0 <= j < 162 && !(start_addr <= j < start_addr + i) ==> self@[j] == old(
                        self,
                    )@[j],
            decreases program@.len() - i,
        {
            self.cells[start_addr + i] = program[i];
            i = i + 1;
        }
        Ok(())
    }

    /// The cells from one array index on, with their indices, at most
    /// `count` of them and never past the end of memory.
    pub fn dump(&self, start: usize, count: usize) -> (r: Vec<(usize, Tryte9)>)
        ensures
            r@.len() == if start <= 162 && count <= 162 - start {
                count as int
            } else if start <= 162 {
                162 - start
            } else {
                0int
            },
            forall|k: int|
                0 <= k < r@.len() ==> #[trigger] r@[k] == ((start + k) as usize, self@[start + k]),
    {
        let mut out: Vec<(usize, Tryte9)> = Vec::new();
        if start >= 162 {
            return out;
        }
        let end: usize = if count > 162 - start {
            162
        } else {
            start + count
        };
        let mut i: usize = start;
        while i < end
            invariant
                start <= i <= end,
                end <= 162,
                self@.len() == 162,
                out@.len() == i - start,
                forall|k: int|
                    0 <= k < out@.len() ==> #[trigger] out@[k] == (
                    (start + k) as usize,
                    self@[start + k],
                ),
            decreases 162 - i,
        {
            out.push((i, self.cells[i]));
            i = i + 1;
        }
        out
    }
}

impl Default for Memory {
    /// The default memory is all zeros.
    fn default() -> (r: Self)
        ensures
            forall|i: int| 0 <= i < 162 ==> (#[trigger] r@[i]).val() == 0,
    {
        Memory::new()
    }
}

} // verus!
