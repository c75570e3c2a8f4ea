//! The auxiliary vector that a program loader hands to a new program.
use vstd::prelude::*;
use crate::consts::PAGE_SIZE;

verus! {

/// End of the vector.
pub const AT_NULL: usize = 0;

/// The entry is to be ignored.
pub const AT_IGNORE: usize = 1;

/// File descriptor of the program.
pub const AT_EXECFD: usize = 2;

/// Address of the program headers.
pub const AT_PHDR: usize = 3;

/// Size of a program header.
pub const AT_PHENT: usize = 4;

/// Number of program headers.
pub const AT_PHNUM: usize = 5;

/// Page size of the system.
pub const AT_PAGESZ: usize = 6;

/// Base address of the interpreter.
pub const AT_BASE: usize = 7;

/// Flags.
pub const AT_FLAGS: usize = 8;

/// Entry point of the program.
pub const AT_ENTRY: usize = 9;

/// The program is not an ELF program.
pub const AT_NOTELF: usize = 10;

/// Real user id.
pub const AT_UID: usize = 11;

/// Effective user id.
pub const AT_EUID: usize = 12;

/// Real group id.
pub const AT_GID: usize = 13;

/// Effective group id.
pub const AT_EGID: usize = 14;

/// Name of the processor, for optimizations.
pub const AT_PLATFORM: usize = 15;

/// Hints at what the processor can do.
pub const AT_HWCAP: usize = 16;

/// Frequency at which `times()` counts.
pub const AT_CLKTCK: usize = 17;

/// Whether the program runs in secure mode.
pub const AT_SECURE: usize = 23;

/// Name of the real platform.
pub const AT_BASE_PLATFORM: usize = 24;

/// Address of 16 random bytes.
pub const AT_RANDOM: usize = 25;

/// More hints at what the processor can do.
pub const AT_HWCAP2: usize = 26;

/// File name of the program.
pub const AT_EXECFN: usize = 31;

/// Address of the page for system calls.
pub const AT_SYSINFO: usize = 32;

/// Address of the ELF header of that page.
pub const AT_SYSINFO_EHDR: usize = 33;

/// One entry of the auxiliary vector.
#[derive(Copy, Clone, Debug, PartialEq, Eq, Structural)]
pub struct AuxHeader {
    /// What the entry says: one of the `AT_` constants.
    pub aux_type: usize,
    /// Its value.
    pub value: usize,
}

/// The auxiliary vector of a program with program headers of `entry_size`
/// bytes, `ph_cnt` of them, and the entry point `entry`.  `AT_NULL` ends it.
pub open spec fn auxv_of(entry_size: usize, ph_cnt: usize, entry: usize) -> Seq<AuxHeader> {
    seq![
        AuxHeader { aux_type: AT_PHENT, value: entry_size },
        AuxHeader { aux_type: AT_PHNUM, value: ph_cnt },
        AuxHeader { aux_type: AT_PAGESZ, value: PAGE_SIZE },
        AuxHeader { aux_type: AT_BASE, value: 0 },
        AuxHeader { aux_type: AT_FLAGS, value: 0 },
        AuxHeader { aux_type: AT_ENTRY, value: entry },
        AuxHeader { aux_type: AT_UID, value: 0 },
        AuxHeader { aux_type: AT_EUID, value: 0 },
        AuxHeader { aux_type: AT_GID, value: 0 },
        AuxHeader { aux_type: AT_EGID, value: 0 },
        AuxHeader { aux_type: AT_PLATFORM, value: 0 },
        AuxHeader { aux_type: AT_HWCAP, value: 0 },
        AuxHeader { aux_type: AT_CLKTCK, value: 100 },
        AuxHeader { aux_type: AT_SECURE, value: 0 },
        AuxHeader { aux_type: AT_NOTELF, value: 0x112d },
        AuxHeader { aux_type: AT_NULL, value: 0 },
    ]
}

/// Makes the auxiliary vector of a program.
pub fn make_auxv(entry_size: usize, ph_cnt: usize, entry: usize) -> (r: Vec<AuxHeader>)
    ensures
        r@ == auxv_of(entry_size, ph_cnt, entry),
{
    let mut auxv: Vec<AuxHeader> = Vec::new();
    auxv.push(AuxHeader { aux_type: AT_PHENT, value: entry_size });
    auxv.push(AuxHeader { aux_type: AT_PHNUM, value: ph_cnt });
    auxv.push(AuxHeader { aux_type: AT_PAGESZ, value: PAGE_SIZE });
    auxv.push(AuxHeader { aux_type: AT_BASE, value: 0 });
    auxv.push(AuxHeader { aux_type: AT_FLAGS, value: 0 });
    auxv.push(AuxHeader { aux_type: AT_ENTRY, value: entry });
    auxv.push(AuxHeader { aux_type: AT_UID, value: 0 });
    auxv.push(AuxHeader { aux_type: AT_EUID, value: 0 });
    auxv.push(AuxHeader { aux_type: AT_GID, value: 0 });
    auxv.push(AuxHeader { aux_type: AT_EGID, value: 0 });
    auxv.push(AuxHeader { aux_type: AT_PLATFORM, value: 0 });
    auxv.push(AuxHeader { aux_type: AT_HWCAP, value: 0 });
    auxv.push(AuxHeader { aux_type: AT_CLKTCK, value: 100 });
    auxv.push(AuxHeader { aux_type: AT_SECURE, value: 0 });
    auxv.push(AuxHeader { aux_type: AT_NOTELF, value: 0x112d });
    auxv.push(AuxHeader { aux_type: AT_NULL, value: 0 });
    proof {
        assert(auxv@ =~= auxv_of(entry_size, ph_cnt, entry));
    }
    auxv
}

} // verus!
