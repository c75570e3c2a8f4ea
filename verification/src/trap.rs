//! The trap frame, and what the trap dispatcher decides from the cause of a
//! trap.
use vstd::prelude::*;
use crate::mm::mm::FaultKind;

verus! {

/// The registers of a task that a trap saves.
#[derive(Copy, Clone, Debug, PartialEq, Eq, Structural)]
pub struct TrapFrame {
    /// Program counter at the trap.
    pub sepc: usize,
    /// Return address.
    pub x1: usize,
    /// Stack pointer.
    pub x2: usize,
    pub x3: usize,
    pub x4: usize,
    pub x5: usize,
    pub x6: usize,
    pub x7: usize,
    pub x8: usize,
    pub x9: usize,
    /// First argument and result.
    pub x10: usize,
    pub x11: usize,
    pub x12: usize,
    pub x13: usize,
    pub x14: usize,
    pub x15: usize,
    pub x16: usize,
    pub x17: usize,
    pub x18: usize,
    pub x19: usize,
    pub x20: usize,
    pub x21: usize,
    pub x22: usize,
    pub x23: usize,
    pub x24: usize,
    pub x25: usize,
    pub x26: usize,
    pub x27: usize,
    pub x28: usize,
    pub x29: usize,
    pub x30: usize,
    pub x31: usize,
    /// Cause of the trap.
    pub scause: usize,
    /// Scratch register.
    pub sscratch: usize,
    /// Status register.
    pub sstatus: usize,
}

/// The trap frame with every register zero.
pub open spec fn zero_frame() -> TrapFrame {
    TrapFrame {
        sepc: 0,
        x1: 0,
        x2: 0,
        x3: 0,
        x4: 0,
        x5: 0,
        x6: 0,
        x7: 0,
        x8: 0,
        x9: 0,
        x10: 0,
        x11: 0,
        x12: 0,
        x13: 0,
        x14: 0,
        x15: 0,
        x16: 0,
        x17: 0,
        x18: 0,
        x19: 0,
        x20: 0,
        x21: 0,
        x22: 0,
        x23: 0,
        x24: 0,
        x25: 0,
        x26: 0,
        x27: 0,
        x28: 0,
        x29: 0,
        x30: 0,
        x31: 0,
        scause: 0,
        sscratch: 0,
        sstatus: 0,
    }
}

impl TrapFrame {
    /// A trap frame with every register zero.
    pub fn new_empty() -> (r: Self)
        ensures
            r == zero_frame(),
    {
        TrapFrame {
            sepc: 0,
            x1: 0,
            x2: 0,
            x3: 0,
            x4: 0,
            x5: 0,
            x6: 0,
            x7: 0,
            x8: 0,
            x9: 0,
            x10: 0,
            x11: 0,
            x12: 0,
            x13: 0,
            x14: 0,
            x15: 0,
            x16: 0,
            x17: 0,
            x18: 0,
            x19: 0,
            x20: 0,
            x21: 0,
            x22: 0,
            x23: 0,
            x24: 0,
            x25: 0,
            x26: 0,
            x27: 0,
            x28: 0,
            x29: 0,
            x30: 0,
            x31: 0,
            scause: 0,
            sscratch: 0,
            sstatus: 0,
        }
    }
}

/// The interrupts that the cause register can name.
#[derive(Copy, Clone, Debug, PartialEq, Eq, Structural)]
pub enum Interrupt {
    UserSoft,
    SupervisorSoft,
    UserTimer,
    SupervisorTimer,
    UserExternal,
    SupervisorExternal,
    Unknown,
}

/// The exceptions that the cause register can name.
#[derive(Copy, Clone, Debug, PartialEq, Eq, Structural)]
pub enum Exception {
    InstructionMisaligned,
    InstructionFault,
    IllegalInstruction,
    Breakpoint,
    LoadFault,
    StoreMisaligned,
    StoreFault,
    UserEnvCall,
    InstructionPageFault,
    LoadPageFault,
    StorePageFault,
    Unknown,
}

/// The cause of a trap.
#[derive(Copy, Clone, Debug, PartialEq, Eq, Structural)]
pub enum Trap {
    Interrupt(Interrupt),
    Exception(Exception),
}

/// What the dispatcher does about a trap.
#[derive(Copy, Clone, Debug, PartialEq, Eq, Structural)]
pub enum TrapAction {
    /// The timer has fired: run the timer's handler.
    Timer,
    /// A system call: run the system call's handler.
    Syscall,
    /// A page fault: hand the faulting address and this kind of access to
    /// the address space.
    PageFault(FaultKind),
    /// A cause that the kernel has no handler for.
    Unsupported,
    /// A cause that the hardware does not define.
    Unrecognized,
    /// An interrupt where an exception was due, or the other way round.
    Misrouted,
}

/// What the interrupt handler does about the cause of a trap: it serves the
/// supervisor timer, has no handler for the other interrupts that are
/// defined, and no business with exceptions.
pub fn irq_action(cause: Trap) -> (r: TrapAction)
    ensures
        r == (match cause {
            Trap::Interrupt(Interrupt::SupervisorTimer) => TrapAction::Timer,
            Trap::Interrupt(Interrupt::Unknown) => TrapAction::Unrecognized,
            Trap::Interrupt(_) => TrapAction::Unsupported,
            Trap::Exception(_) => TrapAction::Misrouted,
        }),
{
    match cause {
        Trap::Interrupt(irq) => match irq {
            Interrupt::SupervisorTimer => TrapAction::Timer,
            Interrupt::Unknown => TrapAction::Unrecognized,
            _ => TrapAction::Unsupported,
        },
        Trap::Exception(_) => TrapAction::Misrouted,
    }
}

/// The kind of access behind a page-fault exception, and `None` for any
/// other exception.
pub fn fault_kind(exc: Exception) -> (r: Option<FaultKind>)
    ensures
        r == (match exc {
            Exception::InstructionPageFault => Some(FaultKind::Exec),
            Exception::LoadPageFault => Some(FaultKind::Read),
            Exception::StorePageFault => Some(FaultKind::Write),
            _ => None,
        }),
{
    match exc {
        Exception::InstructionPageFault => Some(FaultKind::Exec),
        Exception::LoadPageFault => Some(FaultKind::Read),
        Exception::StorePageFault => Some(FaultKind::Write),
        _ => None,
    }
}

/// What the exception handler does about the cause of a trap: it serves
/// system calls and page faults, has no handler for the other exceptions
/// that are defined, and no business with interrupts.
pub fn exc_action(cause: Trap) -> (r: TrapAction)
    ensures
        r == (match cause {
            Trap::Exception(Exception::UserEnvCall) => TrapAction::Syscall,
            Trap::Exception(Exception::InstructionPageFault) => TrapAction::PageFault(
                FaultKind::Exec,
            ),
            Trap::Exception(Exception::LoadPageFault) => TrapAction::PageFault(FaultKind::Read),
            Trap::Exception(Exception::StorePageFault) => TrapAction::PageFault(FaultKind::Write),
            Trap::Exception(Exception::Unknown) => TrapAction::Unrecognized,
            Trap::Exception(_) => TrapAction::Unsupported,
            Trap::Interrupt(_) => TrapAction::Misrouted,
        }),
{
    match cause {
        Trap::Exception(exc) => match exc {
            Exception::UserEnvCall => TrapAction::Syscall,
            Exception::Unknown => TrapAction::Unrecognized,
            _ => match fault_kind(exc) {
                Some(kind) => TrapAction::PageFault(kind),
                None => TrapAction::Unsupported,
            },
        },
        Trap::Interrupt(_) => TrapAction::Misrouted,
    }
}

} // verus!
