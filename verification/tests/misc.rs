use kernel::consts::{
    CPUS, DIRECT_MAP_END, DIRECT_MAP_START, MAX_ORDER, MAX_ORDER_NR_PAGES, PAGE_OFFSET, PAGE_SIZE,
    PHY_MEM_OFF, USER_SPACE_END, USER_SPACE_START, VMEMMAP_END, VMEMMAP_START,
};
use kernel::mm::addr::{Addr, PFN};
use kernel::mm::aux::{
    make_auxv, AuxHeader, AT_BASE, AT_CLKTCK, AT_EGID, AT_ENTRY, AT_EUID, AT_FLAGS, AT_GID,
    AT_HWCAP, AT_NOTELF, AT_NULL, AT_PAGESZ, AT_PHENT, AT_PHNUM, AT_PLATFORM, AT_SECURE, AT_UID,
};
use kernel::mm::mm::FaultKind;
use kernel::trap::{exc_action, fault_kind, irq_action, Exception, Interrupt, Trap, TrapAction, TrapFrame};
use kernel::utils::{
    addr_get_ppn0, addr_get_ppn1, addr_get_ppn2, addr_page_align_lower, addr_page_align_upper,
    convert_cstr_from_bytes, date2second, datetime2second, order2pages, paddr2vaddr, pages2order,
    vaddr2paddr, Date, DateTime, Time,
};

#[test]
fn layout_constants() {
    assert_eq!(USER_SPACE_START, 0);
    assert_eq!(USER_SPACE_END, 256 << 30);
    assert_eq!(VMEMMAP_END - VMEMMAP_START, 4 << 30);
    assert_eq!(DIRECT_MAP_END - DIRECT_MAP_START, 124 << 30);
    assert_eq!(PHY_MEM_OFF, DIRECT_MAP_START);
    assert_eq!(PAGE_SIZE, 1 << PAGE_OFFSET);
    assert_eq!(MAX_ORDER, 11);
    assert_eq!(MAX_ORDER_NR_PAGES, 1 << (MAX_ORDER - 1));
    assert_eq!(CPUS, 2);
}

#[test]
fn floor_and_ceil() {
    assert_eq!(Addr(0).floor(), Addr(0));
    assert_eq!(Addr(0).ceil(), Addr(0));
    assert_eq!(Addr(1).floor(), Addr(0));
    assert_eq!(Addr(1).ceil(), Addr(4096));
    assert_eq!(Addr(4095).floor(), Addr(0));
    assert_eq!(Addr(4095).ceil(), Addr(4096));
    assert_eq!(Addr(4096).floor(), Addr(4096));
    assert_eq!(Addr(4096).ceil(), Addr(4096));
    assert_eq!(Addr(0x8023_4567).floor(), Addr(0x8023_4000));
    assert_eq!(Addr(0x8023_4567).ceil(), Addr(0x8023_5000));
    assert_eq!(Addr(usize::MAX).floor(), Addr(usize::MAX - 4095));
    for a in [0usize, 5, 4096, 4097, 123_456_789] {
        let (f, c) = (Addr(a).floor().0, Addr(a).ceil().0);
        assert!(f <= a && a <= c && c - f <= 4096);
        assert_eq!(f % 4096, 0);
        assert_eq!(c % 4096, 0);
    }
}

#[test]
fn address_arithmetic() {
    assert_eq!(Addr(0x1000) + Addr(0x234), Addr(0x1234));
    assert_eq!(Addr(0x1234) - Addr(0x234), Addr(0x1000));
    assert_eq!(PFN(7) + PFN(3), PFN(10));
    assert_eq!(PFN(7) - PFN(3), PFN(4));
    assert_eq!(Addr::default(), Addr(0));
    assert!(Addr(1) < Addr(2));
    assert!(PFN(9) > PFN(2));
    assert_eq!(Addr::from(0x77usize), Addr(0x77));
    assert_eq!(Addr::from(PFN(3)), Addr(0x3000));
    assert_eq!(PFN::from(0x3fffusize), PFN(3));
    assert_eq!(PFN::from(Addr(0x4000)), PFN(4));
    assert_eq!(Addr(0x5432).get_pg_cnt(), 5);
    assert_eq!(PFN(0x80200).get_addr_usize(), 0x8020_0000);
    assert_eq!(PFN(usize::MAX).get_addr_usize(), usize::MAX - 4095);
}

#[test]
fn address_steps() {
    assert_eq!(Addr::steps_between(&Addr(3), &Addr(10)), Some(7));
    assert_eq!(Addr::steps_between(&Addr(3), &Addr(3)), Some(0));
    assert_eq!(Addr::steps_between(&Addr(10), &Addr(3)), None);
    assert_eq!(Addr::forward_checked(Addr(3), 4), Some(Addr(7)));
    assert_eq!(Addr::forward_checked(Addr(usize::MAX), 1), None);
    assert_eq!(Addr::backward_checked(Addr(3), 3), Some(Addr(0)));
    assert_eq!(Addr::backward_checked(Addr(3), 4), None);
    let mut p = PFN(5);
    assert_eq!(p.step_one(), PFN(6));
    assert_eq!(p.step_n(10), PFN(16));
    assert_eq!(p, PFN(16));
}

#[test]
fn direct_map_translation() {
    assert_eq!(Addr(0xffff_ffd8_8020_0000).get_paddr(), 0x8020_0000);
    assert_eq!(Addr(0x8020_0000).get_vaddr(), 0xffff_ffd8_8020_0000);
    assert_eq!(vaddr2paddr(0xffff_ffd8_0000_0000), 0);
    assert_eq!(vaddr2paddr(0xffff_ffd8_8020_0123), 0x8020_0123);
    assert_eq!(paddr2vaddr(0x8020_0123), 0xffff_ffd8_8020_0123);
    assert_eq!(paddr2vaddr(vaddr2paddr(0xffff_fff6_ffff_ffff)), 0xffff_fff6_ffff_ffff);
}

#[test]
fn page_alignment_of_raw_addresses() {
    assert_eq!(addr_page_align_lower(0), 0);
    assert_eq!(addr_page_align_lower(4095), 0);
    assert_eq!(addr_page_align_lower(4096), 4096);
    assert_eq!(addr_page_align_lower(0x1234_5678), 0x1234_5000);
    assert_eq!(addr_page_align_upper(0), 0);
    assert_eq!(addr_page_align_upper(1), 4096);
    assert_eq!(addr_page_align_upper(4096), 4096);
    assert_eq!(addr_page_align_upper(0x1234_5678), 0x1234_6000);
}

#[test]
fn table_indices_of_an_address() {
    let va = (5usize << 30) | (77 << 21) | (300 << 12) | 0xabc;
    assert_eq!(addr_get_ppn2(va), 5);
    assert_eq!(addr_get_ppn1(va), 77);
    assert_eq!(addr_get_ppn0(va), 300);
    assert_eq!(addr_get_ppn2(usize::MAX), 511);
    assert_eq!(addr_get_ppn1(usize::MAX), 511);
    assert_eq!(addr_get_ppn0(usize::MAX), 511);
    assert_eq!(addr_get_ppn0(0xfff), 0);
    assert_eq!(addr_get_ppn2(1usize << 39), 0);
}

#[test]
fn orders_and_pages() {
    assert_eq!(order2pages(0), 1);
    assert_eq!(order2pages(4), 16);
    assert_eq!(order2pages(10), 1024);
    assert_eq!(order2pages(11), 0);
    assert_eq!(order2pages(usize::MAX), 0);
    assert_eq!(pages2order(0), 0);
    assert_eq!(pages2order(1), 0);
    assert_eq!(pages2order(2), 1);
    assert_eq!(pages2order(3), 2);
    assert_eq!(pages2order(4), 2);
    assert_eq!(pages2order(5), 3);
    assert_eq!(pages2order(1024), 10);
    assert_eq!(pages2order(1025), 11);
    assert_eq!(pages2order(usize::MAX), 11);
}

#[test]
fn c_strings() {
    assert_eq!(convert_cstr_from_bytes(b"init\0rest"), "init");
    assert_eq!(convert_cstr_from_bytes(b"\0"), "");
    assert_eq!(convert_cstr_from_bytes(b""), "");
    assert_eq!(convert_cstr_from_bytes(b"no end"), "no end");
    // a byte is taken as the character with that code
    assert_eq!(convert_cstr_from_bytes(&[0x41, 0xe9, 0]), "A\u{e9}");
}

#[test]
fn seconds_of_a_date() {
    assert_eq!(date2second(Date { year: 1970, month: 1, day: 1 }), 0);
    assert_eq!(date2second(Date { year: 1970, month: 1, day: 2 }), 86400);
    assert_eq!(date2second(Date { year: 1970, month: 2, day: 1 }), 30 * 86400);
    assert_eq!(date2second(Date { year: 1971, month: 1, day: 1 }), 365 * 86400);
    assert_eq!(
        date2second(Date { year: 2022, month: 5, day: 17 }),
        52 * 31_536_000 + 4 * 2_592_000 + 16 * 86_400
    );
    let dt = DateTime {
        date: Date { year: 1980, month: 1, day: 1 },
        time: Time { hour: 13, min: 45, sec: 59, millis: 999 },
    };
    assert_eq!(datetime2second(dt), 10 * 31_536_000 + 13 * 3600 + 45 * 60 + 59);
    let last = DateTime {
        date: Date { year: u16::MAX, month: u16::MAX, day: u16::MAX },
        time: Time { hour: u16::MAX, min: u16::MAX, sec: u16::MAX, millis: 0 },
    };
    assert_eq!(
        datetime2second(last),
        63565 * 31_536_000 + 65534 * (2_592_000 + 86_400) + 65535 * 3661
    );
}

#[test]
fn auxiliary_vector() {
    let v = make_auxv(56, 9, 0x10_0b0);
    let want = [
        (AT_PHENT, 56),
        (AT_PHNUM, 9),
        (AT_PAGESZ, 4096),
        (AT_BASE, 0),
        (AT_FLAGS, 0),
        (AT_ENTRY, 0x10_0b0),
        (AT_UID, 0),
        (AT_EUID, 0),
        (AT_GID, 0),
        (AT_EGID, 0),
        (AT_PLATFORM, 0),
        (AT_HWCAP, 0),
        (AT_CLKTCK, 100),
        (AT_SECURE, 0),
        (AT_NOTELF, 0x112d),
        (AT_NULL, 0),
    ];
    assert_eq!(v.len(), 16);
    assert_eq!(v.last(), Some(&AuxHeader { aux_type: AT_NULL, value: 0 }));
    for (got, (t, val)) in v.iter().zip(want.iter()) {
        assert_eq!(*got, AuxHeader { aux_type: *t, value: *val });
    }
    assert_eq!(AT_NULL, 0);
    assert_eq!((AT_PHENT, AT_PHNUM, AT_PAGESZ, AT_ENTRY, AT_SECURE), (4, 5, 6, 9, 23));
}

#[test]
fn an_empty_trap_frame_is_all_zero() {
    let f = TrapFrame::new_empty();
    let regs = [
        f.sepc, f.x1, f.x2, f.x3, f.x4, f.x5, f.x6, f.x7, f.x8, f.x9, f.x10, f.x11, f.x12, f.x13,
        f.x14, f.x15, f.x16, f.x17, f.x18, f.x19, f.x20, f.x21, f.x22, f.x23, f.x24, f.x25, f.x26,
        f.x27, f.x28, f.x29, f.x30, f.x31, f.scause, f.sscratch, f.sstatus,
    ];
    assert!(regs.iter().all(|r| *r == 0));
}

#[test]
fn what_the_dispatcher_does_about_a_trap() {
    assert_eq!(irq_action(Trap::Interrupt(Interrupt::SupervisorTimer)), TrapAction::Timer);
    assert_eq!(irq_action(Trap::Interrupt(Interrupt::Unknown)), TrapAction::Unrecognized);
    for irq in [
        Interrupt::UserSoft,
        Interrupt::SupervisorSoft,
        Interrupt::UserTimer,
        Interrupt::UserExternal,
        Interrupt::SupervisorExternal,
    ] {
        assert_eq!(irq_action(Trap::Interrupt(irq)), TrapAction::Unsupported);
        assert_eq!(exc_action(Trap::Interrupt(irq)), TrapAction::Misrouted);
    }
    assert_eq!(irq_action(Trap::Exception(Exception::UserEnvCall)), TrapAction::Misrouted);
    assert_eq!(exc_action(Trap::Exception(Exception::UserEnvCall)), TrapAction::Syscall);
    assert_eq!(exc_action(Trap::Exception(Exception::Unknown)), TrapAction::Unrecognized);
    assert_eq!(exc_action(Trap::Exception(Exception::InstructionPageFault)), TrapAction::PageFault(FaultKind::Exec));
    assert_eq!(exc_action(Trap::Exception(Exception::LoadPageFault)), TrapAction::PageFault(FaultKind::Read));
    assert_eq!(exc_action(Trap::Exception(Exception::StorePageFault)), TrapAction::PageFault(FaultKind::Write));
    for exc in [
        Exception::InstructionMisaligned,
        Exception::InstructionFault,
        Exception::IllegalInstruction,
        Exception::Breakpoint,
        Exception::LoadFault,
        Exception::StoreMisaligned,
        Exception::StoreFault,
    ] {
        assert_eq!(exc_action(Trap::Exception(exc)), TrapAction::Unsupported);
        assert_eq!(fault_kind(exc), None);
    }
    assert_eq!(fault_kind(Exception::LoadPageFault), Some(FaultKind::Read));
    assert_eq!(fault_kind(Exception::StorePageFault), Some(FaultKind::Write));
    assert_eq!(fault_kind(Exception::InstructionPageFault), Some(FaultKind::Exec));
}
