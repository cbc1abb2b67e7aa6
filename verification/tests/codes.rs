use mcu_runtime::emulator::{self, EmulatorCall, EmulatorState};
use mcu_runtime::ffi::{
    compute_method_info, flash_init_error_to_errno, flash_io_error_to_errno, fs_error_to_errno,
};
use mcu_runtime::flash::{IOError, InitError};
use mcu_runtime::fs::Error;
use mcu_runtime::registers::{current_stack, Stack, UntrustedPsp};
use mcu_runtime::syscall::codes::{
    flash_error_to_usize, fs_error_to_usize, pass_tag, usize_to_flash_error, usize_to_fs_error,
};
use mcu_runtime::syscall::Syscall;

#[test]
fn codes_of_the_errors_of_the_filesystem() {
    assert_eq!(fs_error_to_usize(Error::OutOfFlash), 0x8000_0001);
    assert_eq!(fs_error_to_usize(Error::NoSuchTag), 0x8000_0002);
    assert_eq!(fs_error_to_usize(Error::InvalidLengthForTag), 0x8000_0003);
    assert_eq!(fs_error_to_usize(Error::IO(IOError::LockedError)), 0xC000_0001);
    assert_eq!(fs_error_to_usize(Error::IO(IOError::OutOfBounds)), 0xC000_0002);
    assert_eq!(fs_error_to_usize(Error::IO(IOError::UnknownError(0x1234))), 0xC000_1234);
    assert_eq!(fs_error_to_usize(Error::IO(IOError::UnknownError(0xFFFF_FFFF))), 0xCFFF_FFFF);
    assert_eq!(flash_error_to_usize(IOError::LockedError), 0x4000_0001);
    assert_eq!(flash_error_to_usize(IOError::OutOfBounds), 0x4000_0002);
    assert_eq!(flash_error_to_usize(IOError::UnknownError(0x30)), 0x4000_0030);
}

#[test]
fn codes_tell_the_errors() {
    for e in [
        Error::OutOfFlash,
        Error::NoSuchTag,
        Error::InvalidLengthForTag,
        Error::IO(IOError::LockedError),
        Error::IO(IOError::OutOfBounds),
        Error::IO(IOError::UnknownError(3)),
        Error::IO(IOError::UnknownError(0x0FFF_FFFF)),
    ] {
        assert_eq!(usize_to_fs_error(fs_error_to_usize(e)), e);
    }
    assert_eq!(usize_to_flash_error(0x4000_0001), IOError::LockedError);
    assert_eq!(usize_to_flash_error(2), IOError::OutOfBounds);
    assert_eq!(usize_to_flash_error(0x4000_0030), IOError::UnknownError(0x30));
    // What an unknown error does not keep of what the device reported
    assert_eq!(
        usize_to_fs_error(fs_error_to_usize(Error::IO(IOError::UnknownError(1)))),
        Error::IO(IOError::LockedError)
    );
    assert_eq!(
        usize_to_fs_error(fs_error_to_usize(Error::IO(IOError::UnknownError(0x1000_0005)))),
        Error::IO(IOError::UnknownError(5))
    );
}

#[test]
fn codes_for_c() {
    assert_eq!(flash_io_error_to_errno(IOError::LockedError), 1);
    assert_eq!(flash_io_error_to_errno(IOError::OutOfBounds), 2);
    assert_eq!(flash_io_error_to_errno(IOError::UnknownError(77)), 3);
    assert_eq!(flash_init_error_to_errno(InitError::FlashInUse), 1);
    assert_eq!(fs_error_to_errno(Error::OutOfFlash), 1);
    assert_eq!(fs_error_to_errno(Error::NoSuchTag), 2);
    assert_eq!(fs_error_to_errno(Error::InvalidLengthForTag), 3);
    assert_eq!(fs_error_to_errno(Error::IO(IOError::LockedError)), 0x81);
    assert_eq!(fs_error_to_errno(Error::IO(IOError::OutOfBounds)), 0x82);
    assert_eq!(fs_error_to_errno(Error::IO(IOError::UnknownError(9))), 0x83);
}

#[test]
fn tags_are_passed_with_their_length() {
    let t = pass_tag(b"test");
    assert_eq!(t[0], 4);
    assert_eq!(&t[1..5], b"test");
    assert_eq!(&t[5..], &[0; 28]);
    let empty = pass_tag(b"");
    assert_eq!(empty, [0; 33]);
    let full = pass_tag(&[9; 32]);
    assert_eq!(full[0], 32);
    assert_eq!(&full[1..], &[9; 32]);
}

#[test]
fn syscalls_have_numbers() {
    for n in 0..18 {
        assert_eq!(Syscall::from_usize(n).unwrap().number(), n);
    }
    assert_eq!(Syscall::from_usize(18), None);
    assert_eq!(Syscall::from_usize(usize::MAX), None);
    assert_eq!(Syscall::from_usize(0), Some(Syscall::RemoteCall));
    assert_eq!(Syscall::from_usize(1), Some(Syscall::RemoteResult));
    assert_eq!(Syscall::from_usize(2), Some(Syscall::Test));
    assert_eq!(Syscall::from_usize(13), Some(Syscall::FsWriteApplet));
    assert_eq!(Syscall::from_usize(17), Some(Syscall::FsWrite4b));
    for n in 0..7 {
        assert_eq!(EmulatorCall::from_usize(n).unwrap().number(), n);
    }
    assert_eq!(EmulatorCall::from_usize(7), None);
    assert_eq!(EmulatorCall::from_usize(6), Some(EmulatorCall::Syscall));
}

#[test]
fn processor_changes_privileges_and_stacks() {
    let mut cpu = EmulatorState::new();
    assert!(emulator::in_emulator());
    assert!(emulator::is_privileged(&cpu));
    assert!(!emulator::is_in_exception(&cpu));
    assert_eq!(current_stack(&cpu), Stack::Thread);
    emulator::drop_privileges(&mut cpu, 0x2001_8000);
    assert!(!emulator::is_privileged(&cpu));
    assert_eq!(current_stack(&cpu), Stack::Thread);
    // A syscall is handled privileged, on the other stack
    let handler_sp = emulator::syscall(&mut cpu, 0x2000_3F00);
    assert_eq!(handler_sp, 0x2001_8000);
    assert!(emulator::is_privileged(&cpu));
    assert!(emulator::is_in_exception(&cpu));
    assert_eq!(current_stack(&cpu), Stack::Exception);
    assert_eq!(emulator::current_psp(&cpu), 0x2000_3F00);
    emulator::set_psp(&mut cpu, 0x2000_9000);
    assert_eq!(emulator::current_psp(&cpu), 0x2000_9000);
    let thread_sp = emulator::syscall_return(&mut cpu, handler_sp);
    assert_eq!(thread_sp, 0x2000_9000);
    assert!(!emulator::is_privileged(&cpu));
    assert!(!emulator::is_in_exception(&cpu));
    assert_eq!(cpu.other_sp, 0x2001_8000);
    assert_eq!(UntrustedPsp(0x2000_9000).get(), 0x2000_9000);
}

#[test]
fn method_info() {
    assert_eq!(compute_method_info(0x0012_3456), (0x12, 0x34, 0x56));
    assert_eq!(compute_method_info(0xFFAB_CDEF), (0xAB, 0xCD, 0xEF));
    assert_eq!(compute_method_info(0), (0, 0, 0));
}

#[test]
fn errors_of_the_flash_are_errors_of_the_filesystem() {
    assert_eq!(Error::from(IOError::LockedError), Error::IO(IOError::LockedError));
    assert_eq!(Error::from(IOError::UnknownError(4)), Error::IO(IOError::UnknownError(4)));
    let e: Error = IOError::OutOfBounds.into();
    assert_eq!(e, Error::IO(IOError::OutOfBounds));
}

