use mcu_runtime::constants::{flash_device, ram_begin, ram_size};
use mcu_runtime::context::{init_contexts, Contexts};
use mcu_runtime::context_ll::{Context, CONTEXT_SIZE, END_OF_REMOTE_CALL, START_OF_REMOTE_CALL};
use mcu_runtime::contextallocator::{allocate_contexts, AllocatableContext};
use mcu_runtime::emulator::EmulatorState;
use mcu_runtime::flash_ll::FlashDevice;
use mcu_runtime::fs::{Error, SectorID};
use mcu_runtime::mpu::Mpu;
use mcu_runtime::mpu_ll::{PROT_NONE, PROT_READ, PROT_WRITE};
use mcu_runtime::ram::Ram;
use mcu_runtime::syscall::codes::{fs_error_to_usize, pass_tag, usize_to_fs_error};
use mcu_runtime::syscall::fs::{privileged_fs_init, FsInitError};
use mcu_runtime::syscall::{syscall_received, Fault, Halt, Kernel, Syscall};

const ENTRY: [usize; 3] = [0x0806_1000, 0x0806_2000, 0x0806_3000];
const INTERRUPT_STACK: usize = 0x2000_0000 + 0x18000;
/// Where the context 0 has its stack pointer when it performs a syscall
const SP0: usize = 0x2000_3F00;
/// An address in the stack of the context 0 at which tags are laid out
const TAG: usize = 0x2000_3000;
/// An address in the stack of the context 0 at which a buffer stands
const BUF: usize = 0x2000_3100;

fn boot<'a>(in_use: &'a spin::Mutex<()>) -> Kernel<'a> {
    boot_on(in_use, flash_device().unwrap())
}

fn boot_on<'a>(in_use: &'a spin::Mutex<()>, device: FlashDevice) -> Kernel<'a> {
    let fs = privileged_fs_init(in_use, device).unwrap();
    let mut ram = Ram::new(ram_begin(), ram_size());
    let mut mpu = Mpu::get();
    mpu.setup();
    mpu.setup_unpriv_regions();
    mpu.switch_userland(ram_begin(), 0x20000);
    let c: Vec<AllocatableContext> =
        ENTRY.iter().map(|&entrypoint| AllocatableContext { entrypoint }).collect();
    let meta = allocate_contexts(&mut ram, &c);
    let mut contexts = Contexts::new(EmulatorState::new(), mpu);
    init_contexts(&mut contexts, meta);
    contexts.drop_privileges(INTERRUPT_STACK);
    Kernel::new(contexts, fs, ram)
}

/// What the processor and the kernel do when the thread, with its stack
/// pointer at `sp`, performs a syscall: the registers that the thread gets
/// back, and its stack pointer
fn syscall(
    kernel: &mut Kernel,
    sp: usize,
    num: Syscall,
    arg1: usize,
    arg2: usize,
    arg3: usize,
) -> Result<(Context, usize), Halt> {
    let regs = Context {
        r0: num.number(),
        r1: arg1,
        r2: arg2,
        r3: arg3,
        r12: 0,
        lr: 0x0806_0010,
        pc: 0x0806_0020,
        psr: 0x0100_0000,
    };
    let handler_sp = kernel.contexts.enter_exception(sp, regs).unwrap();
    syscall_received(kernel, num.number(), arg1, arg2, arg3)?;
    assert_eq!(kernel.contexts.current_heap_bottom(), match kernel.contexts.current().id() {
        0 => 0x2000_1000,
        1 => 0x2000_C000,
        _ => 0x2001_4000,
    });
    let back = kernel.contexts.leave_exception(handler_sp).unwrap();
    assert!(!kernel.contexts.cpu().privileged);
    Ok(back)
}

/// A syscall of the context 0, and what it returns
fn call(kernel: &mut Kernel, num: Syscall, arg1: usize, arg2: usize, arg3: usize) -> usize {
    let (regs, sp) = syscall(kernel, SP0, num, arg1, arg2, arg3).unwrap();
    assert_eq!(sp, SP0);
    assert_eq!((regs.r1, regs.r2, regs.r3, regs.pc), (arg1, arg2, arg3, 0x0806_0020));
    regs.r0
}

fn fault(kernel: &mut Kernel, num: Syscall, arg1: usize, arg2: usize, arg3: usize) -> Halt {
    syscall(kernel, SP0, num, arg1, arg2, arg3).unwrap_err()
}

fn fs_exists(kernel: &mut Kernel, tag: &[u8]) -> bool {
    kernel.ram.write(TAG, tag);
    call(kernel, Syscall::FsExists, TAG, tag.len(), 0) != 0
}

fn fs_read(kernel: &mut Kernel, tag: &[u8], buf: &mut [u8]) -> Result<(), Error> {
    kernel.ram.write(TAG, &pass_tag(tag));
    kernel.ram.write(BUF, buf);
    let res = call(kernel, Syscall::FsRead, TAG, BUF, buf.len());
    buf.copy_from_slice(&kernel.ram.read(BUF, buf.len()));
    if res == 0 {
        Ok(())
    } else {
        Err(usize_to_fs_error(res))
    }
}

fn fs_write(kernel: &mut Kernel, tag: &[u8], data: &[u8]) -> Result<(), Error> {
    kernel.ram.write(TAG, &pass_tag(tag));
    kernel.ram.write(BUF, data);
    let res = call(kernel, Syscall::FsWrite, TAG, BUF, data.len());
    if res == 0 {
        Ok(())
    } else {
        Err(usize_to_fs_error(res))
    }
}

fn fs_erase(kernel: &mut Kernel, tag: &[u8]) -> Result<(), Error> {
    kernel.ram.write(TAG, tag);
    let res = call(kernel, Syscall::FsErase, TAG, tag.len(), 0);
    if res == 0 {
        Ok(())
    } else {
        Err(usize_to_fs_error(res))
    }
}

#[test]
fn test_syscall_should_return_42() {
    let in_use = spin::Mutex::new(());
    let mut kernel = boot(&in_use);
    assert_eq!(call(&mut kernel, Syscall::Test, 0, 0, 0), 42);
    assert!(!kernel.contexts.cpu().privileged);
    assert_eq!(call(&mut kernel, Syscall::Test, 1, 2, 3), 42);
    assert!(!kernel.contexts.cpu().privileged);
}

#[test]
fn remotecall_syscall_should_return_42() {
    let in_use = spin::Mutex::new(());
    let mut kernel = boot(&in_use);
    // The context 0 calls the context 1
    let (r1, sp1) = syscall(&mut kernel, SP0, Syscall::RemoteCall, 1, 12, 23).unwrap();
    assert_eq!(kernel.contexts.current().id(), 1);
    assert_eq!(kernel.contexts.depth(), 1);
    assert_eq!((r1.pc, r1.lr), (START_OF_REMOTE_CALL, END_OF_REMOTE_CALL));
    // Its entry point gets the caller and the arguments
    assert_eq!((r1.r0, r1.r1, r1.r2, r1.r3), (ENTRY[1], 0, 12, 23));
    // And runs on its own stack, in its own range of the memory
    assert!(0x2000_8000 < sp1 && sp1 <= 0x2000_C000);
    assert_eq!(kernel.contexts.mpu().allows_addr(false, sp1 - 4), PROT_READ | PROT_WRITE);
    assert_eq!(kernel.contexts.mpu().allows_addr(false, SP0), PROT_NONE);
    // The context 1 calls the context 2, with some of its stack in use
    let sp1 = sp1 - 0x40;
    let (r2, sp2) = syscall(&mut kernel, sp1, Syscall::RemoteCall, 2, 32, 21).unwrap();
    assert_eq!(kernel.contexts.current().id(), 2);
    assert_eq!(kernel.contexts.depth(), 2);
    assert_eq!((r2.r0, r2.r1, r2.r2, r2.r3), (ENTRY[2], 1, 32, 21));
    assert!(0x2001_0000 < sp2 && sp2 <= 0x2001_4000);
    assert_eq!(kernel.contexts.mpu().allows_addr(false, sp2 - 4), PROT_READ | PROT_WRITE);
    assert_eq!(kernel.contexts.mpu().allows_addr(false, sp1), PROT_NONE);
    // The context 2 returns 12 to the context 1
    let (back1, sp) = syscall(&mut kernel, sp2, Syscall::RemoteResult, 12, 0, 0).unwrap();
    assert_eq!(kernel.contexts.current().id(), 1);
    assert_eq!(kernel.contexts.depth(), 1);
    assert_eq!(sp, sp1);
    assert_eq!(back1.r0, 12);
    assert_eq!((back1.r1, back1.r2, back1.r3, back1.pc), (2, 32, 21, 0x0806_0020));
    assert_eq!(kernel.contexts.mpu().allows_addr(false, sp1), PROT_READ | PROT_WRITE);
    // The context 1 returns 42 to the context 0
    let (back0, sp) = syscall(&mut kernel, sp1 + 0x40, Syscall::RemoteResult, 42, 0, 0).unwrap();
    assert_eq!(kernel.contexts.current().id(), 0);
    assert_eq!(kernel.contexts.depth(), 0);
    assert_eq!(sp, SP0);
    assert_eq!(back0.r0, 42);
    assert_eq!(kernel.contexts.mpu().allows_addr(false, SP0), PROT_READ | PROT_WRITE);
    // And can be called again
    let (r1, sp1) = syscall(&mut kernel, SP0, Syscall::RemoteCall, 1, 1, 2).unwrap();
    assert_eq!((r1.r0, r1.r1, r1.r2, r1.r3), (ENTRY[1], 0, 1, 2));
    assert_eq!(sp1, 0x2000_C000);
}

#[test]
fn remotecall_syscall_gives_up_on_what_cannot_be_done() {
    let in_use = spin::Mutex::new(());
    let mut kernel = boot(&in_use);
    assert_eq!(
        fault(&mut kernel, Syscall::RemoteCall, 3, 0, 0),
        Halt::Fault(Fault::BadContext)
    );
    let in_use = spin::Mutex::new(());
    let mut kernel = boot(&in_use);
    assert_eq!(
        fault(&mut kernel, Syscall::RemoteResult, 3, 0, 0),
        Halt::Fault(Fault::NoCaller)
    );
    // A stack pointer out of the range of the context
    let in_use = spin::Mutex::new(());
    let mut kernel = boot(&in_use);
    assert_eq!(
        syscall(&mut kernel, 0x2003_0000, Syscall::RemoteCall, 1, 0, 0).unwrap_err(),
        Halt::Fault(Fault::BadAddress)
    );
    // No syscall of the number
    let in_use = spin::Mutex::new(());
    let mut kernel = boot(&in_use);
    kernel.contexts.enter_exception(SP0, Context {
        r0: 18, r1: 0, r2: 0, r3: 0, r12: 0, lr: 0, pc: 0, psr: 0,
    }).unwrap();
    assert_eq!(syscall_received(&mut kernel, 18, 0, 0, 0), Err(Halt::Fault(Fault::BadSyscall)));
}

#[test]
fn remotecall_syscall_fills_the_stack_of_a_context_that_calls_itself() {
    let in_use = spin::Mutex::new(());
    let mut kernel = boot(&in_use);
    let (_, mut sp) = syscall(&mut kernel, SP0, Syscall::RemoteCall, 1, 0, 0).unwrap();
    let mut depth = 1;
    loop {
        match syscall(&mut kernel, sp, Syscall::RemoteCall, 1, 0, 0) {
            Ok((_, next)) => {
                assert_eq!(next, sp - CONTEXT_SIZE);
                sp = next;
                depth += 1;
                assert_eq!(kernel.contexts.depth(), depth);
            }
            Err(e) => {
                assert_eq!(e, Halt::Fault(Fault::NoRoom));
                break;
            }
        }
    }
    assert_eq!(sp, 0x2000_8000 + CONTEXT_SIZE);
}

#[test]
fn fs_syscalls_handle_a_simple_read_write_reinitialize_loop() {
    let in_use = spin::Mutex::new(());
    let mut kernel = boot(&in_use);
    let mut buf = [0; 8];
    let filename = b"\x03\x00\x00\x00\x01";

    assert!(!fs_exists(&mut kernel, filename));
    assert_eq!(fs_read(&mut kernel, filename, &mut buf).unwrap_err(), Error::NoSuchTag);

    fs_write(&mut kernel, filename, b"value").unwrap();

    buf = [0; 8];
    assert!(fs_exists(&mut kernel, filename));
    fs_read(&mut kernel, filename, &mut buf).unwrap();
    assert_eq!(&buf as &[u8], b"value\0\0\0");

    fs_write(&mut kernel, filename, b"value2").unwrap();

    buf = [0; 8];
    assert!(fs_exists(&mut kernel, filename));
    fs_read(&mut kernel, filename, &mut buf).unwrap();
    assert_eq!(&buf as &[u8], b"value2\0\0");

    fs_erase(&mut kernel, filename).unwrap();

    assert_eq!(fs_read(&mut kernel, filename, &mut buf).unwrap_err(), Error::NoSuchTag);
    assert!(!fs_exists(&mut kernel, filename));
    assert_eq!(fs_erase(&mut kernel, filename).unwrap_err(), Error::NoSuchTag);
}

#[test]
fn fs_syscalls_read_and_write_parts_of_a_file() {
    let in_use = spin::Mutex::new(());
    let mut kernel = boot(&in_use);
    let filename = [2, 1, 1];
    fs_write(&mut kernel, &filename, b"0123456789ab").unwrap();
    kernel.ram.write(TAG, &pass_tag(&filename));
    let ret = BUF + 0x40;
    // A short buffer takes the first bytes
    let mut short = [0; 4];
    fs_read(&mut kernel, &filename, &mut short).unwrap();
    assert_eq!(&short, b"0123");
    kernel.ram.write(TAG, &pass_tag(&filename));
    // The length
    assert_eq!(call(&mut kernel, Syscall::FsLength, TAG + 1, 3, ret), 0);
    assert_eq!(kernel.ram.read_word(ret), 12);
    // One, two and four bytes
    kernel.ram.fill(ret, 8, 0);
    assert_eq!(call(&mut kernel, Syscall::FsRead1b, TAG, 11, ret), 0);
    assert_eq!(kernel.ram.read(ret, 2), [b'b', 0]);
    assert_eq!(call(&mut kernel, Syscall::FsRead2b, TAG, 2, ret), 0);
    assert_eq!(kernel.ram.read(ret, 3), [b'4', b'5', 0]);
    assert_eq!(call(&mut kernel, Syscall::FsRead4b, TAG, 2, ret), 0);
    assert_eq!(kernel.ram.read(ret, 5), [b'8', b'9', b'a', b'b', 0]);
    assert_eq!(fault(&mut kernel, Syscall::FsRead4b, TAG, 3, ret), Halt::Fault(Fault::OutOfFile));
    let in_use = spin::Mutex::new(());
    let mut kernel = boot(&in_use);
    fs_write(&mut kernel, &filename, b"0123456789ab").unwrap();
    kernel.ram.write(TAG, &pass_tag(&filename));
    assert_eq!(
        fault(&mut kernel, Syscall::FsRead2b, TAG, 0, ret + 1),
        Halt::Fault(Fault::Misaligned)
    );
    let in_use = spin::Mutex::new(());
    let mut kernel = boot(&in_use);
    fs_write(&mut kernel, &filename, b"0123456789ab").unwrap();
    kernel.ram.write(TAG, &pass_tag(&filename));
    // Writes of one, two and four bytes
    assert_eq!(call(&mut kernel, Syscall::FsWrite1b, TAG, 0, 0x1141), 0);
    assert_eq!(call(&mut kernel, Syscall::FsWrite2b, TAG, 2, 0x11_4342), 0);
    assert_eq!(call(&mut kernel, Syscall::FsWrite4b, TAG, 8, 0x4847_4645), 0);
    let mut all = [0; 12];
    fs_read(&mut kernel, &filename, &mut all).unwrap();
    assert_eq!(&all, b"A1BC4567EFGH");
    // Of a file that is not there
    kernel.ram.write(TAG, &pass_tag(&[2, 1, 2]));
    assert_eq!(
        call(&mut kernel, Syscall::FsWrite1b, TAG, 0, 0),
        fs_error_to_usize(Error::NoSuchTag)
    );
    assert_eq!(
        call(&mut kernel, Syscall::FsRead1b, TAG, 0, ret),
        fs_error_to_usize(Error::NoSuchTag)
    );
    assert_eq!(
        call(&mut kernel, Syscall::FsLength, TAG + 1, 3, ret),
        fs_error_to_usize(Error::NoSuchTag)
    );
}

#[test]
fn fs_syscalls_return_a_pointer_to_a_file_in_flash() {
    let in_use = spin::Mutex::new(());
    let mut kernel = boot(&in_use);
    let filename = [2, 1, 1];
    fs_write(&mut kernel, &filename, b"in place").unwrap();
    kernel.ram.write(TAG, &pass_tag(&filename));
    let (ptr, len) = (BUF, BUF + 4);
    assert_eq!(call(&mut kernel, Syscall::FsReadInplace, TAG, ptr, len), 0);
    let addr = kernel.ram.read_word(ptr) as usize;
    assert_eq!(kernel.ram.read_word(len), 8);
    assert_eq!(kernel.fs.flash().peek(addr, 8).unwrap(), b"in place");
    // The first sector of the filesystem is the second of the flash
    assert_eq!(addr, 0x0800_0000 + 0x4000 + 2 + 3);
    assert_eq!(kernel.fs.next_block(SectorID(0)), 2 + 1 + 3 + 8);
}

#[test]
fn fs_syscalls_check_addresses_and_rights() {
    let in_use = spin::Mutex::new(());
    let mut kernel = boot(&in_use);
    // The package list is written by the context 2 only
    kernel.ram.write(TAG, &pass_tag(&[0]));
    assert_eq!(fault(&mut kernel, Syscall::FsWrite, TAG, BUF, 4), Halt::Fault(Fault::Denied));
    // An applet is not written as other files are
    let in_use = spin::Mutex::new(());
    let mut kernel = boot(&in_use);
    kernel.ram.write(TAG, &pass_tag(&[2, 1, 1]));
    assert_eq!(
        fault(&mut kernel, Syscall::FsWriteApplet, TAG, BUF, 4),
        Halt::Fault(Fault::Denied)
    );
    // A field of an applet is read by the applet only
    let in_use = spin::Mutex::new(());
    let mut kernel = boot(&in_use);
    kernel.ram.write(TAG, &[3, 1, 0, 0, 0]);
    assert_eq!(fault(&mut kernel, Syscall::FsExists, TAG, 5, 0), Halt::Fault(Fault::Denied));
    // A tag says its length, which is under 32
    let in_use = spin::Mutex::new(());
    let mut kernel = boot(&in_use);
    kernel.ram.write(TAG, &[32; 33]);
    assert_eq!(fault(&mut kernel, Syscall::FsRead, TAG, BUF, 4), Halt::Fault(Fault::BadTag));
    // No context may read or write an empty tag, or one that lacks the byte
    // that its rule reads
    let in_use = spin::Mutex::new(());
    let mut kernel = boot(&in_use);
    assert_eq!(fault(&mut kernel, Syscall::FsExists, TAG, 0, 0), Halt::Fault(Fault::Denied));
    let in_use = spin::Mutex::new(());
    let mut kernel = boot(&in_use);
    kernel.ram.write(TAG, &[3]);
    assert_eq!(fault(&mut kernel, Syscall::FsErase, TAG, 1, 0), Halt::Fault(Fault::Denied));
    // Nothing is read or written out of the range of the context
    let in_use = spin::Mutex::new(());
    let mut kernel = boot(&in_use);
    kernel.ram.write(TAG, &pass_tag(&[2, 1, 1]));
    assert_eq!(
        fault(&mut kernel, Syscall::FsRead, TAG, 0x2002_0000 - 2, 4),
        Halt::Fault(Fault::BadAddress)
    );
    let in_use = spin::Mutex::new(());
    let mut kernel = boot(&in_use);
    assert_eq!(
        fault(&mut kernel, Syscall::FsRead, 0x0805_FFF0, BUF, 4),
        Halt::Fault(Fault::BadAddress)
    );
    let in_use = spin::Mutex::new(());
    let mut kernel = boot(&in_use);
    assert_eq!(
        fault(&mut kernel, Syscall::UsartOutput, usize::MAX - 2, 8, 0),
        Halt::Fault(Fault::BadAddress)
    );
    // In the range of the context 0, and out of the memory
    let in_use = spin::Mutex::new(());
    let mut kernel = boot(&in_use);
    assert_eq!(
        fault(&mut kernel, Syscall::FsExists, 0x2001_8000, 1, 0),
        Halt::Fault(Fault::BadAddress)
    );
}

#[test]
fn fs_syscalls_read_tags_in_the_program() {
    let in_use = spin::Mutex::new(());
    let mut kernel = boot(&in_use);
    // The program is erased flash: a tag of 0xFF there is of no kind
    assert_eq!(
        fault(&mut kernel, Syscall::FsExists, 0x0806_0000, 3, 0),
        Halt::Fault(Fault::Denied)
    );
}

#[test]
fn usart_syscall_outputs_bytes() {
    let in_use = spin::Mutex::new(());
    let mut kernel = boot(&in_use);
    kernel.ram.write(BUF, b"hello world");
    assert_eq!(call(&mut kernel, Syscall::UsartOutput, BUF, 5, 0), 0);
    assert_eq!(call(&mut kernel, Syscall::UsartOutput, BUF + 5, 6, 0), 0);
    assert_eq!(kernel.output, b"hello world");
}

#[test]
fn applet_syscalls_reboot() {
    let in_use = spin::Mutex::new(());
    let mut kernel = boot(&in_use);
    // The context 2 installs the applets
    let (_, sp2) = syscall(&mut kernel, SP0, Syscall::RemoteCall, 2, 0, 0).unwrap();
    let tag = sp2 - 0x100;
    let buf = sp2 - 0x200;
    kernel.ram.write(tag, &pass_tag(&[1, 9]));
    kernel.ram.write(buf, b"applet code");
    assert_eq!(
        syscall(&mut kernel, sp2 - 0x300, Syscall::FsWriteApplet, tag, buf, 11).unwrap_err(),
        Halt::Reboot
    );
    // After the reboot the applet is in the sector of the applets
    let device = kernel.fs.into_flash().into_device();
    assert!(matches!(
        privileged_fs_init(&in_use, flash_device().unwrap()),
        Ok(_)
    ));
    let mut kernel = boot_on(&in_use, device);
    let b = kernel.fs.read(&[1, 9]).unwrap();
    assert_eq!(b.as_slice(kernel.fs.flash()), b"applet code");
    assert_eq!(b.sector(), kernel.fs.sector(SectorID(4)));
    assert_eq!(kernel.fs.flash().peek(0x0802_0000 + 4, 11).unwrap(), b"applet code");
    assert!(matches!(
        privileged_fs_init(&in_use, flash_device().unwrap()),
        Err(FsInitError::FlashInit(_))
    ));
    // And is erased by a syscall that reboots too
    let (_, sp2) = syscall(&mut kernel, SP0, Syscall::RemoteCall, 2, 0, 0).unwrap();
    kernel.ram.write(tag, &[1, 9]);
    assert_eq!(
        syscall(&mut kernel, sp2 - 0x300, Syscall::FsEraseApplet, tag, 2, 0).unwrap_err(),
        Halt::Reboot
    );
    assert!(!kernel.fs.has_tag(&[1, 9]));
    let device = kernel.fs.into_flash().into_device();
    let kernel = boot_on(&in_use, device);
    assert!(!kernel.fs.has_tag(&[1, 9]));
}
