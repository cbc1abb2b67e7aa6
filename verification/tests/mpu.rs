use mcu_runtime::constants::{ram_begin, ram_size};
use mcu_runtime::mpu::{is_protectable, Executable, Mpu, Region, Writable};
use mcu_runtime::mpu_ll::{PROT_EXEC, PROT_NONE, PROT_READ, PROT_WRITE};

fn setup() -> Mpu {
    let mut mpu = Mpu::get();
    assert!(!mpu.ready());
    mpu.setup();
    assert!(mpu.ready());
    mpu
}

fn userland(begin: usize, size: usize) -> Mpu {
    let mut mpu = setup();
    mpu.setup_unpriv_regions();
    mpu.switch_userland(begin, size);
    mpu
}

#[test]
fn mpu_allows_rw_access_to_ram_when_privileged() {
    let mpu = setup();
    assert_eq!(mpu.try_access(true, ram_begin(), true, ram_begin()), Ok(()));
    assert_eq!(mpu.try_access(true, ram_begin(), false, ram_begin()), Ok(()));
    assert_eq!(mpu.allows_addr(true, ram_begin()), PROT_READ | PROT_WRITE | PROT_EXEC);
}

#[test]
fn mpu_disallows_write_access_to_ram_when_unprivileged() {
    let mpu = setup();
    assert_eq!(mpu.try_access(false, ram_begin() + 42, true, ram_begin()), Err(0x2a));
    assert_eq!(mpu.allows_addr(false, ram_begin() + 42), PROT_NONE);
}

#[test]
fn mpu_allows_rw_access_out_of_the_protected_region_even_if_inside_the_same_page() {
    let mut mpu = setup();
    let ram = ram_begin();
    mpu.set_unprivileged_region(Region::new(0), ram, 128, Writable::Yes, Executable::No, None);
    mpu.set_unprivileged_region(Region::new(1), ram + 32, 32, Writable::No, Executable::No, None);
    assert_eq!(mpu.try_access(false, ram + 31, true, ram), Ok(()));
    assert_eq!(mpu.try_access(false, ram + 64, true, ram), Ok(()));
    // The region with the highest number decides where two overlap
    assert_eq!(mpu.try_access(false, ram + 40, true, ram), Err(40));
    assert_eq!(mpu.try_access(false, ram + 40, false, ram), Ok(()));
    assert_eq!(mpu.allows_addr(false, ram + 40), PROT_READ);
    assert_eq!(mpu.allows_addr(false, ram + 64), PROT_READ | PROT_WRITE);
}

#[test]
fn mpu_disallows_write_access_to_ram_when_configured() {
    let mut mpu = setup();
    let ram = ram_begin();
    mpu.set_unprivileged_region(Region::new(0), ram, 32, Writable::No, Executable::No, None);
    assert_eq!(mpu.try_access(false, ram + 3, true, ram), Err(0x3));
    assert_eq!(mpu.try_access(false, ram + 3, false, ram), Ok(()));
}

#[test]
fn mpu_does_not_allow_off_by_one_lower_bound() {
    let mut mpu = setup();
    let ram = ram_begin();
    mpu.set_unprivileged_region(Region::new(0), ram + 32, 32, Writable::No, Executable::No, None);
    assert_eq!(mpu.try_access(false, ram + 32, true, ram), Err(0x20));
    assert_eq!(mpu.try_access(false, ram + 32, false, ram), Ok(()));
    assert_eq!(mpu.try_access(false, ram + 31, false, ram), Err(31));
}

#[test]
fn mpu_does_not_allow_off_by_one_upper_bound() {
    let mut mpu = setup();
    let ram = ram_begin();
    mpu.set_unprivileged_region(Region::new(0), ram + 32, 32, Writable::No, Executable::No, None);
    assert_eq!(mpu.try_access(false, ram + 63, true, ram), Err(0x3f));
    assert_eq!(mpu.try_access(false, ram + 63, false, ram), Ok(()));
    assert_eq!(mpu.try_access(false, ram + 64, false, ram), Err(64));
}

#[test]
fn mpu_window_bounds() {
    let begin = 0x2000_8000;
    let size = 0x8000;
    let mpu = userland(begin, size);
    assert_eq!(mpu.try_access(false, begin + size - 1, true, begin), Ok(()));
    assert_eq!(mpu.try_access(false, begin + size, true, begin), Err(size));
    assert_eq!(mpu.try_access(false, begin, true, begin), Ok(()));
    assert_eq!(mpu.try_access(false, begin - 1, true, begin), Err(usize::MAX));
    assert_eq!(mpu.try_access(false, begin - 1, false, begin), Err(usize::MAX));
    // Privileged code reads and writes everywhere
    assert_eq!(mpu.try_access(true, begin + size, true, begin), Ok(()));
    assert_eq!(mpu.try_access(true, begin - 1, true, begin), Ok(()));
}

#[test]
fn mpu_denies_what_is_outside_the_window() {
    let mpu = userland(0x2000_8000, 0x8000);
    // Inside the RAM, outside the window
    let ram = ram_begin();
    assert_eq!(mpu.try_access(false, 0x2001_0000, true, 0x2000_8000), Err(0x8000));
    assert_eq!(mpu.try_access(false, 0x2001_0000, false, 0x2000_8000), Err(0x8000));
    assert!(0x2001_0000 < ram + ram_size());
    assert_eq!(mpu.try_access(false, 0x2000_4000, true, ram), Err(0x4000));
}

#[test]
fn mpu_fixed_regions() {
    let mpu = userland(0x2000_8000, 0x8000);
    // The applets are read
    assert_eq!(mpu.allows_addr(false, 0x0802_0000), PROT_READ);
    assert_eq!(mpu.allows_addr(false, 0x0803_FFFF), PROT_READ);
    assert_eq!(mpu.allows_addr(false, 0x0804_0000), PROT_NONE);
    // The shared data is read, and written from its middle on
    assert_eq!(mpu.allows_addr(false, 0x2000_0000), PROT_READ);
    assert_eq!(mpu.allows_addr(false, 0x2000_07FF), PROT_READ);
    assert_eq!(mpu.allows_addr(false, 0x2000_0800), PROT_READ | PROT_WRITE);
    assert_eq!(mpu.allows_addr(false, 0x2000_0FFF), PROT_READ | PROT_WRITE);
    assert_eq!(mpu.allows_addr(false, 0x2000_1000), PROT_NONE);
    // The program is read and executed
    assert_eq!(mpu.allows_addr(false, 0x0806_0000), PROT_READ | PROT_EXEC);
    assert_eq!(mpu.allows_addr(false, 0x0807_FFFF), PROT_READ | PROT_EXEC);
    assert_eq!(mpu.allows_addr(false, 0x0808_0000), PROT_NONE);
    // The window is read and written
    assert_eq!(mpu.allows_addr(false, 0x2000_8000), PROT_READ | PROT_WRITE);
}

#[test]
fn mpu_switches_the_window_only() {
    let mut mpu = userland(0x2000_8000, 0x8000);
    mpu.switch_userland(0x2001_0000, 0x8000);
    assert_eq!(mpu.allows_addr(false, 0x2000_8000), PROT_NONE);
    assert_eq!(mpu.allows_addr(false, 0x2001_0000), PROT_READ | PROT_WRITE);
    assert_eq!(mpu.allows_addr(false, 0x2000_0800), PROT_READ | PROT_WRITE);
    assert_eq!(mpu.allows_addr(false, 0x0806_0000), PROT_READ | PROT_EXEC);
}

#[test]
fn mpu_protects_aligned_powers_of_two() {
    assert!(is_protectable(0x2000_8000, 0x8000));
    assert!(is_protectable(0x2000_0020, 32));
    assert!(!is_protectable(0x2000_0020, 16));
    assert!(!is_protectable(0x2000_0020, 64));
    assert!(!is_protectable(0x2000_0000, 48));
    assert!(!is_protectable(0x2000_0000, 0));
}
