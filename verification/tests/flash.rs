use mcu_runtime::constants::{flash_device, flash_layout, flash_sectors, FLASH_BEGIN};
use mcu_runtime::ffi::{flash_erase, flash_erase0, flash_read, flash_write};
use mcu_runtime::flash::{overlap, Flash, IOError, InitError, Sector, SectorID};
use mcu_runtime::flash_ll;

fn new_flash(in_use: &spin::Mutex<()>) -> Flash<'_> {
    Flash::new(in_use, flash_device().unwrap(), &flash_sectors()).unwrap()
}

/// The sector 6, erased, then holding the bytes 0 to 127
fn written_sector(flash: &mut Flash) -> Sector {
    let sector = flash.sector(SectorID(6));
    sector.erase(flash).unwrap();
    let b = sector.with_writer(flash, 0, 128).unwrap();
    for i in 0..128 {
        b.write(flash, i, i as u8).unwrap();
    }
    b.release(flash);
    sector
}

fn erased_sector(flash: &mut Flash) -> Sector {
    let sector = flash.sector(SectorID(7));
    sector.erase(flash).unwrap();
    sector
}

fn read(sector: &Sector, flash: &mut Flash, start: usize, length: usize) -> Vec<u8> {
    let b = sector.read(flash, start, length).unwrap();
    let v = b.as_slice(flash).to_vec();
    b.release(flash);
    v
}

#[test]
fn overlap_should_see_overlapping_ranges() {
    assert!(overlap(1, 3, 1, 3));
    assert!(overlap(1, 3, 3, 2));
    assert!(overlap(2, 3, 2, 1));
    assert!(overlap(5, 1, 5, 1));
    assert!(overlap(4, 5, 6, 1));
    assert!(overlap(2, 5, 3, 0));
    assert!(overlap(4, 0, 2, 6));
}

#[test]
fn overlap_should_not_see_non_overlapping_ranges() {
    assert!(!overlap(1, 3, 4, 1));
    assert!(!overlap(3, 5, 1, 2));
}

#[test]
fn flash_should_fail_when_borrowed_twice() {
    let in_use = spin::Mutex::new(());
    let _flash = new_flash(&in_use);
    let twice = Flash::new(&in_use, flash_device().unwrap(), &[]);
    assert!(twice.is_err());
    if let Err(x) = twice {
        assert_eq!(x, InitError::FlashInUse);
    }
}

#[test]
fn flash_can_be_taken_again_once_given_back() {
    let in_use = spin::Mutex::new(());
    let flash = new_flash(&in_use);
    let device = flash.into_device();
    assert!(Flash::new(&in_use, device, &flash_sectors()).is_ok());
}

#[test]
fn flash_should_unlock_when_asked_to() {
    let in_use = spin::Mutex::new(());
    let mut flash = new_flash(&in_use);
    assert!(!flash.is_writing());
    flash.with_flash_unlocked().unwrap();
    assert!(flash.is_writing());
    assert_eq!(flash.with_flash_unlocked(), Err(IOError::LockedError));
    flash.relock();
    assert!(!flash.is_writing());
}

#[test]
fn flash_should_return_a_sector_when_asked_to() {
    let in_use = spin::Mutex::new(());
    let flash = new_flash(&in_use);
    let s = flash.sector(SectorID(2));
    assert_eq!(s.num(), 2);
    assert_eq!(s.start(), flash_layout()[2].0);
    assert_eq!(s.len(), flash_layout()[2].1);
    assert_eq!(s.id(), SectorID(2));
    assert_eq!(flash.begin_addr(), FLASH_BEGIN);
    assert_eq!(flash.sector_len(), 8);
}

#[test]
fn sector_should_allow_overlapping_read_locks() {
    let in_use = spin::Mutex::new(());
    let mut flash = new_flash(&in_use);
    let sector = written_sector(&mut flash);
    sector.lock(&mut flash, false, 1, 5).unwrap();
    sector.lock(&mut flash, false, 3, 8).unwrap();
    sector.lock(&mut flash, false, 0, 3).unwrap();
    sector.lock(&mut flash, false, 124, 2).unwrap();
}

#[test]
fn sector_should_allow_non_overlapping_write_locks() {
    let in_use = spin::Mutex::new(());
    let mut flash = new_flash(&in_use);
    let sector = written_sector(&mut flash);
    sector.lock(&mut flash, true, 1, 4).unwrap();
    sector.lock(&mut flash, true, 5, 2).unwrap();
    sector.lock(&mut flash, true, 0, 1).unwrap();
}

#[test]
fn sector_should_disallow_overlapping_read_and_write_locks() {
    let in_use = spin::Mutex::new(());
    let mut flash = new_flash(&in_use);
    let sector = written_sector(&mut flash);
    sector.lock(&mut flash, true, 3, 4).unwrap();
    assert_eq!(sector.lock(&mut flash, true, 2, 2), Err(IOError::LockedError));
    assert_eq!(sector.lock(&mut flash, false, 2, 2), Err(IOError::LockedError));
    assert_eq!(sector.lock(&mut flash, false, 4, 1), Err(IOError::LockedError));
    sector.lock(&mut flash, false, 12, 3).unwrap();
    assert_eq!(sector.lock(&mut flash, true, 7, 6), Err(IOError::LockedError));
    assert_eq!(sector.lock(&mut flash, true, 14, 2), Err(IOError::LockedError));
    sector.lock(&mut flash, false, 7, 6).unwrap();
}

#[test]
fn sector_should_unlock_correctly() {
    let in_use = spin::Mutex::new(());
    let mut flash = new_flash(&in_use);
    let sector = written_sector(&mut flash);
    sector.lock(&mut flash, true, 3, 5).unwrap();
    assert_eq!(sector.lock(&mut flash, true, 7, 1), Err(IOError::LockedError));
    sector.unlock(&mut flash, true, 3, 5);
    sector.lock(&mut flash, false, 7, 1).unwrap();
    assert_eq!(sector.lock(&mut flash, true, 7, 5), Err(IOError::LockedError));
    sector.unlock(&mut flash, false, 7, 1);
    sector.lock(&mut flash, true, 7, 5).unwrap();
}

#[test]
fn sector_should_refuse_what_is_out_of_bounds() {
    let in_use = spin::Mutex::new(());
    let mut flash = new_flash(&in_use);
    let sector = flash.sector(SectorID(1));
    let len = sector.len();
    assert_eq!(sector.read(&mut flash, len, 1).err(), Some(IOError::OutOfBounds));
    assert_eq!(sector.read(&mut flash, 0, len + 1).err(), Some(IOError::OutOfBounds));
    assert_eq!(sector.with_writer(&mut flash, len - 1, 2).err(), Some(IOError::OutOfBounds));
    assert!(sector.read(&mut flash, len - 1, 1).is_ok());
}

#[test]
fn sector_should_read_data_previously_written() {
    let in_use = spin::Mutex::new(());
    let mut flash = new_flash(&in_use);
    let sector = written_sector(&mut flash);
    let b = sector.read(&mut flash, 1, 3).unwrap();
    assert_eq!(read(&sector, &mut flash, 2, 4), [2, 3, 4, 5]);
    assert_eq!(b.as_slice(&flash), [1, 2, 3]);
    let inner = b.read(&mut flash, 1, 1).unwrap();
    assert_eq!(inner.as_slice(&flash), [2]);
    assert_eq!(b.get(&flash, 2), Some(3));
    assert_eq!(b.get(&flash, 3), None);
    assert_eq!(b.len(), 3);
}

#[test]
fn sector_should_allow_rewriting_at_the_same_position() {
    let in_use = spin::Mutex::new(());
    let mut flash = new_flash(&in_use);
    let sector = written_sector(&mut flash);
    let b = sector.with_writer(&mut flash, 3, 1).unwrap();
    b.write(&mut flash, 0, 6).unwrap();
    b.release(&mut flash);
    assert_eq!(read(&sector, &mut flash, 3, 1), [2]);
}

#[test]
fn sector_should_erase() {
    let in_use = spin::Mutex::new(());
    let mut flash = new_flash(&in_use);
    let sector = written_sector(&mut flash);
    sector.erase(&mut flash).unwrap();
    assert_eq!(read(&sector, &mut flash, 4, 2), [0xFF, 0xFF]);
}

#[test]
fn sector_should_fail_writing_at_a_currently_held_for_reading_position() {
    let in_use = spin::Mutex::new(());
    let mut flash = new_flash(&in_use);
    let sector = written_sector(&mut flash);
    {
        let b = sector.read(&mut flash, 4, 2).unwrap();
        assert_eq!(b.as_slice(&flash), [4, 5]);
        assert_eq!(sector.with_writer(&mut flash, 4, 1).err(), Some(IOError::LockedError));
        assert_eq!(b.as_slice(&flash), [4, 5]);
        assert_eq!(sector.erase(&mut flash), Err(IOError::LockedError));
        assert_eq!(b.as_slice(&flash), [4, 5]);
        b.release(&mut flash);
    }
    sector.erase(&mut flash).unwrap();
    assert_eq!(read(&sector, &mut flash, 4, 2), [0xFF, 0xFF]);
}

#[test]
fn sector_should_fail_trying_to_write_to_two_sectors_at_the_same_time() {
    let in_use = spin::Mutex::new(());
    let mut flash = new_flash(&in_use);
    let sector = written_sector(&mut flash);
    let s2 = flash.sector(SectorID(2));
    let b = sector.with_writer(&mut flash, 4, 1).unwrap();
    assert_eq!(s2.with_writer(&mut flash, 2, 1).err(), Some(IOError::LockedError));
    b.release(&mut flash);
    assert!(s2.with_writer(&mut flash, 2, 1).is_ok());
}

#[test]
fn blocks_should_point_to_its_parent_sector() {
    let in_use = spin::Mutex::new(());
    let mut flash = new_flash(&in_use);
    let sector = erased_sector(&mut flash);
    assert_eq!(sector.read(&mut flash, 0, 1).unwrap().sector(), sector);
}

#[test]
fn blocks_should_have_the_right_beginning_index() {
    let in_use = spin::Mutex::new(());
    let mut flash = new_flash(&in_use);
    let sector = erased_sector(&mut flash);
    assert_eq!(sector.read(&mut flash, 42, 1).unwrap().start(), 42);
}

#[test]
fn blocks_should_correctly_write_a_block_of_data_at_once() {
    let in_use = spin::Mutex::new(());
    let mut flash = new_flash(&in_use);
    let sector = erased_sector(&mut flash);
    let b = sector.with_writer(&mut flash, 0, 8).unwrap();
    b.write_block(&mut flash, 0, &[0, 1, 2, 3, 4, 5, 6, 7]).unwrap();
    b.release(&mut flash);
    assert_eq!(read(&sector, &mut flash, 3, 4), [3, 4, 5, 6]);
}

#[test]
fn blocks_should_correctly_write_a_small_unaligned_block_of_data() {
    let in_use = spin::Mutex::new(());
    let mut flash = new_flash(&in_use);
    let sector = erased_sector(&mut flash);
    let b = sector.with_writer(&mut flash, 0, 8).unwrap();
    b.write_block(&mut flash, 1, &[42]).unwrap();
    b.release(&mut flash);
    assert_eq!(read(&sector, &mut flash, 0, 3), [0xFF, 42, 0xFF]);
}

#[test]
fn blocks_should_correctly_zero_out_a_block_of_data_at_once() {
    let in_use = spin::Mutex::new(());
    let mut flash = new_flash(&in_use);
    let sector = erased_sector(&mut flash);
    let b = sector.with_writer(&mut flash, 0, 8).unwrap();
    b.zero_block(&mut flash, 0, 8).unwrap();
    b.release(&mut flash);
    assert_eq!(read(&sector, &mut flash, 6, 2), [0, 0]);
}

#[test]
fn blocks_refuse_writes_out_of_their_range() {
    let in_use = spin::Mutex::new(());
    let mut flash = new_flash(&in_use);
    let sector = erased_sector(&mut flash);
    let b = sector.with_writer(&mut flash, 4, 4).unwrap();
    assert_eq!(b.write(&mut flash, 4, 0), Err(IOError::OutOfBounds));
    assert_eq!(b.write_block(&mut flash, 2, &[1, 2, 3]), Err(IOError::OutOfBounds));
    assert_eq!(b.zero_block(&mut flash, 0, 5), Err(IOError::OutOfBounds));
    b.release(&mut flash);
    assert_eq!(read(&sector, &mut flash, 4, 4), [0xFF; 4]);
}

#[test]
fn device_programs_words_by_clearing_bits() {
    let mut dev = flash_device().unwrap();
    assert!(flash_ll::locked(&dev));
    assert_eq!(flash_ll::has_error(&dev), 0);
    assert!(!flash_ll::currently_busy(&dev));
    assert_eq!(flash_ll::read(&dev, 8), 0xFFFF_FFFF);
    flash_ll::unlock(&mut dev);
    assert!(!flash_ll::locked(&dev));
    flash_ll::write(&mut dev, 8, 0x1234_5678);
    assert_eq!(flash_ll::read(&dev, 8), 0x1234_5678);
    assert_eq!(&dev.memory()[8..12], &[0x78, 0x56, 0x34, 0x12]);
    flash_ll::write(&mut dev, 8, 0xFF00_FF0F);
    assert_eq!(flash_ll::read(&dev, 8), 0x1200_5608);
    flash_ll::erase(&mut dev, 0);
    assert_eq!(flash_ll::read(&dev, 8), 0xFFFF_FFFF);
    flash_ll::lock(&mut dev);
    assert!(flash_ll::locked(&dev));
    let described = flash_ll::sectors(&dev);
    let expected = flash_sectors();
    assert_eq!(described.len(), expected.len());
    for (a, b) in described.iter().zip(expected.iter()) {
        assert_eq!((a.num, a.start, a.length), (b.num, b.start, b.length));
    }
}

#[test]
fn raw_access_tells_errors_as_codes() {
    let in_use = spin::Mutex::new(());
    let mut flash = new_flash(&in_use);
    assert_eq!(flash_read(&mut flash, 3, 5), (0xFF, 0));
    assert_eq!(flash_write(&mut flash, 3, 5, 0xA5), 0);
    assert_eq!(flash_read(&mut flash, 3, 5), (0xA5, 0));
    assert_eq!(flash_write(&mut flash, 3, 5, 0x0F), 0);
    assert_eq!(flash_read(&mut flash, 3, 5), (0x05, 0));
    assert_eq!(flash_read(&mut flash, 3, 4), (0xFF, 0));
    // Out of bounds
    assert_eq!(flash_write(&mut flash, 3, 0x4000, 0), 2);
    assert_eq!(flash_read(&mut flash, 3, 0x4000), (0, 2));
    assert_eq!(flash_read(&mut flash, 3, 0x3FFF), (0xFF, 0));
    // Locked
    let sector = flash.sector(SectorID(3));
    let held = sector.read(&mut flash, 4, 4).unwrap();
    assert_eq!(flash_write(&mut flash, 3, 5, 0), 1);
    assert_eq!(flash_erase(&mut flash, 3), 1);
    assert_eq!(flash_erase0(&mut flash, 3), 1);
    assert_eq!(flash_read(&mut flash, 3, 5), (0x05, 0));
    assert_eq!(flash_write(&mut flash, 3, 8, 0), 0);
    held.release(&mut flash);
    assert_eq!(flash_erase0(&mut flash, 3), 0);
    assert_eq!(read(&sector, &mut flash, 0, 16), [0; 16]);
    assert_eq!(read(&sector, &mut flash, 0x3FF0, 16), [0; 16]);
    assert_eq!(flash_erase(&mut flash, 3), 0);
    assert_eq!(read(&sector, &mut flash, 0, 16), [0xFF; 16]);
    // Nothing is written while the flash is open in writing
    let writer = sector.with_writer(&mut flash, 0, 4).unwrap();
    assert_eq!(flash_write(&mut flash, 2, 0, 0), 1);
    assert_eq!(flash_erase(&mut flash, 2), 1);
    assert_eq!(flash_read(&mut flash, 2, 0), (0xFF, 0));
    writer.release(&mut flash);
    assert_eq!(flash_write(&mut flash, 2, 0, 0), 0);
}
