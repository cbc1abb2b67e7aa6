use mcu_runtime::constants::{flash_device, flash_sectors};
use mcu_runtime::flash::{self, Flash, Sector};
use mcu_runtime::format::{block_len, crc8, VALIDITY_MASK};
use mcu_runtime::fs::{erase_invalid_data, Error, FileSystem, SectorID};

const DEFRAG: SectorID = SectorID(0);
const APPLET: SectorID = SectorID(5);

fn new_flash(in_use: &spin::Mutex<()>) -> Flash<'_> {
    Flash::new(in_use, flash_device().unwrap(), &flash_sectors()).unwrap()
}

/// The sectors of the filesystem: those of the flash from the second to the
/// seventh
fn fs_sectors(flash: &Flash) -> Vec<Sector> {
    (1..7).map(|i| flash.sector(flash::SectorID(i))).collect()
}

fn mount<'a>(flash: Flash<'a>) -> FileSystem<'a> {
    let sectors = fs_sectors(&flash);
    FileSystem::new(flash, &sectors, DEFRAG, APPLET).unwrap()
}

fn reboot<'a>(fs: FileSystem<'a>) -> FileSystem<'a> {
    mount(fs.into_flash())
}

fn read(fs: &FileSystem, tag: &[u8]) -> Result<Vec<u8>, Error> {
    fs.read(tag).map(|b| b.as_slice(fs.flash()).to_vec())
}

fn raw(flash: &Flash, sector: usize, start: usize, length: usize) -> Vec<u8> {
    let s = flash.sector(flash::SectorID(sector));
    flash.peek(flash.begin_addr() + s.start() + start, length).unwrap().to_vec()
}

fn put(flash: &mut Flash, sector: usize, start: usize, bytes: &[u8]) {
    let s = flash.sector(flash::SectorID(sector));
    let b = s.with_writer(flash, start, bytes.len()).unwrap();
    b.write_block(flash, 0, bytes).unwrap();
    b.release(flash);
}

/// The block of a file, as the flash holds it
fn image(validity: u8, tag: &[u8], data: &[u8]) -> Vec<u8> {
    assert!(data.len() <= 0xFF);
    let mut v = vec![validity | ((tag.len() as u8) << 1), data.len() as u8];
    v.extend_from_slice(tag);
    v.extend_from_slice(data);
    let crc = crc8(v[0] & !VALIDITY_MASK, &v[1..]);
    v.push(crc);
    v
}

const VALID: u8 = 0b01000000;
const NO_LONGER: u8 = 0b00000000;
const NOT_YET: u8 = 0b11000000;

#[test]
fn fs_correctly_erases_invalid_sectors() {
    let in_use = spin::Mutex::new(());
    let mut flash = new_flash(&in_use);
    let sector = flash.sector(flash::SectorID(0));
    let b = sector.with_writer(&mut flash, 0, 16).unwrap();
    b.write_block(&mut flash, 0, &[0, 1, 2, 3, 0xFF, 0xFF, 6, 7, 0xFF, 0xFF, 0xFF]).unwrap();
    b.release(&mut flash);
    assert_eq!(raw(&flash, 0, 0, 10), [0, 1, 2, 3, 0xFF, 0xFF, 6, 7, 0xFF, 0xFF]);
    erase_invalid_data(&mut flash, &sector, 2).unwrap();
    assert_eq!(raw(&flash, 0, 0, 10), [0, 1, 0, 0, 0, 0, 0, 0, 0xFF, 0xFF]);
}

#[test]
fn fs_returns_valid_metadata() {
    let in_use = spin::Mutex::new(());
    let flash = new_flash(&in_use);
    let sectors = fs_sectors(&flash);
    let fs = mount(flash);
    assert_eq!(fs.sector(SectorID(0)), sectors[0]);
    assert_eq!(fs.sector_ids(), (0..6).map(SectorID).collect::<Vec<SectorID>>());
    assert_eq!(fs.next_block(SectorID(0)), 0);
    assert_eq!(fs.valid_size(SectorID(0)), 0);
    assert_eq!(fs.defrag_sector(), DEFRAG);
    assert_eq!(fs.applet_sector(), APPLET);
    let with_ids = fs.sectors_with_ids();
    assert_eq!(with_ids.len(), 6);
    assert_eq!(with_ids[3], (SectorID(3), sectors[3]));
}

#[test]
fn fs_correctly_finds_available_sectors() {
    let in_use = spin::Mutex::new(());
    let mut fs = mount(new_flash(&in_use));
    assert_eq!(fs.available_sector(1, b"").unwrap(), SectorID(1));
    assert!(fs.is_available(SectorID(2), 1, b""));
    // A block as long as the sector has room on an empty sector, but it
    // could not be defragmented any more
    let len = fs.sector(SectorID(1)).len();
    assert!(!fs.is_available(SectorID(1), len, b""));
    assert!(fs.is_available(SectorID(1), len - 1, b""));
    // The first sector is full once it holds a block of its length
    let big = vec![7u8; len - 1 - 8];
    fs.write(b"k", &big).unwrap();
    assert_eq!(fs.next_block(SectorID(1)), block_len(1, big.len()));
    assert_eq!(fs.available_sector(100, b"").unwrap(), SectorID(2));
    // But for the file that it holds, whose block would be invalidated
    assert_eq!(fs.available_sector(100, b"k").unwrap(), SectorID(2));
}

#[test]
fn fs_defragments() {
    let in_use = spin::Mutex::new(());
    let mut fs = mount(new_flash(&in_use));
    // 1 + 1 + 1 + 2 + 1 = 6 bytes on disk per entry
    fs.write(b"a", b"ta").unwrap();
    fs.write(b"b", b"tb").unwrap();
    fs.write(b"c", b"tc").unwrap();
    fs.write(b"c", b"tc").unwrap();
    assert_eq!(fs.next_block(SectorID(0)), 0);
    assert_eq!(fs.next_block(SectorID(1)), 24);
    assert_eq!(fs.valid_size(SectorID(1)), 18);
    fs.defragment(SectorID(1)).unwrap();
    assert_eq!(fs.next_block(SectorID(0)), 0);
    assert_eq!(fs.next_block(SectorID(1)), 18);
    assert_eq!(fs.valid_size(SectorID(1)), 18);
    assert_eq!(read(&fs, b"a").unwrap(), b"ta");
    assert_eq!(read(&fs, b"b").unwrap(), b"tb");
    assert_eq!(read(&fs, b"c").unwrap(), b"tc");
    // The sector reserved for defragmenting is erased again
    let len = fs.sector(DEFRAG).len();
    assert_eq!(raw(fs.flash(), 1, 0, 32), [0xFF; 32]);
    assert_eq!(raw(fs.flash(), 1, len - 1, 1), [0xFF]);
    // And the files are there after a reboot
    let fs = reboot(fs);
    assert_eq!(fs.next_block(SectorID(1)), 18);
    assert_eq!(fs.valid_size(SectorID(1)), 18);
    assert_eq!(read(&fs, b"c").unwrap(), b"tc");
}

#[test]
fn fs_writes_to_a_sector() {
    let in_use = spin::Mutex::new(());
    let mut fs = mount(new_flash(&in_use));
    fs.write_impl(b"test", b"foobar", SectorID(3)).unwrap();
    assert_eq!(raw(fs.flash(), 4, 2, 4), b"test");
    assert_eq!(raw(fs.flash(), 4, 6, 6), b"foobar");
    assert_eq!(raw(fs.flash(), 4, 0, 13), image(VALID, b"test", b"foobar"));
    let long_contents: Vec<u8> = (0..500).map(|x| x as u8).collect();
    fs.write_impl(b"test2", &long_contents, SectorID(2)).unwrap();
    assert_eq!(raw(fs.flash(), 3, 5, 5), b"test2");
    assert_eq!(raw(fs.flash(), 3, 10, 500), &long_contents[..]);
    assert_eq!(raw(fs.flash(), 3, 0, 5), [0b01001011, 0, 0, 1, 0xF4]);
    assert_eq!(read(&fs, b"test2").unwrap(), long_contents);
}

#[test]
fn fs_handles_a_simple_read_write_reinitialize_loop() {
    let in_use = spin::Mutex::new(());
    let mut fs = mount(new_flash(&in_use));
    assert_eq!(fs.read(b"test").unwrap_err(), Error::NoSuchTag);
    assert!(!fs.has_tag(b"test"));
    fs.write(b"test", b"value").unwrap();
    assert_eq!(read(&fs, b"test").unwrap(), b"value");
    assert!(fs.has_tag(b"test"));
    fs.write(b"test", b"value2").unwrap();
    assert_eq!(read(&fs, b"test").unwrap(), b"value2");
    assert!(fs.has_tag(b"test"));
    let fs = reboot(fs);
    assert_eq!(read(&fs, b"test").unwrap(), b"value2");
    assert!(fs.has_tag(b"test"));
}

#[test]
fn fs_handles_a_simple_read_write_erase_reinitialize() {
    let in_use = spin::Mutex::new(());
    let mut fs = mount(new_flash(&in_use));
    assert_eq!(fs.read(b"test").unwrap_err(), Error::NoSuchTag);
    assert!(!fs.has_tag(b"test"));
    fs.write(b"test", b"value").unwrap();
    assert_eq!(read(&fs, b"test").unwrap(), b"value");
    assert!(fs.has_tag(b"test"));
    fs.erase(b"test").unwrap();
    assert_eq!(fs.read(b"test").unwrap_err(), Error::NoSuchTag);
    assert!(!fs.has_tag(b"test"));
    assert_eq!(fs.erase(b"test"), Err(Error::NoSuchTag));
    let fs = reboot(fs);
    assert_eq!(fs.read(b"test").unwrap_err(), Error::NoSuchTag);
    assert!(!fs.has_tag(b"test"));
}

#[test]
fn fs_simple_persist() {
    let in_use = spin::Mutex::new(());
    let mut fs = mount(new_flash(&in_use));
    assert!(!fs.has_tag(b"k"));
    fs.write(b"k", b"value").unwrap();
    assert!(fs.has_tag(b"k"));
    assert_eq!(read(&fs, b"k").unwrap(), b"value");
    fs.write(b"k", b"value2").unwrap();
    assert_eq!(read(&fs, b"k").unwrap(), b"value2");
    let fs = reboot(fs);
    assert_eq!(read(&fs, b"k").unwrap(), b"value2");
}

#[test]
fn fs_allows_many_reads_and_writes() {
    let in_use = spin::Mutex::new(());
    let mut fs = mount(new_flash(&in_use));
    assert_eq!(fs.read(b"test").unwrap_err(), Error::NoSuchTag);
    for i in 0..4 {
        for j in 0..1500 {
            let value: Vec<u8> = format!("value-{}-{}", i, j).bytes().collect();
            fs.write(b"test", &value).unwrap();
            assert_eq!(read(&fs, b"test").unwrap(), value);
            assert!(fs.has_tag(b"test"));
        }
        fs = reboot(fs);
        let last_value: Vec<u8> = format!("value-{}-{}", i, 1499).bytes().collect();
        assert_eq!(read(&fs, b"test").unwrap(), last_value);
        assert!(fs.has_tag(b"test"));
    }
    for s in 0..6 {
        assert!(fs.valid_size(SectorID(s)) <= fs.next_block(SectorID(s)));
        assert!(fs.next_block(SectorID(s)) <= fs.sector(SectorID(s)).len());
        assert!(fs.valid_size(SectorID(s)) <= fs.sector(DEFRAG).len() - 1);
    }
}

#[test]
fn fs_allows_many_reads_and_edits() {
    let in_use = spin::Mutex::new(());
    let mut fs = mount(new_flash(&in_use));
    fs.write(b"test", b"value-???-????").unwrap();
    for i in 0..3 {
        fs.edit_at(b"test", 6, format!("{:03}", i).as_bytes()).unwrap();
        for j in 0..1200 {
            fs.edit_at(b"test", 10, format!("{:04}", j).as_bytes()).unwrap();
            assert_eq!(read(&fs, b"test").unwrap(), format!("value-{:03}-{:04}", i, j).as_bytes());
        }
        fs = reboot(fs);
        assert_eq!(read(&fs, b"test").unwrap(), format!("value-{:03}-{:04}", i, 1199).as_bytes());
    }
}

#[test]
fn fs_writes_twice() {
    let in_use = spin::Mutex::new(());
    let mut fs = mount(new_flash(&in_use));
    fs.write(b"t", b"first").unwrap();
    let next = fs.next_block(SectorID(1));
    let valid = fs.valid_size(SectorID(1));
    assert_eq!(next, block_len(1, 5));
    assert_eq!(valid, block_len(1, 5));
    fs.write(b"t", b"second value").unwrap();
    assert_eq!(read(&fs, b"t").unwrap(), b"second value");
    assert!(fs.next_block(SectorID(1)) >= next);
    assert_eq!(fs.next_block(SectorID(1)), block_len(1, 5) + block_len(1, 12));
    assert_eq!(fs.valid_size(SectorID(1)), valid + block_len(1, 12) - block_len(1, 5));
    // The first block is no longer valid
    assert_eq!(raw(fs.flash(), 2, 0, 9), image(NO_LONGER, b"t", b"first"));
    assert_eq!(raw(fs.flash(), 2, 9, 16), image(VALID, b"t", b"second value"));
}

#[test]
fn fs_edits_in_place() {
    let in_use = spin::Mutex::new(());
    let mut fs = mount(new_flash(&in_use));
    fs.write(b"t", b"0123456789").unwrap();
    fs.edit_at(b"t", 3, b"abc").unwrap();
    assert_eq!(read(&fs, b"t").unwrap(), b"012abc6789");
    // What goes past the end is dropped
    fs.edit_at(b"t", 8, b"XYZ").unwrap();
    assert_eq!(read(&fs, b"t").unwrap(), b"012abc67XY");
    fs.edit_at(b"t", 10, b"!").unwrap();
    assert_eq!(read(&fs, b"t").unwrap(), b"012abc67XY");
    fs.edit_at(b"t", 1000, b"!").unwrap();
    assert_eq!(read(&fs, b"t").unwrap(), b"012abc67XY");
    assert_eq!(fs.edit_at(b"u", 0, b"!"), Err(Error::NoSuchTag));
}

#[test]
fn fs_refuses_tags_of_invalid_length() {
    let in_use = spin::Mutex::new(());
    let mut fs = mount(new_flash(&in_use));
    assert_eq!(fs.write(b"", b"v"), Err(Error::InvalidLengthForTag));
    assert_eq!(fs.write(&[1; 30], b"v"), Err(Error::InvalidLengthForTag));
    assert_eq!(fs.write(&[1; 31], b"v"), Err(Error::InvalidLengthForTag));
    assert_eq!(fs.write(&[1; 64], b"v"), Err(Error::InvalidLengthForTag));
    assert_eq!(fs.write_applet(b"", b"v"), Err(Error::InvalidLengthForTag));
    assert_eq!(fs.write_applet(&[1; 30], b"v"), Err(Error::InvalidLengthForTag));
    assert_eq!(fs.write(&[1; 29], b"v"), Ok(()));
    assert_eq!(read(&fs, &[1; 29]).unwrap(), b"v");
    for s in 0..6 {
        if s != 1 {
            assert_eq!(fs.next_block(SectorID(s)), 0);
        }
    }
}

#[test]
fn fs_runs_out_of_flash() {
    let in_use = spin::Mutex::new(());
    let mut fs = mount(new_flash(&in_use));
    // Nothing that is longer than the sector reserved for defragmenting
    let len = fs.sector(DEFRAG).len();
    assert_eq!(fs.write(b"big", &vec![0u8; len]), Err(Error::OutOfFlash));
    assert!(!fs.has_tag(b"big"));
    // The applets have one sector
    let applet = fs.sector(APPLET).len();
    assert_eq!(fs.write_applet(b"ap", &vec![0u8; applet]), Err(Error::OutOfFlash));
    assert_eq!(fs.next_block(APPLET), 0);
}

#[test]
fn fs_finishes_a_defragmentation_interrupted_after_its_first_step() {
    let in_use = spin::Mutex::new(());
    let mut fs = mount(new_flash(&in_use));
    fs.write(b"a", b"ta").unwrap();
    fs.write(b"b", b"tb").unwrap();
    fs.write(b"c", b"tc").unwrap();
    fs.write(b"c", b"tc").unwrap();
    let mut flash = fs.into_flash();
    // The journal says that the sector 1 is being defragmented
    let len = flash.sector(flash::SectorID(1)).len();
    put(&mut flash, 1, len - 1, &[1]);
    let fs = mount(flash);
    assert_eq!(read(&fs, b"a").unwrap(), b"ta");
    assert_eq!(read(&fs, b"b").unwrap(), b"tb");
    assert_eq!(read(&fs, b"c").unwrap(), b"tc");
    assert_eq!(fs.next_block(SectorID(1)), 18);
    assert_eq!(fs.valid_size(SectorID(1)), 18);
    assert_eq!(fs.next_block(DEFRAG), 0);
    assert_eq!(raw(fs.flash(), 1, len - 1, 1), [0xFF]);
}

#[test]
fn fs_finishes_a_defragmentation_interrupted_after_the_sector_was_erased() {
    let in_use = spin::Mutex::new(());
    let mut flash = new_flash(&in_use);
    // The valid blocks are on the sector reserved for defragmenting, the
    // sector that is defragmented is erased, and the journal still names it
    let mut copies = image(VALID, b"a", b"ta");
    copies.extend(image(VALID, b"b", b"tb"));
    copies.extend(image(VALID, b"c", b"tc"));
    put(&mut flash, 1, 0, &copies);
    let len = flash.sector(flash::SectorID(1)).len();
    put(&mut flash, 1, len - 1, &[2]);
    let fs = mount(flash);
    assert_eq!(read(&fs, b"a").unwrap(), b"ta");
    assert_eq!(read(&fs, b"b").unwrap(), b"tb");
    assert_eq!(read(&fs, b"c").unwrap(), b"tc");
    assert_eq!(fs.next_block(SectorID(2)), 18);
    assert_eq!(fs.valid_size(SectorID(2)), 18);
    assert_eq!(raw(fs.flash(), 1, 0, 18), [0xFF; 18]);
    assert_eq!(raw(fs.flash(), 1, len - 1, 1), [0xFF]);
}

#[test]
fn fs_skips_a_block_that_was_not_finished() {
    let in_use = spin::Mutex::new(());
    let mut flash = new_flash(&in_use);
    let mut blocks = image(VALID, b"a", b"ta");
    blocks.extend(image(NOT_YET, b"b", b"tb"));
    blocks.extend(image(VALID, b"c", b"tc"));
    put(&mut flash, 2, 0, &blocks);
    let fs = mount(flash);
    assert_eq!(read(&fs, b"a").unwrap(), b"ta");
    assert!(!fs.has_tag(b"b"));
    assert_eq!(read(&fs, b"c").unwrap(), b"tc");
    assert_eq!(fs.next_block(SectorID(1)), 18);
    assert_eq!(fs.valid_size(SectorID(1)), 12);
}

#[test]
fn fs_keeps_the_first_of_two_valid_blocks() {
    let in_use = spin::Mutex::new(());
    let mut flash = new_flash(&in_use);
    let mut blocks = image(VALID, b"a", b"old");
    blocks.extend(image(VALID, b"a", b"new"));
    put(&mut flash, 2, 0, &blocks);
    put(&mut flash, 3, 0, &image(VALID, b"a", b"far"));
    let fs = mount(flash);
    assert_eq!(read(&fs, b"a").unwrap(), b"old");
    assert_eq!(raw(fs.flash(), 2, 7, 7), image(NO_LONGER, b"a", b"new"));
    assert_eq!(raw(fs.flash(), 3, 0, 7), image(NO_LONGER, b"a", b"far"));
    assert_eq!(fs.next_block(SectorID(1)), 14);
    assert_eq!(fs.next_block(SectorID(2)), 7);
    // Only the block that stays valid counts
    assert_eq!(fs.valid_size(SectorID(1)), 7);
    assert_eq!(fs.valid_size(SectorID(2)), 0);
    let fs = reboot(fs);
    assert_eq!(read(&fs, b"a").unwrap(), b"old");
    assert_eq!(fs.valid_size(SectorID(1)), 7);
    assert_eq!(fs.next_block(SectorID(1)), 14);
    assert_eq!(fs.valid_size(SectorID(2)), 0);
    assert_eq!(fs.next_block(SectorID(2)), 7);
}

#[test]
fn fs_zeroes_what_follows_a_broken_block() {
    let in_use = spin::Mutex::new(());
    let mut flash = new_flash(&in_use);
    let mut blocks = image(VALID, b"a", b"ta");
    let mut broken = image(VALID, b"b", b"tb");
    broken[5] ^= 0x55;
    blocks.extend(broken);
    blocks.extend(image(VALID, b"c", b"tc"));
    put(&mut flash, 2, 0, &blocks);
    put(&mut flash, 3, 0, &image(VALID, b"d", b"td"));
    let fs = mount(flash);
    assert_eq!(read(&fs, b"a").unwrap(), b"ta");
    assert!(!fs.has_tag(b"b"));
    assert!(!fs.has_tag(b"c"));
    // The scan of the next sectors goes on
    assert_eq!(read(&fs, b"d").unwrap(), b"td");
    // The rest of the sector is zeroed
    assert_eq!(raw(fs.flash(), 2, 0, 6), image(VALID, b"a", b"ta"));
    assert_eq!(raw(fs.flash(), 2, 6, 12), [0; 12]);
    assert_eq!(raw(fs.flash(), 2, 18, 32), [0xFF; 32]);
    assert_eq!(fs.valid_size(SectorID(1)), 6);
    // The next block goes after what was zeroed
    assert_eq!(fs.next_block(SectorID(1)), 18);
    // And the files are as they were after one more boot
    let mut fs = reboot(fs);
    assert_eq!(read(&fs, b"a").unwrap(), b"ta");
    assert_eq!(read(&fs, b"d").unwrap(), b"td");
    assert!(!fs.has_tag(b"c"));
    assert_eq!(fs.next_block(SectorID(1)), 18);
    fs.write(b"c", b"tc").unwrap();
    assert_eq!(read(&fs, b"c").unwrap(), b"tc");
    assert_eq!(raw(fs.flash(), 2, 18, 6), image(VALID, b"c", b"tc"));
    let fs = reboot(fs);
    assert_eq!(read(&fs, b"c").unwrap(), b"tc");
    assert_eq!(read(&fs, b"a").unwrap(), b"ta");
}

#[test]
fn fs_installs_an_applet() {
    let in_use = spin::Mutex::new(());
    let mut fs = mount(new_flash(&in_use));
    let code: Vec<u8> = (0..200).map(|x| (x * 7) as u8).collect();
    fs.write_applet(&[1, 9], &code).unwrap();
    assert_eq!(fs.next_block(APPLET), block_len(2, 200));
    for s in 0..5 {
        assert_eq!(fs.next_block(SectorID(s)), 0);
    }
    // The next boot finds the applet in the sector of the applets
    let fs = reboot(fs);
    assert_eq!(read(&fs, &[1, 9]).unwrap(), code);
    assert_eq!(raw(fs.flash(), 6, 4, 200), code);
    assert_eq!(fs.read(&[1, 9]).unwrap().sector(), fs.sector(APPLET));
}

/// A flash on which the sector 1 of the filesystem holds the blocks `on_s`,
/// the sector reserved for defragmenting the blocks `on_d`, and the journal
/// names the sector 1
fn interrupted<'a>(in_use: &'a spin::Mutex<()>, on_s: &[Vec<u8>], on_d: &[Vec<u8>]) -> Flash<'a> {
    let mut flash = new_flash(in_use);
    let src: Vec<u8> = on_s.concat();
    let copies: Vec<u8> = on_d.concat();
    if !src.is_empty() {
        put(&mut flash, 2, 0, &src);
    }
    if !copies.is_empty() {
        put(&mut flash, 1, 0, &copies);
    }
    let len = flash.sector(flash::SectorID(1)).len();
    put(&mut flash, 1, len - 1, &[1]);
    flash
}

fn found(fs: &FileSystem) -> Vec<Option<Vec<u8>>> {
    [&b"a"[..], b"b", b"c"].iter().map(|t| read(fs, t).ok()).collect()
}

#[test]
fn fs_finishes_a_defragmentation_interrupted_after_the_copies() {
    let in_use = spin::Mutex::new(());
    let flash = interrupted(
        &in_use,
        &[image(NO_LONGER, b"a", b"ta"), image(NO_LONGER, b"b", b"tb"), image(NO_LONGER, b"c", b"tc")],
        &[image(VALID, b"a", b"ta"), image(VALID, b"b", b"tb"), image(VALID, b"c", b"tc")],
    );
    let fs = mount(flash);
    assert_eq!(
        found(&fs),
        [Some(b"ta".to_vec()), Some(b"tb".to_vec()), Some(b"tc".to_vec())]
    );
    assert_eq!(fs.next_block(SectorID(1)), 18);
    assert_eq!(fs.valid_size(SectorID(1)), 18);
    assert_eq!(fs.next_block(DEFRAG), 0);
    let len = fs.sector(DEFRAG).len();
    assert_eq!(raw(fs.flash(), 1, 0, 18), [0xFF; 18]);
    assert_eq!(raw(fs.flash(), 1, len - 1, 1), [0xFF]);
    let fs = reboot(fs);
    assert_eq!(
        found(&fs),
        [Some(b"ta".to_vec()), Some(b"tb".to_vec()), Some(b"tc".to_vec())]
    );
}

#[test]
fn fs_finishes_a_defragmentation_interrupted_during_the_first_copy() {
    let in_use = spin::Mutex::new(());
    let flash = interrupted(
        &in_use,
        &[image(VALID, b"a", b"ta"), image(VALID, b"b", b"tb"), image(VALID, b"c", b"tc")],
        &[image(VALID, b"a", b"ta")],
    );
    let fs = mount(flash);
    assert_eq!(
        found(&fs),
        [Some(b"ta".to_vec()), Some(b"tb".to_vec()), Some(b"tc".to_vec())]
    );
    assert_eq!(fs.next_block(SectorID(1)), 18);
    assert_eq!(fs.next_block(DEFRAG), 0);
}

#[test]
fn fs_finishes_a_defragmentation_interrupted_between_two_copies() {
    // The first block was copied and is no longer valid where it was
    let in_use = spin::Mutex::new(());
    let flash = interrupted(
        &in_use,
        &[image(NO_LONGER, b"a", b"ta"), image(VALID, b"b", b"tb"), image(VALID, b"c", b"tc")],
        &[image(VALID, b"a", b"ta")],
    );
    let fs = mount(flash);
    assert_eq!(
        found(&fs),
        [Some(b"ta".to_vec()), Some(b"tb".to_vec()), Some(b"tc".to_vec())]
    );
    assert_eq!(fs.next_block(SectorID(1)), 18);
    assert_eq!(fs.valid_size(SectorID(1)), 18);
    assert_eq!(fs.next_block(DEFRAG), 0);
    let len = fs.sector(DEFRAG).len();
    assert_eq!(raw(fs.flash(), 1, 0, 18), [0xFF; 18]);
    assert_eq!(raw(fs.flash(), 1, len - 1, 1), [0xFF]);
    let fs = reboot(fs);
    assert_eq!(
        found(&fs),
        [Some(b"ta".to_vec()), Some(b"tb".to_vec()), Some(b"tc".to_vec())]
    );
}

#[test]
fn fs_finishes_a_defragmentation_interrupted_while_copying_back() {
    // The first block was copied back and its copy is no longer valid
    let in_use = spin::Mutex::new(());
    let flash = interrupted(
        &in_use,
        &[image(VALID, b"a", b"ta")],
        &[image(NO_LONGER, b"a", b"ta"), image(VALID, b"b", b"tb"), image(VALID, b"c", b"tc")],
    );
    let fs = mount(flash);
    assert_eq!(
        found(&fs),
        [Some(b"ta".to_vec()), Some(b"tb".to_vec()), Some(b"tc".to_vec())]
    );
    assert_eq!(fs.next_block(SectorID(1)), 18);
    assert_eq!(fs.valid_size(SectorID(1)), 18);
    assert_eq!(fs.next_block(DEFRAG), 0);
    let len = fs.sector(DEFRAG).len();
    assert_eq!(raw(fs.flash(), 1, 0, 18), [0xFF; 18]);
    assert_eq!(raw(fs.flash(), 1, len - 1, 1), [0xFF]);
    let fs = reboot(fs);
    assert_eq!(
        found(&fs),
        [Some(b"ta".to_vec()), Some(b"tb".to_vec()), Some(b"tc".to_vec())]
    );
}

#[test]
fn fs_finishes_a_defragmentation_interrupted_before_the_last_erase() {
    // All the blocks were copied back, and no copy is valid any longer
    let in_use = spin::Mutex::new(());
    let flash = interrupted(
        &in_use,
        &[image(VALID, b"a", b"ta"), image(VALID, b"b", b"tb"), image(VALID, b"c", b"tc")],
        &[image(NO_LONGER, b"a", b"ta"), image(NO_LONGER, b"b", b"tb"), image(NO_LONGER, b"c", b"tc")],
    );
    let mut fs = mount(flash);
    assert_eq!(
        found(&fs),
        [Some(b"ta".to_vec()), Some(b"tb".to_vec()), Some(b"tc".to_vec())]
    );
    assert_eq!(fs.next_block(SectorID(1)), 18);
    assert_eq!(fs.valid_size(SectorID(1)), 18);
    let len = fs.sector(DEFRAG).len();
    assert_eq!(raw(fs.flash(), 1, 0, 18), [0xFF; 18]);
    assert_eq!(raw(fs.flash(), 1, len - 1, 1), [0xFF]);
    fs.write(b"d", b"td").unwrap();
    fs.defragment(SectorID(1)).unwrap();
    assert_eq!(read(&fs, b"d").unwrap(), b"td");
    assert_eq!(read(&fs, b"a").unwrap(), b"ta");
}

#[test]
fn fs_finishes_a_defragmentation_interrupted_within_a_copy() {
    // The second block is on the sector reserved for defragmenting, valid
    // already, and is still valid where it was
    let in_use = spin::Mutex::new(());
    let flash = interrupted(
        &in_use,
        &[image(NO_LONGER, b"a", b"ta"), image(VALID, b"b", b"tb"), image(VALID, b"c", b"tc")],
        &[image(VALID, b"a", b"ta"), image(VALID, b"b", b"tb")],
    );
    let fs = mount(flash);
    assert_eq!(
        found(&fs),
        [Some(b"ta".to_vec()), Some(b"tb".to_vec()), Some(b"tc".to_vec())]
    );
    assert_eq!(fs.next_block(SectorID(1)), 18);
    // The second block is on the sector reserved for defragmenting, not yet
    // valid
    let in_use = spin::Mutex::new(());
    let flash = interrupted(
        &in_use,
        &[image(NO_LONGER, b"a", b"ta"), image(VALID, b"b", b"tb"), image(VALID, b"c", b"tc")],
        &[image(VALID, b"a", b"ta"), image(NOT_YET, b"b", b"tb")],
    );
    let fs = mount(flash);
    assert_eq!(
        found(&fs),
        [Some(b"ta".to_vec()), Some(b"tb".to_vec()), Some(b"tc".to_vec())]
    );
    // The second block is on the sector reserved for defragmenting in part
    let in_use = spin::Mutex::new(());
    let part = image(NOT_YET, b"b", b"tb")[..3].to_vec();
    let flash = interrupted(
        &in_use,
        &[image(NO_LONGER, b"a", b"ta"), image(VALID, b"b", b"tb"), image(VALID, b"c", b"tc")],
        &[image(VALID, b"a", b"ta"), part],
    );
    let fs = mount(flash);
    assert_eq!(
        found(&fs),
        [Some(b"ta".to_vec()), Some(b"tb".to_vec()), Some(b"tc".to_vec())]
    );
    assert_eq!(fs.next_block(SectorID(1)), 18);
    assert_eq!(fs.next_block(DEFRAG), 0);
}

#[test]
fn fs_finishes_a_defragmentation_interrupted_within_a_copy_back() {
    let all = [Some(b"ta".to_vec()), Some(b"tb".to_vec()), Some(b"tc".to_vec())];
    let on_d = [image(NO_LONGER, b"a", b"ta"), image(VALID, b"b", b"tb"), image(VALID, b"c", b"tc")];
    // The second block is back, not yet valid
    let in_use = spin::Mutex::new(());
    let flash =
        interrupted(&in_use, &[image(VALID, b"a", b"ta"), image(NOT_YET, b"b", b"tb")], &on_d);
    let fs = mount(flash);
    assert_eq!(found(&fs), all);
    assert_eq!(fs.valid_size(SectorID(1)), 18);
    assert_eq!(fs.next_block(DEFRAG), 0);
    let len = fs.sector(DEFRAG).len();
    assert_eq!(raw(fs.flash(), 1, 0, 18), [0xFF; 18]);
    assert_eq!(raw(fs.flash(), 1, len - 1, 1), [0xFF]);
    assert_eq!(found(&reboot(fs)), all);
    // The second block is back and valid, and its copy is valid still
    let in_use = spin::Mutex::new(());
    let flash =
        interrupted(&in_use, &[image(VALID, b"a", b"ta"), image(VALID, b"b", b"tb")], &on_d);
    let fs = mount(flash);
    assert_eq!(found(&fs), all);
    assert_eq!(fs.valid_size(SectorID(1)), 18);
    assert_eq!(fs.next_block(DEFRAG), 0);
    assert_eq!(raw(fs.flash(), 1, 0, 18), [0xFF; 18]);
    assert_eq!(found(&reboot(fs)), all);
    // The second block is back in part
    let in_use = spin::Mutex::new(());
    let part = image(NOT_YET, b"b", b"tb")[..3].to_vec();
    let flash = interrupted(&in_use, &[image(VALID, b"a", b"ta"), part], &on_d);
    let fs = mount(flash);
    assert_eq!(found(&fs), all);
    assert_eq!(fs.valid_size(SectorID(1)), 18);
    assert_eq!(fs.next_block(DEFRAG), 0);
    assert_eq!(raw(fs.flash(), 1, 0, 18), [0xFF; 18]);
    assert_eq!(found(&reboot(fs)), all);
}

#[test]
fn fs_defragments_a_sector_that_holds_zeros() {
    let in_use = spin::Mutex::new(());
    let mut flash = new_flash(&in_use);
    let mut blocks = image(VALID, b"a", b"ta");
    let mut broken = image(VALID, b"b", b"tb");
    broken[5] ^= 0x55;
    blocks.extend(broken);
    put(&mut flash, 2, 0, &blocks);
    let mut fs = mount(flash);
    assert_eq!(fs.next_block(SectorID(1)), 12);
    assert_eq!(raw(fs.flash(), 2, 6, 6), [0; 6]);
    // A block goes after the zeros, and the sector is read again over them
    fs.write_impl(b"c", b"tc", SectorID(1)).unwrap();
    assert_eq!(fs.next_block(SectorID(1)), 18);
    let mut fs = reboot(fs);
    assert_eq!(read(&fs, b"a").unwrap(), b"ta");
    assert_eq!(read(&fs, b"c").unwrap(), b"tc");
    assert_eq!(fs.next_block(SectorID(1)), 18);
    assert_eq!(fs.valid_size(SectorID(1)), 12);
    // The zeros are left behind when the sector is defragmented
    fs.defragment(SectorID(1)).unwrap();
    assert_eq!(fs.next_block(SectorID(1)), 12);
    assert_eq!(fs.valid_size(SectorID(1)), 12);
    assert_eq!(read(&fs, b"a").unwrap(), b"ta");
    assert_eq!(read(&fs, b"c").unwrap(), b"tc");
    assert_eq!(raw(fs.flash(), 2, 12, 8), [0xFF; 8]);
    let fs = reboot(fs);
    assert_eq!(read(&fs, b"a").unwrap(), b"ta");
    assert_eq!(read(&fs, b"c").unwrap(), b"tc");
}

#[test]
fn fs_zeroes_a_broken_block_that_follows_zeros() {
    let in_use = spin::Mutex::new(());
    let mut flash = new_flash(&in_use);
    let mut blocks = image(VALID, b"a", b"ta");
    blocks.extend([0u8; 5]);
    let mut broken = image(VALID, b"b", b"tb");
    broken[5] ^= 0x55;
    blocks.extend(broken);
    put(&mut flash, 2, 0, &blocks);
    let mut fs = mount(flash);
    assert_eq!(read(&fs, b"a").unwrap(), b"ta");
    assert!(!fs.has_tag(b"b"));
    assert_eq!(raw(fs.flash(), 2, 6, 11), [0; 11]);
    assert_eq!(fs.next_block(SectorID(1)), 17);
    fs.write_impl(b"c", b"tc", SectorID(1)).unwrap();
    let fs = reboot(fs);
    assert_eq!(read(&fs, b"a").unwrap(), b"ta");
    assert_eq!(read(&fs, b"c").unwrap(), b"tc");
    assert_eq!(fs.next_block(SectorID(1)), 23);
}

#[test]
fn fs_reads_over_a_short_run_of_zeros() {
    let in_use = spin::Mutex::new(());
    let mut flash = new_flash(&in_use);
    let mut blocks = image(VALID, b"a", b"ta");
    blocks.extend([0u8; 1]);
    blocks.extend(image(VALID, b"c", b"tc"));
    put(&mut flash, 2, 0, &blocks);
    let fs = mount(flash);
    assert_eq!(read(&fs, b"a").unwrap(), b"ta");
    assert_eq!(read(&fs, b"c").unwrap(), b"tc");
    assert_eq!(fs.next_block(SectorID(1)), 13);
    assert_eq!(fs.valid_size(SectorID(1)), 12);
}
