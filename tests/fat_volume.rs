use vf2_boot::block::{BlockDevice, MemDisk};
use vf2_boot::boot::{block_count, init_fat, load_bootloader, load_to_mem, LOADER_NAME};
use vf2_boot::fat::{match_in_sector, serialize_name, BootError, BpbSector, DirEntry, Volume};

const PART: usize = 100;

fn put16(d: &mut [u8], off: usize, v: u16) {
    d[off..off + 2].copy_from_slice(&v.to_le_bytes());
}

fn put32(d: &mut [u8], off: usize, v: u32) {
    d[off..off + 4].copy_from_slice(&v.to_le_bytes());
}

fn boot_sector(reserved: u16, fats: u8, spf: u32, spc: u8, root_cluster: u32) -> Vec<u8> {
    let mut s = vec![0u8; 512];
    put16(&mut s, 11, 512);
    s[13] = spc;
    put16(&mut s, 14, reserved);
    s[16] = fats;
    put32(&mut s, 36, spf);
    put32(&mut s, 44, root_cluster);
    put32(&mut s, 67, 0x1234_5678);
    s[71..82].copy_from_slice(b"BOOT       ");
    s[82..90].copy_from_slice(b"FAT32   ");
    s[510] = 0x55;
    s[511] = 0xAA;
    s
}

fn record(name: &[u8; 11], cluster_h: u16, cluster_l: u16, size: u32) -> [u8; 32] {
    let mut r = [0u8; 32];
    r[0..11].copy_from_slice(name);
    r[11] = 0x20;
    put16(&mut r, 20, cluster_h);
    put16(&mut r, 26, cluster_l);
    put32(&mut r, 28, size);
    r
}

/// A disk with the volume of the worked example at block `PART`: root
/// directory at volume sector 232, one record for LOADER.EFI in its second
/// sector, cluster 5, `size` bytes, whose blocks hold their own index.
fn example_disk(size: u32) -> Vec<u8> {
    let mut d = vec![0u8; 512 * (PART + 400)];
    let bs = boot_sector(32, 2, 100, 4, 2);
    d[PART * 512..PART * 512 + 512].copy_from_slice(&bs);
    let dir = (PART + 232 + 1) * 512 + 3 * 32;
    d[dir..dir + 32].copy_from_slice(&record(b"LOADER  EFI", 0, 5, size));
    let other = (PART + 232) * 512;
    d[other..other + 32].copy_from_slice(&record(b"README  TXT", 0, 9, 77));
    let first = PART + 244;
    for k in 0..((size as usize + 511) / 512) {
        for b in 0..512 {
            d[(first + k) * 512 + b] = (k as u8).wrapping_mul(7).wrapping_add(b as u8);
        }
    }
    d
}

#[test]
fn serialize_name_loader() {
    assert_eq!(serialize_name("LOADER.EFI"), Ok(*b"LOADER  EFI"));
}

#[test]
fn serialize_name_pads_both_parts() {
    assert_eq!(serialize_name("A.B"), Ok(*b"A       B  "));
    assert_eq!(serialize_name("ABCDEFGH.XYZ"), Ok(*b"ABCDEFGHXYZ"));
    assert_eq!(serialize_name("KERNEL."), Ok(*b"KERNEL     "));
}

#[test]
fn serialize_name_rejects_bad_names() {
    assert_eq!(serialize_name("NODOT"), Err(BootError::BadName));
    assert_eq!(serialize_name("A.B.C"), Err(BootError::BadName));
    assert_eq!(serialize_name("ABCDEFGHI.EFI"), Err(BootError::BadName));
    assert_eq!(serialize_name("LOADER.EFIX"), Err(BootError::BadName));
    assert_eq!(serialize_name(""), Err(BootError::BadName));
}

#[test]
fn bpb_decodes_fields() {
    let s = boot_sector(32, 2, 100, 4, 2);
    let b = BpbSector::deserialize(&s).unwrap();
    assert_eq!(b.bytes_per_sector, 512);
    assert_eq!(b.sectors_per_cluster, 4);
    assert_eq!(b.reserved_sectors, 32);
    assert_eq!(b.fats, 2);
    assert_eq!(b.sectors_per_fat_32, 100);
    assert_eq!(b.root_dir_first_cluster, 2);
    assert_eq!(b.volume_id, 0x1234_5678);
    assert_eq!(&b.volume_label, b"BOOT       ");
    assert_eq!(&b.fs_type_label, b"FAT32   ");
    assert_eq!(b.root_sector(), 232);
    assert_eq!(b.cluster_to_sector(5), 244);
    assert_eq!(b.cluster_to_sector(2), 232);
}

#[test]
fn bpb_round_trip_of_covered_bytes() {
    let mut s = boot_sector(0x0123, 7, 0x89AB_CDEF, 8, 0x0102_0304);
    for (i, v) in [(17usize, 0x11u8), (18, 0x22), (32, 0x33), (35, 0x44), (48, 0x55), (51, 0x66)] {
        s[i] = v;
    }
    // Bytes that no field covers do not come back.
    s[0] = 0xEB;
    s[100] = 0x99;
    let b = BpbSector::deserialize(&s).unwrap();
    let e = b.serialize();
    assert_eq!(e.len(), 512);
    for i in (11..19).chain(32..40).chain(44..52).chain(67..90).chain(510..512) {
        assert_eq!(e[i], s[i], "byte {}", i);
    }
    assert_eq!(e[0], 0);
    assert_eq!(e[100], 0);
    let again = BpbSector::deserialize(&e).unwrap();
    assert_eq!(again.serialize(), e);
}

#[test]
fn bpb_rejects_missing_signature() {
    let mut s = boot_sector(32, 2, 100, 4, 2);
    s[511] = 0x00;
    assert!(matches!(BpbSector::deserialize(&s), Err(BootError::BadSignature)));
    s[510] = 0xAA;
    s[511] = 0x55;
    assert!(matches!(BpbSector::deserialize(&s), Err(BootError::BadSignature)));
    let zero = vec![0u8; 512];
    assert!(matches!(BpbSector::deserialize(&zero), Err(BootError::BadSignature)));
}

#[test]
fn volume_init_bpb_keeps_volume_on_error() {
    let mut v = Volume::new(7);
    assert_eq!(v.bpb.sectors_per_cluster, 0);
    let mut s = boot_sector(32, 2, 100, 4, 2);
    s[510] = 0;
    assert_eq!(v.init_bpb(&s), Err(BootError::BadSignature));
    assert_eq!(v.bpb.reserved_sectors, 0);
    s[510] = 0x55;
    assert_eq!(v.init_bpb(&s), Ok(()));
    assert_eq!(v.start_lba, 7);
    assert_eq!(v.bpb.reserved_sectors, 32);
}

#[test]
fn dir_entry_decoding() {
    assert!(DirEntry::deserialize(&[0u8; 32]).is_none());
    let r = record(b"LOADER  EFI", 0x0001, 0x0005, 4096);
    let e = DirEntry::deserialize(&r).unwrap();
    assert_eq!(&e.name, b"LOADER  EFI");
    assert_eq!(e.cluster(), 0x0001_0005);
    assert!(e.is_file());
    let dir = record(b"SUBDIR     ", 0, 3, 0);
    assert!(!DirEntry::deserialize(&dir).unwrap().is_file());
}

#[test]
fn match_in_sector_first_file_wins() {
    let mut sector = vec![0u8; 512];
    sector[32..64].copy_from_slice(&record(b"LOADER  EFI", 0, 3, 0));
    sector[64..96].copy_from_slice(&record(b"LOADER  EFI", 0, 4, 10));
    sector[96..128].copy_from_slice(&record(b"LOADER  EFI", 0, 5, 20));
    let (slot, e) = match_in_sector(b"LOADER  EFI", &sector).unwrap();
    assert_eq!(slot, 2);
    assert_eq!(e.cluster(), 4);
    assert!(match_in_sector(b"OTHER   EFI", &sector).is_none());
}

#[test]
fn find_worked_example() {
    let mut disk = MemDisk::new(example_disk(4096));
    let vol = init_fat(&mut disk, PART as u64).unwrap();
    assert_eq!(vol.find("LOADER.EFI", &mut disk), Ok(Some(((PART + 244) as u64, 4096))));
    assert_eq!(vol.find("README.TXT", &mut disk), Ok(Some(((PART + 232 + 7 * 4) as u64, 77))));
    assert_eq!(vol.find("MISSING.EFI", &mut disk), Ok(None));
    assert_eq!(vol.find("BAD", &mut disk), Err(BootError::BadName));
}

#[test]
fn find_on_zero_region_finds_nothing() {
    let mut d = vec![0u8; 512 * (PART + 300)];
    d[PART * 512..PART * 512 + 512].copy_from_slice(&boot_sector(32, 2, 100, 4, 2));
    let mut disk = MemDisk::new(d);
    let vol = init_fat(&mut disk, PART as u64).unwrap();
    for name in ["LOADER.EFI", "A.B", "X.Y"] {
        assert_eq!(vol.find(name, &mut disk), Ok(None));
    }
}

#[test]
fn find_reports_bad_cluster_and_io() {
    let mut d = example_disk(4096);
    let dir = (PART + 233) * 512 + 3 * 32;
    d[dir..dir + 32].copy_from_slice(&record(b"LOADER  EFI", 0, 1, 4096));
    let mut disk = MemDisk::new(d);
    let vol = init_fat(&mut disk, PART as u64).unwrap();
    assert_eq!(vol.find(LOADER_NAME, &mut disk), Err(BootError::BadCluster));
    let mut small = MemDisk::new(vec![0u8; 512 * (PART + 200)]);
    assert_eq!(vol.find(LOADER_NAME, &mut small), Err(BootError::Io));
    let far = Volume { start_lba: u64::MAX - 10, bpb: vol.bpb };
    assert_eq!(far.find(LOADER_NAME, &mut disk), Err(BootError::OutOfRange));
}

#[test]
fn block_count_rounds_up() {
    assert_eq!(block_count(0), 0);
    assert_eq!(block_count(1), 1);
    assert_eq!(block_count(2), 1);
    assert_eq!(block_count(511), 1);
    assert_eq!(block_count(512), 1);
    assert_eq!(block_count(513), 2);
}

#[test]
fn load_to_mem_copies_blocks() {
    let mut data = vec![0u8; 512 * 4];
    for (i, b) in data.iter_mut().enumerate() {
        *b = (i / 512) as u8 + 1;
    }
    let mut disk = MemDisk::new(data);
    let mut dest = vec![0xEEu8; 512 * 3];
    assert_eq!(load_to_mem(&mut disk, 1, 513, &mut dest), Ok(()));
    assert!(dest[..512].iter().all(|&b| b == 2));
    assert!(dest[512..1024].iter().all(|&b| b == 3));
    assert!(dest[1024..].iter().all(|&b| b == 0xEE));
    assert_eq!(load_to_mem(&mut disk, 3, 1024, &mut dest), Err(BootError::Io));
    assert_eq!(load_to_mem(&mut disk, u64::MAX, 1, &mut dest), Err(BootError::OutOfRange));
}

#[test]
fn load_bootloader_loads_image() {
    let mut disk = MemDisk::new(example_disk(1000));
    let mut dest = vec![0u8; 4096];
    assert_eq!(load_bootloader(&mut disk, PART as u64, &mut dest), Ok(1000));
    let mut block = [0u8; 512];
    disk.read_block((PART + 245) as u64, &mut block).unwrap();
    assert_eq!(&dest[512..1024], &block[..]);
    assert_eq!(dest[0], 0);
    assert_eq!(dest[513], 8);
    assert!(dest[1024..].iter().all(|&b| b == 0));
}

#[test]
fn load_bootloader_errors() {
    let mut disk = MemDisk::new(example_disk(4096));
    let mut small = vec![0u8; 4095];
    assert_eq!(load_bootloader(&mut disk, PART as u64, &mut small), Err(BootError::NoRoom));
    let mut dest = vec![0u8; 8192];
    assert_eq!(load_bootloader(&mut disk, (PART + 1) as u64, &mut dest), Err(BootError::BadSignature));
    assert_eq!(load_bootloader(&mut disk, 100_000, &mut dest), Err(BootError::Io));
    let mut d = vec![0u8; 512 * (PART + 300)];
    d[PART * 512..PART * 512 + 512].copy_from_slice(&boot_sector(32, 2, 100, 4, 2));
    let mut empty = MemDisk::new(d);
    assert_eq!(load_bootloader(&mut empty, PART as u64, &mut dest), Err(BootError::NotFound));
}

/// A device that serves the blocks of a disk image until it has served
/// `budget` of them, and fails after that.
struct FlakyDisk {
    inner: MemDisk,
    budget: usize,
}

impl BlockDevice for FlakyDisk {
    fn read_block(&mut self, lba: u64, buf: &mut [u8; 512]) -> Result<(), vf2_boot::block::DeviceError> {
        if self.budget == 0 {
            return Err(vf2_boot::block::DeviceError);
        }
        self.budget -= 1;
        self.inner.read_block(lba, buf)
    }
}

#[test]
fn device_failure_mid_load_is_io_error() {
    let image = example_disk(4096);
    let mut enough = FlakyDisk { inner: MemDisk::new(image.clone()), budget: 1 + 2 + 8 };
    let mut dest = vec![0u8; 8192];
    assert_eq!(load_bootloader(&mut enough, PART as u64, &mut dest), Ok(4096));
    let mut short = FlakyDisk { inner: MemDisk::new(image), budget: 1 + 2 + 7 };
    assert_eq!(load_bootloader(&mut short, PART as u64, &mut dest), Err(BootError::Io));
}

#[test]
fn find_with_empty_cluster_reads_nothing() {
    let s = boot_sector(32, 2, 100, 0, 2);
    let mut v = Volume::new(5);
    v.init_bpb(&s).unwrap();
    let mut nothing = MemDisk::new(Vec::new());
    assert_eq!(v.find(LOADER_NAME, &mut nothing), Ok(None));
}

#[test]
fn load_to_mem_of_nothing_succeeds() {
    let mut nothing = MemDisk::new(Vec::new());
    let mut dest = vec![9u8; 4];
    assert_eq!(load_to_mem(&mut nothing, 12, 0, &mut dest), Ok(()));
    assert_eq!(dest, vec![9u8; 4]);
}

#[test]
fn load_bootloader_leaves_dest_on_failure() {
    let mut d = vec![0u8; 512 * (PART + 300)];
    d[PART * 512..PART * 512 + 512].copy_from_slice(&boot_sector(32, 2, 100, 4, 2));
    let mut empty = MemDisk::new(d);
    let mut dest = vec![0x5Au8; 1024];
    assert_eq!(load_bootloader(&mut empty, PART as u64, &mut dest), Err(BootError::NotFound));
    assert!(dest.iter().all(|&b| b == 0x5A));
    let mut disk = MemDisk::new(example_disk(1000));
    let mut dest = vec![0x5Au8; 4096];
    assert_eq!(load_bootloader(&mut disk, PART as u64, &mut dest), Ok(1000));
    assert!(dest[1024..].iter().all(|&b| b == 0x5A));
}
