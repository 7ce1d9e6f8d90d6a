use vstd::prelude::*;
use crate::block::{BlockDevice, BLOCK_SIZE};
use crate::fat::{
    decodes, find_result, is_signed, lemma_lookup_same_blocks, sector_geometry, short_form,
    valid_name, BootError, Volume,
};
use vstd::string::StringSliceAdditionalSpecFns;
use vstd::utf8::is_ascii_chars;

verus! {

/// Name of the boot image in the root directory.
pub const LOADER_NAME: &'static str = "LOADER.EFI";

/// Number of 512-byte blocks that cover `size` bytes.
pub open spec fn blocks_for(size: int) -> int {
    if size % 512 == 0 {
        size / 512
    } else {
        size / 512 + 1
    }
}

/// The first `blocks_for(size)` blocks of `mem` hold the device's blocks
/// `lba`, `lba + 1`, ... in order.
pub open spec fn image_loaded<D: BlockDevice>(dev: D, lba: int, size: int, mem: Seq<u8>) -> bool {
    forall|i: int| 0 <= i < blocks_for(size) * 512 ==> #[trigger] mem[i] == dev.block(lba + i / 512)[i % 512]
}

/// Number of 512-byte blocks that cover `size` bytes.
pub fn block_count(size: usize) -> (r: usize)
    ensures
        r as int == blocks_for(size as int),
{
    if size % BLOCK_SIZE == 0 {
        size / BLOCK_SIZE
    } else {
        size / BLOCK_SIZE + 1
    }
}

/// Reads the boot sector of the volume that starts at `start_lba` and sets
/// the volume up over it.
pub fn init_fat<D: BlockDevice>(dev: &mut D, start_lba: u64) -> (r: Result<Volume, BootError>)
    ensures
        forall|l: int| #[trigger] final(dev).block(l) == old(dev).block(l),
        forall|l: int| #[trigger] final(dev).readable(l) == old(dev).readable(l),
        !old(dev).readable(start_lba as int) ==> r == Err::<Volume, BootError>(BootError::Io),
        old(dev).readable(start_lba as int) && !is_signed(old(dev).block(start_lba as int)) ==> r == Err::<
            Volume,
            BootError,
        >(BootError::BadSignature),
        old(dev).readable(start_lba as int) && is_signed(old(dev).block(start_lba as int)) ==> r is Ok,
        r matches Ok(v) ==> v.start_lba == start_lba && decodes(v.bpb, old(dev).block(start_lba as int)),
        final(dev).reads() == old(dev).reads().push(start_lba as int),
{
    let mut bpb = [0u8; 512];
    match dev.read_block(start_lba, &mut bpb) {
        Ok(()) => {},
        Err(_) => return Err(BootError::Io),
    }
    let mut volume = Volume::new(start_lba);
    match volume.init_bpb(bpb.as_slice()) {
        Ok(()) => Ok(volume),
        Err(e) => Err(e),
    }
}

proof fn lemma_in_block(i: int, k: int)
    requires
        0 <= k,
        k * 512 <= i < k * 512 + 512,
    ensures
        i / 512 == k,
        i % 512 == i - k * 512,
{
    assert(i / 512 == k && i % 512 == i - k * 512) by (nonlinear_arith)
        requires
            0 <= k,
            k * 512 <= i < k * 512 + 512,
    ;
}

/// Whether the `n` blocks from `lba` on can all be read.
pub open spec fn all_readable<D: BlockDevice>(dev: D, lba: int, n: int) -> bool {
    forall|k: int| 0 <= k < n ==> #[trigger] dev.readable(lba + k)
}

/// How many of the `n` blocks from `lba` on a load reads, from the `i`-th
/// on: it stops after the first one that cannot be read.
pub open spec fn load_reads<D: BlockDevice>(dev: D, lba: int, n: int, i: int) -> int
    decreases n - i,
{
    if i < 0 || i >= n {
        i
    } else if !dev.readable(lba + i) {
        i + 1
    } else {
        load_reads(dev, lba, n, i + 1)
    }
}

/// Copies the blocks that cover `size` bytes, from block `lba` on, to the
/// start of `dest`, one block at a time; the rest of `dest` is left alone.
pub fn load_to_mem<D: BlockDevice>(dev: &mut D, lba: u64, size: usize, dest: &mut [u8]) -> (r: Result<(), BootError>)
    requires
        blocks_for(size as int) * 512 <= old(dest)@.len(),
    ensures
        forall|l: int| #[trigger] final(dev).block(l) == old(dev).block(l),
        forall|l: int| #[trigger] final(dev).readable(l) == old(dev).readable(l),
        final(dest)@.len() == old(dest)@.len(),
        forall|i: int| blocks_for(size as int) * 512 <= i < old(dest)@.len() ==> #[trigger] final(dest)@[i] == old(dest)@[i],
        lba + blocks_for(size as int) > u64::MAX ==> r == Err::<(), BootError>(BootError::OutOfRange)
            && final(dest)@ == old(dest)@,
        lba + blocks_for(size as int) <= u64::MAX && all_readable(*old(dev), lba as int, blocks_for(size as int))
            ==> r == Ok::<(), BootError>(()),
        lba + blocks_for(size as int) <= u64::MAX && !all_readable(*old(dev), lba as int, blocks_for(size as int))
            ==> r == Err::<(), BootError>(BootError::Io),
        r is Ok ==> image_loaded(*old(dev), lba as int, size as int, final(dest)@),
        lba + blocks_for(size as int) > u64::MAX ==> final(dev).reads() == old(dev).reads(),
        lba + blocks_for(size as int) <= u64::MAX ==> final(dev).reads() == old(dev).reads() + Seq::new(
            load_reads(*old(dev), lba as int, blocks_for(size as int), 0) as nat,
            |k: int| lba + k,
        ),
{
    let blocks = block_count(size);
    if lba > u64::MAX - blocks as u64 {
        return Err(BootError::OutOfRange);
    }
    let ghost whole = blocks_for(size as int) * 512;
    assert(old(dev).reads() + Seq::new(0, |k: int| lba + k) =~= old(dev).reads());
    let mut blk_idx: usize = 0;
    while blk_idx < blocks
        invariant
            blocks as int == blocks_for(size as int),
            whole == blocks * 512,
            whole <= dest@.len() == old(dest)@.len(),
            lba + blocks <= u64::MAX,
            blk_idx <= blocks,
            forall|l: int| #[trigger] dev.block(l) == old(dev).block(l),
            forall|l: int| #[trigger] dev.readable(l) == old(dev).readable(l),
            forall|k: int| 0 <= k < blk_idx ==> #[trigger] old(dev).readable(lba + k),
            load_reads(*old(dev), lba as int, blocks as int, 0) == load_reads(*old(dev), lba as int, blocks as int, blk_idx as int),
            dev.reads() == old(dev).reads() + Seq::new(blk_idx as nat, |k: int| lba + k),
            forall|i: int| 0 <= i < blk_idx * 512 ==> #[trigger] dest@[i] == old(dev).block(lba + i / 512)[i % 512],
            forall|i: int| blk_idx * 512 <= i < dest@.len() ==> #[trigger] dest@[i] == old(dest)@[i],
        decreases blocks - blk_idx,
    {
        let mut buf = [0u8; 512];
        match dev.read_block(lba + blk_idx as u64, &mut buf) {
            Ok(()) => {},
            Err(_) => {
                assert(!old(dev).readable(lba + blk_idx));
                assert(dev.reads() =~= old(dev).reads() + Seq::new((blk_idx + 1) as nat, |k: int| lba + k));
                return Err(BootError::Io);
            },
        }
        assert(blk_idx * 512 + 512 <= blocks * 512) by (nonlinear_arith)
            requires
                blk_idx < blocks,
        ;
        assert(dev.reads() =~= old(dev).reads() + Seq::new((blk_idx + 1) as nat, |k: int| lba + k));
        let base = blk_idx * BLOCK_SIZE;
        let mut t: usize = 0;
        while t < BLOCK_SIZE
            invariant
                base == blk_idx * 512,
                base + 512 <= dest@.len() == old(dest)@.len(),
                t <= 512,
                buf@.len() == 512,
                forall|i: int| 0 <= i < base ==> #[trigger] dest@[i] == old(dev).block(lba + i / 512)[i % 512],
                forall|i: int| base <= i < base + t ==> #[trigger] dest@[i] == buf@[i - base],
                forall|i: int| base + t <= i < dest@.len() ==> #[trigger] dest@[i] == old(dest)@[i],
            decreases 512 - t,
        {
            dest[base + t] = buf[t];
            t += 1;
        }
        assert forall|i: int| 0 <= i < (blk_idx + 1) * 512 implies #[trigger] dest@[i] == old(dev).block(
            lba + i / 512,
        )[i % 512] by {
            if i >= base {
                lemma_in_block(i, blk_idx as int);
            }
        }
        blk_idx += 1;
    }
    assert(dest@ =~= dest@);
    Ok(())
}

proof fn lemma_loader_name_valid()
    ensures
        valid_name(LOADER_NAME.spec_bytes()),
{
    let s = LOADER_NAME;
    reveal_strlit("LOADER.EFI");
    assert(s@.len() == 10);
    let c = s@;
    assert(c[0] == 'L' && c[1] == 'O' && c[2] == 'A' && c[3] == 'D' && c[4] == 'E');
    assert(c[5] == 'R' && c[6] == '.' && c[7] == 'E' && c[8] == 'F' && c[9] == 'I');
    assert(is_ascii_chars(c));
    vstd::string::is_ascii_spec_bytes(s);
    let b = s.spec_bytes();
    assert(b =~= seq![76u8, 79u8, 65u8, 68u8, 69u8, 82u8, 46u8, 69u8, 70u8, 73u8]);
    assert(crate::fat::is_name_split(b, 6));
}

/// What loading the boot image from the volume at `part_start` into a region
/// of `room` bytes returns.
pub open spec fn load_result<D: BlockDevice>(dev: D, part_start: u64, room: int) -> Result<usize, BootError> {
    let boot = dev.block(part_start as int);
    let found = find_result(dev, sector_geometry(part_start as int, boot), short_form(LOADER_NAME.spec_bytes()));
    if !dev.readable(part_start as int) {
        Err(BootError::Io)
    } else if !is_signed(boot) {
        Err(BootError::BadSignature)
    } else {
        match found {
            Err(e) => Err(e),
            Ok(None) => Err(BootError::NotFound),
            Ok(Some((lba, size))) => {
                let n = blocks_for(size as int);
                if n * 512 > room {
                    Err(BootError::NoRoom)
                } else if lba + n > u64::MAX {
                    Err(BootError::OutOfRange)
                } else if !all_readable(dev, lba as int, n) {
                    Err(BootError::Io)
                } else {
                    Ok(size)
                }
            },
        }
    }
}

/// Where the boot image lies on the device, once `load_result` has found it.
pub open spec fn image_lba<D: BlockDevice>(dev: D, part_start: u64) -> int {
    let boot = dev.block(part_start as int);
    let found = find_result(dev, sector_geometry(part_start as int, boot), short_form(LOADER_NAME.spec_bytes()));
    found->Ok_0->Some_0.0 as int
}

/// Loads the boot image `LOADER.EFI` from the FAT32 volume that starts at
/// block `part_start` into `dest`, and returns its size in bytes.
pub fn load_bootloader<D: BlockDevice>(dev: &mut D, part_start: u64, dest: &mut [u8]) -> (r: Result<usize, BootError>)
    ensures
        forall|l: int| #[trigger] final(dev).block(l) == old(dev).block(l),
        forall|l: int| #[trigger] final(dev).readable(l) == old(dev).readable(l),
        final(dest)@.len() == old(dest)@.len(),
        r == load_result(*old(dev), part_start, old(dest)@.len() as int),
        r matches Ok(n) ==> image_loaded(*old(dev), image_lba(*old(dev), part_start), n as int, final(dest)@),
        r matches Ok(n) ==> forall|i: int|
            blocks_for(n as int) * 512 <= i < old(dest)@.len() ==> #[trigger] final(dest)@[i] == old(dest)@[i],
        r is Err && r != Err::<usize, BootError>(BootError::Io) ==> final(dest)@ == old(dest)@,
{
    let volume = match init_fat(dev, part_start) {
        Ok(v) => v,
        Err(e) => return Err(e),
    };
    let ghost boot = old(dev).block(part_start as int);
    assert(volume.geometry() == sector_geometry(part_start as int, boot));
    let ghost mid = *dev;
    proof {
        lemma_loader_name_valid();
        lemma_lookup_same_blocks(mid, *old(dev), volume.geometry(), short_form(LOADER_NAME.spec_bytes()));
    }
    let found = match volume.find(LOADER_NAME, dev) {
        Ok(f) => f,
        Err(e) => return Err(e),
    };
    match found {
        None => Err(BootError::NotFound),
        Some((lba, size)) => {
            let blocks = block_count(size);
            if blocks > dest.len() / BLOCK_SIZE {
                assert(blocks * 512 > dest@.len()) by (nonlinear_arith)
                    requires
                        blocks > dest@.len() / 512,
                ;
                return Err(BootError::NoRoom);
            }
            assert(blocks * 512 <= dest@.len()) by (nonlinear_arith)
                requires
                    blocks <= dest@.len() / 512,
            ;
            let ghost pre = *dev;
            let ghost n = blocks_for(size as int);
            assert(all_readable(pre, lba as int, n) == all_readable(*old(dev), lba as int, n)) by {
                if all_readable(pre, lba as int, n) {
                    assert forall|k: int| 0 <= k < n implies #[trigger] old(dev).readable(lba + k) by {
                        assert(pre.readable(lba + k));
                    }
                }
                if all_readable(*old(dev), lba as int, n) {
                    assert forall|k: int| 0 <= k < n implies #[trigger] pre.readable(lba + k) by {
                        assert(old(dev).readable(lba + k));
                    }
                }
            }
            match load_to_mem(dev, lba, size, dest) {
                Ok(()) => Ok(size),
                Err(e) => Err(e),
            }
        },
    }
}

} // verus!
