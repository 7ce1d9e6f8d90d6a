use vstd::prelude::*;

verus! {

/// Size in bytes of one logical block.
pub const BLOCK_SIZE: usize = 512;

/// A failed block transfer.
#[derive(Debug, Clone, Copy, PartialEq, Eq)]
pub struct DeviceError;

/// A device that reads fixed 512-byte blocks by logical block address.
///
/// `block` and `readable` are the device's model. A device written outside
/// verified code (a hardware driver) cannot give them and keeps the
/// defaults, which are unknown values and no model of it: what the library
/// proves about reads holds only for devices that give both.
pub trait BlockDevice {
    /// What the device holds in the block at `lba`.
    closed spec fn block(&self, lba: int) -> Seq<u8> {
        arbitrary()
    }

    /// Whether reading the block at `lba` succeeds.
    closed spec fn readable(&self, lba: int) -> bool {
        arbitrary()
    }

    /// The blocks read so far, in order, failed reads included.
    closed spec fn reads(&self) -> Seq<int> {
        arbitrary()
    }

    /// Reads block `lba` into `buf`. Reading leaves the device's contents,
    /// and which blocks can be read, as they were.
    fn read_block(&mut self, lba: u64, buf: &mut [u8; 512]) -> (r: Result<(), DeviceError>)
        ensures
            forall|l: int| #[trigger] final(self).block(l) == old(self).block(l),
            forall|l: int| #[trigger] final(self).readable(l) == old(self).readable(l),
            final(self).reads() == old(self).reads().push(lba as int),
            r is Ok <==> old(self).readable(lba as int),
            r is Ok ==> final(buf)@ == old(self).block(lba as int),
    ;
}

/// A disk image held in memory: block `n` is bytes `512 * n .. 512 * n + 512`.
pub struct MemDisk {
    pub data: Vec<u8>,
    /// The blocks read so far.
    pub log: Ghost<Seq<int>>,
}

impl MemDisk {
    pub fn new(data: Vec<u8>) -> (r: MemDisk)
        ensures
            r.data@ == data@,
            r.reads() == Seq::<int>::empty(),
    {
        MemDisk { data, log: Ghost(Seq::empty()) }
    }

    /// Whether block `lba` lies wholly inside the image.
    pub open spec fn holds(&self, lba: int) -> bool {
        0 <= lba && (lba + 1) * 512 <= self.data@.len()
    }
}

impl BlockDevice for MemDisk {
    open spec fn block(&self, lba: int) -> Seq<u8> {
        if self.holds(lba) {
            self.data@.subrange(lba * 512, lba * 512 + 512)
        } else {
            Seq::new(512, |i: int| 0u8)
        }
    }

    open spec fn readable(&self, lba: int) -> bool {
        self.holds(lba)
    }

    open spec fn reads(&self) -> Seq<int> {
        self.log@
    }

    /// Fails on a block that does not lie wholly inside the image.
    fn read_block(&mut self, lba: u64, buf: &mut [u8; 512]) -> (r: Result<(), DeviceError>) {
        self.log = Ghost(self.log@.push(lba as int));
        let n = self.data.len() / BLOCK_SIZE;
        if lba >= n as u64 {
            assert(!self.holds(lba as int)) by (nonlinear_arith)
                requires
                    lba >= n,
                    n == self.data@.len() / 512,
            ;
            return Err(DeviceError);
        }
        let start = lba as usize * BLOCK_SIZE;
        assert((lba as int + 1) * 512 <= self.data@.len()) by (nonlinear_arith)
            requires
                lba < n,
                n == self.data@.len() / 512,
        ;
        let mut i: usize = 0;
        while i < BLOCK_SIZE
            invariant
                i <= 512,
                start == lba * 512,
                start + 512 <= self.data@.len(),
                buf@.len() == 512,
                forall|j: int| 0 <= j < i ==> buf@[j] == self.data@[start + j],
            decreases 512 - i,
        {
            buf[i] = self.data[start + i];
            i += 1;
        }
        assert(buf@ =~= self.block(lba as int));
        Ok(())
    }
}

} // verus!
