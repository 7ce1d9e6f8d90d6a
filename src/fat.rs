use vstd::prelude::*;
use crate::block::{BlockDevice, BLOCK_SIZE};
use crate::bytes::{le16, le32, read_u16, read_u32};
use vstd::string::StringSliceAdditionalSpecFns;

verus! {

/// Why the boot image could not be located or loaded.
#[derive(Debug, Clone, Copy, PartialEq, Eq, Structural)]
pub enum BootError {
    /// The boot sector does not end in 0x55, 0xAA.
    BadSignature,
    /// The file name is not of the form `BASE.EXT` with at most 8 and 3 bytes.
    BadName,
    /// The entry's cluster lies before the root directory's first cluster.
    BadCluster,
    /// A block address would leave the 64-bit block space.
    OutOfRange,
    /// The block device failed.
    Io,
    /// No entry of the root directory carries the name.
    NotFound,
    /// The image does not fit in the load region.
    NoRoom,
}

/// Headroom kept under `u64::MAX` for the sector arithmetic of a volume:
/// every sector offset inside a volume is below it.
pub const ADDR_LIMIT: u64 = 0x400_0000_0000;

/// Whether a boot sector carries the signature 0x55, 0xAA at bytes 510 and 511.
pub open spec fn is_signed(s: Seq<u8>) -> bool {
    s[510] == 0x55u8 && s[511] == 0xAAu8
}

/// The fields of a FAT32 boot sector.
#[derive(Debug, Clone, Copy)]
pub struct BpbSector {
    pub bytes_per_sector: u16,
    pub sectors_per_cluster: u8,
    pub reserved_sectors: u16,
    pub fats: u8,
    pub root_entries: u16,
    pub total_sectors_32: u32,
    pub sectors_per_fat_32: u32,
    pub root_dir_first_cluster: u32,
    pub fs_info_sector: u16,
    pub backup_boot_sector: u16,
    pub volume_id: u32,
    pub volume_label: [u8; 11],
    pub fs_type_label: [u8; 8],
}

/// `b` holds the fields that sector `s` stores at their fixed offsets.
pub open spec fn decodes(b: BpbSector, s: Seq<u8>) -> bool {
    &&& b.bytes_per_sector as int == le16(s, 11)
    &&& b.sectors_per_cluster == s[13]
    &&& b.reserved_sectors as int == le16(s, 14)
    &&& b.fats == s[16]
    &&& b.root_entries as int == le16(s, 17)
    &&& b.total_sectors_32 as int == le32(s, 32)
    &&& b.sectors_per_fat_32 as int == le32(s, 36)
    &&& b.root_dir_first_cluster as int == le32(s, 44)
    &&& b.fs_info_sector as int == le16(s, 48)
    &&& b.backup_boot_sector as int == le16(s, 50)
    &&& b.volume_id as int == le32(s, 67)
    &&& b.volume_label@ == s.subrange(71, 82)
    &&& b.fs_type_label@ == s.subrange(82, 90)
}

/// Every field of `b` is zero.
pub open spec fn is_blank(b: BpbSector) -> bool {
    &&& b.bytes_per_sector == 0
    &&& b.sectors_per_cluster == 0
    &&& b.reserved_sectors == 0
    &&& b.fats == 0
    &&& b.root_entries == 0
    &&& b.total_sectors_32 == 0
    &&& b.sectors_per_fat_32 == 0
    &&& b.root_dir_first_cluster == 0
    &&& b.fs_info_sector == 0
    &&& b.backup_boot_sector == 0
    &&& b.volume_id == 0
    &&& b.volume_label@ == Seq::new(11, |i: int| 0u8)
    &&& b.fs_type_label@ == Seq::new(8, |i: int| 0u8)
}

/// First sector of the root directory, relative to the volume:
/// reserved sectors plus all copies of the FAT.
pub open spec fn root_sector_of(b: BpbSector) -> int {
    b.reserved_sectors as int + b.fats as int * b.sectors_per_fat_32 as int
}

/// Sector of `cluster`, relative to the volume.
pub open spec fn cluster_sector_of(b: BpbSector, cluster: int) -> int {
    root_sector_of(b) + (cluster - b.root_dir_first_cluster as int) * b.sectors_per_cluster as int
}

/// Byte `k` (0 or 1) of `v`, little-endian.
pub open spec fn byte16(v: u16, k: int) -> u8 {
    if k == 0 {
        (v % 256) as u8
    } else {
        (v / 256) as u8
    }
}

/// Byte `k` (0 to 3) of `v`, little-endian.
pub open spec fn byte32(v: u32, k: int) -> u8 {
    if k == 0 {
        (v % 256) as u8
    } else if k == 1 {
        ((v / 256) % 256) as u8
    } else if k == 2 {
        ((v / 65536) % 256) as u8
    } else {
        (v / 16777216) as u8
    }
}

/// Byte `i` of the boot sector that stores `b`: each field at its offset,
/// the signature at 510 and 511, zero elsewhere.
pub open spec fn bpb_byte(b: BpbSector, i: int) -> u8 {
    if 11 <= i < 13 {
        byte16(b.bytes_per_sector, i - 11)
    } else if i == 13 {
        b.sectors_per_cluster
    } else if 14 <= i < 16 {
        byte16(b.reserved_sectors, i - 14)
    } else if i == 16 {
        b.fats
    } else if 17 <= i < 19 {
        byte16(b.root_entries, i - 17)
    } else if 32 <= i < 36 {
        byte32(b.total_sectors_32, i - 32)
    } else if 36 <= i < 40 {
        byte32(b.sectors_per_fat_32, i - 36)
    } else if 44 <= i < 48 {
        byte32(b.root_dir_first_cluster, i - 44)
    } else if 48 <= i < 50 {
        byte16(b.fs_info_sector, i - 48)
    } else if 50 <= i < 52 {
        byte16(b.backup_boot_sector, i - 50)
    } else if 67 <= i < 71 {
        byte32(b.volume_id, i - 67)
    } else if 71 <= i < 82 {
        b.volume_label@[i - 71]
    } else if 82 <= i < 90 {
        b.fs_type_label@[i - 82]
    } else if i == 510 {
        0x55u8
    } else if i == 511 {
        0xAAu8
    } else {
        0u8
    }
}

/// The 512-byte boot sector that stores `b`.
pub open spec fn encode_bpb(b: BpbSector) -> Seq<u8> {
    Seq::new(512, |i: int| bpb_byte(b, i))
}

/// Offsets of a boot sector that the decoder reads, the signature included.
pub open spec fn is_covered(i: int) -> bool {
    ||| 11 <= i < 19
    ||| 32 <= i < 40
    ||| 44 <= i < 52
    ||| 67 <= i < 90
    ||| 510 <= i < 512
}

proof fn lemma_bytes16(v: u16, s: Seq<u8>, off: int)
    requires
        0 <= off,
        off + 2 <= s.len(),
        v as int == le16(s, off),
    ensures
        byte16(v, 0) == s[off],
        byte16(v, 1) == s[off + 1],
{
    let a = s[off] as int;
    let c = s[off + 1] as int;
    assert(v % 256 == a && v / 256 == c) by (nonlinear_arith)
        requires
            v == a + 256 * c,
            0 <= a < 256,
            0 <= c < 256,
    ;
}

proof fn lemma_bytes32(v: u32, s: Seq<u8>, off: int)
    requires
        0 <= off,
        off + 4 <= s.len(),
        v as int == le32(s, off),
    ensures
        byte32(v, 0) == s[off],
        byte32(v, 1) == s[off + 1],
        byte32(v, 2) == s[off + 2],
        byte32(v, 3) == s[off + 3],
{
    let a = s[off] as u32;
    let b = s[off + 1] as u32;
    let c = s[off + 2] as u32;
    let d = s[off + 3] as u32;
    assert(v == a + 256 * b + 65536 * c + 16777216 * d);
    assert(v % 256 == a && (v / 256) % 256 == b && (v / 65536) % 256 == c && v / 16777216 == d) by (bit_vector)
        requires
            v == a + 256 * b + 65536 * c + 16777216 * d,
            a < 256,
            b < 256,
            c < 256,
            d < 256,
    ;
}

/// Decoding a signed boot sector and encoding the result gives back every
/// byte that the decoder reads, the signature included; so the encoded
/// sector decodes to the same fields.
pub proof fn lemma_bpb_round_trip(s: Seq<u8>, b: BpbSector)
    requires
        s.len() >= 512,
        is_signed(s),
        decodes(b, s),
    ensures
        forall|i: int| is_covered(i) ==> #[trigger] encode_bpb(b)[i] == s[i],
        is_signed(encode_bpb(b)),
        decodes(b, encode_bpb(b)),
{
    lemma_bytes16(b.bytes_per_sector, s, 11);
    lemma_bytes16(b.reserved_sectors, s, 14);
    lemma_bytes16(b.root_entries, s, 17);
    lemma_bytes32(b.total_sectors_32, s, 32);
    lemma_bytes32(b.sectors_per_fat_32, s, 36);
    lemma_bytes32(b.root_dir_first_cluster, s, 44);
    lemma_bytes16(b.fs_info_sector, s, 48);
    lemma_bytes16(b.backup_boot_sector, s, 50);
    lemma_bytes32(b.volume_id, s, 67);
    let e = encode_bpb(b);
    assert forall|i: int| is_covered(i) implies #[trigger] e[i] == s[i] by {
        if 71 <= i < 82 {
            assert(b.volume_label@[i - 71] == s.subrange(71, 82)[i - 71]);
        } else if 82 <= i < 90 {
            assert(b.fs_type_label@[i - 82] == s.subrange(82, 90)[i - 82]);
        }
    }
    assert(e.subrange(71, 82) =~= s.subrange(71, 82));
    assert(e.subrange(82, 90) =~= s.subrange(82, 90));
    assert(e[11] == s[11] && e[12] == s[12] && e[13] == s[13] && e[14] == s[14] && e[15] == s[15]);
    assert(e[16] == s[16] && e[17] == s[17] && e[18] == s[18]);
    assert(e[32] == s[32] && e[33] == s[33] && e[34] == s[34] && e[35] == s[35]);
    assert(e[36] == s[36] && e[37] == s[37] && e[38] == s[38] && e[39] == s[39]);
    assert(e[44] == s[44] && e[45] == s[45] && e[46] == s[46] && e[47] == s[47]);
    assert(e[48] == s[48] && e[49] == s[49] && e[50] == s[50] && e[51] == s[51]);
    assert(e[67] == s[67] && e[68] == s[68] && e[69] == s[69] && e[70] == s[70]);
    assert(e[510] == s[510] && e[511] == s[511]);
}

proof fn lemma_join16(v: u16)
    ensures
        byte16(v, 0) as int + 256 * (byte16(v, 1) as int) == v as int,
{
    assert(v % 256 + 256 * (v / 256) == v) by (nonlinear_arith);
    assert(v / 256 < 256) by (nonlinear_arith)
        requires
            v <= 0xFFFF,
    ;
}

proof fn lemma_join32(v: u32)
    ensures
        byte32(v, 0) as int + 256 * (byte32(v, 1) as int) + 65536 * (byte32(v, 2) as int + 256 * (
        byte32(v, 3) as int)) == v as int,
{
    let a = v % 256;
    let b = (v / 256) % 256;
    let c = (v / 65536) % 256;
    let d = v / 16777216;
    assert(a + 256 * b + 65536 * c + 16777216 * d == v) by (bit_vector)
        requires
            a == v % 256,
            b == (v / 256) % 256,
            c == (v / 65536) % 256,
            d == v / 16777216,
    ;
    assert(d < 256) by (bit_vector)
        requires
            d == v / 16777216,
    ;
}

/// Encoding any fields and decoding the sector gives the same fields back,
/// and the encoded sector carries the signature.
pub proof fn lemma_bpb_encode_decode(b: BpbSector)
    ensures
        is_signed(encode_bpb(b)),
        decodes(b, encode_bpb(b)),
{
    let e = encode_bpb(b);
    lemma_join16(b.bytes_per_sector);
    lemma_join16(b.reserved_sectors);
    lemma_join16(b.root_entries);
    lemma_join32(b.total_sectors_32);
    lemma_join32(b.sectors_per_fat_32);
    lemma_join32(b.root_dir_first_cluster);
    lemma_join16(b.fs_info_sector);
    lemma_join16(b.backup_boot_sector);
    lemma_join32(b.volume_id);
    assert(e.subrange(71, 82) =~= b.volume_label@);
    assert(e.subrange(82, 90) =~= b.fs_type_label@);
}

fn byte16_at(v: u16, k: usize) -> (r: u8)
    ensures
        r == byte16(v, k as int),
{
    if k == 0 {
        (v % 256) as u8
    } else {
        (v / 256) as u8
    }
}

fn byte32_at(v: u32, k: usize) -> (r: u8)
    ensures
        r == byte32(v, k as int),
{
    if k == 0 {
        (v % 256) as u8
    } else if k == 1 {
        ((v / 256) % 256) as u8
    } else if k == 2 {
        ((v / 65536) % 256) as u8
    } else {
        (v / 16777216) as u8
    }
}

impl Default for BpbSector {
    fn default() -> (r: BpbSector)
        ensures
            is_blank(r),
    {
        let r = BpbSector {
            bytes_per_sector: 0,
            sectors_per_cluster: 0,
            reserved_sectors: 0,
            fats: 0,
            root_entries: 0,
            total_sectors_32: 0,
            sectors_per_fat_32: 0,
            root_dir_first_cluster: 0,
            fs_info_sector: 0,
            backup_boot_sector: 0,
            volume_id: 0,
            volume_label: [0u8; 11],
            fs_type_label: [0u8; 8],
        };
        assert(r.volume_label@ =~= Seq::new(11, |i: int| 0u8));
        assert(r.fs_type_label@ =~= Seq::new(8, |i: int| 0u8));
        r
    }
}

/// Copies the `N` bytes of `sector` at `off` into `out`.
fn copy_label<const N: usize>(sector: &[u8], off: usize, out: &mut [u8; N])
    requires
        off + N <= sector.len(),
    ensures
        final(out)@ == sector@.subrange(off as int, off + N),
{
    let mut i: usize = 0;
    while i < N
        invariant
            off + N <= sector.len(),
            i <= N,
            out@.len() == N,
            forall|j: int| 0 <= j < i ==> out@[j] == sector@[off + j],
        decreases N - i,
    {
        out[i] = sector[off + i];
        i += 1;
    }
    assert(out@ =~= sector@.subrange(off as int, off + N));
}

impl BpbSector {
    /// Decodes the boot sector `sector`; fails unless it ends in 0x55, 0xAA.
    pub fn deserialize(sector: &[u8]) -> (r: Result<BpbSector, BootError>)
        requires
            sector@.len() >= 512,
        ensures
            is_signed(sector@) ==> r is Ok && decodes(r->Ok_0, sector@),
            !is_signed(sector@) ==> r == Err::<BpbSector, BootError>(BootError::BadSignature),
    {
        if sector[510] != 0x55 || sector[511] != 0xAA {
            return Err(BootError::BadSignature);
        }
        let mut volume_label = [0u8; 11];
        copy_label(sector, 71, &mut volume_label);
        let mut fs_type_label = [0u8; 8];
        copy_label(sector, 82, &mut fs_type_label);
        Ok(BpbSector {
            bytes_per_sector: read_u16(sector, 11),
            sectors_per_cluster: sector[13],
            reserved_sectors: read_u16(sector, 14),
            fats: sector[16],
            root_entries: read_u16(sector, 17),
            total_sectors_32: read_u32(sector, 32),
            sectors_per_fat_32: read_u32(sector, 36),
            root_dir_first_cluster: read_u32(sector, 44),
            fs_info_sector: read_u16(sector, 48),
            backup_boot_sector: read_u16(sector, 50),
            volume_id: read_u32(sector, 67),
            volume_label,
            fs_type_label,
        })
    }

    /// Byte `i` of the boot sector that stores these fields.
    fn byte_at(&self, i: usize) -> (r: u8)
        requires
            i < 512,
        ensures
            r == bpb_byte(*self, i as int),
    {
        if 11 <= i && i < 13 {
            byte16_at(self.bytes_per_sector, i - 11)
        } else if i == 13 {
            self.sectors_per_cluster
        } else if 14 <= i && i < 16 {
            byte16_at(self.reserved_sectors, i - 14)
        } else if i == 16 {
            self.fats
        } else if 17 <= i && i < 19 {
            byte16_at(self.root_entries, i - 17)
        } else if 32 <= i && i < 36 {
            byte32_at(self.total_sectors_32, i - 32)
        } else if 36 <= i && i < 40 {
            byte32_at(self.sectors_per_fat_32, i - 36)
        } else if 44 <= i && i < 48 {
            byte32_at(self.root_dir_first_cluster, i - 44)
        } else if 48 <= i && i < 50 {
            byte16_at(self.fs_info_sector, i - 48)
        } else if 50 <= i && i < 52 {
            byte16_at(self.backup_boot_sector, i - 50)
        } else if 67 <= i && i < 71 {
            byte32_at(self.volume_id, i - 67)
        } else if 71 <= i && i < 82 {
            self.volume_label[i - 71]
        } else if 82 <= i && i < 90 {
            self.fs_type_label[i - 82]
        } else if i == 510 {
            0x55
        } else if i == 511 {
            0xAA
        } else {
            0
        }
    }

    /// The 512-byte boot sector that stores these fields, signature
    /// included, with zero in every byte that no field covers.
    pub fn serialize(&self) -> (r: Vec<u8>)
        ensures
            r@ == encode_bpb(*self),
    {
        let mut out: Vec<u8> = Vec::new();
        let mut i: usize = 0;
        while i < 512
            invariant
                i <= 512,
                out@.len() == i,
                forall|j: int| 0 <= j < i ==> out@[j] == bpb_byte(*self, j),
            decreases 512 - i,
        {
            out.push(self.byte_at(i));
            i += 1;
        }
        assert(out@ =~= encode_bpb(*self));
        out
    }

    /// First sector of the root directory, relative to the volume.
    pub fn root_sector(&self) -> (r: u64)
        ensures
            r as int == root_sector_of(*self),
            r < 0x100_0000_0000,
    {
        assert(self.fats as int * self.sectors_per_fat_32 as int <= 255 * 0xFFFF_FFFF) by (nonlinear_arith)
            requires
                self.fats <= 255,
                self.sectors_per_fat_32 <= 0xFFFF_FFFF,
        ;
        self.reserved_sectors as u64 + self.fats as u64 * self.sectors_per_fat_32 as u64
    }

    /// Sector of `cluster`, relative to the volume.
    pub fn cluster_to_sector(&self, cluster: u64) -> (r: u64)
        requires
            self.root_dir_first_cluster <= cluster <= 0xFFFF_FFFF,
        ensures
            r as int == cluster_sector_of(*self, cluster as int),
            r < 0x200_0000_0000,
    {
        let d = cluster - self.root_dir_first_cluster as u64;
        assert(d as int * self.sectors_per_cluster as int <= 0xFFFF_FFFF * 255) by (nonlinear_arith)
            requires
                d <= 0xFFFF_FFFF,
                self.sectors_per_cluster <= 255,
        ;
        self.root_sector() + d * self.sectors_per_cluster as u64
    }
}

/// Whether `name` is `BASE.EXT`: exactly one '.', at most 8 bytes before it
/// and at most 3 after it.
pub open spec fn valid_name(name: Seq<u8>) -> bool {
    exists|p: int| is_name_split(name, p)
}

/// The only '.' of `name` stands at `p`, with at most 8 bytes before it and at
/// most 3 after it.
pub open spec fn is_name_split(name: Seq<u8>, p: int) -> bool {
    &&& 0 <= p < name.len()
    &&& name[p] == 0x2Eu8
    &&& forall|i: int| 0 <= i < name.len() && i != p ==> name[i] != 0x2Eu8
    &&& p <= 8
    &&& name.len() - p - 1 <= 3
}

/// The 11-byte directory form of `name` split at `p`: base in bytes 0..8 and
/// extension in bytes 8..11, each left-aligned and padded with spaces.
pub open spec fn short_name(name: Seq<u8>, p: int) -> Seq<u8> {
    Seq::new(
        11,
        |i: int|
            if i < p {
                name[i]
            } else if 8 <= i < 8 + (name.len() - p - 1) {
                name[p + 1 + (i - 8)]
            } else {
                0x20u8
            },
    )
}

/// The 11-byte directory form of a valid name.
pub open spec fn short_form(name: Seq<u8>) -> Seq<u8> {
    short_name(name, choose|p: int| is_name_split(name, p))
}

/// Turns `name` into the fixed-width form that directory entries store.
pub fn serialize_name(name: &str) -> (r: Result<[u8; 11], BootError>)
    ensures
        match r {
            Ok(n) => valid_name(name.spec_bytes()) && n@ == short_form(name.spec_bytes()),
            Err(e) => e == BootError::BadName && !valid_name(name.spec_bytes()),
        },
{
    let b = name.as_bytes();
    let n = b.len();
    let mut dots: usize = 0;
    let mut point: usize = 0;
    let mut i: usize = 0;
    while i < n
        invariant
            n == b@.len(),
            b@ == name.spec_bytes(),
            i <= n,
            dots <= i,
            dots == 0 ==> forall|j: int| 0 <= j < i ==> b@[j] != 0x2Eu8,
            dots == 1 ==> point < i && b@[point as int] == 0x2Eu8 && forall|j: int|
                0 <= j < i && j != point ==> b@[j] != 0x2Eu8,
            dots >= 2 ==> !valid_name(b@),
        decreases n - i,
    {
        if b[i] == 0x2E {
            if dots == 1 {
                assert forall|p: int| !is_name_split(b@, p) by {
                    if is_name_split(b@, p) {
                        assert(p == point as int || p == i as int);
                    }
                }
            }
            if dots < 2 {
                dots += 1;
            }
            point = i;
        }
        i += 1;
    }
    if dots != 1 || point > 8 || n - point - 1 > 3 {
        assert forall|p: int| !is_name_split(b@, p) by {
            if is_name_split(b@, p) && dots == 1 {
                assert(p == point as int);
            }
        }
        return Err(BootError::BadName);
    }
    let mut out = [0x20u8; 11];
    let mut k: usize = 0;
    while k < point
        invariant
            k <= point <= 8,
            point < n == b@.len(),
            out@.len() == 11,
            forall|j: int| 0 <= j < k ==> out@[j] == b@[j],
            forall|j: int| k <= j < 11 ==> out@[j] == 0x20u8,
        decreases point - k,
    {
        out[k] = b[k];
        k += 1;
    }
    let ext = n - point - 1;
    let mut k: usize = 0;
    while k < ext
        invariant
            point <= 8,
            ext <= 3,
            point + 1 + ext == n == b@.len(),
            k <= ext,
            out@.len() == 11,
            forall|j: int| 0 <= j < point ==> out@[j] == b@[j],
            forall|j: int| 8 <= j < 8 + k ==> out@[j] == b@[point + 1 + (j - 8)],
            forall|j: int| point <= j < 8 || 8 + k <= j < 11 ==> out@[j] == 0x20u8,
        decreases ext - k,
    {
        out[8 + k] = b[point + 1 + k];
        k += 1;
    }
    assert(is_name_split(b@, point as int));
    let ghost q = choose|q: int| is_name_split(b@, q);
    assert(q == point as int);
    assert(out@ =~= short_name(b@, point as int));
    Ok(out)
}

/// The 32-byte record in slot `slot` of a directory sector.
pub open spec fn record(sector: Seq<u8>, slot: int) -> Seq<u8> {
    sector.subrange(32 * slot, 32 * slot + 32)
}

/// Whether all 32 bytes of a record are zero: an empty slot.
pub open spec fn is_zero_record(rec: Seq<u8>) -> bool {
    forall|i: int| 0 <= i < 32 ==> rec[i] == 0u8
}

/// Whether a record is a file, with nonzero size, named `target`.
pub open spec fn record_matches(rec: Seq<u8>, target: Seq<u8>) -> bool {
    &&& !is_zero_record(rec)
    &&& le32(rec, 28) != 0
    &&& rec.subrange(0, 11) == target
}

/// Cluster number of a record: low half at bytes 26..28, high half at 20..22.
pub open spec fn record_cluster(rec: Seq<u8>) -> int {
    le16(rec, 26) + 65536 * le16(rec, 20)
}

/// First slot at or after `j` of a directory sector whose record matches `target`.
pub open spec fn first_in_sector(sector: Seq<u8>, target: Seq<u8>, j: int) -> Option<int>
    decreases 16 - j,
{
    if j >= 16 || j < 0 {
        None
    } else if record_matches(record(sector, j), target) {
        Some(j)
    } else {
        first_in_sector(sector, target, j + 1)
    }
}

/// A decoded directory record.
#[derive(Debug, Clone, Copy)]
pub struct DirEntry {
    pub name: [u8; 11],
    pub cluster_h: u16,
    pub cluster_l: u16,
    pub size: u32,
}

/// `e` holds the fields that the 32-byte record `rec` stores.
pub open spec fn entry_decodes(e: DirEntry, rec: Seq<u8>) -> bool {
    &&& e.name@ == rec.subrange(0, 11)
    &&& e.cluster_h as int == le16(rec, 20)
    &&& e.cluster_l as int == le16(rec, 26)
    &&& e.size as int == le32(rec, 28)
}

impl DirEntry {
    /// Decodes a 32-byte record; `None` for an all-zero record.
    pub fn deserialize(bytes: &[u8]) -> (r: Option<DirEntry>)
        requires
            bytes@.len() == 32,
        ensures
            is_zero_record(bytes@) <==> r is None,
            r is Some ==> entry_decodes(r->Some_0, bytes@),
    {
        let mut i: usize = 0;
        let mut zero = true;
        while i < 32
            invariant
                i <= 32,
                bytes@.len() == 32,
                zero == forall|j: int| 0 <= j < i ==> bytes@[j] == 0u8,
            decreases 32 - i,
        {
            if bytes[i] != 0 {
                zero = false;
            }
            i += 1;
        }
        if zero {
            return None;
        }
        let mut name = [0u8; 11];
        copy_label(bytes, 0, &mut name);
        Some(DirEntry {
            name,
            cluster_h: read_u16(bytes, 20),
            cluster_l: read_u16(bytes, 26),
            size: read_u32(bytes, 28),
        })
    }

    /// Whether the entry is a file: its size is nonzero.
    pub fn is_file(&self) -> (r: bool)
        ensures
            r == (self.size != 0),
    {
        self.size != 0
    }

    /// The cluster number joined from its two halves.
    pub fn cluster(&self) -> (r: u32)
        ensures
            r as int == self.cluster_l as int + 65536 * self.cluster_h as int,
    {
        let l = self.cluster_l as u32;
        let h = self.cluster_h as u32;
        assert(l | (h << 16u32) == l + 65536 * h) by (bit_vector)
            requires
                l < 65536,
                h < 65536,
        ;
        l | (h << 16u32)
    }
}

fn same_name(a: &[u8; 11], b: &[u8; 11]) -> (r: bool)
    ensures
        r == (a@ == b@),
{
    let mut i: usize = 0;
    while i < 11
        invariant
            i <= 11,
            a@.len() == 11,
            b@.len() == 11,
            forall|j: int| 0 <= j < i ==> a@[j] == b@[j],
        decreases 11 - i,
    {
        if a[i] != b[i] {
            return false;
        }
        i += 1;
    }
    assert(a@ =~= b@);
    true
}

/// First slot of the directory sector `sector` whose record is a file named
/// `target`, with that record decoded.
pub fn match_in_sector(target: &[u8; 11], sector: &[u8]) -> (r: Option<(usize, DirEntry)>)
    requires
        sector@.len() == 512,
    ensures
        match r {
            Some((j, e)) => first_in_sector(sector@, target@, 0) == Some(j as int)
                && entry_decodes(e, record(sector@, j as int)),
            None => first_in_sector(sector@, target@, 0) is None,
        },
{
    let mut j: usize = 0;
    while j < 16
        invariant
            j <= 16,
            sector@.len() == 512,
            first_in_sector(sector@, target@, 0) == first_in_sector(sector@, target@, j as int),
        decreases 16 - j,
    {
        let start = j * 32;
        let rec = &sector[start..start + 32];
        assert(rec@ == record(sector@, j as int));
        match DirEntry::deserialize(rec) {
            Some(e) => {
                if e.is_file() && same_name(target, &e.name) {
                    return Some((j, e));
                }
            },
            None => {},
        }
        j += 1;
    }
    None
}

/// Where a volume lies and how its root directory and clusters are laid out,
/// in sectors.
pub struct Geometry {
    /// First block of the volume on the device.
    pub start: int,
    /// First sector of the root directory, relative to the volume.
    pub root: int,
    /// Sectors per cluster.
    pub spc: int,
    /// Cluster number of the root directory's first cluster.
    pub root_cluster: int,
}

/// The geometry of a volume that starts at `start` and whose boot sector is `s`.
pub open spec fn sector_geometry(start: int, s: Seq<u8>) -> Geometry {
    Geometry {
        start,
        root: le16(s, 14) + s[16] as int * le32(s, 36),
        spc: s[13] as int,
        root_cluster: le32(s, 44),
    }
}

/// Absolute block of sector `i` of the root directory.
pub open spec fn root_block(g: Geometry, i: int) -> int {
    g.start + g.root + i
}

/// First (sector, slot) of the root directory, from sector `i` on, whose
/// record is a file named `target`. Only the first cluster is scanned.
pub open spec fn first_match<D: BlockDevice>(dev: D, g: Geometry, target: Seq<u8>, i: int) -> Option<(int, int)>
    decreases g.spc - i,
{
    if i >= g.spc || i < 0 {
        None
    } else {
        match first_in_sector(dev.block(root_block(g, i)), target, 0) {
            Some(j) => Some((i, j)),
            None => first_match(dev, g, target, i + 1),
        }
    }
}

/// What a lookup returns for an entry with cluster `cluster` and size `size`:
/// its absolute sector and its size.
pub open spec fn resolve_entry(g: Geometry, cluster: int, size: int) -> Result<Option<(u64, usize)>, BootError> {
    if g.start > u64::MAX - ADDR_LIMIT {
        Err(BootError::OutOfRange)
    } else if cluster < g.root_cluster {
        Err(BootError::BadCluster)
    } else {
        Ok(Some(((g.start + g.root + (cluster - g.root_cluster) * g.spc) as u64, size as usize)))
    }
}

/// What looking up `target` in the root directory returns.
pub open spec fn lookup<D: BlockDevice>(dev: D, g: Geometry, target: Seq<u8>) -> Result<Option<(u64, usize)>, BootError> {
    if g.start > u64::MAX - ADDR_LIMIT {
        Err(BootError::OutOfRange)
    } else {
        match first_match(dev, g, target, 0) {
            None => Ok(None),
            Some((i, j)) => {
                let rec = record(dev.block(root_block(g, i)), j);
                resolve_entry(g, record_cluster(rec), le32(rec, 28))
            },
        }
    }
}

/// How many root directory sectors a lookup of `target` reads: up to and
/// including the first one that holds a match, or the whole first cluster.
pub open spec fn sectors_scanned<D: BlockDevice>(dev: D, g: Geometry, target: Seq<u8>) -> int {
    match first_match(dev, g, target, 0) {
        Some((i, j)) => i + 1,
        None => g.spc,
    }
}

/// Whether every root directory sector that a lookup of `target` reads can
/// be read.
pub open spec fn scan_readable<D: BlockDevice>(dev: D, g: Geometry, target: Seq<u8>) -> bool {
    forall|k: int| 0 <= k < sectors_scanned(dev, g, target) ==> #[trigger] dev.readable(root_block(g, k))
}

/// What `Volume::find` returns for the 11-byte name `target`: the lookup,
/// or an I/O error when one of the sectors it reads cannot be read.
pub open spec fn find_result<D: BlockDevice>(dev: D, g: Geometry, target: Seq<u8>) -> Result<Option<(u64, usize)>, BootError> {
    if g.start > u64::MAX - ADDR_LIMIT {
        Err(BootError::OutOfRange)
    } else if !scan_readable(dev, g, target) {
        Err(BootError::Io)
    } else {
        lookup(dev, g, target)
    }
}

/// How many root directory sectors a lookup reads, from sector `i` on: it
/// stops after the first sector that cannot be read or holds a match.
pub open spec fn reads_from<D: BlockDevice>(dev: D, g: Geometry, target: Seq<u8>, i: int) -> int
    decreases sectors_scanned(dev, g, target) - i,
{
    if i < 0 || i >= sectors_scanned(dev, g, target) {
        i
    } else if !dev.readable(root_block(g, i)) {
        i + 1
    } else {
        reads_from(dev, g, target, i + 1)
    }
}

/// The blocks that `Volume::find` reads for the 11-byte name `target`, in
/// order: the root directory's sectors from the first on.
pub open spec fn find_reads<D: BlockDevice>(dev: D, g: Geometry, target: Seq<u8>) -> Seq<int> {
    if g.start > u64::MAX - ADDR_LIMIT {
        Seq::empty()
    } else {
        Seq::new(reads_from(dev, g, target, 0) as nat, |k: int| root_block(g, k))
    }
}

proof fn lemma_first_match_from<D: BlockDevice>(dev: D, g: Geometry, target: Seq<u8>, i: int)
    requires
        0 <= i,
    ensures
        first_match(dev, g, target, i) matches Some((k, j)) ==> i <= k < g.spc,
    decreases g.spc - i,
{
    if i < g.spc {
        lemma_first_match_from(dev, g, target, i + 1);
    }
}

proof fn lemma_zero_sector_no_match(target: Seq<u8>, j: int)
    requires
        0 <= j <= 16,
    ensures
        first_in_sector(Seq::new(512, |k: int| 0u8), target, j) is None,
    decreases 16 - j,
{
    let z = Seq::new(512, |k: int| 0u8);
    if j < 16 {
        assert(is_zero_record(record(z, j)));
        lemma_zero_sector_no_match(target, j + 1);
    }
}

proof fn lemma_zero_region_from<D: BlockDevice>(dev: D, g: Geometry, target: Seq<u8>, i: int)
    requires
        0 <= i,
        forall|k: int| 0 <= k < g.spc ==> #[trigger] dev.block(root_block(g, k)) == Seq::new(512, |b: int| 0u8),
    ensures
        first_match(dev, g, target, i) is None,
    decreases g.spc - i,
{
    if i < g.spc {
        lemma_zero_sector_no_match(target, 0);
        assert(dev.block(root_block(g, i)) == Seq::new(512, |b: int| 0u8));
        lemma_zero_region_from(dev, g, target, i + 1);
    }
}

proof fn lemma_first_match_same_blocks<D: BlockDevice>(a: D, b: D, g: Geometry, target: Seq<u8>, i: int)
    requires
        0 <= i,
        forall|l: int| #[trigger] a.block(l) == b.block(l),
    ensures
        first_match(a, g, target, i) == first_match(b, g, target, i),
    decreases g.spc - i,
{
    if i < g.spc {
        assert(a.block(root_block(g, i)) == b.block(root_block(g, i)));
        lemma_first_match_same_blocks(a, b, g, target, i + 1);
    }
}

/// A lookup depends on nothing but the blocks that the device holds and
/// which of them can be read.
pub proof fn lemma_lookup_same_blocks<D: BlockDevice>(a: D, b: D, g: Geometry, target: Seq<u8>)
    requires
        forall|l: int| #[trigger] a.block(l) == b.block(l),
        forall|l: int| #[trigger] a.readable(l) == b.readable(l),
    ensures
        lookup(a, g, target) == lookup(b, g, target),
        find_result(a, g, target) == find_result(b, g, target),
{
    assert(sectors_scanned(a, g, target) == sectors_scanned(b, g, target)) by {
        lemma_first_match_same_blocks(a, b, g, target, 0);
    }
    assert(scan_readable(a, g, target) == scan_readable(b, g, target)) by {
        if scan_readable(a, g, target) {
            assert forall|k: int| 0 <= k < sectors_scanned(b, g, target) implies #[trigger] b.readable(
                root_block(g, k),
            ) by {
                assert(a.readable(root_block(g, k)));
            }
        }
        if scan_readable(b, g, target) {
            assert forall|k: int| 0 <= k < sectors_scanned(a, g, target) implies #[trigger] a.readable(
                root_block(g, k),
            ) by {
                assert(b.readable(root_block(g, k)));
            }
        }
    }
    lemma_first_match_same_blocks(a, b, g, target, 0);
    match first_match(a, g, target, 0) {
        Some((i, j)) => {
            assert(a.block(root_block(g, i)) == b.block(root_block(g, i)));
        },
        None => {},
    }
}

/// A root directory cluster whose sectors are all zero holds no file: the
/// lookup finds nothing, whatever the name, and `find` returns `Ok(None)`
/// when those sectors can be read.
pub proof fn lemma_zero_region_not_found<D: BlockDevice>(dev: D, g: Geometry, target: Seq<u8>)
    requires
        g.start <= u64::MAX - ADDR_LIMIT,
        forall|k: int| 0 <= k < g.spc ==> #[trigger] dev.block(root_block(g, k)) == Seq::new(512, |b: int| 0u8),
    ensures
        lookup(dev, g, target) == Ok::<Option<(u64, usize)>, BootError>(None),
        (forall|k: int| 0 <= k < g.spc ==> #[trigger] dev.readable(root_block(g, k))) ==> find_result(dev, g, target)
            == Ok::<Option<(u64, usize)>, BootError>(None),
{
    lemma_zero_region_from(dev, g, target, 0);
}

/// A FAT32 volume: its boot sector and the block where it starts.
#[derive(Debug, Clone, Copy)]
pub struct Volume {
    pub start_lba: u64,
    pub bpb: BpbSector,
}

impl Volume {
    pub open spec fn geometry(&self) -> Geometry {
        Geometry {
            start: self.start_lba as int,
            root: root_sector_of(self.bpb),
            spc: self.bpb.sectors_per_cluster as int,
            root_cluster: self.bpb.root_dir_first_cluster as int,
        }
    }

    /// A volume at `start_lba` whose boot sector is not read yet.
    pub fn new(start_lba: u64) -> (r: Volume)
        ensures
            r.start_lba == start_lba,
            is_blank(r.bpb),
    {
        Volume { start_lba, bpb: BpbSector::default() }
    }

    /// Takes the boot sector from `sector`; fails, and leaves the volume as it
    /// was, unless it ends in 0x55, 0xAA.
    pub fn init_bpb(&mut self, sector: &[u8]) -> (r: Result<(), BootError>)
        requires
            sector@.len() >= 512,
        ensures
            final(self).start_lba == old(self).start_lba,
            is_signed(sector@) ==> r is Ok && decodes(final(self).bpb, sector@),
            !is_signed(sector@) ==> r == Err::<(), BootError>(BootError::BadSignature) && *final(self) == *old(self),
    {
        match BpbSector::deserialize(sector) {
            Ok(b) => {
                self.bpb = b;
                Ok(())
            },
            Err(e) => Err(e),
        }
    }

    /// The absolute sector and the size of the file that `e` describes.
    pub fn locate(&self, e: &DirEntry) -> (r: Result<Option<(u64, usize)>, BootError>)
        ensures
            r == resolve_entry(self.geometry(), e.cluster_l as int + 65536 * e.cluster_h as int, e.size as int),
    {
        if self.start_lba > u64::MAX - ADDR_LIMIT {
            return Err(BootError::OutOfRange);
        }
        let cluster = e.cluster() as u64;
        if cluster < self.bpb.root_dir_first_cluster as u64 {
            return Err(BootError::BadCluster);
        }
        let sector = self.bpb.cluster_to_sector(cluster);
        Ok(Some((self.start_lba + sector, e.size as usize)))
    }

    /// Looks `name` up in the first cluster of the root directory: the
    /// absolute sector and the size of the first file of that name. Reads the
    /// root directory's sectors in order and stops at the first match or the
    /// first failed read.
    pub fn find<D: BlockDevice>(&self, name: &str, dev: &mut D) -> (r: Result<Option<(u64, usize)>, BootError>)
        ensures
            forall|l: int| #[trigger] final(dev).block(l) == old(dev).block(l),
            forall|l: int| #[trigger] final(dev).readable(l) == old(dev).readable(l),
            !valid_name(name.spec_bytes()) ==> r == Err::<Option<(u64, usize)>, BootError>(BootError::BadName),
            valid_name(name.spec_bytes()) ==> r == find_result(*old(dev), self.geometry(), short_form(name.spec_bytes())),
            valid_name(name.spec_bytes()) ==> final(dev).reads() == old(dev).reads() + find_reads(
                *old(dev),
                self.geometry(),
                short_form(name.spec_bytes()),
            ),
            !valid_name(name.spec_bytes()) ==> final(dev).reads() == old(dev).reads(),
            valid_name(name.spec_bytes()) && self.start_lba > u64::MAX - ADDR_LIMIT ==> r == Err::<
                Option<(u64, usize)>,
                BootError,
            >(BootError::OutOfRange),
            valid_name(name.spec_bytes()) && self.start_lba <= u64::MAX - ADDR_LIMIT && self.bpb.sectors_per_cluster
                == 0 ==> r == Ok::<Option<(u64, usize)>, BootError>(None),
    {
        let target = match serialize_name(name) {
            Ok(t) => t,
            Err(e) => return Err(e),
        };
        let ghost g = self.geometry();
        if self.start_lba > u64::MAX - ADDR_LIMIT {
            assert(old(dev).reads() + Seq::<int>::empty() =~= old(dev).reads());
            return Err(BootError::OutOfRange);
        }
        let root = self.bpb.root_sector();
        let ghost t = target@;
        proof {
            lemma_first_match_from(*old(dev), g, t, 0);
        }
        assert(old(dev).reads() + Seq::new(0, |k: int| root_block(g, k)) =~= old(dev).reads());
        let mut search_num: u8 = 0;
        while search_num < self.bpb.sectors_per_cluster
            invariant
                g == self.geometry(),
                valid_name(name.spec_bytes()),
                target@ == short_form(name.spec_bytes()),
                self.start_lba <= u64::MAX - ADDR_LIMIT,
                root as int == g.root,
                root < 0x100_0000_0000,
                search_num <= self.bpb.sectors_per_cluster,
                forall|l: int| #[trigger] dev.block(l) == old(dev).block(l),
                forall|l: int| #[trigger] dev.readable(l) == old(dev).readable(l),
                first_match(*old(dev), g, target@, 0) == first_match(*old(dev), g, target@, search_num as int),
                forall|k: int| 0 <= k < search_num ==> #[trigger] old(dev).readable(root_block(g, k)),
                t == target@,
                search_num <= sectors_scanned(*old(dev), g, t),
                reads_from(*old(dev), g, t, 0) == reads_from(*old(dev), g, t, search_num as int),
                dev.reads() == old(dev).reads() + Seq::new(search_num as nat, |k: int| root_block(g, k)),
            decreases self.bpb.sectors_per_cluster - search_num,
        {
            let mut buf = [0u8; 512];
            let lba = self.start_lba + root + search_num as u64;
            proof {
                lemma_first_match_from(*old(dev), g, target@, search_num as int);
            }
            let ghost before = dev.reads();
            match dev.read_block(lba, &mut buf) {
                Ok(()) => {},
                Err(_) => {
                    assert(!scan_readable(*old(dev), g, target@)) by {
                        assert(sectors_scanned(*old(dev), g, target@) > search_num);
                        assert(!old(dev).readable(root_block(g, search_num as int)));
                    }
                    assert(dev.reads() =~= old(dev).reads() + Seq::new((search_num + 1) as nat, |k: int| root_block(g, k)));
                    return Err(BootError::Io);
                },
            }
            assert(buf@ == old(dev).block(root_block(g, search_num as int)));
            assert(dev.reads() =~= old(dev).reads() + Seq::new((search_num + 1) as nat, |k: int| root_block(g, k)));
            match match_in_sector(&target, buf.as_slice()) {
                Some((_j, e)) => {
                    assert(scan_readable(*old(dev), g, target@));
                    assert(reads_from(*old(dev), g, t, search_num + 1) == search_num + 1);
                    return self.locate(&e);
                },
                None => {},
            }
            search_num += 1;
        }
        assert(scan_readable(*old(dev), g, target@));
        Ok(None)
    }
}

} // verus!
