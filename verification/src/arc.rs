//! The ARC container: a magic, an entry count, fixed-width directory
//! entries (two on-disk layouts) and a data region. The reader parses a
//! whole archive image held in memory; the packer builds one.

use vstd::prelude::*;
use crate::decrypt::{spec_le32, read32};

verus! {

/// The bytes of `"PackFile    "`.
pub open spec fn arc_magic_v1() -> Seq<u8> {
    seq![
        0x50u8,
        0x61u8,
        0x63u8,
        0x6Bu8,
        0x46u8,
        0x69u8,
        0x6Cu8,
        0x65u8,
        0x20u8,
        0x20u8,
        0x20u8,
        0x20u8,
    ]
}

/// The bytes of `"BURIKO ARC20"`.
pub open spec fn arc_magic_v2() -> Seq<u8> {
    seq![
        0x42u8,
        0x55u8,
        0x52u8,
        0x49u8,
        0x4Bu8,
        0x4Fu8,
        0x20u8,
        0x41u8,
        0x52u8,
        0x43u8,
        0x32u8,
        0x30u8,
    ]
}

/// The on-disk archive version a blob announces: 1, 2, or 0 for
/// neither.
pub open spec fn spec_arc_version(s: Seq<u8>) -> int {
    if s.len() >= 16 && s.subrange(0, 12) == arc_magic_v1() {
        1
    } else if s.len() >= 16 && s.subrange(0, 12) == arc_magic_v2() {
        2
    } else {
        0
    }
}

/// The size of one directory entry in each version (the fixed name,
/// the version's padding runs, and the offset and size words).
pub open spec fn entry_size(version: int) -> int {
    if version == 1 {
        32
    } else {
        128
    }
}

/// A stored name byte: NUL padding is kept, anything outside printable
/// ASCII becomes an underscore.
pub open spec fn scrub(b: u8) -> u8 {
    if b != 0 && !(0x20 <= b <= 0x7E) {
        0x5Fu8
    } else {
        b
    }
}

/// The scrubbed 16-byte name stored at `base`. (Opaque so that every
/// mention is one symbol; its definition is one `Seq::new` over
/// `scrub`.)
#[verifier::opaque]
pub open spec fn spec_entry_name(s: Seq<u8>, base: int) -> Seq<u8> {
    Seq::new(16, |j: int| scrub(s[base + j]))
}

/// Where an entry's offset field sits, relative to the entry.
pub open spec fn offset_field(version: int) -> int {
    if version == 1 {
        16
    } else {
        96
    }
}

/// Whether a blob is a well-formed archive image: a known magic and a
/// directory that fits.
pub open spec fn spec_arc_ok(s: Seq<u8>) -> bool {
    let version = spec_arc_version(s);
    &&& version != 0
    &&& s.len() >= 16 + spec_le32(s, 12) * entry_size(version)
    &&& 16 + spec_le32(s, 12) * entry_size(version) <= u32::MAX
}

/// One directory entry: a scrubbed fixed-width name and the blob's
/// offset and size within the data region.
#[derive(Debug, Clone)]
pub struct ArcFile {
    /// The 16 stored name bytes, NUL-padded, scrubbed on load.
    pub name: Vec<u8>,
    /// Offset of the blob, relative to the data region.
    pub offset: u32,
    /// Size of the blob in bytes.
    pub size: u32,
}

/// A parsed archive: the raw image and its decoded directory.
pub struct Arc {
    /// The whole archive image.
    pub bytes: Vec<u8>,
    /// Where the data region starts.
    pub data: u32,
    /// The declared entry count.
    pub count: u32,
    /// The directory, in file order.
    pub files: Vec<ArcFile>,
}

impl Arc {
    /// Whether the parsed directory agrees with the stored image.
    pub open spec fn wf(&self) -> bool {
        let s = self.bytes@;
        let version = spec_arc_version(s);
        &&& spec_arc_ok(s)
        &&& self.count == spec_le32(s, 12)
        &&& self.data == 16 + self.count * entry_size(version)
        &&& self.files@.len() == self.count
        &&& forall|i: int|
            0 <= i < self.count ==> {
                let base = 16 + i * entry_size(version);
                &&& (#[trigger] self.files@[i]).name@ == spec_entry_name(s, base)
                &&& self.files@[i].offset == spec_le32(s, base + offset_field(version))
                &&& self.files@[i].size == spec_le32(s, base + offset_field(version) + 4)
            }
    }

    /// Parses an archive image; `None` when the magic is unknown or the
    /// directory does not fit.
    pub fn open(bytes: Vec<u8>) -> (r: Option<Arc>)
        ensures
            match r {
                Some(arc) => arc.wf() && arc.bytes@ == bytes@,
                None => !spec_arc_ok(bytes@),
            },
    {
        if bytes.len() < 16 {
            return None;
        }
        let version: u8 = if check_magic_v1(&bytes) {
            1
        } else if check_magic_v2(&bytes) {
            2
        } else {
            return None;
        };
        let esize: usize = if version == 1 {
            32
        } else {
            128
        };
        let mut pos: usize = 12;
        let count = read32(&bytes, &mut pos);
        if ((bytes.len() - 16) as u64) < (count as u64) * (esize as u64) {
            proof {
                assert(!spec_arc_ok(bytes@));
            }
            return None;
        }
        let data64 = 16u64 + count as u64 * esize as u64;
        if data64 > u32::MAX as u64 {
            proof {
                assert(!spec_arc_ok(bytes@));
            }
            return None;
        }
        let mut files: Vec<ArcFile> = Vec::new();
        let mut i: usize = 0;
        while i < count as usize
            invariant
                i <= count,
                esize == entry_size(version as int),
                version == spec_arc_version(bytes@),
                version == 1 || version == 2,
                count == spec_le32(bytes@, 12),
                16 + count * esize <= bytes.len(),
                16 + count * esize <= u32::MAX,
                files@.len() == i,
                forall|t: int|
                    0 <= t < i ==> {
                        let base = 16 + t * entry_size(version as int);
                        &&& (#[trigger] files@[t]).name@ == spec_entry_name(bytes@, base)
                        &&& files@[t].offset == spec_le32(
                            bytes@,
                            base + offset_field(version as int),
                        )
                        &&& files@[t].size == spec_le32(
                            bytes@,
                            base + offset_field(version as int) + 4,
                        )
                    },
            decreases count - i,
        {
            proof {
                assert(16 + (i + 1) * esize <= 16 + count * esize) by (nonlinear_arith)
                    requires
                        i < count,
                        esize >= 1,
                ;
                assert((i + 1) * esize == i * esize + esize) by (nonlinear_arith);
            }
            let base = 16 + i * esize;
            let mut name: Vec<u8> = Vec::new();
            let mut j: usize = 0;
            while j < 16
                invariant
                    j <= 16,
                    base + 16 <= bytes.len(),
                    name@.len() == j,
                    forall|q: int| 0 <= q < j ==> name@[q] == scrub(bytes@[base + q]),
                decreases 16 - j,
            {
                let b = bytes[base + j];
                if b != 0 && (b < 0x20 || b > 0x7E) {
                    name.push(0x5F);
                } else {
                    name.push(b);
                }
                j = j + 1;
            }
            proof {
                reveal(spec_entry_name);
                assert(name@ =~= spec_entry_name(bytes@, base as int));
            }
            let mut fpos: usize = if version == 1 {
                base + 16
            } else {
                base + 96
            };
            let offset = read32(&bytes, &mut fpos);
            let size = read32(&bytes, &mut fpos);
            files.push(ArcFile { name, offset, size });
            i = i + 1;
        }
        Some(Arc { bytes, data: (16 + count as usize * esize) as u32, count, files })
    }

    /// The number of entries.
    pub fn files_count(&self) -> (r: u32)
        ensures
            r == self.count,
    {
        self.count
    }

    /// The stored size of entry `idx`; 0 past the end.
    pub fn get_file_size(&self, idx: u32) -> (r: u32)
        requires
            self.wf(),
        ensures
            idx < self.count ==> r == self.files@[idx as int].size,
            idx >= self.count ==> r == 0,
    {
        if idx >= self.count {
            return 0;
        }
        self.files[idx as usize].size
    }

    /// The first NUL of a stored name, or 16.
    pub open spec fn nul_pos(s: Seq<u8>, j: int) -> int
        decreases s.len() - j,
    {
        if j < 0 || j >= s.len() {
            s.len() as int
        } else if s[j] == 0 {
            j
        } else {
            Self::nul_pos(s, j + 1)
        }
    }

    /// The name of entry `idx`, up to its NUL padding; empty past the
    /// end.
    pub fn get_file_name(&self, idx: u32) -> (r: Vec<u8>)
        requires
            self.wf(),
        ensures
            idx < self.count ==> r@ == self.files@[idx as int].name@.subrange(
                0,
                Self::nul_pos(self.files@[idx as int].name@, 0),
            ),
            idx >= self.count ==> r@ == Seq::<u8>::empty(),
    {
        let mut r: Vec<u8> = Vec::new();
        if idx >= self.count {
            return r;
        }
        let name = &self.files[idx as usize].name;
        let n = name.len();
        let mut j: usize = 0;
        while j < n && name[j] != 0
            invariant
                j <= n,
                n == name@.len(),
                r@ == name@.subrange(0, j as int),
                Self::nul_pos(name@, 0) == Self::nul_pos(name@, j as int),
            decreases n - j,
        {
            r.push(name[j]);
            j = j + 1;
            proof {
                assert(r@ =~= name@.subrange(0, j as int));
            }
        }
        proof {
            assert(Self::nul_pos(name@, j as int) == j);
        }
        r
    }

    /// The bytes of entry `idx`; `None` past the end or when the entry
    /// points outside the image.
    pub fn get_file_data(&self, idx: u32) -> (r: Option<Vec<u8>>)
        requires
            self.wf(),
        ensures
            match r {
                Some(d) => idx < self.count && d@ == self.bytes@.subrange(
                    self.data + self.files@[idx as int].offset,
                    self.data + self.files@[idx as int].offset + self.files@[idx as int].size,
                ) && d@.len() == self.files@[idx as int].size,
                None => idx >= self.count || self.data + self.files@[idx as int].offset
                    + self.files@[idx as int].size > self.bytes@.len(),
            },
    {
        if idx >= self.count {
            return None;
        }
        let offset = self.files[idx as usize].offset;
        let size = self.files[idx as usize].size;
        let start64 = self.data as u64 + offset as u64;
        if start64 + size as u64 > self.bytes.len() as u64 {
            return None;
        }
        let start = start64 as usize;
        let end = start + size as usize;
        let mut d: Vec<u8> = Vec::new();
        let mut p: usize = start;
        while p < end
            invariant
                start <= p <= end,
                end <= self.bytes@.len(),
                d@ == self.bytes@.subrange(start as int, p as int),
            decreases end - p,
        {
            d.push(self.bytes[p]);
            p = p + 1;
            proof {
                assert(d@ =~= self.bytes@.subrange(start as int, p as int));
            }
        }
        Some(d)
    }
}

/// Whether the image starts with the version-1 magic.
fn check_magic_v1(bytes: &Vec<u8>) -> (r: bool)
    requires
        bytes@.len() >= 12,
    ensures
        r == (bytes@.subrange(0, 12) == arc_magic_v1()),
{
    let m: [u8; 12] = [0x50, 0x61, 0x63, 0x6B, 0x46, 0x69, 0x6C, 0x65, 0x20, 0x20, 0x20, 0x20];
    check_magic(bytes, &m)
}

/// Whether the image starts with the version-2 magic.
fn check_magic_v2(bytes: &Vec<u8>) -> (r: bool)
    requires
        bytes@.len() >= 12,
    ensures
        r == (bytes@.subrange(0, 12) == arc_magic_v2()),
{
    let m: [u8; 12] = [0x42, 0x55, 0x52, 0x49, 0x4B, 0x4F, 0x20, 0x41, 0x52, 0x43, 0x32, 0x30];
    check_magic(bytes, &m)
}

/// A name padded (or truncated) to the stored 16 bytes.
pub open spec fn spec_pad_name(name: Seq<u8>) -> Seq<u8> {
    Seq::new(
        16,
        |j: int|
            if j < name.len() {
                name[j]
            } else {
                0u8
            },
    )
}

/// A run of zero padding.
pub open spec fn zeros(n: nat) -> Seq<u8> {
    Seq::new(n, |j: int| 0u8)
}

/// The on-disk bytes of one directory entry. (Opaque: proofs go
/// through `lemma_entry_bytes_props` or reveal it where they build the
/// bytes.)
#[verifier::opaque]
pub open spec fn spec_entry_bytes(name: Seq<u8>, offset: int, size: int, version: int) -> Seq<
    u8,
> {
    if version == 1 {
        spec_pad_name(name) + crate::decrypt::spec_le_bytes32(offset)
            + crate::decrypt::spec_le_bytes32(size) + zeros(8)
    } else {
        spec_pad_name(name) + zeros(80) + crate::decrypt::spec_le_bytes32(offset)
            + crate::decrypt::spec_le_bytes32(size) + zeros(24)
    }
}

/// The name as the reader returns it: padded to 16 bytes and scrubbed.
/// (Opaque so that every mention is one symbol; its definition is one
/// `Seq::new` over `scrub` and `spec_pad_name`.)
#[verifier::opaque]
pub open spec fn scrubbed_name(name: Seq<u8>) -> Seq<u8> {
    Seq::new(16, |j: int| scrub(spec_pad_name(name)[j]))
}

/// The pieces of one directory entry, named.
proof fn lemma_entry_bytes_props(name: Seq<u8>, offset: int, size: int, version: int)
    requires
        version == 1 || version == 2,
    ensures
        ({
            let e = spec_entry_bytes(name, offset, size, version);
            &&& e.len() == entry_size(version)
            &&& forall|j: int| 0 <= j < 16 ==> e[j] == spec_pad_name(name)[j]
            &&& forall|j: int|
                0 <= j < 4 ==> e[offset_field(version) + j]
                    == crate::decrypt::spec_le_bytes32(offset)[j] && e[offset_field(version) + 4
                    + j] == crate::decrypt::spec_le_bytes32(size)[j]
        }),
{
    reveal(spec_entry_bytes);
    let e = spec_entry_bytes(name, offset, size, version);
    let pad = spec_pad_name(name);
    let offb = crate::decrypt::spec_le_bytes32(offset);
    let sizeb = crate::decrypt::spec_le_bytes32(size);
    let fo = offset_field(version);
    if version == 1 {
        assert(e == pad + offb + sizeb + zeros(8));
        assert(e.len() == 32);
        assert forall|j: int| 0 <= j < 16 implies e[j] == pad[j] by {
            assert(e[j] == (pad + offb)[j]);
        }
        assert forall|j: int| 0 <= j < 4 implies e[fo + j] == offb[j] && e[fo + 4 + j]
            == sizeb[j] by {
            assert(e[16 + j] == (pad + offb)[16 + j]);
            assert(e[20 + j] == ((pad + offb) + sizeb)[20 + j]);
        }
    } else {
        assert(e == pad + zeros(80) + offb + sizeb + zeros(24));
        assert(e.len() == 128);
        assert forall|j: int| 0 <= j < 16 implies e[j] == pad[j] by {
            assert(e[j] == (pad + zeros(80))[j]);
        }
        assert forall|j: int| 0 <= j < 4 implies e[fo + j] == offb[j] && e[fo + 4 + j]
            == sizeb[j] by {
            assert(e[96 + j] == ((pad + zeros(80)) + offb)[96 + j]);
            assert(e[100 + j] == (((pad + zeros(80)) + offb) + sizeb)[100 + j]);
        }
    }
}

/// The data-region offset of entry `k`: the sizes of all payloads
/// before it.
pub open spec fn spec_offset_of(files: Seq<(Vec<u8>, Vec<u8>)>, k: int) -> int
    decreases k,
{
    if k <= 0 {
        0
    } else {
        spec_offset_of(files, k - 1) + files[k - 1].1@.len()
    }
}

/// The directory bytes of the first `k` entries.
pub open spec fn spec_dir_bytes(files: Seq<(Vec<u8>, Vec<u8>)>, version: int, k: int) -> Seq<u8>
    decreases k,
{
    if k <= 0 {
        Seq::empty()
    } else {
        spec_dir_bytes(files, version, k - 1) + spec_entry_bytes(
            files[k - 1].0@,
            spec_offset_of(files, k - 1),
            files[k - 1].1@.len() as int,
            version,
        )
    }
}

/// The concatenated payloads of the first `k` entries.
pub open spec fn spec_data_bytes(files: Seq<(Vec<u8>, Vec<u8>)>, k: int) -> Seq<u8>
    decreases k,
{
    if k <= 0 {
        Seq::empty()
    } else {
        spec_data_bytes(files, k - 1) + files[k - 1].1@
    }
}

/// A whole archive image: magic, count, directory, data region.
pub open spec fn spec_pack(files: Seq<(Vec<u8>, Vec<u8>)>, version: int) -> Seq<u8> {
    (if version == 1 {
        arc_magic_v1()
    } else {
        arc_magic_v2()
    }) + crate::decrypt::spec_le_bytes32(files.len() as int) + spec_dir_bytes(
        files,
        version,
        files.len() as int,
    ) + spec_data_bytes(files, files.len() as int)
}

/// A name padded to the stored 16 bytes.
pub fn write_filename(file_name: &Vec<u8>) -> (r: Vec<u8>)
    ensures
        r@ == spec_pad_name(file_name@),
{
    let mut r: Vec<u8> = Vec::new();
    let n = file_name.len();
    let mut j: usize = 0;
    while j < 16
        invariant
            j <= 16,
            n == file_name@.len(),
            r@.len() == j,
            forall|q: int| 0 <= q < j ==> r@[q] == spec_pad_name(file_name@)[q],
        decreases 16 - j,
    {
        if j < n {
            r.push(file_name[j]);
        } else {
            r.push(0);
        }
        j = j + 1;
    }
    proof {
        assert(r@ =~= spec_pad_name(file_name@));
    }
    r
}

/// Earlier offsets never exceed later ones.
proof fn lemma_offset_mono(files: Seq<(Vec<u8>, Vec<u8>)>, a: int, b: int)
    requires
        0 <= a <= b,
    ensures
        spec_offset_of(files, a) <= spec_offset_of(files, b),
        spec_offset_of(files, a) >= 0,
    decreases b,
{
    if a < b {
        lemma_offset_mono(files, a, b - 1);
    } else if a > 0 {
        lemma_offset_mono(files, a - 1, a - 1);
    }
}

/// Pushes zero bytes.
fn push_zeros(r: &mut Vec<u8>, n: usize)
    ensures
        final(r)@ == old(r)@ + zeros(n as nat),
{
    let ghost r0 = r@;
    let mut z: usize = 0;
    while z < n
        invariant
            z <= n,
            r@ == r0 + zeros(z as nat),
        decreases n - z,
    {
        r.push(0);
        z = z + 1;
        proof {
            assert(r@ =~= r0 + zeros(z as nat));
        }
    }
}

/// Builds a whole archive image for the given `(name, payload)` list in
/// order: magic, count, a directory with running offsets, then every
/// payload.
pub fn pack_archive(files: &Vec<(Vec<u8>, Vec<u8>)>, version: u8) -> (r: Vec<u8>)
    requires
        version == 1 || version == 2,
        files@.len() <= u32::MAX,
        spec_offset_of(files@, files@.len() as int) <= u32::MAX,
    ensures
        r@ == spec_pack(files@, version as int),
{
    let mut r: Vec<u8> = Vec::new();
    if version == 1 {
        let m: [u8; 12] = [0x50, 0x61, 0x63, 0x6B, 0x46, 0x69, 0x6C, 0x65, 0x20, 0x20, 0x20, 0x20];
        let mut q: usize = 0;
        while q < 12
            invariant
                q <= 12,
                m@ == arc_magic_v1(),
                r@ == arc_magic_v1().subrange(0, q as int),
            decreases 12 - q,
        {
            r.push(m[q]);
            q = q + 1;
            proof {
                assert(r@ =~= arc_magic_v1().subrange(0, q as int));
            }
        }
        proof {
            assert(r@ =~= arc_magic_v1());
        }
    } else {
        let m: [u8; 12] = [0x42, 0x55, 0x52, 0x49, 0x4B, 0x4F, 0x20, 0x41, 0x52, 0x43, 0x32, 0x30];
        let mut q: usize = 0;
        while q < 12
            invariant
                q <= 12,
                m@ == arc_magic_v2(),
                r@ == arc_magic_v2().subrange(0, q as int),
            decreases 12 - q,
        {
            r.push(m[q]);
            q = q + 1;
            proof {
                assert(r@ =~= arc_magic_v2().subrange(0, q as int));
            }
        }
        proof {
            assert(r@ =~= arc_magic_v2());
        }
    }
    crate::decrypt::push_le32(&mut r, files.len() as u32);
    let ghost head = r@;
    let n = files.len();
    let mut offset: u64 = 0;
    let mut i: usize = 0;
    while i < n
        invariant
            i <= n,
            n == files@.len() <= u32::MAX,
            version == 1 || version == 2,
            spec_offset_of(files@, files@.len() as int) <= u32::MAX,
            offset == spec_offset_of(files@, i as int),
            r@ == head + spec_dir_bytes(files@, version as int, i as int),
        decreases n - i,
    {
        proof {
            lemma_offset_mono(files@, i as int, files@.len() as int);
            lemma_offset_mono(files@, i + 1, files@.len() as int);
        }
        let ghost before = r@;
        let mut padded = write_filename(&files[i].0);
        let data_len = files[i].1.len();
        if data_len as u64 > u32::MAX as u64 {
            proof {
                assert(spec_offset_of(files@, i + 1) == offset + data_len);
                assert(false);
            }
        }
        let mut j: usize = 0;
        while j < 16
            invariant
                j <= 16,
                padded@.len() == 16,
                r@ == before + padded@.subrange(0, j as int),
            decreases 16 - j,
        {
            r.push(padded[j]);
            j = j + 1;
            proof {
                assert(r@ =~= before + padded@.subrange(0, j as int));
            }
        }
        proof {
            assert(padded@.subrange(0, 16) =~= padded@);
        }
        if version == 2 {
            push_zeros(&mut r, 80);
        }
        crate::decrypt::push_le32(&mut r, offset as u32);
        crate::decrypt::push_le32(&mut r, data_len as u32);
        if version == 1 {
            push_zeros(&mut r, 8);
        } else {
            push_zeros(&mut r, 24);
        }
        proof {
            reveal(spec_entry_bytes);
            assert(r@ =~= before + spec_entry_bytes(
                files@[i as int].0@,
                offset as int,
                data_len as int,
                version as int,
            ));
            assert(r@ =~= head + spec_dir_bytes(files@, version as int, i + 1));
        }
        offset = offset + data_len as u64;
        i = i + 1;
    }
    let ghost withdir = r@;
    let mut i2: usize = 0;
    while i2 < n
        invariant
            i2 <= n,
            n == files@.len(),
            r@ == withdir + spec_data_bytes(files@, i2 as int),
        decreases n - i2,
    {
        let ghost before = r@;
        let d = &files[i2].1;
        let dn = d.len();
        let mut p: usize = 0;
        while p < dn
            invariant
                p <= dn,
                dn == d@.len(),
                d == &files@[i2 as int].1,
                r@ == before + d@.subrange(0, p as int),
            decreases dn - p,
        {
            r.push(d[p]);
            p = p + 1;
            proof {
                assert(r@ =~= before + d@.subrange(0, p as int));
            }
        }
        proof {
            assert(d@.subrange(0, dn as int) =~= d@);
            assert(r@ =~= withdir + spec_data_bytes(files@, i2 + 1));
        }
        i2 = i2 + 1;
    }
    proof {
        assert(r@ =~= spec_pack(files@, version as int));
    }
    r
}

/// Directory bytes of `k` entries occupy `k` entry slots.
#[verifier::rlimit(100)]
#[verifier::spinoff_prover]
proof fn lemma_dir_len(files: Seq<(Vec<u8>, Vec<u8>)>, version: int, k: int)
    requires
        k >= 0,
        version == 1 || version == 2,
    ensures
        spec_dir_bytes(files, version, k).len() == k * entry_size(version),
    decreases k,
{
    if k > 0 {
        lemma_dir_len(files, version, k - 1);
        lemma_entry_bytes_props(
            files[k - 1].0@,
            spec_offset_of(files, k - 1),
            files[k - 1].1@.len() as int,
            version,
        );
        if version == 1 {
            assert(k * 32 == (k - 1) * 32 + 32);
        } else {
            assert(k * 128 == (k - 1) * 128 + 128);
        }
    }
}

/// The data region of `k` entries is as long as their summed sizes.
proof fn lemma_data_len(files: Seq<(Vec<u8>, Vec<u8>)>, k: int)
    requires
        k >= 0,
    ensures
        spec_data_bytes(files, k).len() == spec_offset_of(files, k),
    decreases k,
{
    if k > 0 {
        lemma_data_len(files, k - 1);
    }
}

/// Entry `i`'s slot of the directory holds exactly its entry bytes.
proof fn lemma_dir_index(files: Seq<(Vec<u8>, Vec<u8>)>, version: int, k: int, i: int)
    requires
        0 <= i < k,
        version == 1 || version == 2,
    ensures
        spec_dir_bytes(files, version, k).subrange(
            i * entry_size(version),
            (i + 1) * entry_size(version),
        ) == spec_entry_bytes(
            files[i].0@,
            spec_offset_of(files, i),
            files[i].1@.len() as int,
            version,
        ),
    decreases k,
{
    lemma_dir_len(files, version, k);
    lemma_dir_len(files, version, k - 1);
    assert((i + 1) * entry_size(version) <= k * entry_size(version) && 0 <= i * entry_size(
        version,
    ) && i * entry_size(version) + entry_size(version) == (i + 1) * entry_size(version))
        by (nonlinear_arith)
        requires
            0 <= i < k,
            entry_size(version) >= 1,
    ;
    if i == k - 1 {
        assert(spec_dir_bytes(files, version, k).subrange(
            i * entry_size(version),
            (i + 1) * entry_size(version),
        ) =~= spec_entry_bytes(
            files[i].0@,
            spec_offset_of(files, i),
            files[i].1@.len() as int,
            version,
        ));
    } else {
        lemma_dir_index(files, version, k - 1, i);
        assert(spec_dir_bytes(files, version, k).subrange(
            i * entry_size(version),
            (i + 1) * entry_size(version),
        ) =~= spec_dir_bytes(files, version, k - 1).subrange(
            i * entry_size(version),
            (i + 1) * entry_size(version),
        ));
    }
}

/// Entry `i`'s payload sits at its offset in the data region.
proof fn lemma_data_index(files: Seq<(Vec<u8>, Vec<u8>)>, k: int, i: int)
    requires
        0 <= i < k,
    ensures
        spec_data_bytes(files, k).subrange(
            spec_offset_of(files, i),
            spec_offset_of(files, i) + files[i].1@.len(),
        ) == files[i].1@,
    decreases k,
{
    lemma_data_len(files, k);
    lemma_data_len(files, k - 1);
    lemma_offset_mono(files, 0, i);
    lemma_offset_mono(files, i + 1, k);
    if i == k - 1 {
        assert(spec_data_bytes(files, k).subrange(
            spec_offset_of(files, i),
            spec_offset_of(files, i) + files[i].1@.len(),
        ) =~= files[i].1@);
    } else {
        lemma_data_index(files, k - 1, i);
        lemma_offset_mono(files, i + 1, k - 1);
        assert(spec_offset_of(files, i + 1) == spec_offset_of(files, i) + files[i].1@.len());
        assert(spec_data_bytes(files, k).subrange(
            spec_offset_of(files, i),
            spec_offset_of(files, i) + files[i].1@.len(),
        ) =~= spec_data_bytes(files, k - 1).subrange(
            spec_offset_of(files, i),
            spec_offset_of(files, i) + files[i].1@.len(),
        ));
    }
}

/// A packed little-endian word reads back as itself.
proof fn lemma_le32_of_bytes(s: Seq<u8>, at: int, v: int)
    requires
        0 <= v <= u32::MAX,
        0 <= at,
        s.len() >= at + 4,
        s.subrange(at, at + 4) == crate::decrypt::spec_le_bytes32(v),
    ensures
        spec_le32(s, at) == v,
{
    assert(s[at] == crate::decrypt::spec_le_bytes32(v)[0]);
    assert(s[at + 1] == crate::decrypt::spec_le_bytes32(v)[1]);
    assert(s[at + 2] == crate::decrypt::spec_le_bytes32(v)[2]);
    assert(s[at + 3] == crate::decrypt::spec_le_bytes32(v)[3]);
    assert(spec_le32(s, at) == v % 0x100 + 0x100 * (v / 0x100 % 0x100) + 0x1_0000 * (v / 0x1_0000
        % 0x100) + 0x100_0000 * (v / 0x100_0000 % 0x100));
    let w = v as u32;
    assert(w % 0x100 + 0x100 * (w / 0x100 % 0x100) + 0x1_0000 * (w / 0x1_0000 % 0x100)
        + 0x100_0000 * (w / 0x100_0000 % 0x100) == w) by (bit_vector);
    assert(v == w && v / 0x100 == w as int / 0x100 && v / 0x1_0000 == w as int / 0x1_0000 && v
        / 0x100_0000 == w as int / 0x100_0000);
}

/// Reading back an archive built by the packer yields a well-formed
/// image of the same version whose declared entry count is the number
/// of files given. (`lemma_pack_entry` gives each entry's fields.)
#[verifier::rlimit(100)]
#[verifier::spinoff_prover]
pub proof fn lemma_pack_round_trip(files: Seq<(Vec<u8>, Vec<u8>)>, version: int)
    requires
        version == 1 || version == 2,
        files.len() <= u32::MAX,
        16 + files.len() * entry_size(version) <= u32::MAX,
        spec_offset_of(files, files.len() as int) <= u32::MAX,
    ensures
        spec_arc_ok(spec_pack(files, version)),
        spec_arc_version(spec_pack(files, version)) == version,
        spec_le32(spec_pack(files, version), 12) == files.len(),
{
    let s = spec_pack(files, version);
    let nf = files.len() as int;
    let esize = entry_size(version);
    let magic = if version == 1 {
        arc_magic_v1()
    } else {
        arc_magic_v2()
    };
    lemma_dir_len(files, version, nf);
    lemma_data_len(files, nf);
    lemma_offset_mono(files, 0, nf);
    assert(s.len() == 16 + nf * esize + spec_offset_of(files, nf));
    assert(s.subrange(0, 12) =~= magic);
    assert(s.subrange(12, 16) =~= crate::decrypt::spec_le_bytes32(nf));
    assert(arc_magic_v1() != arc_magic_v2()) by {
        assert(arc_magic_v1()[0] != arc_magic_v2()[0]);
    }
    assert(spec_arc_version(s) == version);
    lemma_le32_of_bytes(s, 12, nf);
    assert(spec_arc_ok(s));
}

/// Compares the image's first 12 bytes with a magic.
fn check_magic(bytes: &Vec<u8>, m: &[u8; 12]) -> (r: bool)
    requires
        bytes@.len() >= 12,
    ensures
        r == (bytes@.subrange(0, 12) == m@),
{
    let mut i: usize = 0;
    let mut ok = true;
    while i < 12
        invariant
            i <= 12,
            bytes@.len() >= 12,
            ok == (forall|j: int| 0 <= j < i ==> bytes@[j] == m@[j]),
        decreases 12 - i,
    {
        if bytes[i] != m[i] {
            ok = false;
        }
        i = i + 1;
    }
    proof {
        if ok {
            assert(bytes@.subrange(0, 12) =~= m@);
        } else {
            let j = choose|j: int| 0 <= j < 12 && bytes@[j] != m@[j];
            assert(bytes@.subrange(0, 12)[j] == bytes@[j]);
        }
    }
    ok
}

} // verus!
