use vstd::prelude::*;

verus! {

/// Bytes in a block.
pub const BLOCK_SZ: u32 = 512;
/// Bytes in a directory entry record.
pub const DIRENT_SZ: u32 = 32;
/// Bytes of a disk inode slot.
pub const DISK_INODE_SZ: usize = 128;
/// Disk inode slots per block.
pub const INODES_PER_BLOCK: u32 = 4;
/// Longest name, in bytes, that a directory entry record holds.
pub const NAME_LENGTH_LIMIT: usize = 27;
/// Data blocks addressed directly from the inode.
pub const INODE_DIRECT_COUNT: u32 = 28;
/// Block ids held by one index block.
pub const INODE_INDIRECT1_COUNT: u32 = 128;
/// Bits in one bitmap block.
pub const BLOCK_BITS: u32 = 4096;
/// Magic number of the super block.
pub const EFS_MAGIC: u32 = 0x3b800001;

/// Blocks of content needed for `size` bytes.
pub open spec fn data_blocks(size: nat) -> nat {
    (size + 511) / 512
}

/// Every block (content and index) needed to hold `size` bytes: content blocks,
/// one first-level index block past the direct slots, and past those the
/// second-level index block with one leaf per started slab of 128 content blocks.
pub open spec fn spec_total_blocks(size: nat) -> nat {
    let d = data_blocks(size);
    if d <= 28 {
        d
    } else if d <= 28 + 128 {
        d + 1
    } else {
        d + 2 + ((d - 156) + 127) as nat / 128
    }
}

pub proof fn lemma_total_blocks_monotonic(a: nat, b: nat)
    requires
        a <= b,
    ensures
        spec_total_blocks(a) <= spec_total_blocks(b),
{
    assert(data_blocks(a) <= data_blocks(b)) by (nonlinear_arith)
        requires
            a <= b,
    ;
    let da = data_blocks(a);
    let db = data_blocks(b);
    if da > 156 {
        assert(((da - 156) + 127) as nat / 128 <= ((db - 156) + 127) as nat / 128) by (nonlinear_arith)
            requires
                da <= db,
                da > 156,
        ;
    }
    if da <= 156 && db > 156 {
        assert(((db - 156) + 127) as nat / 128 >= 1) by (nonlinear_arith)
            requires
                db > 156,
        ;
    }
}

/// Free slots in a bitmap.
pub open spec fn free_count(s: Seq<bool>) -> nat
    decreases s.len(),
{
    if s.len() == 0 {
        0
    } else {
        free_count(s.drop_last()) + if s.last() {
            0nat
        } else {
            1
        }
    }
}

pub proof fn lemma_free_count_set(s: Seq<bool>, i: int, v: bool)
    requires
        0 <= i < s.len(),
    ensures
        free_count(s.update(i, v)) + (if s[i] { 0nat } else { 1 }) == free_count(s) + (if v { 0nat } else { 1 }),
    decreases s.len(),
{
    if i == s.len() - 1 {
        assert(s.update(i, v).drop_last() =~= s.drop_last());
    } else {
        lemma_free_count_set(s.drop_last(), i, v);
        assert(s.update(i, v).drop_last() =~= s.drop_last().update(i, v));
    }
}

pub proof fn lemma_free_count_has_free(s: Seq<bool>)
    requires
        free_count(s) > 0,
    ensures
        exists|i: int| 0 <= i < s.len() && !s[i],
    decreases s.len(),
{
    if s.last() {
        lemma_free_count_has_free(s.drop_last());
        let i = choose|i: int| 0 <= i < s.drop_last().len() && !s.drop_last()[i];
        assert(!s[i]);
    } else {
        assert(!s[s.len() - 1]);
    }
}

pub proof fn lemma_free_count_bound(s: Seq<bool>)
    ensures
        free_count(s) <= s.len(),
    decreases s.len(),
{
    if s.len() > 0 {
        lemma_free_count_bound(s.drop_last());
    }
}


/// Blocks held by all the inodes of `s` together.
pub open spec fn held_total(s: Seq<DiskInode>) -> nat
    decreases s.len(),
{
    if s.len() == 0 {
        0
    } else {
        held_total(s.drop_last()) + s.last().blocks@.len()
    }
}

/// Blocks that inodes of `s` of these sizes need, all together.
pub open spec fn needed_total(s: Seq<DiskInode>) -> nat
    decreases s.len(),
{
    if s.len() == 0 {
        0
    } else {
        needed_total(s.drop_last()) + spec_total_blocks(s.last().size as nat)
    }
}

pub proof fn lemma_held_total_update(s: Seq<DiskInode>, i: int, x: DiskInode)
    requires
        0 <= i < s.len(),
    ensures
        held_total(s.update(i, x)) + s[i].blocks@.len() == held_total(s) + x.blocks@.len(),
    decreases s.len(),
{
    if i == s.len() - 1 {
        assert(s.update(i, x).drop_last() =~= s.drop_last());
    } else {
        lemma_held_total_update(s.drop_last(), i, x);
        assert(s.update(i, x).drop_last() =~= s.drop_last().update(i, x));
    }
}

/// Where each inode holds exactly the blocks its size needs, the blocks held and
/// the blocks needed agree.
pub proof fn lemma_held_is_needed(s: Seq<DiskInode>)
    requires
        forall|i: int| 0 <= i < s.len() ==> (#[trigger] s[i]).blocks@.len() == spec_total_blocks(s[i].size as nat),
    ensures
        held_total(s) == needed_total(s),
    decreases s.len(),
{
    if s.len() > 0 {
        assert(s.last() == s[s.len() - 1]);
        lemma_held_is_needed(s.drop_last());
    }
}


pub proof fn lemma_held_total_same_blocks(a: Seq<DiskInode>, b: Seq<DiskInode>)
    requires
        a.len() == b.len(),
        forall|i: int| 0 <= i < a.len() ==> (#[trigger] a[i]).blocks@ == b[i].blocks@,
    ensures
        held_total(a) == held_total(b),
    decreases a.len(),
{
    if a.len() > 0 {
        assert(a.last().blocks@ == b.last().blocks@) by {
            assert(a[a.len() - 1].blocks@ == b[b.len() - 1].blocks@);
        }
        lemma_held_total_same_blocks(a.drop_last(), b.drop_last());
    }
}

/// Accounting is kept by any change that leaves the bitmaps and every inode's
/// blocks alone.
pub proof fn lemma_accounted_same_blocks(a: EasyFileSystem, b: EasyFileSystem)
    requires
        a.accounted(),
        a.inodes@.len() == b.inodes@.len(),
        forall|i: int| 0 <= i < a.inodes@.len() ==> (#[trigger] a.inodes@[i]).blocks@ == b.inodes@[i].blocks@,
        forall|i: int| 0 <= i < a.inodes@.len() && !b.inode_bitmap@[i] ==> !a.inode_bitmap@[i],
        b.inode_bitmap@.len() == a.inode_bitmap@.len(),
        a.data_bitmap == b.data_bitmap,
        a.data_area_start_block == b.data_area_start_block,
    ensures
        b.accounted(),
{
    lemma_held_total_same_blocks(a.inodes@, b.inodes@);
    assert forall|i: int, k: int|
        0 <= i < b.inodes@.len() && 0 <= k < b.inodes@[i].blocks@.len() implies b.data_bitmap@[(
        #[trigger] b.inodes@[i].blocks@[k]) - b.data_area_start_block] by {
        assert(a.inodes@[i].blocks@ == b.inodes@[i].blocks@);
    }
    assert forall|i1: int, k1: int, i2: int, k2: int|
        0 <= i1 < b.inodes@.len() && 0 <= k1 < b.inodes@[i1].blocks@.len() && 0 <= i2 < b.inodes@.len() && 0 <= k2
            < b.inodes@[i2].blocks@.len() && (i1 != i2 || k1 != k2) implies #[trigger] b.inodes@[i1].blocks@[k1]
        != #[trigger] b.inodes@[i2].blocks@[k2] by {
        assert(a.inodes@[i1].blocks@ == b.inodes@[i1].blocks@);
        assert(a.inodes@[i2].blocks@ == b.inodes@[i2].blocks@);
    }
    assert forall|i: int| 0 <= i < b.inodes@.len() && !b.inode_bitmap@[i] implies (#[trigger] b.inodes@[i]).blocks@.len() == 0 by {
        assert(a.inodes@[i].blocks@ == b.inodes@[i].blocks@);
    }
}

/// Whether an inode holds a file or a directory.
#[derive(PartialEq, Eq, Structural, Clone, Copy, Debug)]
pub enum DiskInodeType {
    File,
    Directory,
}

/// A directory entry: a name and the id of the inode it stands for.
pub struct DirEntry {
    pub name: String,
    pub inode_id: u32,
}

/// An inode: its size in bytes, every data-area block it holds in the order they
/// were allocated, its content (a file's bytes, or a directory's entries), its
/// type and its hard-link count.
pub struct DiskInode {
    pub size: u32,
    pub blocks: Vec<u32>,
    pub content: Vec<u8>,
    pub entries: Vec<DirEntry>,
    pub type_: DiskInodeType,
    pub ref_cnt: usize,
}

/// Every block needed to hold `size` bytes.
pub fn total_blocks(size: u32) -> (r: u32)
    ensures
        r == spec_total_blocks(size as nat),
{
    let d: u32 = ((size as u64 + (BLOCK_SZ as u64 - 1)) / BLOCK_SZ as u64) as u32;
    let indirect1_end: u32 = INODE_DIRECT_COUNT + INODE_INDIRECT1_COUNT;
    if d <= INODE_DIRECT_COUNT {
        d
    } else if d <= indirect1_end {
        d + 1
    } else {
        d + 2 + ((d - indirect1_end) + (INODE_INDIRECT1_COUNT - 1)) / INODE_INDIRECT1_COUNT
    }
}

impl DiskInode {
    /// A fresh inode of type `type_`: empty, holding no block, with one link.
    pub fn new(type_: DiskInodeType) -> (r: DiskInode)
        ensures
            r.wf(),
            r.size == 0,
            r.blocks@.len() == 0,
            r.content@.len() == 0,
            r.entries@.len() == 0,
            r.type_ == type_,
            r.ref_cnt == 1,
    {
        DiskInode {
            size: 0,
            blocks: Vec::new(),
            content: Vec::new(),
            entries: Vec::new(),
            type_,
            ref_cnt: 1,
        }
    }

    /// Size, blocks and content agree: the inode holds exactly the blocks its
    /// size needs; a file's content is its size long, and a directory has one
    /// entry per record.
    pub open spec fn wf(&self) -> bool {
        &&& self.blocks@.len() == spec_total_blocks(self.size as nat)
        &&& self.type_ == DiskInodeType::File ==> self.content@.len() == self.size
        &&& self.type_ == DiskInodeType::Directory ==> self.size == self.entries@.len() * 32
    }

    pub fn is_dir(&self) -> (r: bool)
        ensures
            r == (self.type_ == DiskInodeType::Directory),
    {
        self.type_ == DiskInodeType::Directory
    }

    pub fn is_file(&self) -> (r: bool)
        ensures
            r == (self.type_ == DiskInodeType::File),
    {
        self.type_ == DiskInodeType::File
    }

    /// Blocks to allocate to grow from the current size to `new_size`.
    pub fn blocks_num_needed(&self, new_size: u32) -> (r: u32)
        requires
            new_size >= self.size,
        ensures
            r == spec_total_blocks(new_size as nat) - spec_total_blocks(self.size as nat),
    {
        proof {
            lemma_total_blocks_monotonic(self.size as nat, new_size as nat);
        }
        total_blocks(new_size) - total_blocks(self.size)
    }

    pub fn add_ref(&mut self)
        requires
            old(self).ref_cnt < usize::MAX,
        ensures
            *final(self) == (DiskInode { ref_cnt: (old(self).ref_cnt + 1) as usize, ..*old(self) }),
    {
        self.ref_cnt = self.ref_cnt + 1;
    }

    /// Drops one link; a count already at zero stays there.
    pub fn minus_ref(&mut self)
        ensures
            *final(self) == (DiskInode {
                ref_cnt: if old(self).ref_cnt > 0 { (old(self).ref_cnt - 1) as usize } else { 0 },
                ..*old(self)
            }),
    {
        if self.ref_cnt > 0 {
            self.ref_cnt = self.ref_cnt - 1;
        }
    }

    pub fn can_remove(&self) -> (r: bool)
        ensures
            r == (self.ref_cnt == 0),
    {
        self.ref_cnt == 0
    }
}

/// Bytes that a read of `n` bytes at `offset` returns from `size` bytes of content.
pub open spec fn read_len(size: nat, offset: nat, n: nat) -> nat {
    if offset >= size {
        0
    } else if size - offset < n {
        (size - offset) as nat
    } else {
        n
    }
}

/// `c` with `data` written from `offset` on.
pub open spec fn overwrite(c: Seq<u8>, offset: int, data: Seq<u8>) -> Seq<u8> {
    c.take(offset) + data + c.skip(offset + data.len())
}

/// `c` grown with zero bytes to `n` bytes; content at least that long stays.
pub open spec fn grown(c: Seq<u8>, n: nat) -> Seq<u8> {
    if n <= c.len() {
        c
    } else {
        c + Seq::new((n - c.len()) as nat, |i: int| 0u8)
    }
}

impl DiskInode {
    /// Grows the size to `new_size`, taking `new_blocks` (exactly the blocks the
    /// growth needs) in order; a file's new bytes are zero.
    pub fn increase_size(&mut self, new_size: u32, new_blocks: Vec<u32>)
        requires
            new_size >= old(self).size,
            old(self).type_ == DiskInodeType::File ==> old(self).content@.len() == old(self).size,
            new_blocks@.len() == spec_total_blocks(new_size as nat) - spec_total_blocks(
                old(self).size as nat,
            ),
        ensures
            final(self).size == new_size,
            final(self).blocks@ == old(self).blocks@ + new_blocks@,
            final(self).content@ == if old(self).type_ == DiskInodeType::File {
                grown(old(self).content@, new_size as nat)
            } else {
                old(self).content@
            },
            final(self).entries == old(self).entries,
            final(self).type_ == old(self).type_,
            final(self).ref_cnt == old(self).ref_cnt,
    {
        let mut i: usize = 0;
        let ghost b0 = self.blocks@;
        while i < new_blocks.len()
            invariant
                i <= new_blocks@.len(),
                self.blocks@ == b0 + new_blocks@.take(i as int),
                b0 == old(self).blocks@,
                self.size == old(self).size,
                self.content == old(self).content,
                self.entries == old(self).entries,
                self.type_ == old(self).type_,
                self.ref_cnt == old(self).ref_cnt,
            decreases new_blocks@.len() - i,
        {
            self.blocks.push(new_blocks[i]);
            i += 1;
            assert(self.blocks@ =~= b0 + new_blocks@.take(i as int));
        }
        assert(new_blocks@.take(i as int) =~= new_blocks@);
        if self.type_ == DiskInodeType::File {
            let ghost c0 = self.content@;
            while self.content.len() < new_size as usize
                invariant
                    c0.len() <= self.content@.len() <= new_size,
                    c0 == old(self).content@,
                    self.blocks@ == old(self).blocks@ + new_blocks@,
                    self.size == old(self).size,
                    self.entries == old(self).entries,
                    self.type_ == old(self).type_,
                    self.ref_cnt == old(self).ref_cnt,
                    self.content@ == c0 + Seq::new((self.content@.len() - c0.len()) as nat, |i: int| 0u8),
                decreases new_size - self.content@.len(),
            {
                self.content.push(0);
                assert(self.content@ =~= c0 + Seq::new(
                    (self.content@.len() - c0.len()) as nat,
                    |i: int| 0u8,
                ));
            }
            assert(self.content@ =~= grown(c0, new_size as nat));
        }
        self.size = new_size;
    }

    /// Copies content from `offset` into `buf`, up to the end of either; returns
    /// the bytes copied.
    pub fn read_at(&self, offset: usize, buf: &mut [u8]) -> (r: usize)
        requires
            self.content@.len() == self.size,
        ensures
            r == read_len(self.size as nat, offset as nat, old(buf)@.len()),
            final(buf)@.len() == old(buf)@.len(),
            forall|k: int| 0 <= k < r ==> final(buf)@[k] == self.content@[offset + k],
            forall|k: int| r <= k < old(buf)@.len() ==> final(buf)@[k] == old(buf)@[k],
    {
        let size = self.size as usize;
        if offset >= size {
            return 0;
        }
        let n: usize = if size - offset < buf.len() { size - offset } else { buf.len() };
        let mut i: usize = 0;
        let ghost b0 = buf@;
        while i < n
            invariant
                i <= n,
                n <= buf@.len(),
                offset + n <= self.content@.len(),
                offset + n <= size,
                buf@.len() == b0.len(),
                forall|k: int| 0 <= k < i ==> buf@[k] == self.content@[offset + k],
                forall|k: int| i <= k < buf@.len() ==> buf@[k] == b0[k],
            decreases n - i,
        {
            buf[i] = self.content[offset + i];
            i += 1;
        }
        n
    }

    /// Copies `buf` into the content from `offset` on; the content must already
    /// reach that far. Returns the bytes written.
    pub fn write_at(&mut self, offset: usize, buf: &[u8]) -> (r: usize)
        requires
            old(self).content@.len() == old(self).size,
            offset + buf@.len() <= old(self).size,
        ensures
            r == buf@.len(),
            final(self).content@ == overwrite(old(self).content@, offset as int, buf@),
            final(self).size == old(self).size,
            final(self).blocks == old(self).blocks,
            final(self).entries == old(self).entries,
            final(self).type_ == old(self).type_,
            final(self).ref_cnt == old(self).ref_cnt,
    {
        let ghost c0 = self.content@;
        let mut i: usize = 0;
        while i < buf.len()
            invariant
                i <= buf@.len(),
                offset + buf@.len() <= c0.len(),
                offset + buf@.len() <= old(self).size,
                self.content@.len() == c0.len(),
                c0 == old(self).content@,
                self.size == old(self).size,
                self.blocks == old(self).blocks,
                self.entries == old(self).entries,
                self.type_ == old(self).type_,
                self.ref_cnt == old(self).ref_cnt,
                forall|k: int| 0 <= k < offset ==> self.content@[k] == c0[k],
                forall|k: int| 0 <= k < i ==> self.content@[offset + k] == buf@[k],
                forall|k: int| offset + i <= k < c0.len() ==> self.content@[k] == c0[k],
            decreases buf@.len() - i,
        {
            self.content.set(offset + i, buf[i]);
            i += 1;
        }
        assert(self.content@ =~= overwrite(c0, offset as int, buf@));
        buf.len()
    }

    /// Empties the inode and returns every block it held, in allocation order.
    pub fn clear_size(&mut self) -> (r: Vec<u32>)
        ensures
            r@ == old(self).blocks@,
            final(self).size == 0,
            final(self).blocks@.len() == 0,
            final(self).content@.len() == 0,
            final(self).entries == old(self).entries,
            final(self).type_ == old(self).type_,
            final(self).ref_cnt == old(self).ref_cnt,
    {
        let mut v: Vec<u32> = Vec::new();
        std::mem::swap(&mut v, &mut self.blocks);
        self.content = Vec::new();
        self.size = 0;
        v
    }
}

/// Block 0 of the disk: the layout of the areas that follow it.
pub struct SuperBlock {
    pub magic: u32,
    pub total_blocks: u32,
    pub inode_bitmap_blocks: u32,
    pub inode_area_blocks: u32,
    pub data_bitmap_blocks: u32,
    pub data_area_blocks: u32,
}

/// The file system: super block, inode and data bitmaps (one bit per inode and
/// per data block), and the inode area, indexed by inode id.
pub struct EasyFileSystem {
    pub super_block: SuperBlock,
    pub inode_bitmap: Vec<bool>,
    pub data_bitmap: Vec<bool>,
    pub inodes: Vec<DiskInode>,
    pub inode_area_start_block: u32,
    pub data_area_start_block: u32,
}

impl EasyFileSystem {
    /// The block id of data bit `i`.
    pub open spec fn data_block_id(&self, i: int) -> int {
        self.data_area_start_block + i
    }

    /// Layout and contents agree: one bit per inode, ids and block ids fit in
    /// `u32`, each inode is consistent, the blocks it holds lie in the data area,
    /// every directory entry names an inode, and inode 0 is the root directory.
    pub open spec fn wf(&self) -> bool {
        &&& self.inode_bitmap@.len() == self.inodes@.len()
        &&& 0 < self.inodes@.len() <= u32::MAX
        &&& self.inode_area_start_block + self.inodes@.len() / 4 < u32::MAX
        &&& self.data_area_start_block + self.data_bitmap@.len() <= u32::MAX
        &&& self.inode_bitmap@[0]
        &&& self.inodes@[0].type_ == DiskInodeType::Directory
        &&& forall|i: int| 0 <= i < self.inodes@.len() ==> (#[trigger] self.inodes@[i]).wf()
        &&& forall|i: int, k: int|
            0 <= i < self.inodes@.len() && 0 <= k < self.inodes@[i].blocks@.len() ==> self.data_area_start_block
                <= #[trigger] self.inodes@[i].blocks@[k] < self.data_area_start_block + self.data_bitmap@.len()
        &&& forall|i: int, k: int|
            0 <= i < self.inodes@.len() && 0 <= k < self.inodes@[i].entries@.len() ==> self.names_live_file(
                #[trigger] self.inodes@[i].entries@[k],
            )
    }

    /// Data blocks in use.
    pub open spec fn used_data(&self) -> nat {
        (self.data_bitmap@.len() - free_count(self.data_bitmap@)) as nat
    }

    /// The data bitmap accounts for the blocks that inodes hold: each held block is
    /// marked in use, no block is held twice, a free inode holds nothing, and the
    /// blocks in use are exactly the blocks held.
    pub open spec fn accounted(&self) -> bool {
        &&& forall|i: int, k: int|
            0 <= i < self.inodes@.len() && 0 <= k < self.inodes@[i].blocks@.len() ==> self.data_bitmap@[(
            #[trigger] self.inodes@[i].blocks@[k]) - self.data_area_start_block]
        &&& forall|i1: int, k1: int, i2: int, k2: int|
            0 <= i1 < self.inodes@.len() && 0 <= k1 < self.inodes@[i1].blocks@.len() && 0 <= i2
                < self.inodes@.len() && 0 <= k2 < self.inodes@[i2].blocks@.len() && (i1 != i2 || k1 != k2)
                ==> #[trigger] self.inodes@[i1].blocks@[k1] != #[trigger] self.inodes@[i2].blocks@[k2]
        &&& forall|i: int| 0 <= i < self.inodes@.len() && !self.inode_bitmap@[i] ==> (#[trigger] self.inodes@[i]).blocks@.len() == 0
        &&& self.used_data() == held_total(self.inodes@)
    }

    /// `e` names an inode in use that holds a file.
    pub open spec fn names_live_file(&self, e: DirEntry) -> bool {
        &&& e.inode_id < self.inodes@.len()
        &&& self.inode_bitmap@[e.inode_id as int]
        &&& self.inodes@[e.inode_id as int].type_ == DiskInodeType::File
    }

    /// Formats a disk of `total_blocks` blocks with `inode_bitmap_blocks` blocks of
    /// inode bitmap: 4096 inodes per bitmap block, four to an inode-area block; what
    /// is left after the data bitmap is the data area. Inode 0 becomes the empty
    /// root directory; every other inode and every data block is free.
    pub fn create(total_blocks: u32, inode_bitmap_blocks: u32) -> (r: EasyFileSystem)
        requires
            1 <= inode_bitmap_blocks <= 0xfffff,
            1 + 1025 * inode_bitmap_blocks + 2 <= total_blocks,
        ensures
            r.wf(),
            r.accounted(),
            r.super_block.magic == EFS_MAGIC,
            r.super_block.total_blocks == total_blocks,
            r.super_block.inode_bitmap_blocks == inode_bitmap_blocks,
            r.super_block.inode_area_blocks == 1024 * inode_bitmap_blocks,
            r.super_block.data_bitmap_blocks == (total_blocks - 1 - 1025 * inode_bitmap_blocks + 4096) / 4097,
            r.super_block.data_area_blocks == total_blocks - 1 - 1025 * inode_bitmap_blocks
                - r.super_block.data_bitmap_blocks,
            r.inode_area_start_block == 1 + inode_bitmap_blocks,
            r.data_area_start_block == 1 + 1025 * inode_bitmap_blocks + r.super_block.data_bitmap_blocks,
            r.inodes@.len() == 4096 * inode_bitmap_blocks,
            r.data_bitmap@.len() == r.super_block.data_area_blocks,
            r.inode_bitmap@ == Seq::new(r.inodes@.len(), |i: int| i == 0),
            free_count(r.inode_bitmap@) == r.inodes@.len() - 1,
            free_count(r.data_bitmap@) == r.data_bitmap@.len(),
            r.data_bitmap@.len() >= 1,
            forall|i: int| 0 <= i < r.data_bitmap@.len() ==> !r.data_bitmap@[i],
            r.inodes@[0].entries@.len() == 0,
            r.inodes@[0].size == 0,
            r.inodes@[0].ref_cnt == 1,
    {
        let inode_num: u32 = inode_bitmap_blocks * BLOCK_BITS;
        let inode_area_blocks: u32 = inode_num / INODES_PER_BLOCK;
        let inode_total_blocks: u32 = inode_bitmap_blocks + inode_area_blocks;
        let data_total_blocks: u32 = total_blocks - 1 - inode_total_blocks;
        let data_bitmap_blocks: u32 = ((data_total_blocks as u64 + 4096) / 4097) as u32;
        let data_area_blocks: u32 = data_total_blocks - data_bitmap_blocks;
        assert(data_area_blocks >= 1) by (nonlinear_arith)
            requires
                data_total_blocks >= 2,
                data_bitmap_blocks == (data_total_blocks as int + 4096) / 4097,
                data_area_blocks == data_total_blocks - data_bitmap_blocks,
        ;
        let mut inode_bitmap: Vec<bool> = Vec::new();
        let mut inodes: Vec<DiskInode> = Vec::new();
        let mut i: u32 = 0;
        while i < inode_num
            invariant
                i <= inode_num,
                inode_num == inode_bitmap_blocks * 4096,
                inode_bitmap@ == Seq::new(i as nat, |k: int| k == 0),
                free_count(inode_bitmap@) == if i == 0 { 0 } else { i - 1 },
                inodes@.len() == i,
                held_total(inodes@) == 0,
                forall|k: int| 0 <= k < i ==> (#[trigger] inodes@[k]).wf() && inodes@[k].entries@.len() == 0
                    && inodes@[k].blocks@.len() == 0 && inodes@[k].size == 0 && inodes@[k].ref_cnt == 1
                    && inodes@[k].type_ == if k == 0 {
                    DiskInodeType::Directory
                } else {
                    DiskInodeType::File
                },
            decreases inode_num - i,
        {
            let ghost ib0 = inode_bitmap@;
            inode_bitmap.push(i == 0);
            assert(inode_bitmap@.drop_last() =~= ib0);
            let ghost n0 = inodes@;
            if i == 0 {
                inodes.push(DiskInode::new(DiskInodeType::Directory));
            } else {
                inodes.push(DiskInode::new(DiskInodeType::File));
            }
            assert(inodes@.drop_last() =~= n0);
            i += 1;
            assert(inode_bitmap@ =~= Seq::new(i as nat, |k: int| k == 0));
        }
        let mut data_bitmap: Vec<bool> = Vec::new();
        let mut j: u32 = 0;
        while j < data_area_blocks
            invariant
                j <= data_area_blocks,
                data_bitmap@.len() == j,
                forall|k: int| 0 <= k < j ==> !data_bitmap@[k],
                free_count(data_bitmap@) == j,
            decreases data_area_blocks - j,
        {
            let ghost d0 = data_bitmap@;
            data_bitmap.push(false);
            assert(data_bitmap@.drop_last() =~= d0);
            j += 1;
        }
        EasyFileSystem {
            super_block: SuperBlock {
                magic: EFS_MAGIC,
                total_blocks,
                inode_bitmap_blocks,
                inode_area_blocks,
                data_bitmap_blocks,
                data_area_blocks,
            },
            inode_bitmap,
            data_bitmap,
            inodes,
            inode_area_start_block: 1 + inode_bitmap_blocks,
            data_area_start_block: 1 + inode_total_blocks + data_bitmap_blocks,
        }
    }

    /// The position (block id, byte offset) of inode `id` in the inode area.
    pub fn get_disk_inode_pos(&self, inode_id: u32) -> (r: (u32, usize))
        requires
            self.inode_area_start_block + inode_id / 4 <= u32::MAX,
        ensures
            r.0 == self.inode_area_start_block + inode_id / 4,
            r.1 == (inode_id % 4) * 128,
    {
        (self.inode_area_start_block + inode_id / INODES_PER_BLOCK, (inode_id % INODES_PER_BLOCK) as usize * DISK_INODE_SZ)
    }

    /// The inode id at a position of the inode area.
    pub fn get_inode_by_pos(&self, block_id: usize, block_offset: usize) -> (r: usize)
        requires
            self.inode_area_start_block <= block_id,
            (block_id - self.inode_area_start_block) * 4 + block_offset / 128 <= usize::MAX,
        ensures
            r == (block_id - self.inode_area_start_block) * 4 + block_offset / 128,
    {
        (block_id - self.inode_area_start_block as usize) * (INODES_PER_BLOCK as usize) + block_offset / DISK_INODE_SZ
    }

    /// Takes the lowest free inode id.
    pub fn alloc_inode(&mut self) -> (r: u32)
        requires
            free_count(old(self).inode_bitmap@) > 0,
            old(self).inode_bitmap@.len() <= u32::MAX,
        ensures
            r < old(self).inode_bitmap@.len(),
            !old(self).inode_bitmap@[r as int],
            forall|j: int| 0 <= j < r ==> old(self).inode_bitmap@[j],
            final(self).inode_bitmap@ == old(self).inode_bitmap@.update(r as int, true),
            free_count(final(self).inode_bitmap@) == free_count(old(self).inode_bitmap@) - 1,
            final(self).data_bitmap == old(self).data_bitmap,
            final(self).inodes == old(self).inodes,
            final(self).super_block == old(self).super_block,
            final(self).inode_area_start_block == old(self).inode_area_start_block,
            final(self).data_area_start_block == old(self).data_area_start_block,
    {
        let i = first_free(&self.inode_bitmap);
        proof {
            lemma_free_count_set(self.inode_bitmap@, i as int, true);
        }
        self.inode_bitmap.set(i, true);
        i as u32
    }

    /// Takes the lowest free data block and returns its block id.
    pub fn alloc_data(&mut self) -> (r: u32)
        requires
            free_count(old(self).data_bitmap@) > 0,
            old(self).data_area_start_block + old(self).data_bitmap@.len() <= u32::MAX,
        ensures
            old(self).data_area_start_block <= r < old(self).data_area_start_block + old(self).data_bitmap@.len(),
            !old(self).data_bitmap@[r - old(self).data_area_start_block],
            forall|j: int| 0 <= j < r - old(self).data_area_start_block ==> old(self).data_bitmap@[j],
            final(self).data_bitmap@ == old(self).data_bitmap@.update(r - old(self).data_area_start_block, true),
            free_count(final(self).data_bitmap@) == free_count(old(self).data_bitmap@) - 1,
            final(self).inode_bitmap == old(self).inode_bitmap,
            final(self).inodes == old(self).inodes,
            final(self).super_block == old(self).super_block,
            final(self).inode_area_start_block == old(self).inode_area_start_block,
            final(self).data_area_start_block == old(self).data_area_start_block,
    {
        let i = first_free(&self.data_bitmap);
        proof {
            lemma_free_count_set(self.data_bitmap@, i as int, true);
        }
        self.data_bitmap.set(i, true);
        self.data_area_start_block + i as u32
    }

    /// Gives data block `block_id` back.
    pub fn dealloc_data(&mut self, block_id: u32)
        requires
            old(self).data_area_start_block <= block_id < old(self).data_area_start_block
                + old(self).data_bitmap@.len(),
        ensures
            final(self).data_bitmap@ == old(self).data_bitmap@.update(block_id - old(self).data_area_start_block, false),
            final(self).inode_bitmap == old(self).inode_bitmap,
            final(self).inodes == old(self).inodes,
            final(self).super_block == old(self).super_block,
            final(self).inode_area_start_block == old(self).inode_area_start_block,
            final(self).data_area_start_block == old(self).data_area_start_block,
    {
        let i = (block_id - self.data_area_start_block) as usize;
        self.data_bitmap.set(i, false);
    }
}


/// Blocks in use in the data bitmap are the sum, over the inodes, of the blocks
/// their sizes need.
pub proof fn lemma_used_blocks_match_sizes(fs: EasyFileSystem)
    requires
        fs.wf(),
        fs.accounted(),
    ensures
        fs.used_data() == needed_total(fs.inodes@),
{
    assert forall|i: int| 0 <= i < fs.inodes@.len() implies (#[trigger] fs.inodes@[i]).blocks@.len()
        == spec_total_blocks(fs.inodes@[i].size as nat) by {
        assert(fs.inodes@[i].wf());
    }
    lemma_held_is_needed(fs.inodes@);
}

/// The lowest free slot of a bitmap that has one.
fn first_free(bits: &Vec<bool>) -> (r: usize)
    requires
        free_count(bits@) > 0,
    ensures
        r < bits@.len(),
        !bits@[r as int],
        forall|j: int| 0 <= j < r ==> bits@[j],
{
    proof {
        lemma_free_count_has_free(bits@);
    }
    let mut i: usize = 0;
    while i < bits.len()
        invariant
            i <= bits@.len(),
            exists|k: int| i <= k < bits@.len() && !bits@[k],
            forall|j: int| 0 <= j < i ==> bits@[j],
        decreases bits@.len() - i,
    {
        if !bits[i] {
            return i;
        }
        i += 1;
    }
    i
}

} // verus!
