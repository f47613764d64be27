use vstd::prelude::*;
use crate::efs::{
    DirEntry, DiskInode, DiskInodeType, EasyFileSystem, free_count, grown, held_total,
    lemma_free_count_bound, lemma_accounted_same_blocks, lemma_free_count_set, lemma_held_total_update,
    lemma_total_blocks_monotonic, lemma_used_blocks_match_sizes, needed_total,
    overwrite, read_len, spec_total_blocks, total_blocks, DIRENT_SZ, NAME_LENGTH_LIMIT,
};

verus! {

/// `name` is in `es`.
pub open spec fn has_name(es: Seq<DirEntry>, name: Seq<char>) -> bool {
    exists|i: int| 0 <= i < es.len() && (#[trigger] es[i]).name@ == name
}

/// `i` is the first entry of `es` called `name`.
pub open spec fn first_match(es: Seq<DirEntry>, name: Seq<char>, i: int) -> bool {
    &&& 0 <= i < es.len()
    &&& es[i].name@ == name
    &&& forall|j: int| 0 <= j < i ==> (#[trigger] es[j]).name@ != name
}


/// Blocks that growing an inode of `size` bytes to `new_size` allocates.
pub open spec fn growth(size: nat, new_size: nat) -> nat {
    if new_size <= size {
        0
    } else {
        (spec_total_blocks(new_size) - spec_total_blocks(size)) as nat
    }
}

/// `f` is `o` with inode `id` grown to at least `new_size` bytes: the blocks it
/// needs are taken from the data bitmap and appended to what it holds.
pub open spec fn grown_fs(o: &EasyFileSystem, f: &EasyFileSystem, id: int, new_size: nat) -> bool {
    let oi = o.inodes@[id];
    let fi = f.inodes@[id];
    let n = growth(oi.size as nat, new_size);
    &&& f.inodes@.len() == o.inodes@.len()
    &&& forall|j: int| 0 <= j < o.inodes@.len() && j != id ==> f.inodes@[j] == o.inodes@[j]
    &&& fi.size == if new_size <= oi.size { oi.size as nat } else { new_size }
    &&& fi.blocks@.len() == oi.blocks@.len() + n
    &&& fi.blocks@.take(oi.blocks@.len() as int) == oi.blocks@
    &&& forall|k: int|
        0 <= k < fi.blocks@.len() ==> f.data_area_start_block <= #[trigger] fi.blocks@[k] < f.data_area_start_block
            + f.data_bitmap@.len()
    &&& fi.content@ == if oi.type_ == DiskInodeType::File { grown(oi.content@, new_size) } else { oi.content@ }
    &&& fi.entries == oi.entries
    &&& fi.type_ == oi.type_
    &&& fi.ref_cnt == oi.ref_cnt
    &&& f.data_bitmap@.len() == o.data_bitmap@.len()
    &&& free_count(f.data_bitmap@) == free_count(o.data_bitmap@) - n
    &&& f.inode_bitmap == o.inode_bitmap
    &&& f.super_block == o.super_block
    &&& f.inode_area_start_block == o.inode_area_start_block
    &&& f.data_area_start_block == o.data_area_start_block
}

/// Grows inode `id` to `new_size` bytes if it is smaller, allocating the blocks
/// that takes.
fn grow(fs: &mut EasyFileSystem, id: usize, new_size: u32)
    requires
        id < old(fs).inodes@.len(),
        old(fs).data_area_start_block + old(fs).data_bitmap@.len() <= u32::MAX,
        old(fs).inodes@[id as int].type_ == DiskInodeType::File ==> old(fs).inodes@[id as int].content@.len()
            == old(fs).inodes@[id as int].size,
        forall|j: int, k: int|
            0 <= j < old(fs).inodes@.len() && 0 <= k < old(fs).inodes@[j].blocks@.len() ==> old(fs).data_area_start_block
                <= #[trigger] old(fs).inodes@[j].blocks@[k] < old(fs).data_area_start_block
                + old(fs).data_bitmap@.len(),
        free_count(old(fs).data_bitmap@) >= growth(old(fs).inodes@[id as int].size as nat, new_size as nat),
        old(fs).inode_bitmap@.len() == old(fs).inodes@.len(),
        old(fs).inode_bitmap@[id as int],
    ensures
        grown_fs(old(fs), &*final(fs), id as int, new_size as nat),
        old(fs).accounted() ==> final(fs).accounted(),
{
    if new_size <= fs.inodes[id].size {
        assert(*fs == *old(fs));
        assert(fs.inodes@[id as int].blocks@.take(fs.inodes@[id as int].blocks@.len() as int)
            =~= fs.inodes@[id as int].blocks@);
        return;
    }
    proof {
        lemma_total_blocks_monotonic(fs.inodes@[id as int].size as nat, new_size as nat);
    }
    let needed = fs.inodes[id].blocks_num_needed(new_size);
    let mut v: Vec<u32> = Vec::new();
    let mut i: u32 = 0;
    let ghost f0 = free_count(fs.data_bitmap@);
    while i < needed
        invariant
            i <= needed,
            v@.len() == i,
            fs.inodes == old(fs).inodes,
            fs.inode_bitmap == old(fs).inode_bitmap,
            fs.super_block == old(fs).super_block,
            fs.inode_area_start_block == old(fs).inode_area_start_block,
            fs.data_area_start_block == old(fs).data_area_start_block,
            fs.data_bitmap@.len() == old(fs).data_bitmap@.len(),
            f0 == free_count(old(fs).data_bitmap@),
            f0 >= needed,
            free_count(fs.data_bitmap@) == f0 - i,
            fs.data_area_start_block + fs.data_bitmap@.len() <= u32::MAX,
            forall|k: int|
                0 <= k < v@.len() ==> fs.data_area_start_block <= #[trigger] v@[k] < fs.data_area_start_block
                    + fs.data_bitmap@.len(),
            old(fs).accounted() ==> forall|k: int|
                0 <= k < v@.len() ==> fs.data_bitmap@[#[trigger] v@[k] - fs.data_area_start_block],
            old(fs).accounted() ==> forall|k1: int, k2: int|
                0 <= k1 < v@.len() && 0 <= k2 < v@.len() && k1 != k2 ==> #[trigger] v@[k1] != #[trigger] v@[k2],
            old(fs).accounted() ==> forall|j: int, k: int, q: int|
                0 <= j < old(fs).inodes@.len() && 0 <= k < old(fs).inodes@[j].blocks@.len() && 0 <= q < v@.len()
                    ==> #[trigger] old(fs).inodes@[j].blocks@[k] != #[trigger] v@[q],
            old(fs).accounted() ==> forall|j: int, k: int|
                0 <= j < old(fs).inodes@.len() && 0 <= k < old(fs).inodes@[j].blocks@.len() ==> fs.data_bitmap@[(
                #[trigger] old(fs).inodes@[j].blocks@[k]) - fs.data_area_start_block],
            old(fs).accounted() ==> fs.used_data() == held_total(old(fs).inodes@) + v@.len(),
            forall|j: int, k: int|
                0 <= j < old(fs).inodes@.len() && 0 <= k < old(fs).inodes@[j].blocks@.len() ==> old(fs).data_area_start_block
                    <= #[trigger] old(fs).inodes@[j].blocks@[k] < old(fs).data_area_start_block
                    + old(fs).data_bitmap@.len(),
        decreases needed - i,
    {
        let ghost d0 = fs.data_bitmap@;
        let ghost v0 = v@;
        let b = fs.alloc_data();
        v.push(b);
        proof {
            if old(fs).accounted() {
                let start = fs.data_area_start_block;
                lemma_free_count_bound(d0);
                assert forall|k: int| 0 <= k < v@.len() implies fs.data_bitmap@[#[trigger] v@[k] - start] by {
                    if k < v0.len() {
                        assert(v@[k] == v0[k]);
                    }
                }
                assert forall|k1: int, k2: int|
                    0 <= k1 < v@.len() && 0 <= k2 < v@.len() && k1 != k2 implies #[trigger] v@[k1] != #[trigger] v@[k2] by {
                    if k1 < v0.len() && k2 < v0.len() {
                        assert(v@[k1] == v0[k1] && v@[k2] == v0[k2]);
                    } else if k1 < v0.len() {
                        assert(d0[v0[k1] - start]);
                    } else {
                        assert(d0[v0[k2] - start]);
                    }
                }
                assert forall|j: int, k: int|
                    0 <= j < old(fs).inodes@.len() && 0 <= k < old(fs).inodes@[j].blocks@.len() implies fs.data_bitmap@[(
                    #[trigger] old(fs).inodes@[j].blocks@[k]) - start] by {
                    assert(d0[old(fs).inodes@[j].blocks@[k] - start]);
                }
                assert forall|j: int, k: int, q: int|
                    0 <= j < old(fs).inodes@.len() && 0 <= k < old(fs).inodes@[j].blocks@.len() && 0 <= q < v@.len()
                        implies #[trigger] old(fs).inodes@[j].blocks@[k] != #[trigger] v@[q] by {
                    if q < v0.len() {
                        assert(v@[q] == v0[q]);
                    } else {
                        assert(d0[old(fs).inodes@[j].blocks@[k] - start]);
                    }
                }
            }
        }
        i += 1;
    }
    let ghost b0 = fs.inodes@[id as int].blocks@;
    let ghost v0 = v@;
    let ghost before = fs.inodes@;
    fs.inodes[id].increase_size(new_size, v);
    proof {
        if old(fs).accounted() {
            let f = *fs;
            let o = *old(fs);
            let start = f.data_area_start_block;
            assert(f.inodes@ == before.update(id as int, f.inodes@[id as int]));
            lemma_held_total_update(before, id as int, f.inodes@[id as int]);
            assert forall|j: int, k: int|
                0 <= j < f.inodes@.len() && 0 <= k < f.inodes@[j].blocks@.len() implies f.data_bitmap@[(
                #[trigger] f.inodes@[j].blocks@[k]) - start] by {
                if j == id && k >= b0.len() {
                    assert(f.inodes@[j].blocks@[k] == v0[k - b0.len()]);
                } else {
                    assert(f.inodes@[j].blocks@[k] == o.inodes@[j].blocks@[k]);
                }
            }
            assert forall|i1: int, k1: int, i2: int, k2: int|
                0 <= i1 < f.inodes@.len() && 0 <= k1 < f.inodes@[i1].blocks@.len() && 0 <= i2 < f.inodes@.len()
                    && 0 <= k2 < f.inodes@[i2].blocks@.len() && (i1 != i2 || k1 != k2) implies #[trigger] f.inodes@[i1].blocks@[k1]
                != #[trigger] f.inodes@[i2].blocks@[k2] by {
                let new1 = i1 == id && k1 >= b0.len();
                let new2 = i2 == id && k2 >= b0.len();
                if new1 {
                    assert(f.inodes@[i1].blocks@[k1] == v0[k1 - b0.len()]);
                } else {
                    assert(f.inodes@[i1].blocks@[k1] == o.inodes@[i1].blocks@[k1]);
                }
                if new2 {
                    assert(f.inodes@[i2].blocks@[k2] == v0[k2 - b0.len()]);
                } else {
                    assert(f.inodes@[i2].blocks@[k2] == o.inodes@[i2].blocks@[k2]);
                }
            }
            assert forall|j: int| 0 <= j < f.inodes@.len() && !f.inode_bitmap@[j] implies (#[trigger] f.inodes@[j]).blocks@.len() == 0 by {
                assert(o.inodes@[j] == f.inodes@[j]);
            }
        }
    }
    assert(fs.inodes@[id as int].blocks@.take(b0.len() as int) =~= b0);
    assert forall|k: int| 0 <= k < fs.inodes@[id as int].blocks@.len() implies fs.data_area_start_block
        <= #[trigger] fs.inodes@[id as int].blocks@[k] < fs.data_area_start_block + fs.data_bitmap@.len() by {
        if k < b0.len() {
            assert(fs.inodes@[id as int].blocks@[k] == b0[k]);
        } else {
            assert(fs.inodes@[id as int].blocks@[k] == v0[k - b0.len()]);
        }
    }
}


/// `f` is `o` with file `id` emptied and each block it held free again; the link
/// count stays.
pub open spec fn cleared(o: &EasyFileSystem, f: &EasyFileSystem, id: int) -> bool {
    let oi = o.inodes@[id];
    let fi = f.inodes@[id];
    &&& f.inodes@.len() == o.inodes@.len()
    &&& forall|j: int| 0 <= j < o.inodes@.len() && j != id ==> f.inodes@[j] == o.inodes@[j]
    &&& fi.size == 0
    &&& fi.blocks@.len() == 0
    &&& fi.content@.len() == 0
    &&& fi.entries == oi.entries
    &&& fi.type_ == oi.type_
    &&& fi.ref_cnt == oi.ref_cnt
    &&& f.data_bitmap@.len() == o.data_bitmap@.len()
    &&& forall|k: int| 0 <= k < oi.blocks@.len() ==> !f.data_bitmap@[#[trigger] oi.blocks@[k] - o.data_area_start_block]
    &&& forall|j: int|
        0 <= j < o.data_bitmap@.len() && !oi.blocks@.contains((j + o.data_area_start_block) as u32)
            ==> f.data_bitmap@[j] == o.data_bitmap@[j]
    &&& f.inode_bitmap == o.inode_bitmap
    &&& f.super_block == o.super_block
    &&& f.inode_area_start_block == o.inode_area_start_block
    &&& f.data_area_start_block == o.data_area_start_block
}

/// Empties file `id` and frees every block it held.
fn release_blocks(fs: &mut EasyFileSystem, id: usize)
    requires
        old(fs).wf(),
        id < old(fs).inodes@.len(),
        old(fs).inodes@[id as int].type_ == DiskInodeType::File,
    ensures
        final(fs).wf(),
        cleared(old(fs), &*final(fs), id as int),
        old(fs).accounted() ==> final(fs).accounted(),
{
    let ghost o = *fs;
    let blocks = fs.inodes[id].clear_size();
    proof {
        if o.accounted() {
            lemma_held_total_update(o.inodes@, id as int, fs.inodes@[id as int]);
            assert(fs.inodes@ == o.inodes@.update(id as int, fs.inodes@[id as int]));
        }
    }
    let mut i: usize = 0;
    while i < blocks.len()
        invariant
            i <= blocks@.len(),
            blocks@ == o.inodes@[id as int].blocks@,
            id < o.inodes@.len(),
            fs.inodes@.len() == o.inodes@.len(),
            forall|j: int| 0 <= j < o.inodes@.len() && j != id ==> fs.inodes@[j] == o.inodes@[j],
            fs.inodes@[id as int].size == 0,
            fs.inodes@[id as int].blocks@.len() == 0,
            fs.inodes@[id as int].content@.len() == 0,
            fs.inodes@[id as int].entries == o.inodes@[id as int].entries,
            fs.inodes@[id as int].type_ == o.inodes@[id as int].type_,
            fs.inodes@[id as int].ref_cnt == o.inodes@[id as int].ref_cnt,
            fs.data_bitmap@.len() == o.data_bitmap@.len(),
            fs.inode_bitmap == o.inode_bitmap,
            fs.super_block == o.super_block,
            fs.inode_area_start_block == o.inode_area_start_block,
            fs.data_area_start_block == o.data_area_start_block,
            o.wf(),
            forall|k: int| 0 <= k < i ==> !fs.data_bitmap@[#[trigger] blocks@[k] - o.data_area_start_block],
            o.accounted() ==> forall|k: int|
                i <= k < blocks@.len() ==> fs.data_bitmap@[#[trigger] blocks@[k] - o.data_area_start_block],
            o.accounted() ==> forall|j: int, k: int|
                0 <= j < o.inodes@.len() && j != id && 0 <= k < o.inodes@[j].blocks@.len() ==> fs.data_bitmap@[(
                #[trigger] o.inodes@[j].blocks@[k]) - o.data_area_start_block],
            o.accounted() ==> fs.used_data() == held_total(fs.inodes@) + (blocks@.len() - i),
            forall|j: int|
                0 <= j < o.data_bitmap@.len() && !blocks@.take(i as int).contains((j + o.data_area_start_block) as u32)
                    ==> fs.data_bitmap@[j] == o.data_bitmap@[j],
        decreases blocks@.len() - i,
    {
        let b = blocks[i];
        proof {
            assert(o.data_area_start_block <= o.inodes@[id as int].blocks@[i as int]);
        }
        let ghost d0 = fs.data_bitmap@;
        fs.dealloc_data(b);
        proof {
            if o.accounted() {
                let start = o.data_area_start_block;
                assert(blocks@[i as int] == b);
                assert(d0[blocks@[i as int] - start]);
                lemma_free_count_set(d0, b - start, false);
                lemma_free_count_bound(d0);
                lemma_free_count_bound(fs.data_bitmap@);
                assert forall|k: int| i + 1 <= k < blocks@.len() implies fs.data_bitmap@[#[trigger] blocks@[k] - start] by {
                    assert(o.inodes@[id as int].blocks@[k] != o.inodes@[id as int].blocks@[i as int]);
                    assert(o.data_area_start_block <= o.inodes@[id as int].blocks@[k]);
                }
                assert forall|j: int, k: int|
                    0 <= j < o.inodes@.len() && j != id && 0 <= k < o.inodes@[j].blocks@.len() implies fs.data_bitmap@[(
                    #[trigger] o.inodes@[j].blocks@[k]) - start] by {
                    assert(o.inodes@[j].blocks@[k] != o.inodes@[id as int].blocks@[i as int]);
                    assert(o.data_area_start_block <= o.inodes@[j].blocks@[k]);
                }
            }
            assert forall|j: int|
                0 <= j < o.data_bitmap@.len() && !blocks@.take(i + 1).contains((j + o.data_area_start_block) as u32)
                    implies fs.data_bitmap@[j] == o.data_bitmap@[j] by {
                assert(blocks@.take(i + 1)[i as int] == b);
                if blocks@.take(i as int).contains((j + o.data_area_start_block) as u32) {
                    let q = choose|q: int| 0 <= q < i && blocks@.take(i as int)[q] == (j + o.data_area_start_block) as u32;
                    assert(blocks@.take(i + 1)[q] == blocks@.take(i as int)[q]);
                }
            }
        }
        i += 1;
    }
    assert(blocks@.take(blocks@.len() as int) =~= blocks@);
    proof {
        let f = *fs;
        assert forall|i: int| 0 <= i < f.inodes@.len() implies (#[trigger] f.inodes@[i]).wf() by {
            if i != id {
                assert(o.inodes@[i].wf());
            }
        }
        assert forall|i: int, k: int|
            0 <= i < f.inodes@.len() && 0 <= k < f.inodes@[i].blocks@.len() implies f.data_area_start_block
                <= #[trigger] f.inodes@[i].blocks@[k] < f.data_area_start_block + f.data_bitmap@.len() by {
            assert(o.inodes@[i] == f.inodes@[i]);
        }
        assert forall|i: int, k: int|
            0 <= i < f.inodes@.len() && 0 <= k < f.inodes@[i].entries@.len() implies f.names_live_file(
                #[trigger] f.inodes@[i].entries@[k],
            ) by {
            assert(f.inodes@[i].entries == o.inodes@[i].entries);
            assert(o.names_live_file(o.inodes@[i].entries@[k]));
        }
        if o.accounted() {
            assert forall|j: int, k: int|
                0 <= j < f.inodes@.len() && 0 <= k < f.inodes@[j].blocks@.len() implies f.data_bitmap@[(
                #[trigger] f.inodes@[j].blocks@[k]) - f.data_area_start_block] by {
                assert(f.inodes@[j] == o.inodes@[j]);
            }
            assert forall|i1: int, k1: int, i2: int, k2: int|
                0 <= i1 < f.inodes@.len() && 0 <= k1 < f.inodes@[i1].blocks@.len() && 0 <= i2 < f.inodes@.len()
                    && 0 <= k2 < f.inodes@[i2].blocks@.len() && (i1 != i2 || k1 != k2) implies #[trigger] f.inodes@[i1].blocks@[k1]
                != #[trigger] f.inodes@[i2].blocks@[k2] by {
                assert(f.inodes@[i1] == o.inodes@[i1]);
                assert(f.inodes@[i2] == o.inodes@[i2]);
            }
            assert forall|j: int| 0 <= j < f.inodes@.len() && !f.inode_bitmap@[j] implies (#[trigger] f.inodes@[j]).blocks@.len() == 0 by {
                if j != id {
                    assert(o.inodes@[j] == f.inodes@[j]);
                }
            }
        }
    }
}


impl EasyFileSystem {
    /// The handle on inode 0, the root directory.
    pub fn root_inode(&self) -> (r: Inode)
        requires
            self.wf(),
        ensures
            r.valid(self),
            r.id(self) == 0,
            r.disk(self).type_ == DiskInodeType::Directory,
    {
        Inode::of_id(self, 0)
    }
}

/// Reading `n` bytes at `offset` right after writing `data` there, where the
/// write reaches the end of the file, gives back the first `min(data.len(), n)`
/// bytes of `data`.
pub proof fn lemma_read_after_write(content: Seq<u8>, offset: nat, data: Seq<u8>, n: nat)
    requires
        content.len() <= offset + data.len(),
    ensures
        ({
            let after = overwrite(grown(content, offset + data.len()), offset as int, data);
            let r = read_len(after.len(), offset, n);
            &&& r == if data.len() < n { data.len() } else { n }
            &&& forall|k: int| 0 <= k < r ==> after[offset + k] == data[k]
        }),
{
    let g = grown(content, offset + data.len());
    let after = overwrite(g, offset as int, data);
    assert(g.len() >= offset + data.len());
    assert(after.len() == g.len());
    assert forall|k: int| 0 <= k < data.len() implies after[offset + k] == data[k] by {
        assert(after[offset + k] == (g.take(offset as int) + data)[offset + k]);
    }
}

/// A file just emptied reads as nothing, at any offset and for any buffer.
pub proof fn lemma_read_after_clear(offset: nat, n: nat)
    ensures
        read_len(0, offset, n) == 0,
{
}

/// Removing entry `i` by moving the last entry into its place drops exactly one
/// entry: one fewer remain, and every other entry is still there.
pub proof fn lemma_unlink_removes_one(es: Seq<DirEntry>, i: int)
    requires
        0 <= i < es.len(),
    ensures
        es.update(i, es.last()).drop_last().len() == es.len() - 1,
        forall|j: int| 0 <= j < es.len() && j != i ==> es.update(i, es.last()).drop_last().contains(es[j]),
{
    let res = es.update(i, es.last()).drop_last();
    assert forall|j: int| 0 <= j < es.len() && j != i implies res.contains(es[j]) by {
        if j == es.len() - 1 {
            assert(res[i] == es[j]);
        } else {
            assert(res[j] == es[j]);
        }
    }
}


/// `f` is `o` with one entry called `name` added at the end, as `create` and
/// `link_at` leave a directory.
pub open spec fn appended(o: Seq<DirEntry>, f: Seq<DirEntry>, name: Seq<char>) -> bool {
    &&& f.len() == o.len() + 1
    &&& f.take(o.len() as int) == o
    &&& f.last().name@ == name
}

/// Listing an empty directory after adding `a`, `b` and `c` gives `a`, `b`, `c`,
/// in that order.
pub proof fn lemma_ls_after_three_creates(
    e0: Seq<DirEntry>,
    e1: Seq<DirEntry>,
    e2: Seq<DirEntry>,
    e3: Seq<DirEntry>,
    a: Seq<char>,
    b: Seq<char>,
    c: Seq<char>,
)
    requires
        e0.len() == 0,
        appended(e0, e1, a),
        appended(e1, e2, b),
        appended(e2, e3, c),
    ensures
        e3.len() == 3,
        e3[0].name@ == a,
        e3[1].name@ == b,
        e3[2].name@ == c,
{
    assert(e3[0] == e3.take(2)[0]);
    assert(e3[1] == e3.take(2)[1]);
    assert(e2[0] == e2.take(1)[0]);
}


/// `f` is `o` with inode `id` holding only its first `keep` blocks; the others
/// are clear in the data bitmap, and every other bit is as it was.
pub open spec fn tail_freed(o: &EasyFileSystem, f: &EasyFileSystem, id: int, keep: int) -> bool {
    let ob = o.inodes@[id].blocks@;
    let fi = f.inodes@[id];
    &&& f.inodes@.len() == o.inodes@.len()
    &&& forall|j: int| 0 <= j < o.inodes@.len() && j != id ==> f.inodes@[j] == o.inodes@[j]
    &&& fi.blocks@ == ob.take(keep)
    &&& fi.size == o.inodes@[id].size
    &&& fi.content == o.inodes@[id].content
    &&& fi.entries == o.inodes@[id].entries
    &&& fi.type_ == o.inodes@[id].type_
    &&& fi.ref_cnt == o.inodes@[id].ref_cnt
    &&& f.data_bitmap@.len() == o.data_bitmap@.len()
    &&& forall|k: int| keep <= k < ob.len() ==> !f.data_bitmap@[#[trigger] ob[k] - o.data_area_start_block]
    &&& forall|j: int|
        0 <= j < o.data_bitmap@.len() && !ob.skip(keep).contains((j + o.data_area_start_block) as u32)
            ==> f.data_bitmap@[j] == o.data_bitmap@[j]
    &&& f.inode_bitmap == o.inode_bitmap
    &&& f.super_block == o.super_block
    &&& f.inode_area_start_block == o.inode_area_start_block
    &&& f.data_area_start_block == o.data_area_start_block
}

/// Gives back every block of inode `id` past its first `keep`, last first.
fn free_tail(fs: &mut EasyFileSystem, id: usize, keep: usize)
    requires
        id < old(fs).inodes@.len(),
        keep <= old(fs).inodes@[id as int].blocks@.len(),
        forall|j: int, k: int|
            0 <= j < old(fs).inodes@.len() && 0 <= k < old(fs).inodes@[j].blocks@.len() ==> old(fs).data_area_start_block
                <= #[trigger] old(fs).inodes@[j].blocks@[k] < old(fs).data_area_start_block
                + old(fs).data_bitmap@.len(),
    ensures
        tail_freed(old(fs), &*final(fs), id as int, keep as int),
        old(fs).accounted() ==> final(fs).accounted(),
{
    let ghost o = *fs;
    let ghost ob = o.inodes@[id as int].blocks@;
    while fs.inodes[id].blocks.len() > keep
        invariant
            id < o.inodes@.len(),
            keep <= fs.inodes@[id as int].blocks@.len() <= ob.len(),
            ob == o.inodes@[id as int].blocks@,
            fs.inodes@.len() == o.inodes@.len(),
            forall|j: int| 0 <= j < o.inodes@.len() && j != id ==> fs.inodes@[j] == o.inodes@[j],
            fs.inodes@[id as int].blocks@ == ob.take(fs.inodes@[id as int].blocks@.len() as int),
            fs.inodes@[id as int].size == o.inodes@[id as int].size,
            fs.inodes@[id as int].content == o.inodes@[id as int].content,
            fs.inodes@[id as int].entries == o.inodes@[id as int].entries,
            fs.inodes@[id as int].type_ == o.inodes@[id as int].type_,
            fs.inodes@[id as int].ref_cnt == o.inodes@[id as int].ref_cnt,
            fs.data_bitmap@.len() == o.data_bitmap@.len(),
            fs.inode_bitmap == o.inode_bitmap,
            fs.super_block == o.super_block,
            fs.inode_area_start_block == o.inode_area_start_block,
            fs.data_area_start_block == o.data_area_start_block,
            forall|j: int, k: int|
                0 <= j < o.inodes@.len() && 0 <= k < o.inodes@[j].blocks@.len() ==> o.data_area_start_block
                    <= #[trigger] o.inodes@[j].blocks@[k] < o.data_area_start_block + o.data_bitmap@.len(),
            forall|k: int|
                fs.inodes@[id as int].blocks@.len() <= k < ob.len() ==> !fs.data_bitmap@[#[trigger] ob[k]
                    - o.data_area_start_block],
            forall|j: int|
                0 <= j < o.data_bitmap@.len() && !ob.skip(fs.inodes@[id as int].blocks@.len() as int).contains(
                    (j + o.data_area_start_block) as u32,
                ) ==> fs.data_bitmap@[j] == o.data_bitmap@[j],
            o.accounted() ==> fs.accounted(),
        decreases fs.inodes@[id as int].blocks@.len(),
    {
        let ghost s0 = *fs;
        let ghost n = fs.inodes@[id as int].blocks@.len();
        let b = match fs.inodes[id].blocks.pop() {
            Some(b) => b,
            None => 0,
        };
        let ghost s1 = *fs;
        proof {
            assert(b == ob[n - 1]);
            assert(o.data_area_start_block <= o.inodes@[id as int].blocks@[n - 1]);
        }
        fs.dealloc_data(b);
        proof {
            let f = *fs;
            let start = o.data_area_start_block;
            assert(f.inodes@[id as int].blocks@ =~= ob.take(n - 1));
            assert forall|j: int|
                0 <= j < o.data_bitmap@.len() && !ob.skip(n - 1).contains((j + start) as u32) implies f.data_bitmap@[j]
                == o.data_bitmap@[j] by {
                assert(ob.skip(n - 1)[0] == b);
                if ob.skip(n as int).contains((j + start) as u32) {
                    let q = choose|q: int| 0 <= q < ob.skip(n as int).len() && ob.skip(n as int)[q] == (j + start) as u32;
                    assert(ob.skip(n - 1)[q + 1] == ob.skip(n as int)[q]);
                }
            }
            if o.accounted() {
                assert(s0.accounted());
                assert(s0.inodes@[id as int].blocks@[n - 1] == b);
                assert(s0.data_bitmap@[b - start]);
                lemma_free_count_set(s0.data_bitmap@, b - start, false);
                lemma_free_count_bound(s0.data_bitmap@);
                lemma_free_count_bound(f.data_bitmap@);
                assert(s1.inodes@ == s0.inodes@.update(id as int, s1.inodes@[id as int]));
                lemma_held_total_update(s0.inodes@, id as int, s1.inodes@[id as int]);
                assert forall|j: int, k: int|
                    0 <= j < f.inodes@.len() && 0 <= k < f.inodes@[j].blocks@.len() implies f.data_bitmap@[(
                    #[trigger] f.inodes@[j].blocks@[k]) - start] by {
                    assert(f.inodes@[j].blocks@[k] == s0.inodes@[j].blocks@[k]);
                    if j == id {
                        assert(k != n - 1);
                    }
                    assert(s0.inodes@[j].blocks@[k] != s0.inodes@[id as int].blocks@[n - 1]);
                    assert(o.data_area_start_block <= o.inodes@[j].blocks@[k]);
                }
                assert forall|i1: int, k1: int, i2: int, k2: int|
                    0 <= i1 < f.inodes@.len() && 0 <= k1 < f.inodes@[i1].blocks@.len() && 0 <= i2 < f.inodes@.len()
                        && 0 <= k2 < f.inodes@[i2].blocks@.len() && (i1 != i2 || k1 != k2) implies #[trigger] f.inodes@[i1].blocks@[k1]
                    != #[trigger] f.inodes@[i2].blocks@[k2] by {
                    assert(f.inodes@[i1].blocks@[k1] == s0.inodes@[i1].blocks@[k1]);
                    assert(f.inodes@[i2].blocks@[k2] == s0.inodes@[i2].blocks@[k2]);
                }
                assert forall|j: int| 0 <= j < f.inodes@.len() && !f.inode_bitmap@[j] implies (#[trigger] f.inodes@[j]).blocks@.len() == 0 by {
                    if j != id {
                        assert(s0.inodes@[j] == f.inodes@[j]);
                    }
                }
            }
        }
    }
}

/// A handle on an inode, by the position of its slot in the inode area. The
/// file system it belongs to is passed to each call.
pub struct Inode {
    block_id: usize,
    block_offset: usize,
}

impl Inode {
    pub closed spec fn spec_block_id(&self) -> usize {
        self.block_id
    }

    pub closed spec fn spec_block_offset(&self) -> usize {
        self.block_offset
    }

    /// The inode id that the handle points at in `fs`.
    pub open spec fn id(&self, fs: &EasyFileSystem) -> int {
        (self.spec_block_id() - fs.inode_area_start_block) * 4 + self.spec_block_offset() / 128
    }

    /// The handle points at an inode of `fs` that is in use.
    pub open spec fn valid(&self, fs: &EasyFileSystem) -> bool {
        &&& fs.inode_area_start_block <= self.spec_block_id()
        &&& 0 <= self.id(fs) < fs.inodes@.len()
        &&& fs.inode_bitmap@[self.id(fs)]
    }

    pub open spec fn disk(&self, fs: &EasyFileSystem) -> DiskInode {
        fs.inodes@[self.id(fs)]
    }

    /// A handle on the inode slot at `block_offset` in block `block_id`.
    pub fn new(block_id: u32, block_offset: usize) -> (r: Inode)
        ensures
            r.spec_block_id() == block_id,
            r.spec_block_offset() == block_offset,
    {
        Inode { block_id: block_id as usize, block_offset }
    }

    /// The handle on inode `inode_id` of `fs`.
    fn of_id(fs: &EasyFileSystem, inode_id: u32) -> (r: Inode)
        requires
            fs.wf(),
            inode_id < fs.inodes@.len(),
        ensures
            r.id(fs) == inode_id,
            fs.inode_area_start_block <= r.spec_block_id(),
    {
        let (block_id, block_offset) = fs.get_disk_inode_pos(inode_id);
        let r = Inode::new(block_id, block_offset);
        assert(((inode_id / 4) * 4 + ((inode_id % 4) * 128) / 128) == inode_id) by (nonlinear_arith);
        r
    }

    /// The inode id of this handle (the inverse of the position mapping).
    pub fn fstat_id(&self, fs: &EasyFileSystem) -> (r: usize)
        requires
            fs.wf(),
            self.valid(fs),
        ensures
            r == self.id(fs),
    {
        fs.get_inode_by_pos(self.block_id, self.block_offset)
    }

    /// The hard-link count of the inode.
    pub fn fstat_nlink(&self, fs: &EasyFileSystem) -> (r: usize)
        requires
            fs.wf(),
            self.valid(fs),
        ensures
            r == self.disk(fs).ref_cnt,
    {
        let id = self.fstat_id(fs);
        fs.inodes[id].ref_cnt
    }

    /// 1 for a directory, 2 for a file.
    pub fn get_mode_id(&self, fs: &EasyFileSystem) -> (r: usize)
        requires
            fs.wf(),
            self.valid(fs),
        ensures
            r == if self.disk(fs).type_ == DiskInodeType::Directory {
                1usize
            } else {
                2usize
            },
    {
        let id = self.fstat_id(fs);
        let node = &fs.inodes[id];
        if node.is_dir() {
            1
        } else if node.is_file() {
            2
        } else {
            0
        }
    }

    /// The id in the first entry of directory `dir` called `name`.
    fn find_inode_id(name: &str, dir: &DiskInode) -> (r: Option<u32>)
        ensures
            r is None <==> !has_name(dir.entries@, name@),
            r matches Some(id) ==> exists|i: int|
                first_match(dir.entries@, name@, i) && dir.entries@[i].inode_id == id,
    {
        let target = name.to_owned();
        let mut i: usize = 0;
        while i < dir.entries.len()
            invariant
                i <= dir.entries@.len(),
                target@ == name@,
                forall|j: int| 0 <= j < i ==> (#[trigger] dir.entries@[j]).name@ != name@,
            decreases dir.entries@.len() - i,
        {
            if dir.entries[i].name == target {
                assert(first_match(dir.entries@, name@, i as int));
                return Some(dir.entries[i].inode_id);
            }
            i += 1;
        }
        None
    }

    /// The inode under this directory called `name`: the first entry with that
    /// name decides.
    pub fn find(&self, fs: &EasyFileSystem, name: &str) -> (r: Option<Inode>)
        requires
            fs.wf(),
            self.valid(fs),
            self.disk(fs).type_ == DiskInodeType::Directory,
        ensures
            r is None <==> !has_name(self.disk(fs).entries@, name@),
            r matches Some(h) ==> h.valid(fs) && exists|i: int|
                first_match(self.disk(fs).entries@, name@, i) && self.disk(fs).entries@[i].inode_id
                    == h.id(fs),
    {
        let id = self.fstat_id(fs);
        match Self::find_inode_id(name, &fs.inodes[id]) {
            Some(inode_id) => {
                proof {
                    let i = choose|i: int|
                        first_match(self.disk(fs).entries@, name@, i) && self.disk(fs).entries@[i].inode_id
                            == inode_id;
                    assert(fs.names_live_file(fs.inodes@[id as int].entries@[i]));
                }
                Some(Self::of_id(fs, inode_id))
            },
            None => None,
        }
    }

    /// The names in this directory, in the order of its entries.
    pub fn ls(&self, fs: &EasyFileSystem) -> (r: Vec<String>)
        requires
            fs.wf(),
            self.valid(fs),
        ensures
            r@.len() == self.disk(fs).entries@.len(),
            forall|i: int| 0 <= i < r@.len() ==> (#[trigger] r@[i])@ == self.disk(fs).entries@[i].name@,
    {
        let id = self.fstat_id(fs);
        let dir = &fs.inodes[id];
        let mut v: Vec<String> = Vec::new();
        let mut i: usize = 0;
        while i < dir.entries.len()
            invariant
                i <= dir.entries@.len(),
                v@.len() == i,
                forall|j: int| 0 <= j < i ==> (#[trigger] v@[j])@ == dir.entries@[j].name@,
            decreases dir.entries@.len() - i,
        {
            v.push(dir.entries[i].name.clone());
            i += 1;
        }
        v
    }

    /// Adds a file called `name` to this directory: none if the name is taken;
    /// else the lowest free inode becomes an empty file with one link, and an entry
    /// for it is appended to the directory.
    pub fn create(&self, fs: &mut EasyFileSystem, name: &str) -> (r: Option<Inode>)
        requires
            old(fs).wf(),
            self.valid(old(fs)),
            self.disk(old(fs)).type_ == DiskInodeType::Directory,
            free_count(old(fs).inode_bitmap@) > 0,
            name.len() <= NAME_LENGTH_LIMIT,
            free_count(old(fs).data_bitmap@) >= growth(
                self.disk(old(fs)).size as nat,
                (self.disk(old(fs)).size + 32) as nat,
            ),
            self.disk(old(fs)).size + 32 <= u32::MAX,
        ensures
            has_name(self.disk(old(fs)).entries@, name@) ==> r is None && *final(fs) == *old(fs),
            !has_name(self.disk(old(fs)).entries@, name@) ==> (r matches Some(h) && {
                let o = &*old(fs);
                let f = &*final(fs);
                let nid = h.id(f);
                let pid = self.id(o);
                let oe = self.disk(o).entries@;
                let fe = f.inodes@[pid].entries@;
                &&& f.wf()
                &&& h.valid(f)
                &&& self.id(f) == pid
                &&& 0 <= nid < o.inodes@.len()
                &&& !o.inode_bitmap@[nid]
                &&& forall|j: int| 0 <= j < nid ==> o.inode_bitmap@[j]
                &&& f.inode_bitmap@ == o.inode_bitmap@.update(nid, true)
                &&& f.inodes@[nid].type_ == DiskInodeType::File
                &&& f.inodes@[nid].size == 0
                &&& f.inodes@[nid].ref_cnt == 1
                &&& f.inodes@[nid].blocks@.len() == 0
                &&& appended(oe, fe, name@)
                &&& fe.last().inode_id == nid
                &&& f.inodes@[pid].size == self.disk(o).size + 32
                &&& forall|j: int| 0 <= j < o.inodes@.len() && j != pid && j != nid ==> f.inodes@[j] == o.inodes@[j]
                &&& f.inodes@[pid].type_ == o.inodes@[pid].type_
                &&& f.inodes@[pid].ref_cnt == o.inodes@[pid].ref_cnt
                &&& f.inodes@[pid].content@ == o.inodes@[pid].content@
                &&& f.inodes@[pid].blocks@.len() == o.inodes@[pid].blocks@.len() + growth(
                    o.inodes@[pid].size as nat,
                    (o.inodes@[pid].size + 32) as nat,
                )
                &&& f.inodes@[pid].blocks@.take(o.inodes@[pid].blocks@.len() as int) == o.inodes@[pid].blocks@
                &&& f.data_bitmap@.len() == o.data_bitmap@.len()
                &&& free_count(f.data_bitmap@) == free_count(o.data_bitmap@) - growth(
                    o.inodes@[pid].size as nat,
                    (o.inodes@[pid].size + 32) as nat,
                )
                &&& f.super_block == o.super_block
                &&& f.inode_area_start_block == o.inode_area_start_block
                &&& f.data_area_start_block == o.data_area_start_block
                &&& f.inodes@[nid].content@.len() == 0
                &&& f.inodes@[nid].entries@.len() == 0
                &&& o.accounted() ==> f.accounted()
            }),
        old(fs).accounted() ==> final(fs).used_data() == needed_total(final(fs).inodes@),
    {
        proof {
            if old(fs).accounted() {
                lemma_used_blocks_match_sizes(*old(fs));
            }
        }
        let pid = self.fstat_id(fs);
        if Self::find_inode_id(name, &fs.inodes[pid]).is_some() {
            return None;
        }
        let ghost o = *fs;
        let nid = fs.alloc_inode();
        fs.inodes.set(nid as usize, DiskInode::new(DiskInodeType::File));
        let ghost mid = *fs;
        let new_size = fs.inodes[pid].size + DIRENT_SZ;
        grow(fs, pid, new_size);
        let ghost g = *fs;
        let ghost before_push = fs.inodes@[pid as int].entries@;
        fs.inodes[pid].entries.push(DirEntry { name: name.to_owned(), inode_id: nid });
        let h = Self::of_id(fs, nid);
        proof {
            let f = *fs;
            if o.accounted() {
                assert(o.inodes@[nid as int].blocks@.len() == 0);
                assert(o.inodes@[nid as int].blocks@ =~= mid.inodes@[nid as int].blocks@);
                assert forall|i: int| 0 <= i < o.inodes@.len() implies (#[trigger] o.inodes@[i]).blocks@
                    == mid.inodes@[i].blocks@ by {
                    if i != nid {
                        assert(o.inodes@[i] == mid.inodes@[i]);
                    }
                }
                lemma_accounted_same_blocks(o, mid);
                lemma_accounted_same_blocks(g, f);
            }
            lemma_total_blocks_monotonic(o.inodes@[pid as int].size as nat, new_size as nat);
            assert(f.inodes@[pid as int].entries@.take(before_push.len() as int) =~= before_push);
            assert forall|i: int| 0 <= i < f.inodes@.len() implies (#[trigger] f.inodes@[i]).wf() by {
                if i != pid && i != nid {
                    assert(o.inodes@[i].wf());
                }
            }
            assert forall|i: int, k: int|
                0 <= i < f.inodes@.len() && 0 <= k < f.inodes@[i].blocks@.len() implies f.data_area_start_block
                    <= #[trigger] f.inodes@[i].blocks@[k] < f.data_area_start_block + f.data_bitmap@.len() by {
                if i != pid && i != nid {
                    assert(o.inodes@[i] == f.inodes@[i]);
                }
            }
            assert forall|i: int, k: int|
                0 <= i < f.inodes@.len() && 0 <= k < f.inodes@[i].entries@.len() implies f.names_live_file(
                    #[trigger] f.inodes@[i].entries@[k],
                ) by {
                if i == pid && k == f.inodes@[i].entries@.len() - 1 {
                } else if i == pid {
                    assert(f.inodes@[i].entries@[k] == o.inodes@[i].entries@[k]);
                    assert(o.names_live_file(o.inodes@[i].entries@[k]));
                } else if i != nid {
                    assert(o.names_live_file(o.inodes@[i].entries@[k]));
                }
            }
        }
        proof {
            if old(fs).accounted() {
                lemma_used_blocks_match_sizes(*fs);
            }
        }
        Some(h)
    }

    /// Writes `buf` into the file from `offset` on, growing it first if it ends
    /// earlier (new bytes are zero). Returns the bytes written.
    pub fn write_at(&self, fs: &mut EasyFileSystem, offset: usize, buf: &[u8]) -> (r: usize)
        requires
            old(fs).wf(),
            self.valid(old(fs)),
            self.disk(old(fs)).type_ == DiskInodeType::File,
            offset + buf@.len() <= u32::MAX,
            free_count(old(fs).data_bitmap@) >= growth(self.disk(old(fs)).size as nat, (offset + buf@.len()) as nat),
        ensures
            r == buf@.len(),
            final(fs).wf(),
            self.valid(&*final(fs)),
            self.id(&*final(fs)) == self.id(old(fs)),
            self.disk(&*final(fs)).content@ == overwrite(
                grown(self.disk(old(fs)).content@, (offset + buf@.len()) as nat),
                offset as int,
                buf@,
            ),
            ({
                let o = &*old(fs);
                let f = &*final(fs);
                let id = self.id(o);
                let end = (offset + buf@.len()) as nat;
                &&& f.inodes@.len() == o.inodes@.len()
                &&& forall|j: int| 0 <= j < o.inodes@.len() && j != id ==> f.inodes@[j] == o.inodes@[j]
                &&& f.inodes@[id].size == if end <= o.inodes@[id].size { o.inodes@[id].size as nat } else { end }
                &&& f.inodes@[id].ref_cnt == o.inodes@[id].ref_cnt
                &&& f.inodes@[id].type_ == o.inodes@[id].type_
                &&& f.inodes@[id].entries == o.inodes@[id].entries
                &&& f.inodes@[id].blocks@.take(o.inodes@[id].blocks@.len() as int) == o.inodes@[id].blocks@
                &&& f.data_bitmap@.len() == o.data_bitmap@.len()
                &&& f.super_block == o.super_block
                &&& f.inode_area_start_block == o.inode_area_start_block
                &&& f.data_area_start_block == o.data_area_start_block
                &&& f.inodes@[id].blocks@.len() == o.inodes@[id].blocks@.len() + growth(o.inodes@[id].size as nat, end)
                &&& free_count(f.data_bitmap@) == free_count(o.data_bitmap@) - growth(o.inodes@[id].size as nat, end)
                &&& f.inode_bitmap == o.inode_bitmap
                &&& o.accounted() ==> f.accounted()
            }),
        old(fs).accounted() ==> final(fs).used_data() == needed_total(final(fs).inodes@),
    {
        let id = self.fstat_id(fs);
        let ghost o = *fs;
        assert(fs.inodes@[id as int].wf());
        let end = (offset + buf.len()) as u32;
        grow(fs, id, end);
        let ghost g = *fs;
        let n = fs.inodes[id].write_at(offset, buf);
        proof {
            let f = *fs;
            if o.accounted() {
                lemma_accounted_same_blocks(g, f);
            }
            if o.inodes@[id as int].size <= end {
                lemma_total_blocks_monotonic(o.inodes@[id as int].size as nat, end as nat);
            }
            assert forall|i: int| 0 <= i < f.inodes@.len() implies (#[trigger] f.inodes@[i]).wf() by {
                if i != id {
                    assert(o.inodes@[i].wf());
                }
            }
            assert forall|i: int, k: int|
                0 <= i < f.inodes@.len() && 0 <= k < f.inodes@[i].blocks@.len() implies f.data_area_start_block
                    <= #[trigger] f.inodes@[i].blocks@[k] < f.data_area_start_block + f.data_bitmap@.len() by {
                if i != id {
                    assert(o.inodes@[i] == f.inodes@[i]);
                }
            }
            assert forall|i: int, k: int|
                0 <= i < f.inodes@.len() && 0 <= k < f.inodes@[i].entries@.len() implies f.names_live_file(
                    #[trigger] f.inodes@[i].entries@[k],
                ) by {
                assert(f.inodes@[i].entries == o.inodes@[i].entries);
                assert(o.names_live_file(o.inodes@[i].entries@[k]));
            }
        }
        proof {
            if old(fs).accounted() {
                lemma_used_blocks_match_sizes(*fs);
            }
        }
        n
    }

    /// Empties the file and gives every block it held back to the data bitmap.
    /// The link count stays.
    pub fn clear(&self, fs: &mut EasyFileSystem)
        requires
            old(fs).wf(),
            self.valid(old(fs)),
            self.disk(old(fs)).type_ == DiskInodeType::File,
        ensures
            final(fs).wf(),
            self.valid(&*final(fs)),
            self.id(&*final(fs)) == self.id(old(fs)),
            cleared(old(fs), &*final(fs), self.id(old(fs))),
            old(fs).accounted() ==> final(fs).accounted(),
        old(fs).accounted() ==> final(fs).used_data() == needed_total(final(fs).inodes@),
    {
        let id = self.fstat_id(fs);
        release_blocks(fs, id);
        proof {
            if old(fs).accounted() {
                lemma_used_blocks_match_sizes(*fs);
            }
        }
    }

    /// The index of the first entry of directory `dir` called `name`.
    fn find_index(name: &str, dir: &DiskInode) -> (r: Option<usize>)
        ensures
            r is None <==> !has_name(dir.entries@, name@),
            r matches Some(i) ==> first_match(dir.entries@, name@, i as int),
    {
        let target = name.to_owned();
        let mut i: usize = 0;
        while i < dir.entries.len()
            invariant
                i <= dir.entries@.len(),
                target@ == name@,
                forall|j: int| 0 <= j < i ==> (#[trigger] dir.entries@[j]).name@ != name@,
            decreases dir.entries@.len() - i,
        {
            if dir.entries[i].name == target {
                return Some(i);
            }
            i += 1;
        }
        None
    }

    /// Adds the name `new_name` to this directory for the inode that `old_name`
    /// names (its first entry), and counts one more link to it. Returns -1 when
    /// `old_name` is absent, else 0. A `new_name` already present is not checked.
    pub fn link_at(&self, fs: &mut EasyFileSystem, old_name: &str, new_name: &str) -> (r: isize)
        requires
            old(fs).wf(),
            self.valid(old(fs)),
            self.disk(old(fs)).type_ == DiskInodeType::Directory,
            free_count(old(fs).data_bitmap@) >= growth(
                self.disk(old(fs)).size as nat,
                (self.disk(old(fs)).size + 32) as nat,
            ),
            self.disk(old(fs)).size + 32 <= u32::MAX,
            forall|i: int|
                first_match(self.disk(old(fs)).entries@, old_name@, i) ==> old(fs).inodes@[self.disk(
                    old(fs),
                ).entries@[i].inode_id as int].ref_cnt < usize::MAX,
            new_name.len() <= NAME_LENGTH_LIMIT,
        ensures
            !has_name(self.disk(old(fs)).entries@, old_name@) ==> r == -1 && *final(fs) == *old(fs),
            has_name(self.disk(old(fs)).entries@, old_name@) ==> r == 0 && {
                let o = &*old(fs);
                let f = &*final(fs);
                let pid = self.id(o);
                let oe = self.disk(o).entries@;
                let fe = f.inodes@[pid].entries@;
                let t = fe.last().inode_id as int;
                &&& f.wf()
                &&& self.id(f) == pid
                &&& self.valid(f)
                &&& exists|i: int| first_match(oe, old_name@, i) && oe[i].inode_id == t
                &&& appended(oe, fe, new_name@)
                &&& f.inodes@[pid].size == o.inodes@[pid].size + 32
                &&& f.inodes@[t].ref_cnt == o.inodes@[t].ref_cnt + 1
                &&& f.inodes@[pid].type_ == o.inodes@[pid].type_
                &&& f.inodes@[pid].ref_cnt == o.inodes@[pid].ref_cnt
                &&& f.inodes@[pid].content@ == o.inodes@[pid].content@
                &&& f.inodes@[pid].blocks@.len() == o.inodes@[pid].blocks@.len() + growth(
                    o.inodes@[pid].size as nat,
                    (o.inodes@[pid].size + 32) as nat,
                )
                &&& f.inodes@[pid].blocks@.take(o.inodes@[pid].blocks@.len() as int) == o.inodes@[pid].blocks@
                &&& f.data_bitmap@.len() == o.data_bitmap@.len()
                &&& free_count(f.data_bitmap@) == free_count(o.data_bitmap@) - growth(
                    o.inodes@[pid].size as nat,
                    (o.inodes@[pid].size + 32) as nat,
                )
                &&& f.super_block == o.super_block
                &&& f.inode_area_start_block == o.inode_area_start_block
                &&& f.data_area_start_block == o.data_area_start_block
                &&& f.inodes@[t].type_ == o.inodes@[t].type_
                &&& f.inodes@[t].size == o.inodes@[t].size
                &&& f.inodes@[t].content == o.inodes@[t].content
                &&& f.inodes@[t].blocks == o.inodes@[t].blocks
                &&& forall|j: int| 0 <= j < o.inodes@.len() && j != pid && j != t ==> f.inodes@[j] == o.inodes@[j]
                &&& f.inode_bitmap == o.inode_bitmap
                &&& o.accounted() ==> f.accounted()
            },
        old(fs).accounted() ==> final(fs).used_data() == needed_total(final(fs).inodes@),
    {
        proof {
            if old(fs).accounted() {
                lemma_used_blocks_match_sizes(*old(fs));
            }
        }
        let pid = self.fstat_id(fs);
        let t = match Self::find_inode_id(old_name, &fs.inodes[pid]) {
            Some(t) => t,
            None => {
                return -1;
            },
        };
        let ghost o = *fs;
        proof {
            let i = choose|i: int| first_match(o.inodes@[pid as int].entries@, old_name@, i) && o.inodes@[pid as int].entries@[i].inode_id == t;
            assert(o.names_live_file(o.inodes@[pid as int].entries@[i]));
        }
        let new_size = fs.inodes[pid].size + DIRENT_SZ;
        grow(fs, pid, new_size);
        let ghost g = *fs;
        let ghost before_push = fs.inodes@[pid as int].entries@;
        fs.inodes[pid].entries.push(DirEntry { name: new_name.to_owned(), inode_id: t });
        fs.inodes[t as usize].add_ref();
        proof {
            let f = *fs;
            if o.accounted() {
                lemma_accounted_same_blocks(g, f);
            }
            lemma_total_blocks_monotonic(o.inodes@[pid as int].size as nat, new_size as nat);
            assert(f.inodes@[pid as int].entries@.take(before_push.len() as int) =~= before_push);
            assert forall|i: int| 0 <= i < f.inodes@.len() implies (#[trigger] f.inodes@[i]).wf() by {
                assert(o.inodes@[i].wf());
            }
            assert forall|i: int, k: int|
                0 <= i < f.inodes@.len() && 0 <= k < f.inodes@[i].blocks@.len() implies f.data_area_start_block
                    <= #[trigger] f.inodes@[i].blocks@[k] < f.data_area_start_block + f.data_bitmap@.len() by {
                if i != pid {
                    assert(o.inodes@[i].blocks == f.inodes@[i].blocks);
                }
            }
            assert forall|i: int, k: int|
                0 <= i < f.inodes@.len() && 0 <= k < f.inodes@[i].entries@.len() implies f.names_live_file(
                    #[trigger] f.inodes@[i].entries@[k],
                ) by {
                if i == pid && k == f.inodes@[i].entries@.len() - 1 {
                } else {
                    assert(f.inodes@[i].entries@[k] == o.inodes@[i].entries@[k]);
                    assert(o.names_live_file(o.inodes@[i].entries@[k]));
                }
            }
        }
        proof {
            if old(fs).accounted() {
                lemma_used_blocks_match_sizes(*fs);
            }
        }
        0
    }

    /// Removes the first entry called `name` from this directory: the last entry
    /// takes its place and the directory shrinks by one record, giving back the
    /// blocks past those its new size needs.
    /// The inode it named loses a link; at zero links it is emptied and its blocks
    /// are freed. Returns -1 when `name` is absent, else 0.
    pub fn unlink_at(&self, fs: &mut EasyFileSystem, name: &str) -> (r: isize)
        requires
            old(fs).wf(),
            self.valid(old(fs)),
            self.disk(old(fs)).type_ == DiskInodeType::Directory,
        ensures
            !has_name(self.disk(old(fs)).entries@, name@) ==> r == -1 && *final(fs) == *old(fs),
            has_name(self.disk(old(fs)).entries@, name@) ==> r == 0 && exists|i: int|
                first_match(self.disk(old(fs)).entries@, name@, i) && {
                    let o = &*old(fs);
                    let f = &*final(fs);
                    let pid = self.id(o);
                    let oe = self.disk(o).entries@;
                    let t = oe[i].inode_id as int;
                    let ot = o.inodes@[t];
                    let rc = if ot.ref_cnt > 0 { ot.ref_cnt - 1 } else { 0 };
                    let ob = o.inodes@[pid].blocks@;
                    let keep = spec_total_blocks((o.inodes@[pid].size - 32) as nat) as int;
                    &&& f.wf()
                    &&& self.id(f) == pid
                    &&& self.valid(f)
                    &&& f.inodes@[pid].entries@ == oe.update(i, oe.last()).drop_last()
                    &&& f.inodes@[pid].size == o.inodes@[pid].size - 32
                    &&& f.inodes@[pid].blocks@ == ob.take(keep)
                    &&& f.inodes@[pid].type_ == o.inodes@[pid].type_
                    &&& f.inodes@[pid].ref_cnt == o.inodes@[pid].ref_cnt
                    &&& f.inodes@[pid].content@ == o.inodes@[pid].content@
                    &&& f.data_bitmap@.len() == o.data_bitmap@.len()
                    &&& forall|k: int| keep <= k < ob.len() ==> !f.data_bitmap@[#[trigger] ob[k] - o.data_area_start_block]
                    &&& f.inodes@[t].ref_cnt == rc
                    &&& f.inodes@[t].type_ == ot.type_
                    &&& rc > 0 ==> {
                        &&& f.inodes@[t].size == ot.size
                        &&& f.inodes@[t].content == ot.content
                        &&& f.inodes@[t].blocks == ot.blocks
                        &&& forall|j: int|
                            0 <= j < o.data_bitmap@.len() && !ob.skip(keep).contains((j + o.data_area_start_block) as u32)
                                ==> f.data_bitmap@[j] == o.data_bitmap@[j]
                    }
                    &&& rc == 0 ==> {
                        &&& f.inodes@[t].size == 0
                        &&& f.inodes@[t].content@.len() == 0
                        &&& f.inodes@[t].blocks@.len() == 0
                        &&& forall|k: int|
                            0 <= k < ot.blocks@.len() ==> !f.data_bitmap@[#[trigger] ot.blocks@[k] - o.data_area_start_block]
                        &&& forall|j: int|
                            0 <= j < o.data_bitmap@.len() && !ob.skip(keep).contains((j + o.data_area_start_block) as u32)
                                && !ot.blocks@.contains((j + o.data_area_start_block) as u32) ==> f.data_bitmap@[j]
                                == o.data_bitmap@[j]
                    }
                    &&& f.super_block == o.super_block
                    &&& f.inode_area_start_block == o.inode_area_start_block
                    &&& f.data_area_start_block == o.data_area_start_block
                    &&& forall|j: int| 0 <= j < o.inodes@.len() && j != pid && j != t ==> f.inodes@[j] == o.inodes@[j]
                    &&& f.inode_bitmap == o.inode_bitmap
                    &&& o.accounted() ==> f.accounted()
                },
        old(fs).accounted() ==> final(fs).used_data() == needed_total(final(fs).inodes@),
    {
        proof {
            if old(fs).accounted() {
                lemma_used_blocks_match_sizes(*old(fs));
            }
        }
        let pid = self.fstat_id(fs);
        let i = match Self::find_index(name, &fs.inodes[pid]) {
            Some(i) => i,
            None => {
                return -1;
            },
        };
        let ghost o = *fs;
        let ghost oe = o.inodes@[pid as int].entries@;
        let t = fs.inodes[pid].entries[i].inode_id as usize;
        proof {
            assert(o.names_live_file(oe[i as int]));
            assert(o.inodes@[pid as int].wf());
            lemma_total_blocks_monotonic((o.inodes@[pid as int].size - 32) as nat, o.inodes@[pid as int].size as nat);
        }
        let last = fs.inodes[pid].entries.len() - 1;
        if i != last {
            let moved = DirEntry {
                name: fs.inodes[pid].entries[last].name.clone(),
                inode_id: fs.inodes[pid].entries[last].inode_id,
            };
            fs.inodes[pid].entries.set(i, moved);
        }
        fs.inodes[pid].entries.pop();
        fs.inodes[pid].size = fs.inodes[pid].size - DIRENT_SZ;
        assert(fs.inodes@[pid as int].entries@ =~= oe.update(i as int, oe.last()).drop_last());
        let ghost s1 = *fs;
        proof {
            assert forall|q: int| 0 <= q < s1.inodes@.len() implies (#[trigger] s1.inodes@[q]).blocks@
                == o.inodes@[q].blocks@ by {
                if q != pid {
                    assert(s1.inodes@[q] == o.inodes@[q]);
                }
            }
            if o.accounted() {
                lemma_accounted_same_blocks(o, s1);
            }
        }
        let keep = total_blocks(fs.inodes[pid].size) as usize;
        free_tail(fs, pid, keep);
        let ghost s2 = *fs;
        fs.inodes[t].minus_ref();
        proof {
            let f = *fs;
            if o.accounted() {
                lemma_accounted_same_blocks(s2, f);
            }
            assert forall|q: int| 0 <= q < f.inodes@.len() implies (#[trigger] f.inodes@[q]).wf() by {
                assert(o.inodes@[q].wf());
            }
            assert forall|q: int, k: int|
                0 <= q < f.inodes@.len() && 0 <= k < f.inodes@[q].blocks@.len() implies f.data_area_start_block
                    <= #[trigger] f.inodes@[q].blocks@[k] < f.data_area_start_block + f.data_bitmap@.len() by {
                if q == pid {
                    assert(f.inodes@[q].blocks@[k] == o.inodes@[q].blocks@[k]);
                } else {
                    assert(o.inodes@[q].blocks == f.inodes@[q].blocks);
                }
            }
            assert forall|q: int, k: int|
                0 <= q < f.inodes@.len() && 0 <= k < f.inodes@[q].entries@.len() implies f.names_live_file(
                    #[trigger] f.inodes@[q].entries@[k],
                ) by {
                if q == pid {
                    if k == i {
                        assert(f.inodes@[q].entries@[k] == oe.last());
                        assert(o.names_live_file(oe[oe.len() - 1]));
                    } else {
                        assert(f.inodes@[q].entries@[k] == oe[k]);
                        assert(o.names_live_file(oe[k]));
                    }
                } else {
                    assert(f.inodes@[q].entries@[k] == o.inodes@[q].entries@[k]);
                    assert(o.names_live_file(o.inodes@[q].entries@[k]));
                }
            }
        }
        let ghost s3 = *fs;
        if fs.inodes[t].can_remove() {
            release_blocks(fs, t);
            proof {
                let f = *fs;
                let start = o.data_area_start_block;
                let ob = o.inodes@[pid as int].blocks@;
                let ot = o.inodes@[t as int].blocks@;
                assert(s3.inodes@[t as int].blocks@ == ot);
                assert forall|k: int| keep <= k < ob.len() implies !f.data_bitmap@[#[trigger] ob[k] - start] by {
                    if ot.contains(ob[k]) {
                        let q = choose|q: int| 0 <= q < ot.len() && ot[q] == ob[k];
                        assert(!f.data_bitmap@[ot[q] - start]);
                    } else {
                        assert(o.data_area_start_block <= o.inodes@[pid as int].blocks@[k]);
                        assert(((ob[k] - start) + start) as u32 == ob[k]);
                    }
                }
            }
        }
        proof {
            if old(fs).accounted() {
                lemma_used_blocks_match_sizes(*fs);
            }
        }
        0
    }

    /// Reads the file from `offset` into `buf`; returns the bytes read, which stop
    /// at the end of the file or of `buf`.
    pub fn read_at(&self, fs: &EasyFileSystem, offset: usize, buf: &mut [u8]) -> (r: usize)
        requires
            fs.wf(),
            self.valid(fs),
            self.disk(fs).type_ == DiskInodeType::File,
        ensures
            r == read_len(self.disk(fs).size as nat, offset as nat, old(buf)@.len()),
            final(buf)@.len() == old(buf)@.len(),
            forall|k: int| 0 <= k < r ==> final(buf)@[k] == self.disk(fs).content@[offset + k],
            forall|k: int| r <= k < old(buf)@.len() ==> final(buf)@[k] == old(buf)@[k],
    {
        let id = self.fstat_id(fs);
        assert(fs.inodes@[id as int].wf());
        fs.inodes[id].read_at(offset, buf)
    }
}

} // verus!
