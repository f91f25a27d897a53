//! Files and directories, the two item shapes of the tree.
//!
//! A node's `name` is its full slash-separated path; directory names end
//! with a slash.  Directories hold their children as arena indices and their
//! parent as a plain index, so the tree is owned by the arena as a whole.

use vstd::prelude::*;
use crate::codec::{
    ascii_content, ascii_content_exec, compute_header_sum, decode_size, decoded_size,
    encode_fields, encode_header, header_sum, zeros, NOT_PERSISTED, TYPE_DIR, TYPE_FILE,
};
use crate::paths::{copy_range, push_copy, split_all};

verus! {

/// The reserved name of a dead record: such a record is invisible to the
/// mount scan and its space waits for compaction.
pub open spec fn tombstone_seq() -> Seq<u8> {
    seq![100u8, 101u8, 102u8, 114u8, 97u8, 103u8]
}

/// Sectors a payload of `size` bytes fills, rounded up.
pub open spec fn payload_sectors(size: u64) -> nat {
    ((size + 511) / 512) as nat
}

/// The name under which a file is found: the field after the last separator.
pub open spec fn file_short_spec(name: Seq<u8>) -> Seq<u8> {
    split_all(name).last()
}

/// The last nonempty field of a split name, or empty when there is none.
pub open spec fn last_nonempty(parts: Seq<Seq<u8>>) -> Seq<u8>
    decreases parts.len(),
{
    if parts.len() == 0 {
        Seq::empty()
    } else if parts.last().len() > 0 {
        parts.last()
    } else {
        last_nonempty(parts.drop_last())
    }
}

/// The name under which a directory is listed: its last nonempty field,
/// closed by a separator.
pub open spec fn dir_short_spec(name: Seq<u8>) -> Seq<u8> {
    last_nonempty(split_all(name)) + seq![47u8]
}

/// A property of every byte of every field carries to `last_nonempty`.
pub proof fn lemma_last_nonempty_keep(parts: Seq<Seq<u8>>, pred: spec_fn(u8) -> bool)
    requires
        forall|j: int, k: int|
            0 <= j < parts.len() && 0 <= k < parts[j].len() ==> pred(#[trigger] parts[j][k]),
    ensures
        forall|k: int|
            0 <= k < last_nonempty(parts).len() ==> pred(#[trigger] last_nonempty(parts)[k]),
    decreases parts.len(),
{
    if parts.len() == 0 {
    } else if parts.last().len() > 0 {
        assert forall|k: int| 0 <= k < last_nonempty(parts).len() implies pred(
            #[trigger] last_nonempty(parts)[k],
        ) by {
            assert(last_nonempty(parts)[k] == parts[parts.len() - 1][k]);
        }
    } else {
        assert(forall|j: int, k: int|
            0 <= j < parts.drop_last().len() && 0 <= k < parts.drop_last()[j].len() ==> pred(
                #[trigger] parts.drop_last()[j][k],
            ));
        lemma_last_nonempty_keep(parts.drop_last(), pred);
        assert forall|k: int| 0 <= k < last_nonempty(parts).len() implies pred(
            #[trigger] last_nonempty(parts)[k],
        ) by {
            assert(last_nonempty(parts) == last_nonempty(parts.drop_last()));
            assert(pred(last_nonempty(parts.drop_last())[k]));
        }
    }
}

/// A file: item metadata plus a raw byte payload.
pub struct File {
    /// Arena index of the directory that holds the file; meaningful only
    /// while the file is linked into a directory's contents.
    pub parent: usize,
    /// Full path, e.g. `/docs/readme`.
    pub name: Vec<u8>,
    /// Raw payload bytes.
    pub data: Vec<u8>,
    /// Starting sector on the device, or the not-persisted sentinel.
    pub block_id: u64,
    /// Whether the in-memory state still has to be written back.
    pub write: bool,
    /// Payload length in bytes.
    pub size: u64,
    /// Opaque timestamp string of eleven bytes; not interpreted.
    pub time: Vec<u8>,
    /// Header checksum, as last computed or read.
    pub checksum: u64,
    /// The 155-byte name prefix field; carried, not interpreted.
    pub prefix: Vec<u8>,
    /// Whether the item stands in the volume's write-back registry.
    pub registered: bool,
}

/// A directory: item metadata plus owned child lists and a parent index.
pub struct Directory {
    /// Arena indices of the child files.
    pub contents: Vec<usize>,
    /// Arena indices of the child directories.
    pub subdirectories: Vec<usize>,
    /// Arena index of the parent; the root points at itself.
    pub parent: usize,
    /// Full path with a trailing slash, e.g. `/docs/`.
    pub name: Vec<u8>,
    pub block_id: u64,
    pub write: bool,
    /// Always zero for directories.
    pub size: u64,
    pub time: Vec<u8>,
    pub checksum: u64,
    pub prefix: Vec<u8>,
    pub registered: bool,
}

/// Eleven ASCII zero bytes: the timestamp of a freshly made item.
fn fresh_time() -> (r: Vec<u8>)
    ensures
        r@.len() == 11,
        r@ == Seq::new(11, |i: int| 48u8),
{
    let mut r: Vec<u8> = Vec::new();
    let mut i: usize = 0;
    while i < 11
        invariant
            0 <= i <= 11,
            r@ =~= Seq::new(i as nat, |j: int| 48u8),
        decreases 11 - i,
    {
        r.push(48);
        proof {
            assert(r@ =~= Seq::new((i + 1) as nat, |j: int| 48u8));
        }
        i = i + 1;
    }
    r
}

/// 155 NUL bytes: the prefix field of a freshly made item.
fn fresh_prefix() -> (r: Vec<u8>)
    ensures
        r@ == zeros(155),
{
    let mut r: Vec<u8> = Vec::new();
    crate::codec::push_zeros(&mut r, 155);
    proof {
        assert(r@ =~= zeros(155));
    }
    r
}

/// Truncates a name to the 100 bytes the name field can carry.
fn clip_name(name: Vec<u8>) -> (r: Vec<u8>)
    ensures
        r@ == if name@.len() <= 100 {
            name@
        } else {
            name@.subrange(0, 100)
        },
{
    if name.len() <= 100 {
        name
    } else {
        let r = copy_range(&name, 0, 100);
        r
    }
}

impl File {
    /// A fresh file that will live on the device at `block_id`; a name
    /// longer than the name field keeps only its first 100 bytes.
    pub fn new(block_id: u64, name: Vec<u8>) -> (f: File)
        ensures
            f.name@ == if name@.len() <= 100 {
                name@
            } else {
                name@.subrange(0, 100)
            },
            f.data@ == Seq::<u8>::empty(),
            f.block_id == block_id,
            f.write == false,
            f.size == 0,
            f.time@.len() == 11,
            f.prefix@ == zeros(155),
            f.registered == false,
            f.parent == 0usize,
    {
        File {
            parent: 0,
            name: clip_name(name),
            data: Vec::new(),
            block_id,
            write: false,
            size: 0,
            time: fresh_time(),
            checksum: 0,
            prefix: fresh_prefix(),
            registered: false,
        }
    }

    /// Decodes a file from its header sector.
    pub fn from_block(block: &Vec<u8>, block_id: u64) -> (f: File)
        requires
            block@.len() == 512,
        ensures
            f.name@ == ascii_content(block@.subrange(0, 100)),
            f.size == decoded_size(block@),
            f.time@ == block@.subrange(136, 147),
            f.checksum as nat == header_sum(block@),
            f.prefix@ == block@.subrange(345, 500),
            f.data@ == Seq::<u8>::empty(),
            f.block_id == block_id,
            f.write == false,
            f.registered == false,
            f.parent == 0usize,
    {
        let name_field = copy_range(block, 0, 100);
        File {
            parent: 0,
            name: ascii_content_exec(&name_field),
            data: Vec::new(),
            block_id,
            write: false,
            size: decode_size(block),
            time: copy_range(block, 136, 147),
            checksum: compute_header_sum(block),
            prefix: copy_range(block, 345, 500),
            registered: false,
        }
    }

    /// Encodes the header sector and stores the fresh checksum.
    pub fn to_block(&mut self) -> (b: Vec<u8>)
        requires
            old(self).name@.len() <= 100,
            old(self).time@.len() == 11,
            old(self).prefix@.len() == 155,
        ensures
            b@ == encode_header(
                old(self).name@,
                old(self).size,
                old(self).time@,
                old(self).prefix@,
                TYPE_FILE,
            ),
            final(self).checksum as nat == header_sum(b@),
            *final(self) == (File { checksum: final(self).checksum, ..*old(self) }),
    {
        let (b, ck) = encode_fields(&self.name, self.size, &self.time, &self.prefix, TYPE_FILE);
        self.checksum = ck;
        b
    }

    /// A copy of the payload.
    pub fn get_data(&self) -> (r: Vec<u8>)
        ensures
            r@ == self.data@,
    {
        let mut r: Vec<u8> = Vec::new();
        push_copy(&mut r, &self.data);
        proof {
            assert(r@ =~= self.data@);
        }
        r
    }

    /// Replaces the payload; the size field follows the payload length.
    pub fn set_data(&mut self, data: Vec<u8>)
        requires
            data@.len() < 0x1_0000_0000_0000_0000,
        ensures
            *final(self) == (File {
                data,
                size: data@.len() as u64,
                ..*old(self)
            }),
    {
        let n = data.len();
        self.data = data;
        self.size = n as u64;
    }

    /// The field after the last separator of the full name.
    pub fn get_short_name(&self) -> (r: Vec<u8>)
        ensures
            r@ == file_short_spec(self.name@),
    {
        let mut parts = crate::paths::split_all_exec(&self.name);
        proof {
            assert(split_all(self.name@).len() > 0) by {
                crate::paths::lemma_last_sep_bounds(self.name@);
            }
            assert(parts.deep_view().len() == split_all(self.name@).len());
            assert(parts.deep_view()[parts.deep_view().len() - 1] == split_all(
                self.name@,
            ).last());
        }
        let r = parts.pop().unwrap();
        r
    }
}

impl Directory {
    /// A fresh directory that will live on the device at `block_id`.
    pub fn new(block_id: u64, name: Vec<u8>) -> (d: Directory)
        ensures
            d.name@ == if name@.len() <= 100 {
                name@
            } else {
                name@.subrange(0, 100)
            },
            d.block_id == block_id,
            d.write == false,
            d.size == 0,
            d.time@.len() == 11,
            d.prefix@ == zeros(155),
            d.registered == false,
            d.contents@ == Seq::<usize>::empty(),
            d.subdirectories@ == Seq::<usize>::empty(),
            d.parent == 0usize,
    {
        Directory {
            contents: Vec::new(),
            subdirectories: Vec::new(),
            parent: 0,
            name: clip_name(name),
            block_id,
            write: false,
            size: 0,
            time: fresh_time(),
            checksum: 0,
            prefix: fresh_prefix(),
            registered: false,
        }
    }

    /// A directory not backed by the device: the sentinel block id marks
    /// that it has never been written.
    pub fn new_directory(name: Vec<u8>) -> (d: Directory)
        ensures
            d.name@ == if name@.len() <= 100 {
                name@
            } else {
                name@.subrange(0, 100)
            },
            d.block_id == NOT_PERSISTED,
            d.write == false,
            d.size == 0,
            d.time@.len() == 11,
            d.prefix@ == zeros(155),
            d.registered == false,
            d.contents@ == Seq::<usize>::empty(),
            d.subdirectories@ == Seq::<usize>::empty(),
            d.parent == 0usize,
    {
        Directory::new(NOT_PERSISTED, name)
    }

    /// Decodes a directory from its header sector.  The tree-shaping
    /// fields start empty; the caller links the node in.  The size of a
    /// directory is pinned to zero, whatever the record carried.
    pub fn from_block(block: &Vec<u8>, block_id: u64) -> (d: Directory)
        requires
            block@.len() == 512,
        ensures
            d.name@ == ascii_content(block@.subrange(0, 100)),
            d.size == 0,
            d.time@ == block@.subrange(136, 147),
            d.checksum as nat == header_sum(block@),
            d.prefix@ == block@.subrange(345, 500),
            d.block_id == block_id,
            d.write == false,
            d.registered == false,
            d.contents@ == Seq::<usize>::empty(),
            d.subdirectories@ == Seq::<usize>::empty(),
            d.parent == 0usize,
    {
        let name_field = copy_range(block, 0, 100);
        Directory {
            contents: Vec::new(),
            subdirectories: Vec::new(),
            parent: 0,
            name: ascii_content_exec(&name_field),
            block_id,
            write: false,
            size: 0,
            time: copy_range(block, 136, 147),
            checksum: compute_header_sum(block),
            prefix: copy_range(block, 345, 500),
            registered: false,
        }
    }

    /// Refreshes the device-borne metadata of a placeholder from a record,
    /// keeping the node's name and its place in the tree.
    pub fn reinit_from_block(&mut self, block: &Vec<u8>, block_id: u64)
        requires
            block@.len() == 512,
        ensures
            *final(self) == (Directory {
                time: final(self).time,
                checksum: final(self).checksum,
                prefix: final(self).prefix,
                block_id,
                write: false,
                ..*old(self)
            }),
            final(self).time@ == block@.subrange(136, 147),
            final(self).prefix@ == block@.subrange(345, 500),
            final(self).checksum as nat == header_sum(block@),
    {
        self.time = copy_range(block, 136, 147);
        self.prefix = copy_range(block, 345, 500);
        self.checksum = compute_header_sum(block);
        self.block_id = block_id;
        self.write = false;
    }

    /// Encodes the header sector and stores the fresh checksum.
    pub fn to_block(&mut self) -> (b: Vec<u8>)
        requires
            old(self).name@.len() <= 100,
            old(self).time@.len() == 11,
            old(self).prefix@.len() == 155,
        ensures
            b@ == encode_header(
                old(self).name@,
                old(self).size,
                old(self).time@,
                old(self).prefix@,
                TYPE_DIR,
            ),
            final(self).checksum as nat == header_sum(b@),
            *final(self) == (Directory { checksum: final(self).checksum, ..*old(self) }),
    {
        let (b, ck) = encode_fields(&self.name, self.size, &self.time, &self.prefix, TYPE_DIR);
        self.checksum = ck;
        b
    }

    /// The last nonempty field of the full name, closed by a separator.
    pub fn get_short_name(&self) -> (r: Vec<u8>)
        ensures
            r@ == dir_short_spec(self.name@),
    {
        let parts = crate::paths::split_all_exec(&self.name);
        let ghost full = parts.deep_view();
        let mut j: usize = parts.len();
        proof {
            assert(full.subrange(0, j as int) =~~= full);
        }
        while j > 0
            invariant
                0 <= j <= full.len(),
                full == parts.deep_view(),
                full == split_all(self.name@),
                full.len() == parts@.len(),
                last_nonempty(full) == last_nonempty(full.subrange(0, j as int)),
            decreases j,
        {
            let pj = &parts[j - 1];
            proof {
                assert(full.subrange(0, j as int).last() =~= full[j - 1]);
                assert(full[j - 1] =~= pj@);
            }
            if pj.len() > 0 {
                let mut r = copy_range(pj, 0, pj.len());
                r.push(47);
                proof {
                    assert(pj@.subrange(0, pj@.len() as int) =~= pj@);
                    assert(r@ =~= dir_short_spec(self.name@));
                }
                return r;
            }
            proof {
                assert(full.subrange(0, j as int).drop_last() =~~= full.subrange(0, j - 1));
            }
            j = j - 1;
        }
        proof {
            assert(full.subrange(0, 0) =~~= Seq::<Seq<u8>>::empty());
        }
        let mut r: Vec<u8> = Vec::new();
        r.push(47);
        proof {
            assert(r@ =~= dir_short_spec(self.name@));
        }
        r
    }
}

/// An item of the tree: the closed set of node shapes.
pub enum Item {
    File(File),
    Directory(Directory),
}

impl Item {
    pub open spec fn is_dir(self) -> bool {
        self is Directory
    }

    pub open spec fn name_of(self) -> Seq<u8> {
        match self {
            Item::File(f) => f.name@,
            Item::Directory(d) => d.name@,
        }
    }

    pub open spec fn blkid_of(self) -> u64 {
        match self {
            Item::File(f) => f.block_id,
            Item::Directory(d) => d.block_id,
        }
    }

    pub open spec fn dirty_of(self) -> bool {
        match self {
            Item::File(f) => f.write,
            Item::Directory(d) => d.write,
        }
    }

    pub open spec fn size_of(self) -> u64 {
        match self {
            Item::File(f) => f.size,
            Item::Directory(d) => d.size,
        }
    }

    pub open spec fn time_of(self) -> Seq<u8> {
        match self {
            Item::File(f) => f.time@,
            Item::Directory(d) => d.time@,
        }
    }

    pub open spec fn prefix_of(self) -> Seq<u8> {
        match self {
            Item::File(f) => f.prefix@,
            Item::Directory(d) => d.prefix@,
        }
    }

    pub open spec fn data_of(self) -> Seq<u8> {
        match self {
            Item::File(f) => f.data@,
            Item::Directory(d) => Seq::empty(),
        }
    }

    pub open spec fn registered_of(self) -> bool {
        match self {
            Item::File(f) => f.registered,
            Item::Directory(d) => d.registered,
        }
    }

    /// A live item carries its own name; a dead one carries the reserved
    /// tombstone name.
    pub open spec fn live(self) -> bool {
        self.name_of() != tombstone_seq()
    }

    /// Sectors the item fills on the device: one header sector, plus the
    /// payload sectors of a file.
    pub open spec fn footprint_of(self) -> nat {
        match self {
            Item::File(f) => 1 + payload_sectors(f.size),
            Item::Directory(d) => 1 + payload_sectors(d.size),
        }
    }

    /// The exact bytes the item puts on the device: its header, and for a
    /// file its payload, zero padded to whole sectors.
    pub open spec fn image_of(self) -> Seq<u8> {
        match self {
            Item::File(f) => encode_header(f.name@, f.size, f.time@, f.prefix@, TYPE_FILE)
                + f.data@ + zeros((payload_sectors(f.size) * 512 - f.data@.len()) as nat),
            Item::Directory(d) => encode_header(d.name@, d.size, d.time@, d.prefix@, TYPE_DIR),
        }
    }
}

} // verus!
