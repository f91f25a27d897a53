//! The volume: a mutable directory tree over a block device.
//!
//! The tree is an arena of items addressed by stable indices; index 0 is the
//! root directory.  Child links are index lists inside directories, the
//! parent link is a plain index, and every index points at an item made
//! before it, so walks toward the root step strictly down and walks into
//! children step strictly up.
//!
//! Beside the tree stand: the flat registry of every item that write-back
//! visits, in insertion order; the session table mapping an opaque id to a
//! current-directory cursor; and the frontier, the first sector that no
//! persisted item occupies, which is the sole allocation cursor.

use vstd::prelude::*;
use crate::FsError;
use crate::codec::{decoded_size, keep_byte, magic_seq, NOT_PERSISTED, SIZE_LIMIT};
use crate::octal::pow8;
use crate::device::BlockDevice;
use crate::node::{file_short_spec, payload_sectors, tombstone_seq, Directory, File, Item};
use crate::paths::{
    bytes_eq, copy_range, is_absolute, is_absolute_spec, last_comp, last_comp_exec, split_path,
    split_path_spec,
};
use crate::sessions::{
    session_map, session_table_get, session_table_insert, session_table_new, SessionTable,
};
use crate::text::chars_of_bytes;
use crate::node::dir_short_spec;
use vstd::string::{StrSliceExecFns, StringSliceAdditionalSpecFns};

verus! {

// ---------------------------------------------------------------------------
// Spec views of the arena
// ---------------------------------------------------------------------------

/// The child-directory index list of node `i`, or empty when `i` is out of
/// range or a file.
pub open spec fn subdirs_of(nodes: Seq<Item>, i: int) -> Seq<usize> {
    if 0 <= i < nodes.len() {
        match nodes[i] {
            Item::Directory(d) => d.subdirectories@,
            Item::File(_) => Seq::empty(),
        }
    } else {
        Seq::empty()
    }
}

/// The child-file index list of node `i`.
pub open spec fn conts_of(nodes: Seq<Item>, i: int) -> Seq<usize> {
    if 0 <= i < nodes.len() {
        match nodes[i] {
            Item::Directory(d) => d.contents@,
            Item::File(_) => Seq::empty(),
        }
    } else {
        Seq::empty()
    }
}

/// The parent index of node `i`; files carry no parent link, and the root
/// points at itself.
pub open spec fn parent_of_idx(nodes: Seq<Item>, i: int) -> int {
    if 0 <= i < nodes.len() {
        match nodes[i] {
            Item::Directory(d) => d.parent as int,
            Item::File(f) => f.parent as int,
        }
    } else {
        0
    }
}

// ---------------------------------------------------------------------------
// Name structure
// ---------------------------------------------------------------------------

/// A file child's name is its directory's name followed by a nonempty,
/// separator-free field.
pub open spec fn file_child_name_ok(p: Seq<u8>, c: Seq<u8>) -> bool {
    &&& p.len() < c.len()
    &&& c.subrange(0, p.len() as int) == p
    &&& forall|k: int| p.len() <= k < c.len() ==> c[k] != 47
}

/// A directory child's name is its parent's name, a separator-free field,
/// and a closing separator.
pub open spec fn dir_child_name_ok(p: Seq<u8>, c: Seq<u8>) -> bool {
    &&& p.len() < c.len()
    &&& c.subrange(0, p.len() as int) == p
    &&& c.last() == 47
    &&& forall|k: int| p.len() <= k < c.len() - 1 ==> c[k] != 47
}

// ---------------------------------------------------------------------------
// Well-formedness
// ---------------------------------------------------------------------------

/// Field shapes every node keeps, so that any of them can be encoded.
pub open spec fn wf_node_basic(nodes: Seq<Item>, i: int) -> bool {
    let it = nodes[i];
    &&& 0 < it.name_of().len() <= 100
    &&& (forall|k: int| 0 <= k < it.name_of().len() ==> keep_byte(#[trigger] it.name_of()[k]))
    &&& it.time_of().len() == 11
    &&& it.prefix_of().len() == 155
    &&& it.size_of() < SIZE_LIMIT
    &&& (it is File ==> it.size_of() == it.data_of().len())
    &&& (it is Directory ==> it.size_of() == 0)
    &&& (it is Directory && it.live() ==> it.name_of().last() == 47)
}

/// A proper child-file slot.
pub open spec fn child_file_ok(nodes: Seq<Item>, i: int, c: int) -> bool {
    &&& i < c < nodes.len()
    &&& nodes[c] is File
    &&& nodes[c].live()
    &&& parent_of_idx(nodes, c) == i
    &&& file_child_name_ok(nodes[i].name_of(), nodes[c].name_of())
}

/// A proper child-directory slot.
pub open spec fn child_dir_ok(nodes: Seq<Item>, i: int, c: int) -> bool {
    &&& i < c < nodes.len()
    &&& nodes[c] is Directory
    &&& nodes[c].live()
    &&& parent_of_idx(nodes, c) == i
    &&& dir_child_name_ok(nodes[i].name_of(), nodes[c].name_of())
}

/// The child lists of a directory: every slot proper, and no two live
/// children answering to the same name.
pub open spec fn wf_dir_children(nodes: Seq<Item>, i: int) -> bool {
    nodes[i] is Directory ==> {
        let fs = conts_of(nodes, i);
        let ds = subdirs_of(nodes, i);
        &&& (forall|j: int| 0 <= j < fs.len() ==> child_file_ok(nodes, i, #[trigger] fs[j] as int))
        &&& (forall|j: int| 0 <= j < ds.len() ==> child_dir_ok(nodes, i, #[trigger] ds[j] as int))
        &&& (forall|j: int, k: int|
            0 <= j < k < fs.len() ==> file_short_spec(nodes[#[trigger] fs[j] as int].name_of())
                != file_short_spec(nodes[#[trigger] fs[k] as int].name_of()))
        &&& (forall|j: int, k: int|
            0 <= j < k < ds.len() ==> last_comp(nodes[#[trigger] ds[j] as int].name_of())
                != last_comp(nodes[#[trigger] ds[k] as int].name_of()))
    }
}

/// The arena invariant: a rooted tree whose child indices grow and whose
/// names compose along the edges.
pub open spec fn wf_arena(nodes: Seq<Item>) -> bool {
    &&& 1 <= nodes.len()
    &&& nodes[0] is Directory
    &&& nodes[0].name_of() == seq![47u8]
    &&& parent_of_idx(nodes, 0) == 0
    &&& nodes[0].live()
    &&& (forall|i: int| 0 <= i < nodes.len() ==> #[trigger] wf_node_basic(nodes, i))
    &&& (forall|i: int|
        1 <= i < nodes.len() && nodes[i] is Directory ==> 0 <= #[trigger] parent_of_idx(nodes, i)
            < i && nodes[parent_of_idx(nodes, i)] is Directory)
    &&& (forall|i: int| 0 <= i < nodes.len() ==> #[trigger] wf_dir_children(nodes, i))
}

/// The registry: distinct indices of registered, non-root items.
pub open spec fn wf_registry(nodes: Seq<Item>, reg: Seq<usize>) -> bool {
    &&& (forall|j: int|
        0 <= j < reg.len() ==> 1 <= #[trigger] reg[j] < nodes.len() && nodes[reg[j] as int].registered_of())
    &&& (forall|j: int, k: int| 0 <= j < k < reg.len() ==> reg[j] != reg[k])
}

/// Every session cursor points at a directory of the arena.
pub open spec fn wf_sessions(nodes: Seq<Item>, sm: Map<u64, u64>) -> bool {
    forall|k: u64|
        sm.dom().contains(k) ==> 0 <= #[trigger] sm[k] < nodes.len() && nodes[sm[k] as int]
            is Directory
}

/// The frontier lies at or past the end of every live persisted item.
pub open spec fn wf_frontier(nodes: Seq<Item>, reg: Seq<usize>, frontier: u64) -> bool {
    forall|j: int|
        0 <= j < reg.len() ==> {
            let it = nodes[#[trigger] reg[j] as int];
            it.live() && it.blkid_of() != NOT_PERSISTED ==> it.blkid_of() + it.footprint_of()
                <= frontier
        }
}

// ---------------------------------------------------------------------------
// Resolution, in spec
// ---------------------------------------------------------------------------

pub open spec fn dot_seq() -> Seq<u8> {
    seq![46u8]
}

pub open spec fn dotdot_seq() -> Seq<u8> {
    seq![46u8, 46u8]
}

/// The first child directory whose last path component is `comp`.
pub open spec fn find_subdir(nodes: Seq<Item>, list: Seq<usize>, comp: Seq<u8>) -> Option<int>
    decreases list.len(),
{
    if list.len() == 0 {
        None
    } else {
        let c = list[0] as int;
        if 0 <= c < nodes.len() && last_comp(nodes[c].name_of()) == comp {
            Some(c)
        } else {
            find_subdir(nodes, list.drop_first(), comp)
        }
    }
}

/// The first child file whose short name is `leaf`.
pub open spec fn find_file_in(nodes: Seq<Item>, list: Seq<usize>, leaf: Seq<u8>) -> Option<int>
    decreases list.len(),
{
    if list.len() == 0 {
        None
    } else {
        let c = list[0] as int;
        if 0 <= c < nodes.len() && file_short_spec(nodes[c].name_of()) == leaf {
            Some(c)
        } else {
            find_file_in(nodes, list.drop_first(), leaf)
        }
    }
}

/// The directory walk.  An absolute walk knows only child lookups; a
/// relative walk also steps on `.` and `..`, where `..` from the root stays
/// at the root.
pub open spec fn walk(nodes: Seq<Item>, cur: int, comps: Seq<Seq<u8>>, relative: bool) -> Option<
    int,
>
    decreases comps.len(),
{
    if comps.len() == 0 {
        Some(cur)
    } else if relative && comps[0] == dotdot_seq() {
        walk(nodes, parent_of_idx(nodes, cur), comps.drop_first(), relative)
    } else if relative && comps[0] == dot_seq() {
        walk(nodes, cur, comps.drop_first(), relative)
    } else {
        match find_subdir(nodes, subdirs_of(nodes, cur), comps[0]) {
            Some(d) => walk(nodes, d, comps.drop_first(), relative),
            None => None,
        }
    }
}

/// Where a session starts: its cursor, or the root for an unknown id.
pub open spec fn session_start(sm: Map<u64, u64>, id: u64) -> int {
    if sm.dom().contains(id) {
        sm[id] as int
    } else {
        0
    }
}

/// Absolute directory resolution: a walk from the root.
pub open spec fn resolve_dir_abs(nodes: Seq<Item>, path: Seq<u8>) -> Option<int> {
    walk(nodes, 0, split_path_spec(path), false)
}

/// Relative directory resolution: a walk from the session's cursor.
pub open spec fn resolve_dir_rel(nodes: Seq<Item>, sm: Map<u64, u64>, path: Seq<u8>, id: u64) -> Option<int> {
    walk(nodes, session_start(sm, id), split_path_spec(path), true)
}

/// The path of the directory that holds the leaf of `p`: the components
/// but the last, each closed by a separator, with a leading separator kept
/// for an absolute path.
pub open spec fn join_dir(parts: Seq<Seq<u8>>) -> Seq<u8>
    decreases parts.len(),
{
    if parts.len() == 0 {
        Seq::empty()
    } else {
        join_dir(parts.drop_last()) + parts.last() + seq![47u8]
    }
}

pub open spec fn parent_path_spec(p: Seq<u8>) -> Seq<u8> {
    let parts = split_path_spec(p);
    let stem = if parts.len() > 0 {
        join_dir(parts.drop_last())
    } else {
        join_dir(parts)
    };
    if is_absolute_spec(p) {
        seq![47u8] + stem
    } else {
        stem
    }
}

/// Where a file operation starts its walk: the root for an absolute
/// parent path, else the session's cursor, with the root standing in for
/// a missing session.
pub open spec fn start_for(sm: Map<u64, u64>, path: Seq<u8>, id: Option<u64>) -> int {
    let parent = parent_path_spec(path);
    if is_absolute_spec(parent) && parent.len() > 0 {
        0
    } else {
        match id {
            Some(i) => session_start(sm, i),
            None => 0,
        }
    }
}

/// File resolution from a start directory: resolve the parent path, then
/// look the leaf up among that directory's files.
pub open spec fn resolve_file_spec(nodes: Seq<Item>, start: int, path: Seq<u8>) -> Option<int> {
    let parent = parent_path_spec(path);
    let leaf = last_comp(path);
    let d = if is_absolute_spec(parent) && parent.len() > 0 {
        walk(nodes, 0, split_path_spec(parent), false)
    } else {
        walk(nodes, start, split_path_spec(parent), true)
    };
    match d {
        Some(dir) => find_file_in(nodes, conts_of(nodes, dir), leaf),
        None => None,
    }
}

// ---------------------------------------------------------------------------
// The volume
// ---------------------------------------------------------------------------

/// The aggregate root: device, tree arena, registry, sessions, frontier.
pub struct Volume {
    /// The block device the volume lives on.
    pub device: BlockDevice,
    /// The arena; index 0 is the root directory.
    pub nodes: Vec<Item>,
    /// Indices of the items that write-back visits, in insertion order.
    pub registry: Vec<usize>,
    /// Session id to current-directory cursor.
    pub sessions: SessionTable,
    /// The last session id handed out.
    pub session_counter: u64,
    /// The first sector not occupied by any persisted item.
    pub frontier: u64,
}

impl Volume {
    pub open spec fn wf(self) -> bool {
        &&& wf_arena(self.nodes@)
        &&& wf_registry(self.nodes@, self.registry@)
        &&& wf_sessions(self.nodes@, session_map(self.sessions))
        &&& wf_frontier(self.nodes@, self.registry@, self.frontier)
    }

    /// A volume with only a root directory over the given device.
    pub fn empty(device: BlockDevice) -> (v: Volume)
        ensures
            v.wf(),
            v.nodes@.len() == 1,
            v.nodes@[0] is Directory,
            !v.nodes@[0].dirty_of(),
            v.nodes@[0].name_of() == seq![47u8],
            v.registry@ == Seq::<usize>::empty(),
            session_map(v.sessions) == crate::sessions::no_sessions(),
            v.session_counter == 1,
            v.frontier == 0,
            v.device == device,
    {
        let mut root_name: Vec<u8> = Vec::new();
        root_name.push(47);
        let root = Directory::new_directory(root_name);
        let mut nodes: Vec<Item> = Vec::new();
        nodes.push(Item::Directory(root));
        let v = Volume {
            device,
            nodes,
            registry: Vec::new(),
            sessions: session_table_new(),
            session_counter: 1,
            frontier: 0,
        };
        proof {
            assert(v.nodes@[0].name_of() =~= seq![47u8]);
            assert(v.nodes@[0].live()) by {
                assert(v.nodes@[0].name_of().len() != tombstone_seq().len());
            }
            assert(wf_node_basic(v.nodes@, 0)) by {
                assert(v.nodes@[0].name_of()[0] == 47);
            }
            assert(wf_dir_children(v.nodes@, 0));
            assert(v.wf());
        }
        v
    }

    /// Hands out a fresh session id whose cursor is the root.  Ids are
    /// counted up; at the far end of the counter the last id is reused.
    pub fn get_id(&mut self) -> (r: u64)
        requires
            old(self).wf(),
        ensures
            final(self).wf(),
            final(self).session_counter == if old(self).session_counter < u64::MAX {
                (old(self).session_counter + 1) as u64
            } else {
                u64::MAX
            },
            r == final(self).session_counter,
            session_map(final(self).sessions) == session_map(old(self).sessions).insert(r, 0),
            final(self).nodes == old(self).nodes,
            final(self).registry == old(self).registry,
            final(self).frontier == old(self).frontier,
            final(self).device == old(self).device,
    {
        if self.session_counter < u64::MAX {
            self.session_counter = self.session_counter + 1;
        }
        let id = self.session_counter;
        session_table_insert(&mut self.sessions, id, 0);
        id
    }

    /// The session's current directory, or the root for an unknown id.
    fn cursor_or_root(&self, id: u64) -> (r: usize)
        requires
            self.wf(),
        ensures
            r as int == session_start(session_map(self.sessions), id),
            r < self.nodes@.len(),
            self.nodes@[r as int] is Directory,
    {
        match session_table_get(&self.sessions, id) {
            Some(c) => {
                let nodes_len = self.nodes.len();
                proof {
                    assert(session_map(self.sessions).dom().contains(id));
                    assert(0 <= session_map(self.sessions)[id] < self.nodes@.len());
                    assert(self.nodes@[session_map(self.sessions)[id] as int] is Directory);
                    assert(c < nodes_len as u64);
                }
                c as usize
            },
            None => 0,
        }
    }

    /// The first child directory of `dir` whose last component is `comp`.
    fn find_subdir_exec(&self, dir: usize, comp: &Vec<u8>) -> (r: Option<usize>)
        requires
            wf_arena(self.nodes@),
            dir < self.nodes@.len(),
            self.nodes@[dir as int] is Directory,
        ensures
            match r {
                Some(c) => {
                    &&& find_subdir(self.nodes@, subdirs_of(self.nodes@, dir as int), comp@)
                        == Some(c as int)
                    &&& dir < c < self.nodes@.len()
                    &&& self.nodes@[c as int] is Directory
                },
                None => find_subdir(self.nodes@, subdirs_of(self.nodes@, dir as int), comp@)
                    is None,
            },
    {
        let list = self.subdir_list(dir);
        let ghost full = list@;
        let m = list.len();
        let mut j: usize = 0;
        proof {
            assert(full.subrange(0, m as int) =~= full);
        }
        while j < m
            invariant
                wf_arena(self.nodes@),
                dir < self.nodes@.len(),
                self.nodes@[dir as int] is Directory,
                full == subdirs_of(self.nodes@, dir as int),
                list@ == full,
                m == full.len(),
                0 <= j <= m,
                find_subdir(self.nodes@, full, comp@) == find_subdir(
                    self.nodes@,
                    full.subrange(j as int, m as int),
                    comp@,
                ),
            decreases m - j,
        {
            let c = list[j];
            proof {
                assert(wf_dir_children(self.nodes@, dir as int));
                assert(child_dir_ok(self.nodes@, dir as int, full[j as int] as int));
            }
            let child_last: Vec<u8>;
            match &self.nodes[c] {
                Item::Directory(cd) => {
                    child_last = last_comp_exec(&cd.name);
                },
                Item::File(_) => {
                    proof {
                        assert(false);
                    }
                    child_last = Vec::new();
                },
            }
            let ghost tail = full.subrange(j as int, m as int);
            proof {
                assert(tail.len() > 0);
                assert(tail[0] == full[j as int]);
                assert(tail.drop_first() =~= full.subrange(j + 1, m as int));
            }
            if bytes_eq(&child_last, comp) {
                return Some(c);
            }
            proof {
                assert(find_subdir(self.nodes@, tail, comp@) == find_subdir(
                    self.nodes@,
                    tail.drop_first(),
                    comp@,
                ));
            }
            j = j + 1;
        }
        proof {
            assert(full.subrange(m as int, m as int) =~= Seq::<usize>::empty());
        }
        None
    }

    /// The first child file of `dir` whose short name is `leaf`.
    fn find_file_exec(&self, dir: usize, leaf: &Vec<u8>) -> (r: Option<usize>)
        requires
            wf_arena(self.nodes@),
            dir < self.nodes@.len(),
            self.nodes@[dir as int] is Directory,
        ensures
            match r {
                Some(c) => {
                    &&& find_file_in(self.nodes@, conts_of(self.nodes@, dir as int), leaf@)
                        == Some(c as int)
                    &&& dir < c < self.nodes@.len()
                    &&& self.nodes@[c as int] is File
                },
                None => find_file_in(self.nodes@, conts_of(self.nodes@, dir as int), leaf@)
                    is None,
            },
    {
        let list = self.conts_list(dir);
        let ghost full = list@;
        let m = list.len();
        let mut j: usize = 0;
        proof {
            assert(full.subrange(0, m as int) =~= full);
        }
        while j < m
            invariant
                wf_arena(self.nodes@),
                dir < self.nodes@.len(),
                self.nodes@[dir as int] is Directory,
                full == conts_of(self.nodes@, dir as int),
                list@ == full,
                m == full.len(),
                0 <= j <= m,
                find_file_in(self.nodes@, full, leaf@) == find_file_in(
                    self.nodes@,
                    full.subrange(j as int, m as int),
                    leaf@,
                ),
            decreases m - j,
        {
            let c = list[j];
            proof {
                assert(wf_dir_children(self.nodes@, dir as int));
                assert(child_file_ok(self.nodes@, dir as int, full[j as int] as int));
            }
            let short: Vec<u8>;
            match &self.nodes[c] {
                Item::File(cf) => {
                    short = cf.get_short_name();
                },
                Item::Directory(_) => {
                    proof {
                        assert(false);
                    }
                    short = Vec::new();
                },
            }
            let ghost tail = full.subrange(j as int, m as int);
            proof {
                assert(tail.len() > 0);
                assert(tail[0] == full[j as int]);
                assert(tail.drop_first() =~= full.subrange(j + 1, m as int));
            }
            if bytes_eq(&short, leaf) {
                return Some(c);
            }
            proof {
                assert(find_file_in(self.nodes@, tail, leaf@) == find_file_in(
                    self.nodes@,
                    tail.drop_first(),
                    leaf@,
                ));
            }
            j = j + 1;
        }
        proof {
            assert(full.subrange(m as int, m as int) =~= Seq::<usize>::empty());
        }
        None
    }

    /// A copy of the child-directory index list of `dir`.
    fn subdir_list(&self, dir: usize) -> (r: Vec<usize>)
        requires
            dir < self.nodes@.len(),
            self.nodes@[dir as int] is Directory,
        ensures
            r@ == subdirs_of(self.nodes@, dir as int),
    {
        let mut r: Vec<usize> = Vec::new();
        match &self.nodes[dir] {
            Item::Directory(d) => {
                let m = d.subdirectories.len();
                let mut j: usize = 0;
                while j < m
                    invariant
                        0 <= j <= m,
                        m == d.subdirectories@.len(),
                        r@ == d.subdirectories@.subrange(0, j as int),
                    decreases m - j,
                {
                    r.push(d.subdirectories[j]);
                    proof {
                        assert(d.subdirectories@.subrange(0, j + 1) =~= d.subdirectories@.subrange(
                            0,
                            j as int,
                        ).push(d.subdirectories@[j as int]));
                    }
                    j = j + 1;
                }
                proof {
                    assert(d.subdirectories@.subrange(0, m as int) =~= d.subdirectories@);
                }
            },
            Item::File(_) => {
                proof {
                    assert(false);
                }
            },
        }
        r
    }

    /// A copy of the child-file index list of `dir`.
    fn conts_list(&self, dir: usize) -> (r: Vec<usize>)
        requires
            dir < self.nodes@.len(),
            self.nodes@[dir as int] is Directory,
        ensures
            r@ == conts_of(self.nodes@, dir as int),
    {
        let mut r: Vec<usize> = Vec::new();
        match &self.nodes[dir] {
            Item::Directory(d) => {
                let m = d.contents.len();
                let mut j: usize = 0;
                while j < m
                    invariant
                        0 <= j <= m,
                        m == d.contents@.len(),
                        r@ == d.contents@.subrange(0, j as int),
                    decreases m - j,
                {
                    r.push(d.contents[j]);
                    proof {
                        assert(d.contents@.subrange(0, j + 1) =~= d.contents@.subrange(
                            0,
                            j as int,
                        ).push(d.contents@[j as int]));
                    }
                    j = j + 1;
                }
                proof {
                    assert(d.contents@.subrange(0, m as int) =~= d.contents@);
                }
            },
            Item::File(_) => {
                proof {
                    assert(false);
                }
            },
        }
        r
    }

    /// The directory walk over a component list.
    fn walk_exec(&self, start: usize, parts: &Vec<Vec<u8>>, relative: bool) -> (r: Option<usize>)
        requires
            wf_arena(self.nodes@),
            start < self.nodes@.len(),
            self.nodes@[start as int] is Directory,
        ensures
            match r {
                Some(d) => {
                    &&& walk(self.nodes@, start as int, parts.deep_view(), relative) == Some(
                        d as int,
                    )
                    &&& d < self.nodes@.len()
                    &&& self.nodes@[d as int] is Directory
                },
                None => walk(self.nodes@, start as int, parts.deep_view(), relative) is None,
            },
    {
        let ghost full = parts.deep_view();
        let n = parts.len();
        let mut cur = start;
        let mut i: usize = 0;
        proof {
            assert(full.subrange(0, n as int) =~= full);
        }
        while i < n
            invariant
                wf_arena(self.nodes@),
                cur < self.nodes@.len(),
                self.nodes@[cur as int] is Directory,
                full == parts.deep_view(),
                n == full.len(),
                0 <= i <= n,
                walk(self.nodes@, start as int, full, relative) == walk(
                    self.nodes@,
                    cur as int,
                    full.subrange(i as int, n as int),
                    relative,
                ),
            decreases n - i,
        {
            let comp = &parts[i];
            let ghost tail = full.subrange(i as int, n as int);
            proof {
                assert(tail.len() > 0);
                assert(tail[0] == full[i as int]);
                assert(full[i as int] =~= comp@);
                assert(tail.drop_first() =~= full.subrange(i + 1, n as int));
            }
            if relative && comp.len() == 2 && comp[0] == 46 && comp[1] == 46 {
                proof {
                    assert(comp@ =~= dotdot_seq());
                    assert(tail[0] == dotdot_seq());
                }
                let next: usize;
                match &self.nodes[cur] {
                    Item::Directory(d) => {
                        next = d.parent;
                    },
                    Item::File(_) => {
                        proof {
                            assert(false);
                        }
                        next = 0;
                    },
                }
                proof {
                    if cur != 0 {
                        assert(0 <= parent_of_idx(self.nodes@, cur as int) < cur);
                    }
                }
                cur = next;
            } else if relative && comp.len() == 1 && comp[0] == 46 {
                proof {
                    assert(comp@ =~= dot_seq());
                    assert(tail[0] == dot_seq());
                    assert(tail[0] != dotdot_seq());
                }
            } else {
                proof {
                    assert(tail[0] != dotdot_seq() || !relative) by {
                        if relative && comp@ == dotdot_seq() {
                            assert(comp@.len() == 2 && comp@[0] == 46 && comp@[1] == 46);
                        }
                    }
                    assert(tail[0] != dot_seq() || !relative) by {
                        if relative && comp@ == dot_seq() {
                            assert(comp@.len() == 1 && comp@[0] == 46);
                        }
                    }
                }
                match self.find_subdir_exec(cur, comp) {
                    Some(d) => {
                        cur = d;
                    },
                    None => {
                        return None;
                    },
                }
            }
            i = i + 1;
        }
        proof {
            assert(full.subrange(n as int, n as int) =~= Seq::<Seq<u8>>::empty());
        }
        Some(cur)
    }

    /// Resolves a directory path.  An absolute path walks from the root; a
    /// relative one from the session's cursor, where a missing or absent id
    /// makes a fresh session first, as the façade always did.
    pub fn resolve_directory(&mut self, path: &Vec<u8>, id: Option<u64>) -> (r: Option<usize>)
        requires
            old(self).wf(),
        ensures
            final(self).wf(),
            final(self).nodes == old(self).nodes,
            final(self).registry == old(self).registry,
            final(self).frontier == old(self).frontier,
            final(self).device == old(self).device,
            ({
                let nodes = old(self).nodes@;
                let sm = session_map(old(self).sessions);
                let expected = if is_absolute_spec(path@) {
                    resolve_dir_abs(nodes, path@)
                } else {
                    match id {
                        Some(i) => resolve_dir_rel(nodes, sm, path@, i),
                        None => walk(nodes, 0, split_path_spec(path@), true),
                    }
                };
                &&& (match r {
                    Some(d) => expected == Some(d as int) && d < nodes.len() && nodes[d as int]
                        is Directory,
                    None => expected is None,
                })
                &&& (if is_absolute_spec(path@) || id is Some {
                    final(self).sessions == old(self).sessions && final(self).session_counter == old(self).session_counter
                } else {
                    session_map(final(self).sessions) == session_map(old(self).sessions).insert(
                        final(self).session_counter,
                        0,
                    ) && final(self).session_counter == (if old(self).session_counter < u64::MAX {
                        (old(self).session_counter + 1) as u64
                    } else {
                        u64::MAX
                    })
                })
            }),
    {
        let parts = split_path(path);
        if is_absolute(path) {
            self.walk_exec(0, &parts, false)
        } else {
            let start: usize;
            match id {
                Some(i) => {
                    start = self.cursor_or_root(i);
                },
                None => {
                    self.get_id();
                    start = 0;
                },
            }
            self.walk_exec(start, &parts, true)
        }
    }

    /// Resolves a file path to its arena index.
    pub fn resolve_file(&mut self, path: &Vec<u8>, id: Option<u64>) -> (r: Option<usize>)
        requires
            old(self).wf(),
        ensures
            final(self).wf(),
            final(self).nodes == old(self).nodes,
            final(self).registry == old(self).registry,
            final(self).frontier == old(self).frontier,
            final(self).device == old(self).device,
            ({
                let nodes = old(self).nodes@;
                let sm = session_map(old(self).sessions);
                let parent = parent_path_spec(path@);
                let start = if is_absolute_spec(parent) && parent.len() > 0 {
                    0
                } else {
                    match id {
                        Some(i) => session_start(sm, i),
                        None => 0,
                    }
                };
                let expected = resolve_file_spec(nodes, start, path@);
                match r {
                    Some(c) => expected == Some(c as int) && c < nodes.len() && nodes[c as int]
                        is File,
                    None => expected is None,
                }
            }),
            ({
                let parent = parent_path_spec(path@);
                if (is_absolute_spec(parent) && parent.len() > 0) || id is Some {
                    final(self).sessions == old(self).sessions && final(self).session_counter
                        == old(self).session_counter
                } else {
                    session_map(final(self).sessions) == session_map(old(self).sessions).insert(
                        final(self).session_counter,
                        0,
                    ) && final(self).session_counter == (if old(self).session_counter < u64::MAX {
                        (old(self).session_counter + 1) as u64
                    } else {
                        u64::MAX
                    })
                }
            }),
    {
        let (parent, leaf) = split_last_and_first(path);
        let dir_opt: Option<usize>;
        if is_absolute(&parent) && parent.len() > 0 {
            let parts = split_path(&parent);
            dir_opt = self.walk_exec(0, &parts, false);
        } else {
            let start: usize;
            match id {
                Some(i) => {
                    start = self.cursor_or_root(i);
                },
                None => {
                    self.get_id();
                    start = 0;
                },
            }
            let parts = split_path(&parent);
            dir_opt = self.walk_exec(start, &parts, true)
        }
        match dir_opt {
            Some(d) => self.find_file_exec(d, &leaf),
            None => None,
        }
    }

    /// A copy of the payload of the file at `file`, or nothing when no such
    /// file resolves.
    pub fn read_file(&mut self, file: &str, id: Option<u64>) -> (r: Option<Vec<u8>>)
        requires
            old(self).wf(),
        ensures
            final(self).wf(),
            final(self).nodes == old(self).nodes,
            final(self).registry == old(self).registry,
            final(self).frontier == old(self).frontier,
            final(self).device == old(self).device,
            ({
                let nodes = old(self).nodes@;
                let parent = parent_path_spec(file.spec_bytes());
                let start = if is_absolute_spec(parent) && parent.len() > 0 {
                    0
                } else {
                    match id {
                        Some(i) => session_start(session_map(old(self).sessions), i),
                        None => 0,
                    }
                };
                match resolve_file_spec(nodes, start, file.spec_bytes()) {
                    Some(c) => r matches Some(data) && (r matches Some(data) ==> data@
                        == nodes[c].data_of()),
                    None => r is None,
                }
            }),
    {
        let p = file.as_bytes_vec();
        match self.resolve_file(&p, id) {
            Some(c) => {
                match &self.nodes[c] {
                    Item::File(f) => Some(f.get_data()),
                    Item::Directory(_) => {
                        proof {
                            assert(false);
                        }
                        None
                    },
                }
            },
            None => None,
        }
    }

    /// The short names of the files in the session's current directory, or
    /// nothing for an unknown session id.
    pub fn list_files(&self, id: u64) -> (r: Option<Vec<String>>)
        requires
            self.wf(),
        ensures
            ({
                let sm = session_map(self.sessions);
                match r {
                    Some(names) => sm.dom().contains(id) && {
                        let fs = conts_of(self.nodes@, sm[id] as int);
                        &&& names@.len() == fs.len()
                        &&& forall|j: int|
                            0 <= j < fs.len() ==> #[trigger] names@[j]@ == chars_of_bytes(
                                file_short_spec(self.nodes@[fs[j] as int].name_of()),
                            )
                    },
                    None => !sm.dom().contains(id),
                }
            }),
    {
        let cur: usize;
        match session_table_get(&self.sessions, id) {
            Some(c) => {
                let nodes_len = self.nodes.len();
                proof {
                    assert(session_map(self.sessions).dom().contains(id));
                    assert(0 <= session_map(self.sessions)[id] < self.nodes@.len());
                    assert(c < nodes_len as u64);
                }
                cur = c as usize;
            },
            None => {
                return None;
            },
        }
        let list = self.conts_list(cur);
        let ghost fs = list@;
        let m = list.len();
        let mut names: Vec<String> = Vec::new();
        let mut j: usize = 0;
        while j < m
            invariant
                self.wf(),
                cur < self.nodes@.len(),
                self.nodes@[cur as int] is Directory,
                fs == conts_of(self.nodes@, cur as int),
                list@ == fs,
                m == fs.len(),
                0 <= j <= m,
                names@.len() == j,
                forall|t: int|
                    0 <= t < j ==> #[trigger] names@[t]@ == chars_of_bytes(
                        file_short_spec(self.nodes@[fs[t] as int].name_of()),
                    ),
            decreases m - j,
        {
            let c = list[j];
            proof {
                assert(wf_dir_children(self.nodes@, cur as int));
                assert(child_file_ok(self.nodes@, cur as int, fs[j as int] as int));
            }
            match &self.nodes[c] {
                Item::File(f) => {
                    let short = f.get_short_name();
                    proof {
                        assert(wf_node_basic(self.nodes@, c as int));
                        crate::paths::lemma_split_all_keep(f.name@, |b: u8| keep_byte(b));
                        let parts = crate::paths::split_all(f.name@);
                        crate::paths::lemma_last_sep_bounds(f.name@);
                        assert(parts.len() > 0);
                        assert(short@ == parts[parts.len() - 1]);
                        assert forall|k: int| 0 <= k < short@.len() implies #[trigger] short@[k]
                            < 128 by {
                            assert(keep_byte(parts[parts.len() - 1][k]));
                        }
                    }
                    let name = crate::text::ascii_string(&short);
                    names.push(name);
                },
                Item::Directory(_) => {
                    proof {
                        assert(false);
                    }
                },
            }
            j = j + 1;
        }
        Some(names)
    }

    /// The short names of the child directories of the session's current
    /// directory, each with its closing separator, or nothing for an
    /// unknown session id.
    pub fn list_subdirectories(&self, id: u64) -> (r: Option<Vec<String>>)
        requires
            self.wf(),
        ensures
            ({
                let sm = session_map(self.sessions);
                match r {
                    Some(names) => sm.dom().contains(id) && {
                        let ds = subdirs_of(self.nodes@, sm[id] as int);
                        &&& names@.len() == ds.len()
                        &&& forall|j: int|
                            0 <= j < ds.len() ==> #[trigger] names@[j]@ == chars_of_bytes(
                                dir_short_spec(self.nodes@[ds[j] as int].name_of()),
                            )
                    },
                    None => !sm.dom().contains(id),
                }
            }),
    {
        let cur: usize;
        match session_table_get(&self.sessions, id) {
            Some(c) => {
                let nodes_len = self.nodes.len();
                proof {
                    assert(session_map(self.sessions).dom().contains(id));
                    assert(0 <= session_map(self.sessions)[id] < self.nodes@.len());
                    assert(c < nodes_len as u64);
                }
                cur = c as usize;
            },
            None => {
                return None;
            },
        }
        let list = self.subdir_list(cur);
        let ghost ds = list@;
        let m = list.len();
        let mut names: Vec<String> = Vec::new();
        let mut j: usize = 0;
        while j < m
            invariant
                self.wf(),
                cur < self.nodes@.len(),
                self.nodes@[cur as int] is Directory,
                ds == subdirs_of(self.nodes@, cur as int),
                list@ == ds,
                m == ds.len(),
                0 <= j <= m,
                names@.len() == j,
                forall|t: int|
                    0 <= t < j ==> #[trigger] names@[t]@ == chars_of_bytes(
                        dir_short_spec(self.nodes@[ds[t] as int].name_of()),
                    ),
            decreases m - j,
        {
            let c = list[j];
            proof {
                assert(wf_dir_children(self.nodes@, cur as int));
                assert(child_dir_ok(self.nodes@, cur as int, ds[j as int] as int));
            }
            match &self.nodes[c] {
                Item::Directory(d) => {
                    let short = d.get_short_name();
                    proof {
                        assert(wf_node_basic(self.nodes@, c as int));
                        crate::paths::lemma_split_all_keep(d.name@, |b: u8| keep_byte(b));
                        crate::node::lemma_last_nonempty_keep(
                            crate::paths::split_all(d.name@),
                            |b: u8| keep_byte(b),
                        );
                        assert forall|k: int| 0 <= k < short@.len() implies #[trigger] short@[k]
                            < 128 by {
                            if k < short@.len() - 1 {
                                assert(keep_byte(
                                    crate::node::last_nonempty(
                                        crate::paths::split_all(d.name@),
                                    )[k],
                                ));
                            } else {
                                assert(short@[k] == 47);
                            }
                        }
                    }
                    let name = crate::text::ascii_string(&short);
                    names.push(name);
                },
                Item::File(_) => {
                    proof {
                        assert(false);
                    }
                },
            }
            j = j + 1;
        }
        Some(names)
    }

    /// Resolves the target and, only on success, repoints the session's
    /// cursor at it; on failure, or for an unknown session id, the cursor
    /// is left alone and the call reports failure.
    pub fn change_directory(&mut self, directory: &str, id: u64) -> (r: bool)
        requires
            old(self).wf(),
        ensures
            final(self).wf(),
            final(self).nodes == old(self).nodes,
            final(self).registry == old(self).registry,
            final(self).frontier == old(self).frontier,
            final(self).device == old(self).device,
            final(self).session_counter == old(self).session_counter,
            ({
                let nodes = old(self).nodes@;
                let sm = session_map(old(self).sessions);
                let target = if is_absolute_spec(directory.spec_bytes()) {
                    resolve_dir_abs(nodes, directory.spec_bytes())
                } else {
                    resolve_dir_rel(nodes, sm, directory.spec_bytes(), id)
                };
                match target {
                    Some(d) => {
                        &&& r == sm.dom().contains(id)
                        &&& session_map(final(self).sessions) == if r {
                            sm.insert(id, d as u64)
                        } else {
                            sm
                        }
                    },
                    None => r == false && session_map(final(self).sessions) == sm,
                }
            }),
    {
        let p = directory.as_bytes_vec();
        let target = self.resolve_directory(&p, Some(id));
        let known = match session_table_get(&self.sessions, id) {
            Some(_) => true,
            None => false,
        };
        if !known {
            return false;
        }
        match target {
            Some(d) => {
                session_table_insert(&mut self.sessions, id, d as u64);
                true
            },
            None => false,
        }
    }

    /// Repoints the session's cursor at the parent of its current
    /// directory; the root is its own parent, and an unknown id does
    /// nothing.
    pub fn up_directory(&mut self, id: u64)
        requires
            old(self).wf(),
        ensures
            final(self).wf(),
            final(self).nodes == old(self).nodes,
            final(self).registry == old(self).registry,
            final(self).frontier == old(self).frontier,
            final(self).device == old(self).device,
            final(self).session_counter == old(self).session_counter,
            ({
                let sm = session_map(old(self).sessions);
                if sm.dom().contains(id) {
                    session_map(final(self).sessions) == sm.insert(
                        id,
                        parent_of_idx(old(self).nodes@, sm[id] as int) as u64,
                    )
                } else {
                    session_map(final(self).sessions) == sm
                }
            }),
    {
        let cur: usize;
        match session_table_get(&self.sessions, id) {
            Some(c) => {
                let nodes_len = self.nodes.len();
                proof {
                    assert(session_map(self.sessions).dom().contains(id));
                    assert(0 <= session_map(self.sessions)[id] < self.nodes@.len());
                    assert(c < nodes_len as u64);
                }
                cur = c as usize;
            },
            None => {
                return ;
            },
        }
        let up: usize;
        match &self.nodes[cur] {
            Item::Directory(d) => {
                up = d.parent;
            },
            Item::File(_) => {
                proof {
                    assert(false);
                }
                up = 0;
            },
        }
        proof {
            if cur != 0 {
                assert(0 <= parent_of_idx(self.nodes@, cur as int) < cur);
            }
        }
        session_table_insert(&mut self.sessions, id, up as u64);
    }
}

// ---------------------------------------------------------------------------
// Facts about resolution
// ---------------------------------------------------------------------------

/// What a successful child-directory lookup pins down, and what a failed
/// one rules out.
pub proof fn lemma_find_subdir_props(nodes: Seq<Item>, list: Seq<usize>, comp: Seq<u8>)
    ensures
        match find_subdir(nodes, list, comp) {
            Some(c) => exists|j: int|
                0 <= j < list.len() && list[j] == c && 0 <= c < nodes.len() && last_comp(
                    nodes[c].name_of(),
                ) == comp,
            None => forall|j: int|
                0 <= j < list.len() ==> !(0 <= #[trigger] list[j] < nodes.len() && last_comp(
                    nodes[list[j] as int].name_of(),
                ) == comp),
        },
    decreases list.len(),
{
    if list.len() > 0 {
        let c = list[0] as int;
        if 0 <= c < nodes.len() && last_comp(nodes[c].name_of()) == comp {
            assert(0 <= 0 < list.len() && list[0] == c);
        } else {
            lemma_find_subdir_props(nodes, list.drop_first(), comp);
            match find_subdir(nodes, list, comp) {
                Some(cc) => {
                    let j = choose|j: int|
                        0 <= j < list.drop_first().len() && list.drop_first()[j] == cc && 0 <= cc
                            < nodes.len() && last_comp(nodes[cc as int].name_of()) == comp;
                    assert(list[j + 1] == cc);
                },
                None => {
                    assert forall|j: int| 0 <= j < list.len() implies !(0 <= #[trigger] list[j]
                        < nodes.len() && last_comp(nodes[list[j] as int].name_of()) == comp) by {
                        if j > 0 {
                            assert(list.drop_first()[j - 1] == list[j]);
                        }
                    }
                },
            }
        }
    }
}

/// What a successful child-file lookup pins down, and what a failed one
/// rules out.
pub proof fn lemma_find_file_props(nodes: Seq<Item>, list: Seq<usize>, leaf: Seq<u8>)
    ensures
        match find_file_in(nodes, list, leaf) {
            Some(c) => exists|j: int|
                0 <= j < list.len() && list[j] == c && 0 <= c < nodes.len() && file_short_spec(
                    nodes[c].name_of(),
                ) == leaf,
            None => forall|j: int|
                0 <= j < list.len() ==> !(0 <= #[trigger] list[j] < nodes.len()
                    && file_short_spec(nodes[list[j] as int].name_of()) == leaf),
        },
    decreases list.len(),
{
    if list.len() > 0 {
        let c = list[0] as int;
        if 0 <= c < nodes.len() && file_short_spec(nodes[c].name_of()) == leaf {
            assert(0 <= 0 < list.len() && list[0] == c);
        } else {
            lemma_find_file_props(nodes, list.drop_first(), leaf);
            match find_file_in(nodes, list, leaf) {
                Some(cc) => {
                    let j = choose|j: int|
                        0 <= j < list.drop_first().len() && list.drop_first()[j] == cc && 0 <= cc
                            < nodes.len() && file_short_spec(nodes[cc as int].name_of()) == leaf;
                    assert(list[j + 1] == cc);
                },
                None => {
                    assert forall|j: int| 0 <= j < list.len() implies !(0 <= #[trigger] list[j]
                        < nodes.len() && file_short_spec(nodes[list[j] as int].name_of())
                        == leaf) by {
                        if j > 0 {
                            assert(list.drop_first()[j - 1] == list[j]);
                        }
                    }
                },
            }
        }
    }
}

/// Two arenas that agree on every directory's name, child directories and
/// parent link; the second may carry extra nodes past the first's end,
/// which no walk from an old directory can reach.
pub open spec fn dirs_same(n1: Seq<Item>, n2: Seq<Item>) -> bool {
    &&& n1.len() <= n2.len()
    &&& (forall|i: int|
        0 <= i < n1.len() ==> ((n1[i] is Directory <==> #[trigger] n2[i] is Directory) && (n1[i]
            is Directory ==> n2[i].name_of() == n1[i].name_of() && subdirs_of(n2, i) == subdirs_of(
            n1,
            i,
        ) && parent_of_idx(n2, i) == parent_of_idx(n1, i))))
}

/// A lookup over a well-formed child-directory list reads only what
/// `dirs_same` preserves.
proof fn lemma_find_subdir_same(
    n1: Seq<Item>,
    n2: Seq<Item>,
    list: Seq<usize>,
    comp: Seq<u8>,
)
    requires
        dirs_same(n1, n2),
        forall|j: int| 0 <= j < list.len() ==> 0 <= #[trigger] list[j] < n1.len() && n1[list[j] as int] is Directory,
    ensures
        find_subdir(n2, list, comp) == find_subdir(n1, list, comp),
    decreases list.len(),
{
    if list.len() > 0 {
        assert(n2[list[0] as int].name_of() == n1[list[0] as int].name_of());
        assert(forall|j: int|
            0 <= j < list.drop_first().len() ==> 0 <= #[trigger] list.drop_first()[j] < n1.len()
                && n1[list.drop_first()[j] as int] is Directory);
        lemma_find_subdir_same(n1, n2, list.drop_first(), comp);
    }
}

/// The directory walk reads only what `dirs_same` preserves.
pub proof fn lemma_walk_same(
    n1: Seq<Item>,
    n2: Seq<Item>,
    cur: int,
    comps: Seq<Seq<u8>>,
    rel: bool,
)
    requires
        wf_arena(n1),
        dirs_same(n1, n2),
        0 <= cur < n1.len(),
        n1[cur] is Directory,
    ensures
        walk(n2, cur, comps, rel) == walk(n1, cur, comps, rel),
    decreases comps.len(),
{
    if comps.len() > 0 {
        if rel && comps[0] == dotdot_seq() {
            let p = parent_of_idx(n1, cur);
            assert(parent_of_idx(n2, cur) == p);
            if cur != 0 {
                assert(0 <= p < cur && n1[p] is Directory);
            }
            lemma_walk_same(n1, n2, p, comps.drop_first(), rel);
        } else if rel && comps[0] == dot_seq() {
            lemma_walk_same(n1, n2, cur, comps.drop_first(), rel);
        } else {
            let list = subdirs_of(n1, cur);
            assert(wf_dir_children(n1, cur));
            assert forall|j: int| 0 <= j < list.len() implies 0 <= #[trigger] list[j] < n1.len()
                && n1[list[j] as int] is Directory by {
                assert(child_dir_ok(n1, cur, list[j] as int));
            }
            lemma_find_subdir_same(n1, n2, list, comps[0]);
            assert(subdirs_of(n2, cur) == list);
            match find_subdir(n1, list, comps[0]) {
                Some(d) => {
                    lemma_find_subdir_props(n1, list, comps[0]);
                    let j = choose|j: int|
                        0 <= j < list.len() && list[j] == d && 0 <= d < n1.len() && last_comp(
                            n1[d].name_of(),
                        ) == comps[0];
                    assert(child_dir_ok(n1, cur, list[j] as int));
                    lemma_walk_same(n1, n2, d, comps.drop_first(), rel);
                },
                None => {},
            }
        }
    }
}

// ---------------------------------------------------------------------------
// Facts about child names
// ---------------------------------------------------------------------------

/// A file child of a directory is found under the field after its parent's
/// name.
pub proof fn lemma_file_child_short(p: Seq<u8>, c: Seq<u8>)
    requires
        p.len() > 0,
        p.last() == 47,
        file_child_name_ok(p, c),
    ensures
        file_short_spec(c) == c.subrange(p.len() as int, c.len() as int),
{
    crate::paths::lemma_last_sep_bounds(c);
    let ls = crate::paths::last_sep(c);
    assert(c[p.len() - 1] == p[p.len() - 1]) by {
        assert(c.subrange(0, p.len() as int)[p.len() - 1] == c[p.len() - 1]);
    }
    assert(c[p.len() - 1] == 47);
    assert(ls >= p.len() - 1);
    assert(ls == p.len() - 1) by {
        if ls > p.len() - 1 {
            assert(c[ls] == 47);
            assert(c[ls] != 47);
        }
    }
}

/// A directory child of a directory is resolved under the field between
/// its parent's name and its closing separator.
pub proof fn lemma_dir_child_last_comp(p: Seq<u8>, c: Seq<u8>)
    requires
        p.len() > 0,
        p.last() == 47,
        dir_child_name_ok(p, c),
    ensures
        last_comp(c) == c.subrange(p.len() as int, c.len() - 1),
{
    crate::paths::lemma_last_sep_bounds(c);
    let comp = c.subrange(p.len() as int, c.len() - 1);
    let ls = crate::paths::last_sep(c);
    assert(c.last() == 47);
    assert(ls == c.len() - 1);
    let c1 = c.subrange(0, c.len() - 1);
    assert(crate::paths::split_all(c) == crate::paths::split_all(c1) + seq![
        c.subrange(c.len() - 1 + 1, c.len() as int),
    ]);
    assert(c.subrange(c.len() as int, c.len() as int) =~= Seq::<u8>::empty());
    // within the shortened name, the last separator closes the parent
    crate::paths::lemma_last_sep_bounds(c1);
    let ls1 = crate::paths::last_sep(c1);
    assert(c1.len() == c.len() - 1 >= p.len());
    if c1.len() > p.len() {
        assert(c1[p.len() - 1] == 47) by {
            assert(c.subrange(0, p.len() as int)[p.len() - 1] == c[p.len() - 1]);
            assert(c1[p.len() - 1] == c[p.len() - 1]);
        }
        assert forall|k: int| p.len() <= k < c1.len() implies c1[k] != 47 by {
            assert(c1[k] == c[k]);
        }
        assert(ls1 == p.len() - 1) by {
            assert(ls1 >= p.len() - 1);
            if ls1 > p.len() - 1 {
                assert(c1[ls1] == 47);
                assert(c1[ls1] != 47);
            }
        }
        assert(crate::paths::split_all(c1) == crate::paths::split_all(c1.subrange(0, ls1)) + seq![
            c1.subrange(ls1 + 1, c1.len() as int),
        ]);
        assert(c1.subrange(ls1 + 1, c1.len() as int) =~= comp);
        lemma_split_all_nonempty(c1.subrange(0, ls1));
    } else {
        // the field is empty: the child is its parent's name plus a
        // separator
        assert(c1 =~= c.subrange(0, p.len() as int));
        assert(c1 == p);
        assert(ls1 == p.len() - 1);
        assert(comp =~= Seq::<u8>::empty());
        assert(crate::paths::split_all(c1) == crate::paths::split_all(c1.subrange(0, ls1)) + seq![
            c1.subrange(ls1 + 1, c1.len() as int),
        ]);
        assert(c1.subrange(ls1 + 1, c1.len() as int) =~= comp);
        lemma_split_all_nonempty(c1.subrange(0, ls1));
    }
    // now split_all(c) ends with [comp, ""], so the path components end
    // with comp
    let a = crate::paths::split_all(c);
    assert(a.last().len() == 0);
    assert(a.len() >= 3 || a.len() == 2 || true);
    let b = a.drop_last();
    assert(b == crate::paths::split_all(c1));
    assert(b.len() >= 2);
    assert(b.last() == comp);
    let sp = crate::paths::split_path_spec(c);
    assert(sp.len() > 0 && sp.last() == comp) by {
        if b[0].len() == 0 {
            assert(sp == b.drop_first());
            assert(sp.len() == b.len() - 1 >= 1);
            assert(sp.last() == b.last());
        } else {
            assert(sp == b);
        }
    }
}

/// Splitting never yields an empty field list.
pub proof fn lemma_split_all_nonempty(s: Seq<u8>)
    ensures
        crate::paths::split_all(s).len() >= 1,
{
    crate::paths::lemma_last_sep_bounds(s);
}

/// Linking a fresh, properly named file under a directory keeps the
/// volume well-formed.
#[verifier::rlimit(60)]
#[verifier::spinoff_prover]
proof fn lemma_wf_attach_file(
    n1: Seq<Item>,
    n2: Seq<Item>,
    d: int,
    reg: Seq<usize>,
    sm: Map<u64, u64>,
    frontier: u64,
)
    requires
        n1.len() < usize::MAX,
        wf_arena(n1),
        wf_registry(n1, reg),
        wf_sessions(n1, sm),
        wf_frontier(n1, reg, frontier),
        0 <= d < n1.len(),
        n1[d] is Directory,
        n2.len() == n1.len() + 1,
        forall|i: int| 0 <= i < n1.len() && i != d ==> #[trigger] n2[i] == n1[i],
        ({
            let idx = n1.len() as int;
            &&& n2[idx] is File
            &&& n2[idx].live()
            &&& 0 < n2[idx].name_of().len() <= 100
            &&& (forall|k: int|
                0 <= k < n2[idx].name_of().len() ==> keep_byte(#[trigger] n2[idx].name_of()[k]))
            &&& n2[idx].time_of().len() == 11
            &&& n2[idx].prefix_of().len() == 155
            &&& n2[idx].size_of() < SIZE_LIMIT
            &&& n2[idx].size_of() == n2[idx].data_of().len()
            &&& parent_of_idx(n2, idx) == d
            &&& file_child_name_ok(n1[d].name_of(), n2[idx].name_of())
        }),
        n2[d] is Directory,
        n2[d].name_of() == n1[d].name_of(),
        n2[d].size_of() == n1[d].size_of(),
        n2[d].time_of() == n1[d].time_of(),
        n2[d].prefix_of() == n1[d].prefix_of(),
        n2[d].blkid_of() == n1[d].blkid_of(),
        n2[d].registered_of() == n1[d].registered_of(),
        parent_of_idx(n2, d) == parent_of_idx(n1, d),
        subdirs_of(n2, d) == subdirs_of(n1, d),
        conts_of(n2, d) == conts_of(n1, d).push(n1.len() as usize),
        forall|j: int|
            0 <= j < conts_of(n1, d).len() ==> file_short_spec(
                n1[#[trigger] conts_of(n1, d)[j] as int].name_of(),
            ) != file_short_spec(n2[n1.len() as int].name_of()),
    ensures
        wf_arena(n2),
        wf_registry(n2, reg),
        wf_sessions(n2, sm),
        wf_frontier(n2, reg, frontier),
{
    let idx = n1.len() as int;
    assert(d != idx);
    assert forall|i: int| 0 <= i < n2.len() implies #[trigger] wf_node_basic(n2, i) by {
        if i < n1.len() {
            assert(wf_node_basic(n1, i));
        }
    }
    assert forall|i: int|
        1 <= i < n2.len() && n2[i] is Directory implies 0 <= #[trigger] parent_of_idx(n2, i) < i
        && n2[parent_of_idx(n2, i)] is Directory by {
        assert(i < n1.len());
        assert(n1[i] is Directory);
        assert(parent_of_idx(n2, i) == parent_of_idx(n1, i));
    }
    assert forall|i: int| 0 <= i < n2.len() implies #[trigger] wf_dir_children(n2, i) by {
        if i < n1.len() {
            assert(wf_dir_children(n1, i));
        }
        if n2[i] is Directory {
            assert(i < n1.len());
            assert(n1[i] is Directory);
            let fs1 = conts_of(n1, i);
            let ds1 = subdirs_of(n1, i);
            let fs2 = conts_of(n2, i);
            let ds2 = subdirs_of(n2, i);
            if i == d {
                assert(fs2 == fs1.push(idx as usize));
                assert forall|t: int| 0 <= t < fs2.len() implies child_file_ok(
                    n2,
                    i,
                    #[trigger] fs2[t] as int,
                ) by {
                    if t < fs1.len() {
                        assert(fs2[t] == fs1[t]);
                        assert(child_file_ok(n1, i, fs1[t] as int));
                        assert(fs1[t] as int != d && (fs1[t] as int) < n1.len());
                        assert(n2[fs1[t] as int] == n1[fs1[t] as int]);
                    } else {
                        assert(fs2[t] == idx as usize);
                    }
                }
                assert forall|t: int, u: int| 0 <= t < u < fs2.len() implies file_short_spec(
                    n2[#[trigger] fs2[t] as int].name_of(),
                ) != file_short_spec(n2[#[trigger] fs2[u] as int].name_of()) by {
                    if u < fs1.len() {
                        assert(fs2[t] == fs1[t] && fs2[u] == fs1[u]);
                        assert(child_file_ok(n1, i, fs1[t] as int));
                        assert(child_file_ok(n1, i, fs1[u] as int));
                        assert(n2[fs1[t] as int] == n1[fs1[t] as int]);
                        assert(n2[fs1[u] as int] == n1[fs1[u] as int]);
                        assert(file_short_spec(n1[fs1[t] as int].name_of()) != file_short_spec(
                            n1[fs1[u] as int].name_of(),
                        ));
                    } else {
                        assert(fs2[t] == fs1[t]);
                        assert(fs2[u] == idx as usize);
                        assert(child_file_ok(n1, i, fs1[t] as int));
                        assert(n2[fs1[t] as int] == n1[fs1[t] as int]);
                        assert(file_short_spec(n1[fs1[t] as int].name_of()) != file_short_spec(
                            n2[idx].name_of(),
                        ));
                    }
                }
                assert forall|t: int| 0 <= t < ds2.len() implies child_dir_ok(
                    n2,
                    i,
                    #[trigger] ds2[t] as int,
                ) by {
                    assert(ds2 == ds1);
                    assert(child_dir_ok(n1, i, ds1[t] as int));
                    assert(ds1[t] as int != d ==> n2[ds1[t] as int] == n1[ds1[t] as int]);
                }
                assert forall|t: int, u: int| 0 <= t < u < ds2.len() implies last_comp(
                    n2[#[trigger] ds2[t] as int].name_of(),
                ) != last_comp(n2[#[trigger] ds2[u] as int].name_of()) by {
                    assert(child_dir_ok(n1, i, ds1[t] as int));
                    assert(child_dir_ok(n1, i, ds1[u] as int));
                    assert(n2[ds1[t] as int].name_of() == n1[ds1[t] as int].name_of());
                    assert(n2[ds1[u] as int].name_of() == n1[ds1[u] as int].name_of());
                }
            } else {
                assert(n2[i] == n1[i]);
                assert(fs2 == fs1 && ds2 == ds1);
                assert forall|t: int| 0 <= t < fs2.len() implies child_file_ok(
                    n2,
                    i,
                    #[trigger] fs2[t] as int,
                ) by {
                    assert(child_file_ok(n1, i, fs1[t] as int));
                    assert(fs1[t] as int != d && (fs1[t] as int) < n1.len());
                    assert(n2[fs1[t] as int] == n1[fs1[t] as int]);
                }
                assert forall|t: int| 0 <= t < ds2.len() implies child_dir_ok(
                    n2,
                    i,
                    #[trigger] ds2[t] as int,
                ) by {
                    assert(child_dir_ok(n1, i, ds1[t] as int));
                    if ds1[t] as int != d {
                        assert(n2[ds1[t] as int] == n1[ds1[t] as int]);
                    } else {
                        assert(n2[d].name_of() == n1[d].name_of());
                        assert(n2[d].live() == n1[d].live());
                    }
                }
                assert forall|t: int, u: int| 0 <= t < u < fs2.len() implies file_short_spec(
                    n2[#[trigger] fs2[t] as int].name_of(),
                ) != file_short_spec(n2[#[trigger] fs2[u] as int].name_of()) by {
                    assert(child_file_ok(n1, i, fs1[t] as int));
                    assert(child_file_ok(n1, i, fs1[u] as int));
                    assert(n2[fs1[t] as int] == n1[fs1[t] as int]);
                    assert(n2[fs1[u] as int] == n1[fs1[u] as int]);
                }
                assert forall|t: int, u: int| 0 <= t < u < ds2.len() implies last_comp(
                    n2[#[trigger] ds2[t] as int].name_of(),
                ) != last_comp(n2[#[trigger] ds2[u] as int].name_of()) by {
                    assert(child_dir_ok(n1, i, ds1[t] as int));
                    assert(child_dir_ok(n1, i, ds1[u] as int));
                    assert(n2[ds1[t] as int].name_of() == n1[ds1[t] as int].name_of());
                    assert(n2[ds1[u] as int].name_of() == n1[ds1[u] as int].name_of());
                }
            }
        }
    }
    assert forall|j: int| 0 <= j < reg.len() implies 1 <= #[trigger] reg[j] < n2.len()
        && n2[reg[j] as int].registered_of() by {
        if reg[j] as int != d {
            assert(n2[reg[j] as int] == n1[reg[j] as int]);
        }
    }
    assert forall|k: u64| sm.dom().contains(k) implies 0 <= #[trigger] sm[k] < n2.len()
        && n2[sm[k] as int] is Directory by {
        if sm[k] as int != d {
            assert(n2[sm[k] as int] == n1[sm[k] as int]);
        }
    }
    assert forall|j: int| 0 <= j < reg.len() implies {
        let it = n2[#[trigger] reg[j] as int];
        it.live() && it.blkid_of() != NOT_PERSISTED ==> it.blkid_of() + it.footprint_of()
            <= frontier
    } by {
        let x = reg[j] as int;
        if x != d {
            assert(n2[x] == n1[x]);
        } else {
            assert(n2[d].live() == n1[d].live());
            assert(n2[d].footprint_of() == n1[d].footprint_of());
        }
    }
}

/// Linking a fresh, properly named, childless directory under a directory
/// keeps the volume well-formed.
#[verifier::rlimit(60)]
#[verifier::spinoff_prover]
proof fn lemma_wf_attach_dir(
    n1: Seq<Item>,
    n2: Seq<Item>,
    d: int,
    reg: Seq<usize>,
    sm: Map<u64, u64>,
    frontier: u64,
)
    requires
        n1.len() < usize::MAX,
        wf_arena(n1),
        wf_registry(n1, reg),
        wf_sessions(n1, sm),
        wf_frontier(n1, reg, frontier),
        0 <= d < n1.len(),
        n1[d] is Directory,
        n2.len() == n1.len() + 1,
        forall|i: int| 0 <= i < n1.len() && i != d ==> #[trigger] n2[i] == n1[i],
        ({
            let idx = n1.len() as int;
            &&& n2[idx] is Directory
            &&& n2[idx].live()
            &&& 0 < n2[idx].name_of().len() <= 100
            &&& (forall|k: int|
                0 <= k < n2[idx].name_of().len() ==> keep_byte(#[trigger] n2[idx].name_of()[k]))
            &&& n2[idx].time_of().len() == 11
            &&& n2[idx].prefix_of().len() == 155
            &&& n2[idx].size_of() == 0
            &&& parent_of_idx(n2, idx) == d
            &&& dir_child_name_ok(n1[d].name_of(), n2[idx].name_of())
            &&& conts_of(n2, idx) == Seq::<usize>::empty()
            &&& subdirs_of(n2, idx) == Seq::<usize>::empty()
        }),
        n2[d] is Directory,
        n2[d].name_of() == n1[d].name_of(),
        n2[d].size_of() == n1[d].size_of(),
        n2[d].time_of() == n1[d].time_of(),
        n2[d].prefix_of() == n1[d].prefix_of(),
        n2[d].blkid_of() == n1[d].blkid_of(),
        n2[d].registered_of() == n1[d].registered_of(),
        parent_of_idx(n2, d) == parent_of_idx(n1, d),
        conts_of(n2, d) == conts_of(n1, d),
        subdirs_of(n2, d) == subdirs_of(n1, d).push(n1.len() as usize),
        forall|j: int|
            0 <= j < subdirs_of(n1, d).len() ==> last_comp(
                n1[#[trigger] subdirs_of(n1, d)[j] as int].name_of(),
            ) != last_comp(n2[n1.len() as int].name_of()),
    ensures
        wf_arena(n2),
        wf_registry(n2, reg),
        wf_sessions(n2, sm),
        wf_frontier(n2, reg, frontier),
{
    let idx = n1.len() as int;
    assert(d != idx);
    assert(n2[idx].name_of().last() == 47);
    assert forall|i: int| 0 <= i < n2.len() implies #[trigger] wf_node_basic(n2, i) by {
        if i < n1.len() {
            assert(wf_node_basic(n1, i));
        }
    }
    assert forall|i: int|
        1 <= i < n2.len() && n2[i] is Directory implies 0 <= #[trigger] parent_of_idx(n2, i) < i
        && n2[parent_of_idx(n2, i)] is Directory by {
        if i < n1.len() {
            assert(n1[i] is Directory);
            assert(parent_of_idx(n2, i) == parent_of_idx(n1, i));
        } else {
            assert(parent_of_idx(n2, i) == d);
        }
    }
    assert forall|i: int| 0 <= i < n2.len() implies #[trigger] wf_dir_children(n2, i) by {
        if i < n1.len() {
            assert(wf_dir_children(n1, i));
        }
        if n2[i] is Directory {
            let fs2 = conts_of(n2, i);
            let ds2 = subdirs_of(n2, i);
            if i == idx {
                assert(fs2.len() == 0 && ds2.len() == 0);
            } else if i == d {
                let fs1 = conts_of(n1, i);
                let ds1 = subdirs_of(n1, i);
                assert(ds2 == ds1.push(idx as usize));
                assert forall|t: int| 0 <= t < fs2.len() implies child_file_ok(
                    n2,
                    i,
                    #[trigger] fs2[t] as int,
                ) by {
                    assert(child_file_ok(n1, i, fs1[t] as int));
                    assert(n2[fs1[t] as int] == n1[fs1[t] as int]);
                }
                assert forall|t: int, u: int| 0 <= t < u < fs2.len() implies file_short_spec(
                    n2[#[trigger] fs2[t] as int].name_of(),
                ) != file_short_spec(n2[#[trigger] fs2[u] as int].name_of()) by {
                    assert(child_file_ok(n1, i, fs1[t] as int));
                    assert(child_file_ok(n1, i, fs1[u] as int));
                    assert(n2[fs1[t] as int] == n1[fs1[t] as int]);
                    assert(n2[fs1[u] as int] == n1[fs1[u] as int]);
                    assert(file_short_spec(n1[fs1[t] as int].name_of()) != file_short_spec(
                        n1[fs1[u] as int].name_of(),
                    ));
                }
                assert forall|t: int| 0 <= t < ds2.len() implies child_dir_ok(
                    n2,
                    i,
                    #[trigger] ds2[t] as int,
                ) by {
                    if t < ds1.len() {
                        assert(ds2[t] == ds1[t]);
                        assert(child_dir_ok(n1, i, ds1[t] as int));
                        assert(ds1[t] as int != d && (ds1[t] as int) < n1.len());
                        assert(n2[ds1[t] as int] == n1[ds1[t] as int]);
                    } else {
                        assert(ds2[t] == idx as usize);
                    }
                }
                assert forall|t: int, u: int| 0 <= t < u < ds2.len() implies last_comp(
                    n2[#[trigger] ds2[t] as int].name_of(),
                ) != last_comp(n2[#[trigger] ds2[u] as int].name_of()) by {
                    if u < ds1.len() {
                        assert(ds2[t] == ds1[t] && ds2[u] == ds1[u]);
                        assert(child_dir_ok(n1, i, ds1[t] as int));
                        assert(child_dir_ok(n1, i, ds1[u] as int));
                        assert(n2[ds1[t] as int] == n1[ds1[t] as int]);
                        assert(n2[ds1[u] as int] == n1[ds1[u] as int]);
                        assert(last_comp(n1[ds1[t] as int].name_of()) != last_comp(
                            n1[ds1[u] as int].name_of(),
                        ));
                    } else {
                        assert(ds2[t] == ds1[t]);
                        assert(ds2[u] == idx as usize);
                        assert(child_dir_ok(n1, i, ds1[t] as int));
                        assert(n2[ds1[t] as int] == n1[ds1[t] as int]);
                        assert(last_comp(n1[ds1[t] as int].name_of()) != last_comp(
                            n2[idx].name_of(),
                        ));
                    }
                }
            } else {
                let fs1 = conts_of(n1, i);
                let ds1 = subdirs_of(n1, i);
                assert(n2[i] == n1[i]);
                assert(fs2 == fs1 && ds2 == ds1);
                assert forall|t: int| 0 <= t < fs2.len() implies child_file_ok(
                    n2,
                    i,
                    #[trigger] fs2[t] as int,
                ) by {
                    assert(child_file_ok(n1, i, fs1[t] as int));
                    assert(n2[fs1[t] as int] == n1[fs1[t] as int]);
                }
                assert forall|t: int| 0 <= t < ds2.len() implies child_dir_ok(
                    n2,
                    i,
                    #[trigger] ds2[t] as int,
                ) by {
                    assert(child_dir_ok(n1, i, ds1[t] as int));
                    if ds1[t] as int != d {
                        assert(n2[ds1[t] as int] == n1[ds1[t] as int]);
                    } else {
                        assert(n2[d].name_of() == n1[d].name_of());
                        assert(n2[d].live() == n1[d].live());
                    }
                }
                assert forall|t: int, u: int| 0 <= t < u < fs2.len() implies file_short_spec(
                    n2[#[trigger] fs2[t] as int].name_of(),
                ) != file_short_spec(n2[#[trigger] fs2[u] as int].name_of()) by {
                    assert(child_file_ok(n1, i, fs1[t] as int));
                    assert(child_file_ok(n1, i, fs1[u] as int));
                    assert(n2[fs1[t] as int] == n1[fs1[t] as int]);
                    assert(n2[fs1[u] as int] == n1[fs1[u] as int]);
                    assert(file_short_spec(n1[fs1[t] as int].name_of()) != file_short_spec(
                        n1[fs1[u] as int].name_of(),
                    ));
                }
                assert forall|t: int, u: int| 0 <= t < u < ds2.len() implies last_comp(
                    n2[#[trigger] ds2[t] as int].name_of(),
                ) != last_comp(n2[#[trigger] ds2[u] as int].name_of()) by {
                    assert(child_dir_ok(n1, i, ds1[t] as int));
                    assert(child_dir_ok(n1, i, ds1[u] as int));
                    assert(n2[ds1[t] as int].name_of() == n1[ds1[t] as int].name_of());
                    assert(n2[ds1[u] as int].name_of() == n1[ds1[u] as int].name_of());
                    assert(last_comp(n1[ds1[t] as int].name_of()) != last_comp(
                        n1[ds1[u] as int].name_of(),
                    ));
                }
            }
        }
    }
    assert forall|j: int| 0 <= j < reg.len() implies 1 <= #[trigger] reg[j] < n2.len()
        && n2[reg[j] as int].registered_of() by {
        if reg[j] as int != d {
            assert(n2[reg[j] as int] == n1[reg[j] as int]);
        }
    }
    assert forall|k: u64| sm.dom().contains(k) implies 0 <= #[trigger] sm[k] < n2.len()
        && n2[sm[k] as int] is Directory by {
        if sm[k] as int != d {
            assert(n2[sm[k] as int] == n1[sm[k] as int]);
        }
    }
    assert forall|j: int| 0 <= j < reg.len() implies {
        let it = n2[#[trigger] reg[j] as int];
        it.live() && it.blkid_of() != NOT_PERSISTED ==> it.blkid_of() + it.footprint_of()
            <= frontier
    } by {
        let x = reg[j] as int;
        if x != d {
            assert(n2[x] == n1[x]);
        } else {
            assert(n2[d].live() == n1[d].live());
            assert(n2[d].footprint_of() == n1[d].footprint_of());
        }
    }
}

/// Whether every node but `c` keeps its name, kind and payload.
pub open spec fn surface_same_except(n1: Seq<Item>, n2: Seq<Item>, c: int) -> bool {
    forall|i: int|
        0 <= i < n1.len() && i != c ==> (#[trigger] n2[i]).name_of() == n1[i].name_of() && (n2[i]
            is Directory <==> n1[i] is Directory) && n2[i].data_of() == n1[i].data_of()
}

/// A directory argument with its separators dropped.
pub open spec fn strip_sep_spec(s: Seq<u8>) -> Seq<u8> {
    s.filter(|b: u8| b != 47)
}

/// Drops every separator from a directory argument.
fn strip_sep(s: &Vec<u8>) -> (r: Vec<u8>)
    ensures
        r@ == strip_sep_spec(s@),
{
    let mut r: Vec<u8> = Vec::new();
    let n = s.len();
    let mut i: usize = 0;
    proof {
        reveal(Seq::filter);
    }
    while i < n
        invariant
            0 <= i <= n,
            n == s@.len(),
            r@ == strip_sep_spec(s@.subrange(0, i as int)),
        decreases n - i,
    {
        let b = s[i];
        if b != 47 {
            r.push(b);
        }
        proof {
            reveal(Seq::filter);
            let pre = s@.subrange(0, i as int);
            let post = s@.subrange(0, i + 1);
            assert(post.drop_last() =~= pre);
            assert(post.last() == b);
        }
        i = i + 1;
    }
    proof {
        assert(s@.subrange(0, n as int) =~= s@);
    }
    r
}

/// The summed sector footprint of the live items among the first `n`
/// registry slots.
pub open spec fn live_fp_sum(nodes: Seq<Item>, reg: Seq<usize>, n: int) -> nat
    decreases n,
{
    if n <= 0 {
        0
    } else {
        live_fp_sum(nodes, reg, n - 1) + (if nodes[reg[n - 1] as int].live() {
            nodes[reg[n - 1] as int].footprint_of()
        } else {
            0
        })
    }
}

/// An item renumbered to a fresh block and marked for write-back.
pub open spec fn renumbered_item(it: Item, b: u64) -> Item {
    match it {
        Item::File(f) => Item::File(File { block_id: b, write: true, ..f }),
        Item::Directory(d) => Item::Directory(Directory { block_id: b, write: true, ..d }),
    }
}

/// The live-footprint sum grows along the registry.
pub proof fn lemma_live_fp_sum_mono(nodes: Seq<Item>, reg: Seq<usize>, a: int, b: int)
    requires
        a <= b,
    ensures
        live_fp_sum(nodes, reg, a) <= live_fp_sum(nodes, reg, b),
    decreases b - a,
{
    if a < b {
        lemma_live_fp_sum_mono(nodes, reg, a, b - 1);
    }
}

/// Arenas that agree on names, kinds and sizes have the same sums.
pub proof fn lemma_live_fp_sum_same(n1: Seq<Item>, n2: Seq<Item>, reg: Seq<usize>, n: int)
    requires
        n1.len() == n2.len(),
        forall|j: int|
            0 <= j < reg.len() ==> 0 <= #[trigger] reg[j] < n1.len(),
        n <= reg.len(),
        forall|i: int|
            0 <= i < n1.len() ==> (#[trigger] n2[i]).live() == n1[i].live()
                && n2[i].footprint_of() == n1[i].footprint_of(),
    ensures
        live_fp_sum(n2, reg, n) == live_fp_sum(n1, reg, n),
    decreases n,
{
    if n > 0 {
        lemma_live_fp_sum_same(n1, n2, reg, n - 1);
    }
}

/// The full names of the live items among the first `n` nodes.
pub open spec fn live_names(nodes: Seq<Item>, n: int) -> Seq<Seq<u8>>
    decreases n,
{
    if n <= 0 {
        Seq::empty()
    } else {
        live_names(nodes, n - 1) + (if nodes[n - 1].live() {
            seq![nodes[n - 1].name_of()]
        } else {
            Seq::empty()
        })
    }
}

/// A property of all name bytes carries to every path component.
pub proof fn lemma_split_path_keep(s: Seq<u8>, j: int, k: int)
    requires
        forall|t: int| 0 <= t < s.len() ==> keep_byte(#[trigger] s[t]),
        0 <= j < split_path_spec(s).len(),
        0 <= k < split_path_spec(s)[j].len(),
    ensures
        keep_byte(split_path_spec(s)[j][k]),
{
    crate::paths::lemma_split_all_keep(s, |b: u8| keep_byte(b));
    let a = crate::paths::split_all(s);
    let b = if a.len() > 0 && a.last().len() == 0 {
        a.drop_last()
    } else {
        a
    };
    let off: int = if b.len() > 0 && b[0].len() == 0 {
        1
    } else {
        0
    };
    assert(split_path_spec(s)[j] == b[j + off]);
    assert(b[j + off] == a[j + off]);
    assert(keep_byte(a[j + off][k]));
}

/// The tombstone holds no separator, so no name through a separator can be
/// it.
pub proof fn lemma_tombstone_no_sep(name: Seq<u8>, at: int)
    requires
        0 <= at < name.len(),
        name[at] == 47,
    ensures
        name != tombstone_seq(),
{
    if name == tombstone_seq() {
        assert(tombstone_seq()[0] == 100u8 && tombstone_seq()[1] == 101u8 && tombstone_seq()[2]
            == 102u8 && tombstone_seq()[3] == 114u8 && tombstone_seq()[4] == 97u8
            && tombstone_seq()[5] == 103u8);
    }
}

/// A lone `..` component resolves to the parent of the directory it is
/// taken from, and the root, being its own parent, resolves to itself.
pub proof fn lemma_dotdot_step(nodes: Seq<Item>, d: int)
    requires
        wf_arena(nodes),
        0 <= d < nodes.len(),
        nodes[d] is Directory,
    ensures
        walk(nodes, d, seq![dotdot_seq()], true) == Some(parent_of_idx(nodes, d)),
        d == 0 ==> walk(nodes, d, seq![dotdot_seq()], true) == Some(0int),
{
    let comps = seq![dotdot_seq()];
    assert(comps[0] == dotdot_seq());
    assert(comps.drop_first() =~= Seq::<Seq<u8>>::empty());
    assert(walk(nodes, parent_of_idx(nodes, d), comps.drop_first(), true) == Some(
        parent_of_idx(nodes, d),
    ));
}

/// A name is the tombstone exactly when its six bytes spell it.
pub proof fn lemma_tombstone_bytes(name: Seq<u8>)
    ensures
        (name == tombstone_seq()) <==> (name.len() == 6 && name[0] == 100 && name[1] == 101
            && name[2] == 102 && name[3] == 114 && name[4] == 97 && name[5] == 103),
{
    if name.len() == 6 && name[0] == 100 && name[1] == 101 && name[2] == 102 && name[3] == 114
        && name[4] == 97 && name[5] == 103 {
        assert(name =~= tombstone_seq());
    }
    if name == tombstone_seq() {
        assert(name[0] == 100u8 && name[1] == 101u8 && name[2] == 102u8 && name[3] == 114u8
            && name[4] == 97u8 && name[5] == 103u8);
    }
}

/// Whether no child list of any directory holds `c`.
pub open spec fn unlinked(nodes: Seq<Item>, c: int) -> bool {
    &&& (forall|i: int, t: int|
        0 <= i < nodes.len() && 0 <= t < conts_of(nodes, i).len() ==> #[trigger] conts_of(
            nodes,
            i,
        )[t] != c)
    &&& (forall|i: int, t: int|
        0 <= i < nodes.len() && 0 <= t < subdirs_of(nodes, i).len() ==> #[trigger] subdirs_of(
            nodes,
            i,
        )[t] != c)
}

/// What a node looks like after the tombstone took it: the reserved name,
/// the write-back mark, empty child lists, everything else kept.
pub open spec fn is_tombstoned_of(a: Item, b: Item) -> bool {
    &&& b.name_of() == tombstone_seq()
    &&& b.dirty_of()
    &&& (a is Directory <==> b is Directory)
    &&& b.size_of() == a.size_of()
    &&& b.data_of() == a.data_of()
    &&& b.time_of() == a.time_of()
    &&& b.prefix_of() == a.prefix_of()
    &&& b.blkid_of() == a.blkid_of()
    &&& b.registered_of() == a.registered_of()
    &&& parent_of_idx_item(b) == parent_of_idx_item(a)
    &&& (b matches Item::Directory(d) ==> d.contents@ == Seq::<usize>::empty()
        && d.subdirectories@ == Seq::<usize>::empty())
}

/// The parent link an item itself carries.
pub open spec fn parent_of_idx_item(it: Item) -> int {
    match it {
        Item::Directory(d) => d.parent as int,
        Item::File(f) => f.parent as int,
    }
}

/// Renaming an unlinked node to the tombstone, and emptying its lists,
/// keeps the volume well-formed.
proof fn lemma_wf_tombstone_unlinked(
    n1: Seq<Item>,
    n2: Seq<Item>,
    c: int,
    reg: Seq<usize>,
    sm: Map<u64, u64>,
    frontier: u64,
)
    requires
        wf_arena(n1),
        wf_registry(n1, reg),
        wf_sessions(n1, sm),
        wf_frontier(n1, reg, frontier),
        0 < c < n1.len(),
        unlinked(n1, c),
        n2.len() == n1.len(),
        forall|i: int| 0 <= i < n1.len() && i != c ==> #[trigger] n2[i] == n1[i],
        is_tombstoned_of(n1[c], n2[c]),
    ensures
        wf_arena(n2),
        wf_registry(n2, reg),
        wf_sessions(n2, sm),
        wf_frontier(n2, reg, frontier),
{
    assert(tombstone_seq().len() == 6);
    assert forall|k: int| 0 <= k < tombstone_seq().len() implies keep_byte(
        #[trigger] tombstone_seq()[k],
    ) by {
        if k == 0 {
            assert(tombstone_seq()[0] == 100u8);
        } else if k == 1 {
            assert(tombstone_seq()[1] == 101u8);
        } else if k == 2 {
            assert(tombstone_seq()[2] == 102u8);
        } else if k == 3 {
            assert(tombstone_seq()[3] == 114u8);
        } else if k == 4 {
            assert(tombstone_seq()[4] == 97u8);
        } else {
            assert(tombstone_seq()[5] == 103u8);
        }
    }
    assert forall|i: int| 0 <= i < n2.len() implies #[trigger] wf_node_basic(n2, i) by {
        assert(wf_node_basic(n1, i));
        if i == c {
            assert(!n2[c].live());
        }
    }
    assert forall|i: int|
        1 <= i < n2.len() && n2[i] is Directory implies 0 <= #[trigger] parent_of_idx(n2, i) < i
        && n2[parent_of_idx(n2, i)] is Directory by {
        assert(n1[i] is Directory);
        assert(parent_of_idx(n2, i) == parent_of_idx(n1, i));
        let pi = parent_of_idx(n1, i);
        if pi != c {
            assert(n2[pi] == n1[pi]);
        }
    }
    assert forall|i: int| 0 <= i < n2.len() implies #[trigger] wf_dir_children(n2, i) by {
        assert(wf_dir_children(n1, i));
        if n2[i] is Directory {
            if i == c {
                assert(conts_of(n2, i).len() == 0 && subdirs_of(n2, i).len() == 0);
            } else {
                assert(n2[i] == n1[i]);
                let fs = conts_of(n2, i);
                let ds = subdirs_of(n2, i);
                assert(fs == conts_of(n1, i) && ds == subdirs_of(n1, i));
                assert forall|t: int| 0 <= t < fs.len() implies child_file_ok(
                    n2,
                    i,
                    #[trigger] fs[t] as int,
                ) by {
                    assert(child_file_ok(n1, i, fs[t] as int));
                    assert(fs[t] != c);
                    assert(n2[fs[t] as int] == n1[fs[t] as int]);
                }
                assert forall|t: int| 0 <= t < ds.len() implies child_dir_ok(
                    n2,
                    i,
                    #[trigger] ds[t] as int,
                ) by {
                    assert(child_dir_ok(n1, i, ds[t] as int));
                    assert(ds[t] != c);
                    assert(n2[ds[t] as int] == n1[ds[t] as int]);
                }
                assert forall|t: int, u: int| 0 <= t < u < fs.len() implies file_short_spec(
                    n2[#[trigger] fs[t] as int].name_of(),
                ) != file_short_spec(n2[#[trigger] fs[u] as int].name_of()) by {
                    assert(child_file_ok(n1, i, fs[t] as int));
                    assert(child_file_ok(n1, i, fs[u] as int));
                    assert(fs[t] != c && fs[u] != c);
                    assert(n2[fs[t] as int] == n1[fs[t] as int]);
                    assert(n2[fs[u] as int] == n1[fs[u] as int]);
                    assert(file_short_spec(n1[fs[t] as int].name_of()) != file_short_spec(
                        n1[fs[u] as int].name_of(),
                    ));
                }
                assert forall|t: int, u: int| 0 <= t < u < ds.len() implies last_comp(
                    n2[#[trigger] ds[t] as int].name_of(),
                ) != last_comp(n2[#[trigger] ds[u] as int].name_of()) by {
                    assert(child_dir_ok(n1, i, ds[t] as int));
                    assert(child_dir_ok(n1, i, ds[u] as int));
                    assert(ds[t] != c && ds[u] != c);
                    assert(n2[ds[t] as int] == n1[ds[t] as int]);
                    assert(n2[ds[u] as int] == n1[ds[u] as int]);
                    assert(last_comp(n1[ds[t] as int].name_of()) != last_comp(
                        n1[ds[u] as int].name_of(),
                    ));
                }
            }
        }
    }
    assert forall|j: int| 0 <= j < reg.len() implies 1 <= #[trigger] reg[j] < n2.len()
        && n2[reg[j] as int].registered_of() by {
        if reg[j] as int != c {
            assert(n2[reg[j] as int] == n1[reg[j] as int]);
        }
    }
    assert forall|k: u64| sm.dom().contains(k) implies 0 <= #[trigger] sm[k] < n2.len()
        && n2[sm[k] as int] is Directory by {
        if sm[k] as int != c {
            assert(n2[sm[k] as int] == n1[sm[k] as int]);
        }
    }
    assert forall|j: int| 0 <= j < reg.len() implies {
        let it = n2[#[trigger] reg[j] as int];
        it.live() && it.blkid_of() != NOT_PERSISTED ==> it.blkid_of() + it.footprint_of()
            <= frontier
    } by {
        if reg[j] as int != c {
            assert(n2[reg[j] as int] == n1[reg[j] as int]);
        } else {
            assert(!n2[c].live());
        }
    }
}

/// Two arenas where every node is either kept or taken by the tombstone.
pub open spec fn dropped_frame(n1: Seq<Item>, n2: Seq<Item>) -> bool {
    &&& n1.len() == n2.len()
    &&& (forall|i: int|
        0 <= i < n1.len() ==> (#[trigger] n2[i] == n1[i] || is_tombstoned_of(n1[i], n2[i])))
}

proof fn lemma_tombstoned_compose(a: Item, b: Item, c: Item)
    requires
        is_tombstoned_of(a, b),
        b == c || is_tombstoned_of(b, c),
    ensures
        is_tombstoned_of(a, c),
{
}

proof fn lemma_dropped_frame_trans(a: Seq<Item>, b: Seq<Item>, c: Seq<Item>)
    requires
        dropped_frame(a, b),
        dropped_frame(b, c),
    ensures
        dropped_frame(a, c),
{
    assert forall|i: int| 0 <= i < a.len() implies (#[trigger] c[i] == a[i] || is_tombstoned_of(
        a[i],
        c[i],
    )) by {
        assert(b[i] == a[i] || is_tombstoned_of(a[i], b[i]));
        assert(c[i] == b[i] || is_tombstoned_of(b[i], c[i]));
    }
}

/// Dropping subtrees never links a node anywhere new.
proof fn lemma_dropped_frame_unlinked(n1: Seq<Item>, n2: Seq<Item>, x: int)
    requires
        dropped_frame(n1, n2),
        unlinked(n1, x),
    ensures
        unlinked(n2, x),
{
    assert forall|i: int, t: int|
        0 <= i < n2.len() && 0 <= t < conts_of(n2, i).len() implies #[trigger] conts_of(
        n2,
        i,
    )[t] != x by {
        assert(n2[i] == n1[i] || is_tombstoned_of(n1[i], n2[i]));
        if n2[i] == n1[i] {
            assert(conts_of(n2, i) == conts_of(n1, i));
        } else {
            assert(conts_of(n2, i).len() == 0);
        }
    }
    assert forall|i: int, t: int|
        0 <= i < n2.len() && 0 <= t < subdirs_of(n2, i).len() implies #[trigger] subdirs_of(
        n2,
        i,
    )[t] != x by {
        assert(n2[i] == n1[i] || is_tombstoned_of(n1[i], n2[i]));
        if n2[i] == n1[i] {
            assert(subdirs_of(n2, i) == subdirs_of(n1, i));
        } else {
            assert(subdirs_of(n2, i).len() == 0);
        }
    }
}

/// Taking one slot out of a directory's child-directory list keeps the
/// volume well-formed, and leaves the slot's node unlinked.
#[verifier::rlimit(60)]
#[verifier::spinoff_prover]
proof fn lemma_wf_unlink_subdir(
    n1: Seq<Item>,
    n2: Seq<Item>,
    d: int,
    j: int,
    reg: Seq<usize>,
    sm: Map<u64, u64>,
    frontier: u64,
)
    requires
        wf_arena(n1),
        wf_registry(n1, reg),
        wf_sessions(n1, sm),
        wf_frontier(n1, reg, frontier),
        0 <= d < n1.len(),
        n1[d] is Directory,
        0 <= j < subdirs_of(n1, d).len(),
        n2.len() == n1.len(),
        forall|i: int| 0 <= i < n1.len() && i != d ==> #[trigger] n2[i] == n1[i],
        n2[d] is Directory,
        n2[d].name_of() == n1[d].name_of(),
        n2[d].size_of() == n1[d].size_of(),
        n2[d].time_of() == n1[d].time_of(),
        n2[d].prefix_of() == n1[d].prefix_of(),
        n2[d].blkid_of() == n1[d].blkid_of(),
        n2[d].registered_of() == n1[d].registered_of(),
        parent_of_idx(n2, d) == parent_of_idx(n1, d),
        conts_of(n2, d) == conts_of(n1, d),
        subdirs_of(n2, d) == subdirs_of(n1, d).subrange(0, j) + subdirs_of(n1, d).subrange(
            j + 1,
            subdirs_of(n1, d).len() as int,
        ),
    ensures
        wf_arena(n2),
        wf_registry(n2, reg),
        wf_sessions(n2, sm),
        wf_frontier(n2, reg, frontier),
        unlinked(n2, subdirs_of(n1, d)[j] as int),
{
    let l1 = subdirs_of(n1, d);
    let l2 = subdirs_of(n2, d);
    let c = l1[j] as int;
    assert(wf_dir_children(n1, d));
    assert(child_dir_ok(n1, d, c));
    assert(c != d);
    assert forall|i: int| 0 <= i < n2.len() implies #[trigger] wf_node_basic(n2, i) by {
        assert(wf_node_basic(n1, i));
    }
    assert forall|i: int|
        1 <= i < n2.len() && n2[i] is Directory implies 0 <= #[trigger] parent_of_idx(n2, i) < i
        && n2[parent_of_idx(n2, i)] is Directory by {
        assert(n1[i] is Directory);
        assert(parent_of_idx(n2, i) == parent_of_idx(n1, i));
    }
    assert forall|i: int| 0 <= i < n2.len() implies #[trigger] wf_dir_children(n2, i) by {
        assert(wf_dir_children(n1, i));
        if n2[i] is Directory {
            if i == d {
                assert forall|t: int| 0 <= t < l2.len() implies child_dir_ok(
                    n2,
                    i,
                    #[trigger] l2[t] as int,
                ) by {
                    let t1: int = if t < j {
                        t
                    } else {
                        t + 1
                    };
                    assert(l2[t] == l1[t1]);
                    assert(child_dir_ok(n1, d, l1[t1] as int));
                    if l1[t1] as int != d {
                        assert(n2[l1[t1] as int] == n1[l1[t1] as int]);
                    }
                }
                assert forall|t: int, u: int| 0 <= t < u < l2.len() implies last_comp(
                    n2[#[trigger] l2[t] as int].name_of(),
                ) != last_comp(n2[#[trigger] l2[u] as int].name_of()) by {
                    let t1: int = if t < j {
                        t
                    } else {
                        t + 1
                    };
                    let u1: int = if u < j {
                        u
                    } else {
                        u + 1
                    };
                    assert(l2[t] == l1[t1] && l2[u] == l1[u1]);
                    assert(child_dir_ok(n1, d, l1[t1] as int));
                    assert(child_dir_ok(n1, d, l1[u1] as int));
                    assert(n2[l1[t1] as int].name_of() == n1[l1[t1] as int].name_of());
                    assert(n2[l1[u1] as int].name_of() == n1[l1[u1] as int].name_of());
                    assert(last_comp(n1[l1[t1] as int].name_of()) != last_comp(
                        n1[l1[u1] as int].name_of(),
                    ));
                }
                let fs = conts_of(n2, i);
                assert forall|t: int| 0 <= t < fs.len() implies child_file_ok(
                    n2,
                    i,
                    #[trigger] fs[t] as int,
                ) by {
                    assert(child_file_ok(n1, i, fs[t] as int));
                    assert(n2[fs[t] as int] == n1[fs[t] as int]);
                }
                assert forall|t: int, u: int| 0 <= t < u < fs.len() implies file_short_spec(
                    n2[#[trigger] fs[t] as int].name_of(),
                ) != file_short_spec(n2[#[trigger] fs[u] as int].name_of()) by {
                    assert(child_file_ok(n1, i, fs[t] as int));
                    assert(child_file_ok(n1, i, fs[u] as int));
                    assert(n2[fs[t] as int] == n1[fs[t] as int]);
                    assert(n2[fs[u] as int] == n1[fs[u] as int]);
                    assert(file_short_spec(n1[fs[t] as int].name_of()) != file_short_spec(
                        n1[fs[u] as int].name_of(),
                    ));
                }
            } else {
                assert(n2[i] == n1[i]);
                let fs = conts_of(n2, i);
                let ds = subdirs_of(n2, i);
                assert(fs == conts_of(n1, i) && ds == subdirs_of(n1, i));
                assert forall|t: int| 0 <= t < fs.len() implies child_file_ok(
                    n2,
                    i,
                    #[trigger] fs[t] as int,
                ) by {
                    assert(child_file_ok(n1, i, fs[t] as int));
                    assert(n2[fs[t] as int] == n1[fs[t] as int]);
                }
                assert forall|t: int| 0 <= t < ds.len() implies child_dir_ok(
                    n2,
                    i,
                    #[trigger] ds[t] as int,
                ) by {
                    assert(child_dir_ok(n1, i, ds[t] as int));
                    if ds[t] as int != d {
                        assert(n2[ds[t] as int] == n1[ds[t] as int]);
                    }
                }
                assert forall|t: int, u: int| 0 <= t < u < fs.len() implies file_short_spec(
                    n2[#[trigger] fs[t] as int].name_of(),
                ) != file_short_spec(n2[#[trigger] fs[u] as int].name_of()) by {
                    assert(child_file_ok(n1, i, fs[t] as int));
                    assert(child_file_ok(n1, i, fs[u] as int));
                    assert(n2[fs[t] as int] == n1[fs[t] as int]);
                    assert(n2[fs[u] as int] == n1[fs[u] as int]);
                    assert(file_short_spec(n1[fs[t] as int].name_of()) != file_short_spec(
                        n1[fs[u] as int].name_of(),
                    ));
                }
                assert forall|t: int, u: int| 0 <= t < u < ds.len() implies last_comp(
                    n2[#[trigger] ds[t] as int].name_of(),
                ) != last_comp(n2[#[trigger] ds[u] as int].name_of()) by {
                    assert(child_dir_ok(n1, i, ds[t] as int));
                    assert(child_dir_ok(n1, i, ds[u] as int));
                    assert(n2[ds[t] as int].name_of() == n1[ds[t] as int].name_of());
                    assert(n2[ds[u] as int].name_of() == n1[ds[u] as int].name_of());
                    assert(last_comp(n1[ds[t] as int].name_of()) != last_comp(
                        n1[ds[u] as int].name_of(),
                    ));
                }
            }
        }
    }
    assert forall|t: int| 0 <= t < reg.len() implies 1 <= #[trigger] reg[t] < n2.len()
        && n2[reg[t] as int].registered_of() by {
        if reg[t] as int != d {
            assert(n2[reg[t] as int] == n1[reg[t] as int]);
        }
    }
    assert forall|k: u64| sm.dom().contains(k) implies 0 <= #[trigger] sm[k] < n2.len()
        && n2[sm[k] as int] is Directory by {
        if sm[k] as int != d {
            assert(n2[sm[k] as int] == n1[sm[k] as int]);
        }
    }
    assert forall|t: int| 0 <= t < reg.len() implies {
        let it = n2[#[trigger] reg[t] as int];
        it.live() && it.blkid_of() != NOT_PERSISTED ==> it.blkid_of() + it.footprint_of()
            <= frontier
    } by {
        if reg[t] as int != d {
            assert(n2[reg[t] as int] == n1[reg[t] as int]);
        } else {
            assert(n2[d].live() == n1[d].live());
            assert(n2[d].footprint_of() == n1[d].footprint_of());
        }
    }
    // the removed slot held the node's only link
    assert forall|i: int, t: int|
        0 <= i < n2.len() && 0 <= t < conts_of(n2, i).len() implies #[trigger] conts_of(
        n2,
        i,
    )[t] != c by {
        if conts_of(n2, i)[t] == c {
            assert(conts_of(n2, i) == conts_of(n1, i));
            assert(wf_dir_children(n1, i));
            assert(child_file_ok(n1, i, c));
            assert(n1[c] is Directory);
        }
    }
    assert forall|i: int, t: int|
        0 <= i < n2.len() && 0 <= t < subdirs_of(n2, i).len() implies #[trigger] subdirs_of(
        n2,
        i,
    )[t] != c by {
        if subdirs_of(n2, i)[t] == c {
            if i != d {
                assert(subdirs_of(n2, i) == subdirs_of(n1, i));
                assert(wf_dir_children(n1, i));
                assert(child_dir_ok(n1, i, c));
                assert(parent_of_idx(n1, c) == i && parent_of_idx(n1, c) == d);
            } else {
                let t1: int = if t < j {
                    t
                } else {
                    t + 1
                };
                assert(l2[t] == l1[t1] && t1 != j);
                assert(child_dir_ok(n1, d, l1[t1] as int));
                assert(last_comp(n1[l1[t1] as int].name_of()) != last_comp(
                    n1[l1[j] as int].name_of(),
                ));
            }
        }
    }
}

/// The reserved tombstone name, as a vector.
fn tombstone_name() -> (r: Vec<u8>)
    ensures
        r@ == tombstone_seq(),
{
    let mut r: Vec<u8> = Vec::new();
    r.push(100);
    r.push(101);
    r.push(102);
    r.push(114);
    r.push(97);
    r.push(103);
    proof {
        assert(r@ =~= tombstone_seq());
    }
    r
}

/// Appending a matching slot to a list with no match makes the lookup
/// find exactly the new slot.
pub proof fn lemma_find_file_push(nodes: Seq<Item>, list: Seq<usize>, idx: usize, leaf: Seq<u8>)
    requires
        forall|t: int|
            0 <= t < list.len() ==> !(0 <= #[trigger] list[t] < nodes.len() && file_short_spec(
                nodes[list[t] as int].name_of(),
            ) == leaf),
        0 <= idx < nodes.len(),
        file_short_spec(nodes[idx as int].name_of()) == leaf,
    ensures
        find_file_in(nodes, list.push(idx), leaf) == Some(idx as int),
    decreases list.len(),
{
    let l2 = list.push(idx);
    if list.len() == 0 {
        assert(l2.len() == 1 && l2[0] == idx);
    } else {
        assert(l2[0] == list[0]);
        assert(!(0 <= list[0] < nodes.len() && file_short_spec(nodes[list[0] as int].name_of())
            == leaf));
        assert(l2.drop_first() =~= list.drop_first().push(idx));
        assert(forall|t: int|
            0 <= t < list.drop_first().len() ==> !(0 <= #[trigger] list.drop_first()[t]
                < nodes.len() && file_short_spec(nodes[list.drop_first()[t] as int].name_of())
                == leaf));
        lemma_find_file_push(nodes, list.drop_first(), idx, leaf);
    }
}

/// When no slot of a list answers to the leaf, the lookup fails.
pub proof fn lemma_find_file_none(nodes: Seq<Item>, list: Seq<usize>, leaf: Seq<u8>)
    requires
        forall|t: int|
            0 <= t < list.len() ==> !(0 <= #[trigger] list[t] < nodes.len() && file_short_spec(
                nodes[list[t] as int].name_of(),
            ) == leaf),
    ensures
        find_file_in(nodes, list, leaf) is None,
    decreases list.len(),
{
    if list.len() > 0 {
        assert(forall|t: int|
            0 <= t < list.drop_first().len() ==> !(0 <= #[trigger] list.drop_first()[t]
                < nodes.len() && file_short_spec(nodes[list.drop_first()[t] as int].name_of())
                == leaf));
        lemma_find_file_none(nodes, list.drop_first(), leaf);
    }
}

/// Unlinking a file slot and renaming the node to the tombstone keeps the
/// volume well-formed.
proof fn lemma_wf_after_file_tombstone(
    n1: Seq<Item>,
    n2: Seq<Item>,
    d: int,
    c: int,
    j: int,
    reg: Seq<usize>,
    sm: Map<u64, u64>,
    frontier: u64,
)
    requires
        wf_arena(n1),
        wf_registry(n1, reg),
        wf_sessions(n1, sm),
        wf_frontier(n1, reg, frontier),
        0 <= d < n1.len(),
        n1[d] is Directory,
        0 <= j < conts_of(n1, d).len(),
        conts_of(n1, d)[j] == c,
        n2.len() == n1.len(),
        forall|i: int| 0 <= i < n1.len() && i != d && i != c ==> #[trigger] n2[i] == n1[i],
        n2[c] is File,
        n2[c].name_of() == tombstone_seq(),
        n2[c].size_of() == n1[c].size_of(),
        n2[c].data_of() == n1[c].data_of(),
        n2[c].time_of() == n1[c].time_of(),
        n2[c].prefix_of() == n1[c].prefix_of(),
        n2[c].blkid_of() == n1[c].blkid_of(),
        n2[c].registered_of() == n1[c].registered_of(),
        parent_of_idx(n2, c) == parent_of_idx(n1, c),
        n2[d] is Directory,
        n2[d].name_of() == n1[d].name_of(),
        n2[d].size_of() == n1[d].size_of(),
        n2[d].time_of() == n1[d].time_of(),
        n2[d].prefix_of() == n1[d].prefix_of(),
        n2[d].blkid_of() == n1[d].blkid_of(),
        n2[d].registered_of() == n1[d].registered_of(),
        parent_of_idx(n2, d) == parent_of_idx(n1, d),
        subdirs_of(n2, d) == subdirs_of(n1, d),
        conts_of(n2, d) == conts_of(n1, d).subrange(0, j) + conts_of(n1, d).subrange(
            j + 1,
            conts_of(n1, d).len() as int,
        ),
    ensures
        wf_arena(n2),
        wf_registry(n2, reg),
        wf_sessions(n2, sm),
        wf_frontier(n2, reg, frontier),
{
    let l1 = conts_of(n1, d);
    let l2 = conts_of(n2, d);
    assert(wf_dir_children(n1, d));
    assert(child_file_ok(n1, d, c));
    assert(c != d);
    assert(c != 0);
    // the tombstone name is a sound node name
    assert(tombstone_seq().len() == 6);
    assert forall|k: int| 0 <= k < tombstone_seq().len() implies keep_byte(
        #[trigger] tombstone_seq()[k],
    ) by {
        if k == 0 {
            assert(tombstone_seq()[0] == 100u8);
        } else if k == 1 {
            assert(tombstone_seq()[1] == 101u8);
        } else if k == 2 {
            assert(tombstone_seq()[2] == 102u8);
        } else if k == 3 {
            assert(tombstone_seq()[3] == 114u8);
        } else if k == 4 {
            assert(tombstone_seq()[4] == 97u8);
        } else {
            assert(tombstone_seq()[5] == 103u8);
        }
    }
    assert forall|i: int| 0 <= i < n2.len() implies #[trigger] wf_node_basic(n2, i) by {
        assert(wf_node_basic(n1, i));
    }
    assert forall|i: int|
        1 <= i < n2.len() && n2[i] is Directory implies 0 <= #[trigger] parent_of_idx(n2, i) < i
        && n2[parent_of_idx(n2, i)] is Directory by {
        assert(n1[i] is Directory);
        assert(parent_of_idx(n2, i) == parent_of_idx(n1, i));
    }
    assert forall|i: int| 0 <= i < n2.len() implies #[trigger] wf_dir_children(n2, i) by {
        assert(wf_dir_children(n1, i));
        if n2[i] is Directory {
            assert(n1[i] is Directory);
            if i == d {
                assert forall|t: int| 0 <= t < l2.len() implies child_file_ok(
                    n2,
                    i,
                    #[trigger] l2[t] as int,
                ) by {
                    let x = l2[t] as int;
                    let t1: int = if t < j {
                        t
                    } else {
                        t + 1
                    };
                    assert(l2[t] == l1[t1]);
                    assert(child_file_ok(n1, d, x));
                    assert(x != c) by {
                        if x == c && t1 != j {
                            assert(file_short_spec(n1[l1[t1] as int].name_of())
                                == file_short_spec(n1[l1[j] as int].name_of()));
                            assert(false);
                        }
                    }
                    assert(n2[x] == n1[x]);
                }
                assert forall|t: int, u: int| 0 <= t < u < l2.len() implies file_short_spec(
                    n2[#[trigger] l2[t] as int].name_of(),
                ) != file_short_spec(n2[#[trigger] l2[u] as int].name_of()) by {
                    let t1: int = if t < j {
                        t
                    } else {
                        t + 1
                    };
                    let u1: int = if u < j {
                        u
                    } else {
                        u + 1
                    };
                    assert(l2[t] == l1[t1] && l2[u] == l1[u1]);
                    assert(child_file_ok(n1, d, l1[t1] as int));
                    assert(child_file_ok(n1, d, l1[u1] as int));
                    assert(l1[t1] as int != c && l1[u1] as int != c) by {
                        if l1[t1] as int == c && t1 != j {
                            assert(file_short_spec(n1[l1[t1] as int].name_of())
                                == file_short_spec(n1[l1[j] as int].name_of()));
                            assert(false);
                        }
                        if l1[u1] as int == c && u1 != j {
                            assert(file_short_spec(n1[l1[u1] as int].name_of())
                                == file_short_spec(n1[l1[j] as int].name_of()));
                            assert(false);
                        }
                    }
                    assert(n2[l1[t1] as int] == n1[l1[t1] as int]);
                    assert(n2[l1[u1] as int] == n1[l1[u1] as int]);
                    assert(file_short_spec(n1[l1[t1] as int].name_of()) != file_short_spec(
                        n1[l1[u1] as int].name_of(),
                    ));
                }
                let ds = subdirs_of(n2, i);
                assert forall|t: int| 0 <= t < ds.len() implies child_dir_ok(
                    n2,
                    i,
                    #[trigger] ds[t] as int,
                ) by {
                    let y = ds[t] as int;
                    assert(child_dir_ok(n1, d, y));
                    assert(y != c) by {
                        assert(n1[y] is Directory);
                        assert(n1[c] is File);
                    }
                    assert(n2[y] == n1[y]);
                }
                assert forall|t: int, u: int| 0 <= t < u < ds.len() implies last_comp(
                    n2[#[trigger] ds[t] as int].name_of(),
                ) != last_comp(n2[#[trigger] ds[u] as int].name_of()) by {
                    assert(child_dir_ok(n1, d, ds[t] as int));
                    assert(child_dir_ok(n1, d, ds[u] as int));
                    assert(n1[ds[t] as int] is Directory && n1[ds[u] as int] is Directory);
                    assert(n2[ds[t] as int] == n1[ds[t] as int]);
                    assert(n2[ds[u] as int] == n1[ds[u] as int]);
                }
            } else {
                let fs = conts_of(n2, i);
                let ds = subdirs_of(n2, i);
                assert(n2[i] == n1[i]) by {
                    assert(i != c) by {
                        assert(n1[c] is File);
                    }
                }
                assert(fs == conts_of(n1, i));
                assert(ds == subdirs_of(n1, i));
                assert forall|t: int| 0 <= t < fs.len() implies child_file_ok(
                    n2,
                    i,
                    #[trigger] fs[t] as int,
                ) by {
                    let x = fs[t] as int;
                    assert(child_file_ok(n1, i, x));
                    assert(x != c) by {
                        if x == c {
                            assert(parent_of_idx(n1, c) == i);
                            assert(parent_of_idx(n1, c) == d);
                        }
                    }
                    assert(x != d) by {
                        assert(n1[x] is File && n1[d] is Directory);
                    }
                    assert(n2[x] == n1[x]);
                }
                assert forall|t: int| 0 <= t < ds.len() implies child_dir_ok(
                    n2,
                    i,
                    #[trigger] ds[t] as int,
                ) by {
                    let y = ds[t] as int;
                    assert(child_dir_ok(n1, i, y));
                    assert(y != c) by {
                        assert(n1[y] is Directory && n1[c] is File);
                    }
                    if y == d {
                        assert(n2[y].name_of() == n1[y].name_of());
                        assert(n2[y].live() == n1[y].live());
                    } else {
                        assert(n2[y] == n1[y]);
                    }
                }
                assert forall|t: int, u: int| 0 <= t < u < fs.len() implies file_short_spec(
                    n2[#[trigger] fs[t] as int].name_of(),
                ) != file_short_spec(n2[#[trigger] fs[u] as int].name_of()) by {
                    assert(child_file_ok(n1, i, fs[t] as int));
                    assert(child_file_ok(n1, i, fs[u] as int));
                    assert(fs[t] as int != c && fs[u] as int != c) by {
                        if fs[t] as int == c {
                            assert(parent_of_idx(n1, c) == i && parent_of_idx(n1, c) == d);
                        }
                        if fs[u] as int == c {
                            assert(parent_of_idx(n1, c) == i && parent_of_idx(n1, c) == d);
                        }
                    }
                    assert(n2[fs[t] as int] == n1[fs[t] as int]);
                    assert(n2[fs[u] as int] == n1[fs[u] as int]);
                }
                assert forall|t: int, u: int| 0 <= t < u < ds.len() implies last_comp(
                    n2[#[trigger] ds[t] as int].name_of(),
                ) != last_comp(n2[#[trigger] ds[u] as int].name_of()) by {
                    assert(child_dir_ok(n1, i, ds[t] as int));
                    assert(child_dir_ok(n1, i, ds[u] as int));
                    assert(ds[t] as int != c && ds[u] as int != c) by {
                        assert(n1[ds[t] as int] is Directory && n1[ds[u] as int] is Directory
                            && n1[c] is File);
                    }
                    assert(n2[ds[t] as int].name_of() == n1[ds[t] as int].name_of());
                    assert(n2[ds[u] as int].name_of() == n1[ds[u] as int].name_of());
                }
            }
        }
    }
    assert forall|i: int| 0 <= i < reg.len() implies 1 <= #[trigger] reg[i] < n2.len()
        && n2[reg[i] as int].registered_of() by {
        assert(n1[reg[i] as int].registered_of());
        if reg[i] as int != c && reg[i] as int != d {
            assert(n2[reg[i] as int] == n1[reg[i] as int]);
        }
    }
    assert forall|k: u64| sm.dom().contains(k) implies 0 <= #[trigger] sm[k] < n2.len()
        && n2[sm[k] as int] is Directory by {
        assert(n1[sm[k] as int] is Directory);
        assert(sm[k] as int != c) by {
            assert(n1[c] is File);
        }
        if sm[k] as int != d {
            assert(n2[sm[k] as int] == n1[sm[k] as int]);
        }
    }
    assert forall|i: int| 0 <= i < reg.len() implies {
        let it = n2[#[trigger] reg[i] as int];
        it.live() && it.blkid_of() != NOT_PERSISTED ==> it.blkid_of() + it.footprint_of()
            <= frontier
    } by {
        let x = reg[i] as int;
        if x != c && x != d {
            assert(n2[x] == n1[x]);
        } else {
            let a = n1[x];
            let b = n2[x];
            assert(a.footprint_of() == b.footprint_of());
            if b.live() {
                assert(a.live()) by {
                    if x == c {
                        assert(b.name_of() == tombstone_seq());
                        assert(!b.live());
                    } else {
                        assert(b.name_of() == a.name_of());
                    }
                }
            }
        }
    }
}

// ---------------------------------------------------------------------------
// The mount scan, in spec
// ---------------------------------------------------------------------------

/// The 512 bytes of sector `i`.
pub open spec fn sector_at(dev: Seq<u8>, i: int) -> Seq<u8> {
    dev.subrange(i * 512, i * 512 + 512)
}

/// Whether sector `i` carries the magic sequence of a record.
pub open spec fn magic_at(dev: Seq<u8>, i: int) -> bool {
    sector_at(dev, i).subrange(257, 265) == magic_seq()
}

/// Sectors the record at `i` makes the scan step over: its header, and for
/// a file record the payload sectors its size field declares.
pub open spec fn record_span(dev: Seq<u8>, i: int) -> int {
    if sector_at(dev, i)[156] == crate::codec::TYPE_FILE {
        1 + payload_sectors(decoded_size(sector_at(dev, i))) as int
    } else {
        1
    }
}

/// Where the scan started at `i` stops: the first reachable sector without
/// the magic sequence, walking record by record; a record running past the
/// scannable span ends the scan at the span.
pub open spec fn scan_end(dev: Seq<u8>, i: int, limit: int) -> int
    decreases limit - i,
{
    if i >= limit || !magic_at(dev, i) {
        i
    } else if i + record_span(dev, i) > limit {
        limit
    } else {
        scan_end(dev, i + record_span(dev, i), limit)
    }
}

/// The name bytes a record at sector `p` carries, NUL padding dropped.
pub open spec fn rec_name(dev: Seq<u8>, p: int) -> Seq<u8> {
    crate::codec::ascii_content(sector_at(dev, p).subrange(0, 100))
}

/// The payload a file record at sector `p` declares: the bytes after its
/// header, truncated to its size field.
pub open spec fn rec_payload(dev: Seq<u8>, p: int) -> Seq<u8> {
    dev.subrange((p + 1) * 512, (p + 1) * 512 + decoded_size(sector_at(dev, p)))
}

/// Whether the scan from `i` stands at position `p` at some step.
pub open spec fn scan_reaches(dev: Seq<u8>, i: int, limit: int, p: int) -> bool
    decreases limit - i,
{
    if p == i {
        true
    } else if i >= limit || !magic_at(dev, i) {
        false
    } else if i + record_span(dev, i) > limit {
        false
    } else {
        scan_reaches(dev, i + record_span(dev, i), limit, p)
    }
}

/// Whether the scan from `i` reads a record at position `p`.
pub open spec fn scan_visits(dev: Seq<u8>, i: int, limit: int, p: int) -> bool {
    scan_reaches(dev, i, limit, p) && p < limit && magic_at(dev, p)
}

/// Scan positions never move backwards.
proof fn lemma_reaches_lower(dev: Seq<u8>, i: int, limit: int, c: int)
    requires
        scan_reaches(dev, i, limit, c),
    ensures
        c >= i,
    decreases limit - i,
{
    if c != i {
        lemma_reaches_lower(dev, i + record_span(dev, i), limit, c);
    }
}

/// Two positions of one chain are ordered along it.
proof fn lemma_reaches_total(dev: Seq<u8>, i: int, limit: int, a: int, b: int)
    requires
        scan_reaches(dev, i, limit, a),
        scan_reaches(dev, i, limit, b),
    ensures
        scan_reaches(dev, a, limit, b) || scan_reaches(dev, b, limit, a),
    decreases limit - i,
{
    if a == i || b == i {
    } else {
        lemma_reaches_total(dev, i + record_span(dev, i), limit, a, b);
    }
}

/// Every record the scan reads lies before the position it stops at.
proof fn lemma_visits_below_stop(dev: Seq<u8>, i: int, limit: int, c: int, p: int)
    requires
        scan_reaches(dev, i, limit, c),
        c >= limit || !magic_at(dev, c),
        scan_reaches(dev, i, limit, p),
        p < limit,
        magic_at(dev, p),
    ensures
        p < c,
    decreases limit - i,
{
    if c == i {
        assert(p != i);
        assert(false);
    } else {
        let nxt = i + record_span(dev, i);
        if p == i {
            lemma_reaches_lower(dev, nxt, limit, c);
        } else {
            lemma_visits_below_stop(dev, nxt, limit, c, p);
        }
    }
}

/// Reading one more record extends the chain by its span.
proof fn lemma_reaches_step(dev: Seq<u8>, i: int, limit: int, c: int)
    requires
        scan_reaches(dev, i, limit, c),
        c < limit,
        magic_at(dev, c),
        c + record_span(dev, c) <= limit,
    ensures
        scan_reaches(dev, i, limit, c + record_span(dev, c)),
    decreases limit - i,
{
    if c == i {
        assert(record_span(dev, i) >= 1);
        assert(scan_reaches(dev, i + record_span(dev, i), limit, i + record_span(dev, i)));
    } else {
        lemma_reaches_step(dev, i + record_span(dev, i), limit, c);
    }
}

/// The scan never stands strictly inside a record it has read whole.
proof fn lemma_no_interior(dev: Seq<u8>, limit: int, h: int, p: int)
    requires
        scan_reaches(dev, 0, limit, h),
        h < limit,
        magic_at(dev, h),
        h + record_span(dev, h) <= limit,
        h < p < h + record_span(dev, h),
    ensures
        !scan_visits(dev, 0, limit, p),
{
    if scan_reaches(dev, 0, limit, p) {
        lemma_reaches_total(dev, 0, limit, h, p);
        if scan_reaches(dev, p, limit, h) {
            lemma_reaches_lower(dev, p, limit, h);
        } else {
            lemma_reaches_lower(dev, h + record_span(dev, h), limit, p);
        }
        assert(false);
    }
}

/// Past a record that overruns the scannable span, nothing is read.
proof fn lemma_no_beyond(dev: Seq<u8>, limit: int, h: int, p: int)
    requires
        scan_reaches(dev, 0, limit, h),
        h < limit,
        magic_at(dev, h),
        h + record_span(dev, h) > limit,
        p > h,
    ensures
        !scan_visits(dev, 0, limit, p),
{
    if scan_reaches(dev, 0, limit, p) {
        lemma_reaches_total(dev, 0, limit, h, p);
        if scan_reaches(dev, p, limit, h) {
            lemma_reaches_lower(dev, p, limit, h);
        }
        assert(false);
    }
}

/// A scanned, whole, live, fitting file record leaves a file node at its
/// canonical path.
pub open spec fn scanned_file_present(dev: Seq<u8>, gl: int, nodes: Seq<Item>, p: int) -> bool {
    (scan_visits(dev, 0, gl, p) && p + record_span(dev, p) <= gl && sector_at(dev, p)[156]
        == crate::codec::TYPE_FILE && rec_name(dev, p) != tombstone_seq() && file_record_fits(
        rec_name(dev, p),
    )) ==> exists|i: int|
        0 <= i < nodes.len() && (#[trigger] nodes[i]) is File && nodes[i].name_of()
            == canonical_file_name(rec_name(dev, p))
}

/// A scanned, live, fitting directory record leaves a directory node at
/// its canonical path.
pub open spec fn scanned_dir_present(dev: Seq<u8>, gl: int, nodes: Seq<Item>, p: int) -> bool {
    (scan_visits(dev, 0, gl, p) && sector_at(dev, p)[156] == crate::codec::TYPE_DIR && rec_name(
        dev,
        p,
    ) != tombstone_seq() && dir_record_fits(rec_name(dev, p))) ==> exists|i: int|
        0 <= i < nodes.len() && (#[trigger] nodes[i]) is Directory && nodes[i].name_of()
            == canonical_dir_name(rec_name(dev, p))
}

/// Every file node of the tree carries exactly what its own record on the
/// device declares: a whole file record stands at its block, its name
/// spells the node's path, and the node's payload is the record's payload
/// truncated to the size field.
pub open spec fn file_nodes_sound(dev: Seq<u8>, gl: int, nodes: Seq<Item>) -> bool {
    forall|i: int|
        0 <= i < nodes.len() && (#[trigger] nodes[i]) is File ==> ({
            let b = nodes[i].blkid_of() as int;
            &&& magic_at(dev, b)
            &&& sector_at(dev, b)[156] == crate::codec::TYPE_FILE
            &&& b + record_span(dev, b) <= gl
            &&& nodes[i].name_of() == canonical_file_name(rec_name(dev, b))
            &&& nodes[i].data_of() == rec_payload(dev, b)
        })
}

/// A tree that keeps every node's name and kind keeps every record's
/// presence witness.
proof fn lemma_presence_frame(dev: Seq<u8>, gl: int, n1: Seq<Item>, n2: Seq<Item>, p: int)
    requires
        scanned_file_present(dev, gl, n1, p),
        scanned_dir_present(dev, gl, n1, p),
        n2.len() >= n1.len(),
        forall|i: int|
            0 <= i < n1.len() ==> (#[trigger] n2[i]).name_of() == n1[i].name_of() && (n2[i] is File
                <==> n1[i] is File),
    ensures
        scanned_file_present(dev, gl, n2, p),
        scanned_dir_present(dev, gl, n2, p),
{
    if scan_visits(dev, 0, gl, p) && p + record_span(dev, p) <= gl && sector_at(dev, p)[156]
        == crate::codec::TYPE_FILE && rec_name(dev, p) != tombstone_seq() && file_record_fits(
        rec_name(dev, p),
    ) {
        let w = choose|i: int|
            0 <= i < n1.len() && (#[trigger] n1[i]) is File && n1[i].name_of()
                == canonical_file_name(rec_name(dev, p));
        assert(n2[w] is File && n2[w].name_of() == canonical_file_name(rec_name(dev, p)));
    }
    if scan_visits(dev, 0, gl, p) && sector_at(dev, p)[156] == crate::codec::TYPE_DIR && rec_name(
        dev,
        p,
    ) != tombstone_seq() && dir_record_fits(rec_name(dev, p)) {
        let w = choose|i: int|
            0 <= i < n1.len() && (#[trigger] n1[i]) is Directory && n1[i].name_of()
                == canonical_dir_name(rec_name(dev, p));
        assert(n2[w] is Directory && n2[w].name_of() == canonical_dir_name(rec_name(dev, p)));
    }
}

/// The full path the tree gives a scanned file record: a leading
/// separator, the parent components each closed by a separator, and the
/// leaf.
pub open spec fn canonical_file_name(raw: Seq<u8>) -> Seq<u8> {
    let parts = split_path_spec(raw);
    seq![47u8] + join_dir(parts.drop_last()) + parts.last()
}

/// The full path the tree gives a scanned directory record.
pub open spec fn canonical_dir_name(raw: Seq<u8>) -> Seq<u8> {
    seq![47u8] + join_dir(split_path_spec(raw))
}

/// Whether a file record's name can live in the tree: it has components,
/// a nonempty leaf, and its canonical path fits the name field.
pub open spec fn file_record_fits(raw: Seq<u8>) -> bool {
    let parts = split_path_spec(raw);
    &&& parts.len() > 0
    &&& parts.last().len() > 0
    &&& canonical_file_name(raw).len() <= 100
}

/// Whether a directory record's name can live in the tree.
pub open spec fn dir_record_fits(raw: Seq<u8>) -> bool {
    &&& split_path_spec(raw).len() > 0
    &&& canonical_dir_name(raw).len() <= 100
}

/// The sectors a mount can reach: the device's, capped at the span a
/// 32-bit sector index addresses.
pub open spec fn scan_span(dl: int) -> int {
    if dl / 512 > 0xffff_0000 {
        0xffff_0000
    } else {
        dl / 512
    }
}

// ---------------------------------------------------------------------------
// Write-back, in spec
// ---------------------------------------------------------------------------

/// The stored type flag of an item.
pub open spec fn type_flag_of(it: Item) -> u8 {
    if it is File {
        crate::codec::TYPE_FILE
    } else {
        crate::codec::TYPE_DIR
    }
}

/// The checksum an item's encoded header carries.
pub open spec fn item_cksum(it: Item) -> nat {
    crate::codec::header_sum(
        crate::codec::header_with_cksum(
            it.name_of(),
            it.size_of(),
            it.time_of(),
            it.prefix_of(),
            type_flag_of(it),
            0,
        ),
    )
}

/// An item after write-back visited it: a dirty item comes out clean with a
/// fresh checksum; a clean one is untouched.
pub open spec fn persisted_item(it: Item) -> Item {
    if it.dirty_of() {
        match it {
            Item::File(f) => Item::File(
                File { write: false, checksum: item_cksum(it) as u64, ..f },
            ),
            Item::Directory(d) => Item::Directory(
                Directory { write: false, checksum: item_cksum(it) as u64, ..d },
            ),
        }
    } else {
        it
    }
}

/// An item carrying the registry mark.
pub open spec fn registered_item(it: Item) -> Item {
    match it {
        Item::File(f) => Item::File(File { registered: true, ..f }),
        Item::Directory(d) => Item::Directory(Directory { registered: true, ..d }),
    }
}

/// An item marked for write-back.
pub open spec fn dirtied_item(it: Item) -> Item {
    match it {
        Item::File(f) => Item::File(File { write: true, ..f }),
        Item::Directory(d) => Item::Directory(Directory { write: true, ..d }),
    }
}

/// Whether `i` is one of the first `j` registry slots.
pub open spec fn in_prefix(reg: Seq<usize>, j: int, i: int) -> bool {
    exists|t: int| 0 <= t < j && reg[t] == i
}

/// Whether the item's sectors lie within the device and within the span a
/// 32-bit sector index reaches.
pub open spec fn item_fits(it: Item, dl: nat) -> bool {
    it.dirty_of() ==> {
        &&& it.blkid_of() * 512 + it.footprint_of() * 512 <= dl
        &&& it.blkid_of() + it.footprint_of() <= 0x1_0000_0000
    }
}

/// Whether write-back can place every dirty item and the end-of-volume
/// marks.
pub open spec fn can_persist(nodes: Seq<Item>, reg: Seq<usize>, dl: nat, frontier: u64) -> bool {
    &&& (forall|j: int| 0 <= j < reg.len() ==> item_fits(nodes[#[trigger] reg[j] as int], dl))
    &&& (frontier + 2) * 512 <= dl
    &&& frontier + 2 <= 0x1_0000_0000
}

/// The device after the first `n` registry slots were written out: each
/// dirty one lays its image at its block.
pub open spec fn write_out(dev: Seq<u8>, nodes: Seq<Item>, reg: Seq<usize>, n: int) -> Seq<u8>
    decreases n,
{
    if n <= 0 {
        dev
    } else {
        let prev = write_out(dev, nodes, reg, n - 1);
        let it = nodes[reg[n - 1] as int];
        if it.dirty_of() {
            crate::device::overwrite(prev, it.blkid_of() as int * 512, it.image_of())
        } else {
            prev
        }
    }
}

/// The device after a whole write-back pass: every dirty item written,
/// then two zero sectors at the frontier.
pub open spec fn persist_image(dev: Seq<u8>, nodes: Seq<Item>, reg: Seq<usize>, frontier: u64) -> Seq<u8> {
    let written = write_out(dev, nodes, reg, reg.len() as int);
    let z1 = crate::device::overwrite(written, frontier as int * 512, crate::codec::zeros(512));
    crate::device::overwrite(z1, (frontier + 1) * 512, crate::codec::zeros(512))
}

/// With no dirty slot, the write-back pass leaves the device unchanged.
proof fn lemma_write_out_clean(dev: Seq<u8>, nodes: Seq<Item>, reg: Seq<usize>, n: int)
    requires
        forall|j: int| 0 <= j < n ==> !(#[trigger] nodes[reg[j] as int]).dirty_of(),
    ensures
        write_out(dev, nodes, reg, n) == dev,
    decreases n,
{
    if n > 0 {
        lemma_write_out_clean(dev, nodes, reg, n - 1);
        assert(!nodes[reg[n - 1] as int].dirty_of());
    }
}

/// Persisting a volume none of whose registered items awaits write-back
/// changes no byte below the frontier: every record an earlier scan read
/// stays exactly as it was, and only the two end-of-volume marks are laid
/// down at the frontier.
pub proof fn lemma_clean_persist_below_frontier(
    dev: Seq<u8>,
    nodes: Seq<Item>,
    reg: Seq<usize>,
    frontier: u64,
)
    requires
        forall|j: int| 0 <= j < reg.len() ==> !(#[trigger] nodes[reg[j] as int]).dirty_of(),
        frontier * 512 <= dev.len(),
    ensures
        persist_image(dev, nodes, reg, frontier).len() == dev.len(),
        forall|k: int|
            0 <= k < frontier * 512 ==> #[trigger] persist_image(dev, nodes, reg, frontier)[k]
                == dev[k],
{
    lemma_write_out_clean(dev, nodes, reg, reg.len() as int);
}

/// Both ends of where a scan stops lie between its start and its span.
proof fn lemma_scan_end_bounds(dev: Seq<u8>, i: int, limit: int)
    requires
        0 <= i <= limit,
    ensures
        i <= scan_end(dev, i, limit) <= limit,
    decreases limit - i,
{
    if i >= limit || !magic_at(dev, i) {
    } else if i + record_span(dev, i) > limit {
    } else {
        lemma_scan_end_bounds(dev, i + record_span(dev, i), limit);
    }
}

/// A scan that stops short of its span stops on a sector without the
/// magic sequence.
proof fn lemma_scan_end_stop(dev: Seq<u8>, i: int, limit: int)
    requires
        0 <= i <= limit,
    ensures
        scan_end(dev, i, limit) == limit || !magic_at(dev, scan_end(dev, i, limit)),
    decreases limit - i,
{
    if i >= limit || !magic_at(dev, i) {
    } else if i + record_span(dev, i) > limit {
    } else {
        lemma_scan_end_stop(dev, i + record_span(dev, i), limit);
    }
}

/// The scan stops at or after every position its chain stands at.
proof fn lemma_scan_end_above(dev: Seq<u8>, i: int, limit: int, c: int)
    requires
        scan_reaches(dev, i, limit, c),
        0 <= i <= limit,
    ensures
        scan_end(dev, i, limit) >= c,
    decreases limit - i,
{
    if c == i {
        lemma_scan_end_bounds(dev, i, limit);
    } else {
        lemma_scan_end_above(dev, i + record_span(dev, i), limit, c);
    }
}

/// Two devices that agree on every byte below where the first one's scan
/// stops, and both lack the magic sequence there, are scanned alike: the
/// scan stops at the same place, visits the same records, and reads the
/// same header sectors.
proof fn lemma_scan_frame(d1: Seq<u8>, d2: Seq<u8>, limit: int, i: int, stop: int)
    requires
        d1.len() == d2.len(),
        0 <= i <= stop <= limit,
        limit * 512 <= d1.len(),
        scan_end(d1, i, limit) == stop,
        forall|q: int| 0 <= q < stop * 512 ==> d1[q] == d2[q],
        stop == limit || (!magic_at(d1, stop) && !magic_at(d2, stop)),
    ensures
        scan_end(d2, i, limit) == stop,
        forall|p: int| scan_visits(d2, i, limit, p) <==> #[trigger] scan_visits(d1, i, limit, p),
        forall|p: int|
            #[trigger] scan_visits(d1, i, limit, p) ==> sector_at(d2, p) == sector_at(d1, p),
    decreases limit - i,
{
    if i >= limit || !magic_at(d1, i) {
        assert(stop == i);
        assert(i == limit || !magic_at(d2, i));
        assert forall|p: int| !scan_visits(d1, i, limit, p) && !scan_visits(
            d2,
            i,
            limit,
            p,
        ) by {
            if scan_reaches(d1, i, limit, p) || scan_reaches(d2, i, limit, p) {
                assert(scan_reaches(d1, i, limit, p) ==> p == i);
                assert(scan_reaches(d2, i, limit, p) ==> p == i);
            }
        }
        assert(scan_end(d2, i, limit) == i);
    } else {
        assert(i < stop) by {
            if i + record_span(d1, i) > limit {
            } else {
                lemma_scan_end_bounds(d1, i + record_span(d1, i), limit);
            }
        }
        assert((i + 1) * 512 <= stop * 512);
        assert(stop * 512 <= limit * 512);
        assert(sector_at(d2, i) =~= sector_at(d1, i));
        assert(magic_at(d2, i));
        assert(record_span(d2, i) == record_span(d1, i));
        let nxt = i + record_span(d1, i);
        if nxt > limit {
            assert(stop == limit);
            assert(scan_end(d2, i, limit) == limit);
            assert forall|p: int|
                (scan_visits(d2, i, limit, p) <==> #[trigger] scan_visits(d1, i, limit, p))
                    && (scan_visits(d1, i, limit, p) ==> sector_at(d2, p) == sector_at(
                    d1,
                    p,
                )) by {
                    assert(scan_reaches(d1, i, limit, p) ==> p == i);
                    assert(scan_reaches(d2, i, limit, p) ==> p == i);
                }
        } else {
            lemma_scan_end_bounds(d1, nxt, limit);
            lemma_scan_frame(d1, d2, limit, nxt, stop);
            assert(scan_end(d2, i, limit) == stop);
            assert forall|p: int|
                (scan_visits(d2, i, limit, p) <==> #[trigger] scan_visits(d1, i, limit, p))
                    && (scan_visits(d1, i, limit, p) ==> sector_at(d2, p) == sector_at(
                    d1,
                    p,
                )) by {
                    assert(scan_reaches(d1, i, limit, p) <==> (p == i || scan_reaches(
                        d1,
                        nxt,
                        limit,
                        p,
                    )));
                    assert(scan_reaches(d2, i, limit, p) <==> (p == i || scan_reaches(
                        d2,
                        nxt,
                        limit,
                        p,
                    )));
                    assert(scan_visits(d1, nxt, limit, p) ==> sector_at(d2, p) == sector_at(
                        d1,
                        p,
                    ));
                }
        }
    }
}

/// Remounting after persisting an unchanged volume reads back exactly
/// what the first mount read.  When no registered item awaits write-back
/// and the frontier stands where the mount scan stopped, the persisted
/// image is scanned to the same stop, the scan visits the same record
/// positions, every visited header sector is byte-identical, and every
/// whole file record keeps its exact payload.
pub proof fn lemma_remount_reads_same_records(
    dev: Seq<u8>,
    nodes: Seq<Item>,
    reg: Seq<usize>,
    frontier: u64,
)
    requires
        forall|j: int| 0 <= j < reg.len() ==> !(#[trigger] nodes[reg[j] as int]).dirty_of(),
        frontier as int == scan_end(dev, 0, scan_span(dev.len() as int)),
        (frontier + 2) * 512 <= dev.len(),
    ensures
        ({
            let d2 = persist_image(dev, nodes, reg, frontier);
            let gl = scan_span(dev.len() as int);
            &&& d2.len() == dev.len()
            &&& scan_end(d2, 0, gl) == frontier as int
            &&& forall|p: int|
                scan_visits(d2, 0, gl, p) <==> #[trigger] scan_visits(dev, 0, gl, p)
            &&& forall|p: int|
                #[trigger] scan_visits(dev, 0, gl, p) ==> sector_at(d2, p) == sector_at(dev, p)
            &&& forall|p: int|
                (#[trigger] scan_visits(dev, 0, gl, p)) && p + record_span(dev, p) <= gl
                    && sector_at(dev, p)[156] == crate::codec::TYPE_FILE ==> rec_payload(d2, p)
                    == rec_payload(dev, p)
        }),
{
    let d2 = persist_image(dev, nodes, reg, frontier);
    let gl = scan_span(dev.len() as int);
    let f = frontier as int;
    lemma_clean_persist_below_frontier(dev, nodes, reg, frontier);
    lemma_scan_end_bounds(dev, 0, gl);
    assert(f <= gl);
    if f < gl {
        lemma_scan_end_stop(dev, 0, gl);
        assert(!magic_at(dev, f));
        assert(gl * 512 <= dev.len()) by (nonlinear_arith)
            requires
                gl == scan_span(dev.len() as int),
                dev.len() >= 0,
        ;
        lemma_write_out_clean(dev, nodes, reg, reg.len() as int);
        assert forall|k: int| f * 512 <= k < f * 512 + 512 implies d2[k] == 0u8 by {}
        assert(sector_at(d2, f)[0] == 0u8);
        assert(!magic_at(d2, f)) by {
            if magic_at(d2, f) {
                assert(sector_at(d2, f).subrange(257, 265)[0] == magic_seq()[0]);
                assert(sector_at(d2, f)[257] == 0u8);
            }
        }
    }
    lemma_scan_frame(dev, d2, gl, 0, f);
    assert forall|p: int|
        (#[trigger] scan_visits(dev, 0, gl, p)) && p + record_span(dev, p) <= gl && sector_at(
            dev,
            p,
        )[156] == crate::codec::TYPE_FILE implies rec_payload(d2, p) == rec_payload(dev, p) by {
        lemma_reaches_lower(dev, 0, gl, p);
        lemma_reaches_step(dev, 0, gl, p);
        lemma_scan_end_above(dev, 0, gl, p + record_span(dev, p));
        assert(sector_at(d2, p) == sector_at(dev, p));
        let size = decoded_size(sector_at(dev, p));
        let ps = payload_sectors(size) as int;
        assert(record_span(dev, p) == 1 + ps);
        assert(size <= ps * 512) by (nonlinear_arith)
            requires
                ps == ((size + 511) / 512) as int,
                size >= 0,
        ;
        assert(rec_payload(d2, p) =~= rec_payload(dev, p));
    }
}

/// What the tree invariant reads of an item: name, kind, size, field
/// lengths, links.
pub open spec fn wf_shape(a: Item, b: Item) -> bool {
    &&& a.name_of() == b.name_of()
    &&& (a is Directory <==> b is Directory)
    &&& a.size_of() == b.size_of()
    &&& a.data_of().len() == b.data_of().len()
    &&& a.time_of().len() == b.time_of().len()
    &&& a.prefix_of().len() == b.prefix_of().len()
    &&& (match (a, b) {
        (Item::Directory(x), Item::Directory(y)) => x.subdirectories@ == y.subdirectories@
            && x.contents@ == y.contents@ && x.parent == y.parent,
        (Item::File(x), Item::File(y)) => x.parent == y.parent,
        _ => true,
    })
}

/// Everything of an item except its dirty flag, checksum and registry
/// mark.
pub open spec fn same_shape(a: Item, b: Item) -> bool {
    &&& wf_shape(a, b)
    &&& a.data_of() == b.data_of()
    &&& a.time_of() == b.time_of()
    &&& a.prefix_of() == b.prefix_of()
    &&& a.blkid_of() == b.blkid_of()
}

/// Well-formedness of the tree, sessions and frontier only reads what
/// `same_shape` preserves; the registry also needs the registry marks kept.
pub proof fn lemma_wf_same_shape(
    n1: Seq<Item>,
    n2: Seq<Item>,
    reg: Seq<usize>,
    sm: Map<u64, u64>,
    frontier: u64,
)
    requires
        n1.len() == n2.len(),
        forall|i: int| 0 <= i < n1.len() ==> same_shape(n1[i], #[trigger] n2[i]),
        forall|i: int| 0 <= i < n1.len() ==> n1[i].registered_of() == #[trigger] n2[i].registered_of(),
        wf_arena(n1),
        wf_registry(n1, reg),
        wf_sessions(n1, sm),
        wf_frontier(n1, reg, frontier),
    ensures
        wf_arena(n2),
        wf_registry(n2, reg),
        wf_sessions(n2, sm),
        wf_frontier(n2, reg, frontier),
{
    assert forall|i: int| 0 <= i < n1.len() implies wf_shape(n1[i], #[trigger] n2[i])
        && n1[i].blkid_of() == n2[i].blkid_of() by {
        assert(same_shape(n1[i], n2[i]));
    }
    lemma_wf_arena_same(n1, n2);
    lemma_wf_sessions_same(n1, n2, sm);
    lemma_wf_frontier_same(n1, n2, reg, frontier);
    assert forall|j: int| 0 <= j < reg.len() implies 1 <= #[trigger] reg[j] < n2.len()
        && n2[reg[j] as int].registered_of() by {
        assert(n1[reg[j] as int].registered_of() == n2[reg[j] as int].registered_of());
    }
}

/// Session cursors only read lengths and kinds.
pub proof fn lemma_wf_sessions_same(n1: Seq<Item>, n2: Seq<Item>, sm: Map<u64, u64>)
    requires
        n1.len() == n2.len(),
        forall|i: int| 0 <= i < n1.len() ==> wf_shape(n1[i], #[trigger] n2[i]),
        wf_sessions(n1, sm),
    ensures
        wf_sessions(n2, sm),
{
    assert forall|k: u64| sm.dom().contains(k) implies 0 <= #[trigger] sm[k] < n2.len()
        && n2[sm[k] as int] is Directory by {
        assert(wf_shape(n1[sm[k] as int], n2[sm[k] as int]));
    }
}

/// The frontier bound only reads names, block ids and sizes.
pub proof fn lemma_wf_frontier_same(n1: Seq<Item>, n2: Seq<Item>, reg: Seq<usize>, frontier: u64)
    requires
        n1.len() == n2.len(),
        forall|i: int| 0 <= i < n1.len() ==> wf_shape(n1[i], #[trigger] n2[i]),
        forall|i: int| 0 <= i < n1.len() ==> n1[i].blkid_of() == #[trigger] n2[i].blkid_of(),
        wf_registry(n1, reg),
        wf_frontier(n1, reg, frontier),
    ensures
        wf_frontier(n2, reg, frontier),
{
    assert forall|j: int| 0 <= j < reg.len() implies {
        let it = n2[#[trigger] reg[j] as int];
        it.live() && it.blkid_of() != NOT_PERSISTED ==> it.blkid_of() + it.footprint_of()
            <= frontier
    } by {
        assert(wf_shape(n1[reg[j] as int], n2[reg[j] as int]));
        let a = n1[reg[j] as int];
        let b = n2[reg[j] as int];
        assert(a.footprint_of() == b.footprint_of());
        assert(a.live() == b.live());
    }
}

/// The tree invariant only reads what `wf_shape` preserves.
pub proof fn lemma_wf_arena_same(n1: Seq<Item>, n2: Seq<Item>)
    requires
        n1.len() == n2.len(),
        forall|i: int| 0 <= i < n1.len() ==> wf_shape(n1[i], #[trigger] n2[i]),
        wf_arena(n1),
    ensures
        wf_arena(n2),
{
    assert forall|i: int| 0 <= i < n2.len() implies subdirs_of(n2, i) == subdirs_of(n1, i)
        && conts_of(n2, i) == conts_of(n1, i) && parent_of_idx(n2, i) == parent_of_idx(n1, i) by {
        assert(wf_shape(n1[i], n2[i]));
    }
    assert forall|i: int| 0 <= i < n2.len() implies #[trigger] wf_node_basic(n2, i) by {
        assert(wf_shape(n1[i], n2[i]));
        assert(wf_node_basic(n1, i));
        assert(n2[i].live() == n1[i].live());
    }
    assert forall|i: int|
        1 <= i < n2.len() && n2[i] is Directory implies 0 <= #[trigger] parent_of_idx(n2, i) < i
        && n2[parent_of_idx(n2, i)] is Directory by {
        assert(wf_shape(n1[i], n2[i]));
        assert(wf_shape(n1[parent_of_idx(n1, i)], n2[parent_of_idx(n1, i)]));
    }
    assert forall|i: int| 0 <= i < n2.len() implies #[trigger] wf_dir_children(n2, i) by {
        assert(wf_shape(n1[i], n2[i]));
        assert(wf_dir_children(n1, i));
        if n2[i] is Directory {
            let fs = conts_of(n2, i);
            let ds = subdirs_of(n2, i);
            assert(fs == conts_of(n1, i));
            assert(ds == subdirs_of(n1, i));
            assert forall|j: int| 0 <= j < fs.len() implies child_file_ok(
                n2,
                i,
                #[trigger] fs[j] as int,
            ) by {
                assert(child_file_ok(n1, i, fs[j] as int));
                assert(wf_shape(n1[fs[j] as int], n2[fs[j] as int]));
            }
            assert forall|j: int| 0 <= j < ds.len() implies child_dir_ok(
                n2,
                i,
                #[trigger] ds[j] as int,
            ) by {
                assert(child_dir_ok(n1, i, ds[j] as int));
                assert(wf_shape(n1[ds[j] as int], n2[ds[j] as int]));
            }
            assert forall|j: int, k: int| 0 <= j < k < fs.len() implies file_short_spec(
                n2[#[trigger] fs[j] as int].name_of(),
            ) != file_short_spec(n2[#[trigger] fs[k] as int].name_of()) by {
                assert(child_file_ok(n1, i, fs[j] as int));
                assert(child_file_ok(n1, i, fs[k] as int));
                assert(wf_shape(n1[fs[j] as int], n2[fs[j] as int]));
                assert(wf_shape(n1[fs[k] as int], n2[fs[k] as int]));
            }
            assert forall|j: int, k: int| 0 <= j < k < ds.len() implies last_comp(
                n2[#[trigger] ds[j] as int].name_of(),
            ) != last_comp(n2[#[trigger] ds[k] as int].name_of()) by {
                assert(child_dir_ok(n1, i, ds[j] as int));
                assert(child_dir_ok(n1, i, ds[k] as int));
                assert(wf_shape(n1[ds[j] as int], n2[ds[j] as int]));
                assert(wf_shape(n1[ds[k] as int], n2[ds[k] as int]));
            }
        }
    }
}

/// Write-back and dirtying keep an item's shape and registry mark.
pub proof fn lemma_shape_of_updates(it: Item)
    ensures
        same_shape(it, persisted_item(it)),
        same_shape(it, dirtied_item(it)),
        persisted_item(it).registered_of() == it.registered_of(),
        dirtied_item(it).registered_of() == it.registered_of(),
{
}

impl Volume {
    /// Marks one node for write-back.
    fn mark_dirty(&mut self, idx: usize)
        requires
            idx < old(self).nodes@.len(),
        ensures
            final(self).nodes@ == old(self).nodes@.update(
                idx as int,
                dirtied_item(old(self).nodes@[idx as int]),
            ),
            final(self).registry == old(self).registry,
            final(self).sessions == old(self).sessions,
            final(self).session_counter == old(self).session_counter,
            final(self).frontier == old(self).frontier,
            final(self).device == old(self).device,
    {
        match &mut self.nodes[idx] {
            Item::File(f) => {
                f.write = true;
            },
            Item::Directory(d) => {
                d.write = true;
            },
        }
    }

    /// Removes the file at `file`: the node takes the reserved tombstone
    /// name, is marked dirty and unlinked from its directory at once, and
    /// the volume is persisted.  After a successful removal the same path
    /// no longer resolves.
    #[verifier::rlimit(100)]
    #[verifier::spinoff_prover]
    pub fn remove_file(&mut self, file: &str, id: Option<u64>) -> (r: Result<(), FsError>)
        requires
            old(self).wf(),
        ensures
            final(self).wf(),
            final(self).frontier == old(self).frontier,
            final(self).registry == old(self).registry,
            final(self).device.data@.len() == old(self).device.data@.len(),
            ({
                let nodes = old(self).nodes@;
                let parent = parent_path_spec(file.spec_bytes());
                let start = if is_absolute_spec(parent) && parent.len() > 0 {
                    0
                } else {
                    match id {
                        Some(i) => session_start(session_map(old(self).sessions), i),
                        None => 0,
                    }
                };
                let found = resolve_file_spec(nodes, start, file.spec_bytes());
                &&& (match r {
                    Ok(()) => found is Some,
                    Err(e) => (e == FsError::NotFound && found is None && final(self).nodes == old(self).nodes && final(self).device == old(self).device) || (e
                        == FsError::DeviceBoundary && found is Some && final(self).device == old(self).device),
                })
                &&& ((r is Ok || r matches Err(FsError::DeviceBoundary)) ==> {
                    &&& resolve_file_spec(final(self).nodes@, start, file.spec_bytes()) is None
                    &&& final(self).nodes@.len() == nodes.len()
                    &&& (forall|i: int|
                        0 <= i < nodes.len() ==> subdirs_of(final(self).nodes@, i) == subdirs_of(
                            nodes,
                            #[trigger] (i + 0),
                        ) && parent_of_idx(final(self).nodes@, i) == parent_of_idx(nodes, i))
                    &&& (match found {
                        Some(c) => {
                            &&& final(self).nodes@[c] is File
                            &&& final(self).nodes@[c].name_of() == tombstone_seq()
                            &&& final(self).nodes@[c].data_of() == nodes[c].data_of()
                            &&& surface_same_except(nodes, final(self).nodes@, c)
                        },
                        None => true,
                    })
                })
                &&& (r is Ok ==> forall|j: int|
                    0 <= j < final(self).registry@.len() ==> !final(self).nodes@[
                        #[trigger] final(self).registry@[j] as int
                    ].dirty_of())
                &&& ((r matches Err(FsError::DeviceBoundary)) ==> !can_persist(
                    final(self).nodes@,
                    final(self).registry@,
                    final(self).device.data@.len(),
                    final(self).frontier,
                ))
            }),
            ({
                let parent = parent_path_spec(file.spec_bytes());
                if (is_absolute_spec(parent) && parent.len() > 0) || id is Some {
                    final(self).sessions == old(self).sessions && final(self).session_counter
                        == old(self).session_counter
                } else {
                    session_map(final(self).sessions) == session_map(old(self).sessions).insert(
                        final(self).session_counter,
                        0,
                    ) && final(self).session_counter == (if old(self).session_counter < u64::MAX {
                        (old(self).session_counter + 1) as u64
                    } else {
                        u64::MAX
                    })
                }
            }),
    {
        let p = file.as_bytes_vec();
        let (parent, leaf) = split_last_and_first(&p);
        let dir_opt: Option<usize>;
        let ghost startg: int;
        if is_absolute(&parent) && parent.len() > 0 {
            proof {
                startg = 0;
            }
            let parts = split_path(&parent);
            dir_opt = self.walk_exec(0, &parts, false);
        } else {
            let start: usize;
            match id {
                Some(i) => {
                    start = self.cursor_or_root(i);
                },
                None => {
                    self.get_id();
                    start = 0;
                },
            }
            proof {
                startg = start as int;
            }
            let parts = split_path(&parent);
            dir_opt = self.walk_exec(start, &parts, true);
        }
        let ghost relflag = !(is_absolute_spec(parent@) && parent@.len() > 0);
        let d: usize;
        match dir_opt {
            Some(dd) => {
                d = dd;
            },
            None => {
                return Err(FsError::NotFound);
            },
        }
        let c: usize;
        match self.find_file_exec(d, &leaf) {
            Some(cc) => {
                c = cc;
            },
            None => {
                return Err(FsError::NotFound);
            },
        }
        let ghost nodes0 = self.nodes@;
        let ghost leafg = leaf@;
        let ghost list1 = conts_of(nodes0, d as int);
        // find the slot of the file in the directory's contents
        let list = self.conts_list(d);
        let m = list.len();
        let mut j: usize = 0;
        while j < m && list[j] != c
            invariant
                list@ == list1,
                m == list1.len(),
                0 <= j <= m,
                forall|t: int| 0 <= t < j ==> list1[t] != c,
            decreases m - j,
        {
            j = j + 1;
        }
        proof {
            lemma_find_file_props(nodes0, list1, leafg);
            if j == m {
                let t = choose|t: int|
                    0 <= t < list1.len() && list1[t] == c && 0 <= c < nodes0.len()
                        && file_short_spec(nodes0[c as int].name_of()) == leafg;
                assert(false);
            }
            assert(list1[j as int] == c);
            assert(wf_dir_children(nodes0, d as int));
            assert(child_file_ok(nodes0, d as int, c as int));
        }
        // unlink the slot
        match &mut self.nodes[d] {
            Item::Directory(dd) => {
                dd.contents.remove(j);
            },
            Item::File(_) => {
                proof {
                    assert(false);
                }
            },
        }
        // rename to the tombstone and mark for write-back
        let tomb = tombstone_name();
        match &mut self.nodes[c] {
            Item::File(f) => {
                f.name = tomb;
                f.write = true;
            },
            Item::Directory(_) => {
                proof {
                    assert(false);
                }
            },
        }
        let ghost nmid = self.nodes@;
        proof {
            assert(conts_of(nmid, d as int) =~= list1.subrange(0, j as int) + list1.subrange(
                j + 1,
                list1.len() as int,
            ));
            lemma_wf_after_file_tombstone(
                nodes0,
                nmid,
                d as int,
                c as int,
                j as int,
                self.registry@,
                session_map(self.sessions),
                self.frontier,
            );
        }
        let res = self.write();
        proof {
            let nfin = self.nodes@;
            // the walk reads only directories, none of which changed
            assert forall|i: int|
                0 <= i < nodes0.len() implies ((nodes0[i] is Directory <==> #[trigger] nfin[i]
                is Directory) && (nodes0[i] is Directory ==> nfin[i].name_of()
                == nodes0[i].name_of() && subdirs_of(nfin, i) == subdirs_of(nodes0, i)
                && parent_of_idx(nfin, i) == parent_of_idx(nodes0, i))) by {
                lemma_shape_of_updates(nmid[i]);
                assert(same_shape(nmid[i], nfin[i]) || nmid[i] == nfin[i]);
                if nodes0[i] is Directory {
                    assert(subdirs_of(nmid, i) == subdirs_of(nodes0, i));
                }
            }
            assert(dirs_same(nodes0, nfin));
            let parentg = parent_path_spec(p@);
            let comps = split_path_spec(parentg);
            if startg == 0 {
                lemma_walk_same(nodes0, nfin, 0, comps, relflag);
            } else {
                lemma_walk_same(nodes0, nfin, startg, comps, relflag);
            }
            // nothing in the directory's remaining slots answers to the leaf
            let l2 = conts_of(nfin, d as int);
            assert(l2 == conts_of(nmid, d as int)) by {
                lemma_shape_of_updates(nmid[d as int]);
                assert(same_shape(nmid[d as int], nfin[d as int]) || nmid[d as int] == nfin[d as int]);
            }
            assert forall|t: int| 0 <= t < l2.len() implies !(0 <= #[trigger] l2[t]
                < nfin.len() && file_short_spec(nfin[l2[t] as int].name_of()) == leafg) by {
                let x = l2[t] as int;
                if t < j {
                    assert(l2[t] == list1[t]);
                } else {
                    assert(l2[t] == list1[t + 1]);
                }
                assert(conts_of(nodes0, d as int).contains(l2[t]));
                let tx = choose|tx: int| 0 <= tx < list1.len() && list1[tx] == l2[t];
                assert(child_file_ok(nodes0, d as int, x));
                if x == c as int {
                    // the tombstoned node sat in one slot only
                    if tx != j {
                        assert(file_short_spec(nodes0[list1[tx] as int].name_of())
                            == file_short_spec(nodes0[list1[j as int] as int].name_of()));
                        assert(false);
                    }
                    assert(false);
                }
                assert(nmid[x] == nodes0[x]);
                lemma_shape_of_updates(nmid[x]);
                assert(same_shape(nmid[x], nfin[x]) || nmid[x] == nfin[x]);
                assert(nfin[x].name_of() == nodes0[x].name_of());
                if file_short_spec(nodes0[x].name_of()) == leafg {
                    assert(file_short_spec(nodes0[c as int].name_of()) == leafg);
                    assert(file_short_spec(nodes0[list1[tx] as int].name_of()) == file_short_spec(
                        nodes0[list1[j as int] as int].name_of(),
                    ));
                    assert(false);
                }
            }
            lemma_find_file_none(nfin, l2, leafg);
            // the frame for nodes other than the removed one
            assert forall|i: int|
                0 <= i < nodes0.len() && i != c as int implies #[trigger] nfin[i].name_of()
                == nodes0[i].name_of() && (nfin[i] is Directory <==> nodes0[i] is Directory)
                && nfin[i].data_of() == nodes0[i].data_of() by {
                lemma_shape_of_updates(nmid[i]);
                assert(same_shape(nmid[i], nfin[i]) || nmid[i] == nfin[i]);
            }
            assert(nfin[c as int].name_of() == tombstone_seq() && nfin[c as int] is File
                && nfin[c as int].data_of() == nodes0[c as int].data_of()) by {
                lemma_shape_of_updates(nmid[c as int]);
                assert(same_shape(nmid[c as int], nfin[c as int]) || nmid[c as int] == nfin[c as int]);
            }
        }
        match res {
            Ok(()) => Ok(()),
            Err(e) => Err(e),
        }
    }

/// After a fresh file was hung under the directory the parent path walks
/// to, the whole path resolves to it.
#[verifier::rlimit(60)]
#[verifier::spinoff_prover]
proof fn lemma_resolves_to_new(
    s1: Seq<Item>,
    nfin: Seq<Item>,
    startint: int,
    d2: int,
    st: int,
    pb: Seq<u8>,
)
    requires
        s1.len() < usize::MAX,
        wf_arena(s1),
        0 <= startint < s1.len(),
        s1[startint] is Directory,
        ({
            let parent = parent_path_spec(pb);
            let abs = is_absolute_spec(parent) && parent.len() > 0;
            &&& startint == (if abs {
                0int
            } else {
                st
            })
            &&& walk(s1, startint, split_path_spec(parent), !abs) == Some(d2)
        }),
        0 <= d2 < s1.len(),
        nfin.len() == s1.len() + 1,
        forall|i: int|
            0 <= i < s1.len() ==> ((s1[i] is Directory <==> #[trigger] nfin[i] is Directory) && (
            s1[i] is Directory ==> nfin[i].name_of() == s1[i].name_of() && subdirs_of(nfin, i)
                == subdirs_of(s1, i) && parent_of_idx(nfin, i) == parent_of_idx(s1, i))),
        forall|i: int|
            0 <= i < s1.len() ==> (#[trigger] nfin[i]).name_of() == s1[i].name_of(),
        conts_of(nfin, d2) == conts_of(s1, d2).push(s1.len() as usize),
        find_file_in(s1, conts_of(s1, d2), last_comp(pb)) is None,
        file_short_spec(nfin[s1.len() as int].name_of()) == last_comp(pb),
    ensures
        resolve_file_spec(nfin, st, pb) == Some(s1.len() as int),
{
    let parent = parent_path_spec(pb);
    let abs = is_absolute_spec(parent) && parent.len() > 0;
    let comps = split_path_spec(parent);
    let leafg = last_comp(pb);
    let idx = s1.len() as int;
    assert(dirs_same(s1, nfin));
    lemma_walk_same(s1, nfin, startint, comps, !abs);
    assert(walk(nfin, startint, comps, !abs) == Some(d2));
    lemma_find_file_props(s1, conts_of(s1, d2), leafg);
    assert(wf_dir_children(s1, d2));
    assert forall|t: int|
        0 <= t < conts_of(s1, d2).len() implies !(0 <= #[trigger] conts_of(s1, d2)[t]
        < nfin.len() && file_short_spec(nfin[conts_of(s1, d2)[t] as int].name_of())
        == leafg) by {
        let x = conts_of(s1, d2)[t] as int;
        assert(child_file_ok(s1, d2, x));
        assert(nfin[x].name_of() == s1[x].name_of());
    }
    assert((s1.len() as usize) as int == idx);
    lemma_find_file_push(nfin, conts_of(s1, d2), s1.len() as usize, leafg);
    assert(find_file_in(nfin, conts_of(nfin, d2), leafg) == Some(idx));
}

    /// Writes `data` to the file at `file`.  An existing file at that path
    /// is tombstoned and a fresh node is placed at a new location, so the
    /// payload never has to fit an old sector range; missing directories of
    /// the path are synthesized.  The new node claims sectors at the
    /// frontier, is registered, and the volume is persisted; afterwards the
    /// path resolves to it.  The frontier moves by exactly the item's
    /// footprint, since the mount scan admits no gaps between items.  When
    /// the leaf is sound, the payload fits the size field, and the parent
    /// directory resolves live, only the device can refuse the call.
    #[verifier::rlimit(100)]
    #[verifier::spinoff_prover]
    pub fn write_file(&mut self, file: &str, data: Vec<u8>, id: Option<u64>) -> (r: Result<
        (),
        FsError,
    >)
        requires
            old(self).wf(),
        ensures
            final(self).wf(),
            final(self).device.data@.len() == old(self).device.data@.len(),
            data@.len() >= SIZE_LIMIT ==> (r matches Err(FsError::InvalidName)) && *final(self)
                == *old(self),
            r is Ok ==> ({
                let nfin = final(self).nodes@;
                &&& nfin.len() > old(self).nodes@.len()
                &&& nfin.last() is File
                &&& nfin.last().live()
                &&& nfin.last().data_of() == data@
                &&& nfin.last().registered_of()
                &&& nfin.last().blkid_of() == old(self).frontier
                &&& file_short_spec(nfin.last().name_of()) == last_comp(file.spec_bytes())
                &&& final(self).frontier == old(self).frontier + payload_sectors(
                    data@.len() as u64,
                ) + 1
            }),
            (r matches Err(FsError::InvalidName)) ==> final(self).frontier == old(self).frontier
                && final(self).registry == old(self).registry,
            (r matches Err(FsError::DeviceBoundary)) ==> old(self).frontier + payload_sectors(
                data@.len() as u64,
            ) + 1 > u64::MAX || !can_persist(
                final(self).nodes@,
                final(self).registry@,
                final(self).device.data@.len(),
                final(self).frontier,
            ),
            ({
                let pb = file.spec_bytes();
                let nodes0 = old(self).nodes@;
                let st = start_for(session_map(old(self).sessions), pb, id);
                let parent = parent_path_spec(pb);
                let abs = is_absolute_spec(parent) && parent.len() > 0;
                let comps = split_path_spec(parent);
                let wd = if abs {
                    walk(nodes0, 0, comps, false)
                } else {
                    walk(nodes0, st, comps, true)
                };
                let leaf = last_comp(pb);
                // with the parent directory in place beforehand, the path
                // afterwards resolves to the fresh node
                &&& ((r is Ok && wd is Some) ==> resolve_file_spec(final(self).nodes@, st, pb)
                    == Some(final(self).nodes@.len() - 1))
                // a file that stood at the path has given way to the tombstone
                &&& (r is Ok ==> (match resolve_file_spec(nodes0, st, pb) {
                    Some(c) => final(self).nodes@[c].name_of() == tombstone_seq(),
                    None => true,
                }))
                // success is owed: with a sound leaf, a fitting payload and a
                // live resolvable parent, only the device can refuse
                &&& (({
                    &&& data@.len() < SIZE_LIMIT
                    &&& leaf.len() > 0
                    &&& (forall|k: int| 0 <= k < leaf.len() ==> keep_byte(#[trigger] leaf[k]))
                    &&& leaf != tombstone_seq()
                    &&& 0 <= st < nodes0.len()
                    &&& nodes0[st].live()
                    &&& (match wd {
                        Some(d) => nodes0[d].live() && nodes0[d].name_of().len() + leaf.len()
                            <= 100,
                        None => false,
                    })
                }) ==> (r is Ok || r matches Err(FsError::DeviceBoundary)))
            }),
    {
        let ghost pb = file.spec_bytes();
        let ghost nodes0 = old(self).nodes@;
        let ghost sm0 = session_map(old(self).sessions);
        let ghost st = start_for(sm0, pb, id);
        let ghost parentg = parent_path_spec(pb);
        let ghost absg = is_absolute_spec(parentg) && parentg.len() > 0;
        let ghost comps = split_path_spec(parentg);
        let ghost wd = if absg {
            walk(nodes0, 0, comps, false)
        } else {
            walk(nodes0, st, comps, true)
        };
        let ghost leafg = last_comp(pb);
        if data.len() as u64 >= SIZE_LIMIT {
            return Err(FsError::InvalidName);
        }
        let p = file.as_bytes_vec();
        let (parentp, leaf) = split_last_and_first(&p);
        proof {
            assert(p@ == pb);
            assert(leaf@ == leafg);
            assert(parentp@ == parentg);
        }
        if leaf.len() == 0 {
            return Err(FsError::InvalidName);
        }
        let mut leaf_ok = true;
        let ll = leaf.len();
        let mut k: usize = 0;
        while k < ll
            invariant
                0 <= k <= ll,
                ll == leaf@.len(),
                leaf_ok == (forall|t: int|
                    0 <= t < k ==> keep_byte(#[trigger] leaf@[t]) && leaf@[t] != 47),
            decreases ll - k,
        {
            let b = leaf[k];
            leaf_ok = leaf_ok && b > 0 && b < 128 && b != 47;
            k = k + 1;
        }
        let tomb = tombstone_name();
        if !leaf_ok || bytes_eq(&leaf, &tomb) {
            proof {
                crate::paths::lemma_split_path_no_sep(p@);
                let sp = split_path_spec(p@);
                assert(leaf@ == leafg);
                if leafg.len() > 0 {
                    assert(sp.len() > 0 && leafg == sp.last());
                    assert forall|t: int| 0 <= t < leafg.len() implies #[trigger] leafg[t]
                        != 47 by {
                        assert(sp[sp.len() - 1][t] != 47);
                    }
                }
            }
            return Err(FsError::InvalidName);
        }
        // an existing file at the path gives way: it is tombstoned, and its
        // timestamp and prefix carry over to the fresh node
        let mut kept_time: Option<Vec<u8>> = None;
        let mut kept_prefix: Option<Vec<u8>> = None;
        let ghost mut removed: Option<int> = None;
        match self.resolve_file(&p, id) {
            Some(c) => {
                proof {
                    removed = Some(c as int);
                    assert(resolve_file_spec(nodes0, st, pb) == Some(c as int));
                }
                match &self.nodes[c] {
                    Item::File(f) => {
                        proof {
                            assert(wf_node_basic(self.nodes@, c as int));
                        }
                        kept_time = Some(crate::paths::copy_range(&f.time, 0, f.time.len()));
                        kept_prefix = Some(crate::paths::copy_range(&f.prefix, 0, f.prefix.len()));
                    },
                    Item::Directory(_) => {
                        proof {
                            assert(false);
                        }
                    },
                }
                match self.remove_file(file, id) {
                    Ok(()) => {},
                    Err(e) => {
                        return Err(FsError::DeviceBoundary);
                    },
                }
            },
            None => {
                proof {
                    assert(resolve_file_spec(nodes0, st, pb) is None);
                }
            },
        }
        let ghost s1 = self.nodes@;
        proof {
            // the walk reads only directories, and removal touched none
            assert(s1.len() == nodes0.len());
            assert forall|i: int|
                0 <= i < nodes0.len() implies ((nodes0[i] is Directory <==> #[trigger] s1[i]
                is Directory) && (nodes0[i] is Directory ==> s1[i].name_of()
                == nodes0[i].name_of() && subdirs_of(s1, i) == subdirs_of(nodes0, i)
                && parent_of_idx(s1, i) == parent_of_idx(nodes0, i))) by {
                match removed {
                    Some(c) => {
                        assert(subdirs_of(s1, i) == subdirs_of(nodes0, i + 0));
                        if i != c {
                        } else {
                            assert(nodes0[c] is File);
                            assert(s1[c] is File);
                        }
                    },
                    None => {},
                }
            }
            assert(dirs_same(nodes0, s1));
        }
        // find or synthesize the directory that holds the leaf
        let dir_opt: Option<usize>;
        let start: usize;
        if is_absolute(&parentp) && parentp.len() > 0 {
            start = 0;
        } else {
            match id {
                Some(i) => {
                    start = self.cursor_or_root(i);
                },
                None => {
                    start = 0;
                },
            }
        }
        proof {
            assert(start as int == (if absg {
                0int
            } else {
                st
            })) by {
                assert(session_map(self.sessions) == sm0 || id is None || absg);
            }
            assert(!absg ==> start as int == st);
            assert(absg ==> st == 0);
            assert(start as int == st);
        }
        // a dangling cursor is no place to write
        let start_live: bool;
        match &self.nodes[start] {
            Item::Directory(sd) => {
                start_live = !(sd.name.len() == 6 && sd.name[0] == 100 && sd.name[1] == 101
                    && sd.name[2] == 102 && sd.name[3] == 114 && sd.name[4] == 97 && sd.name[5]
                    == 103);
                proof {
                    lemma_tombstone_bytes(sd.name@);
                    assert(start_live == s1[start as int].live());
                }
            },
            Item::File(_) => {
                proof {
                    assert(false);
                }
                start_live = false;
            },
        }
        if !start_live {
            proof {
                assert(s1[start as int] is Directory);
                assert(nodes0[st].live() ==> s1[st].live());
            }
            return Err(FsError::NotFound);
        }
        let parent_parts = split_path(&parentp);
        proof {
            assert(parent_parts.deep_view() == comps);
            assert((parentp.len() > 0 && parentp@[0] == 47) == absg);
        }
        match self.walk_exec(start, &parent_parts, !(parentp.len() > 0 && parentp[0] == 47)) {
            Some(d) => {
                dir_opt = Some(d);
            },
            None => {
                proof {
                    lemma_walk_same(nodes0, s1, start as int, comps, !absg);
                    assert(wd is None);
                }
                match self.generate_path_from(start, &parent_parts) {
                    Ok(d) => {
                        dir_opt = Some(d);
                    },
                    Err(e) => {
                        return Err(e);
                    },
                }
            },
        }
        let d2: usize;
        match dir_opt {
            Some(d) => {
                d2 = d;
            },
            None => {
                return Err(FsError::NotFound);
            },
        }
        let ghost walked_here = self.nodes@ == s1 && walk(s1, start as int, comps, !absg)
            == Some(d2 as int);
        proof {
            if self.nodes@ == s1 {
                lemma_walk_same(nodes0, s1, start as int, comps, !absg);
            }
        }
        let ghost s2 = self.nodes@;
        let ghost frontier1 = self.frontier;
        let r = self.place_file_under(d2, leaf, data, kept_time, kept_prefix);
        let nl_after = self.nodes.len();
        proof {
            assert(s1.len() < usize::MAX || !(r is Ok));
            let nfin = self.nodes@;
            if walked_here {
                assert(wd == Some(d2 as int));
                match r {
                    Ok(()) => {
                        let idx = s1.len() as int;
                        assert(nfin[idx] == nfin.last());
                        assert(file_short_spec(nfin[idx].name_of()) == leafg);
                        assert forall|i: int|
                            0 <= i < s1.len() implies (#[trigger] nfin[i]).name_of()
                            == s1[i].name_of() by {}
                        Self::lemma_resolves_to_new(s1, nfin, start as int, d2 as int, st, pb);
                        match removed {
                            Some(c) => {
                                assert(s1[c].name_of() == tombstone_seq());
                                assert(nfin[c].name_of() == tombstone_seq());
                            },
                            None => {},
                        }
                    },
                    Err(FsError::NotFound) => {
                        assert(!s1[d2 as int].live());
                        assert(match wd {
                            Some(d) => nodes0[d].live() ==> false,
                            None => true,
                        }) by {
                            assert(s1[d2 as int] is Directory);
                            assert(nodes0[d2 as int].name_of() == s1[d2 as int].name_of());
                        }
                    },
                    Err(FsError::NameCollision) => {
                        // nothing under the walked directory answers to the
                        // leaf, whichever way the path got here
                        assert(find_file_in(s1, conts_of(s1, d2 as int), leafg) is Some);
                        match removed {
                            Some(_) => {
                                assert(resolve_file_spec(s1, st, pb) is None);
                                assert(find_file_in(s1, conts_of(s1, d2 as int), leafg) is None);
                            },
                            None => {
                                assert(resolve_file_spec(nodes0, st, pb) is None);
                                assert(find_file_in(s1, conts_of(s1, d2 as int), leafg) is None);
                            },
                        }
                        assert(false);
                    },
                    Err(FsError::InvalidName) => {
                        assert(s1[d2 as int].name_of().len() + leafg.len() > 100);
                        assert(nodes0[d2 as int].name_of() == s1[d2 as int].name_of());
                    },
                    Err(FsError::DeviceBoundary) => {},
                }
            }
        }
        r
    }

    /// Places a fresh file named by `leaf` under the directory `d2`,
    /// claiming sectors at the frontier, registering the node and
    /// persisting the volume.
    #[verifier::rlimit(80)]
    #[verifier::spinoff_prover]
    fn place_file_under(
        &mut self,
        d2: usize,
        leaf: Vec<u8>,
        data: Vec<u8>,
        kept_time: Option<Vec<u8>>,
        kept_prefix: Option<Vec<u8>>,
    ) -> (r: Result<(), FsError>)
        requires
            old(self).wf(),
            d2 < old(self).nodes@.len(),
            old(self).nodes@[d2 as int] is Directory,
            0 < leaf@.len(),
            forall|t: int| 0 <= t < leaf@.len() ==> keep_byte(#[trigger] leaf@[t]) && leaf@[t] != 47,
            data@.len() < SIZE_LIMIT,
            kept_time matches Some(t) ==> t@.len() == 11,
            kept_prefix matches Some(x) ==> x@.len() == 155,
        ensures
            final(self).wf(),
            final(self).device.data@.len() == old(self).device.data@.len(),
            final(self).sessions == old(self).sessions,
            final(self).session_counter == old(self).session_counter,
            r is Ok ==> ({
                let nfin = final(self).nodes@;
                &&& nfin.len() == old(self).nodes@.len() + 1
                &&& nfin.last() is File
                &&& nfin.last().live()
                &&& nfin.last().data_of() == data@
                &&& nfin.last().registered_of()
                &&& nfin.last().blkid_of() == old(self).frontier
                &&& file_short_spec(nfin.last().name_of()) == leaf@
                &&& final(self).frontier == old(self).frontier + payload_sectors(
                    data@.len() as u64,
                ) + 1
                &&& conts_of(nfin, d2 as int) == conts_of(old(self).nodes@, d2 as int).push(
                    old(self).nodes@.len() as usize,
                )
                &&& (forall|i: int|
                    0 <= i < old(self).nodes@.len() ==> (#[trigger] nfin[i]).name_of() == old(
                        self,
                    ).nodes@[i].name_of() && (nfin[i] is Directory <==> old(self).nodes@[i]
                        is Directory) && subdirs_of(nfin, i) == subdirs_of(old(self).nodes@, i)
                        && parent_of_idx(nfin, i) == parent_of_idx(old(self).nodes@, i))
                &&& (forall|j: int|
                    0 <= j < final(self).registry@.len() ==> !nfin[
                        #[trigger] final(self).registry@[j] as int
                    ].dirty_of())
                &&& (find_file_in(old(self).nodes@, conts_of(old(self).nodes@, d2 as int), leaf@)
                    is None)
            }),
            (r matches Err(FsError::InvalidName)) ==> final(self).frontier == old(self).frontier
                && final(self).registry == old(self).registry && final(self).device.data@ == old(self).device.data@,
            (r matches Err(FsError::NotFound)) ==> !old(self).nodes@[d2 as int].live()
                && *final(self) == *old(self),
            (r matches Err(FsError::NameCollision)) ==> (find_file_in(
                old(self).nodes@,
                conts_of(old(self).nodes@, d2 as int),
                leaf@,
            ) is Some) && *final(self) == *old(self),
            (r matches Err(FsError::InvalidName)) ==> old(self).nodes@[d2 as int].name_of().len()
                + leaf@.len() > 100,
            (r matches Err(FsError::DeviceBoundary)) ==> (old(self).frontier + payload_sectors(
                data@.len() as u64,
            ) + 1 > u64::MAX) || !can_persist(
                final(self).nodes@,
                final(self).registry@,
                final(self).device.data@.len(),
                final(self).frontier,
            ),
    {
        let tomb = tombstone_name();
        // the directory must be live, and free of the leaf name
        let d2_name: Vec<u8>;
        match &self.nodes[d2] {
            Item::Directory(pd) => {
                d2_name = crate::paths::copy_range(&pd.name, 0, pd.name.len());
            },
            Item::File(_) => {
                proof {
                    assert(false);
                }
                d2_name = Vec::new();
            },
        }
        proof {
            assert(d2_name@ =~= self.nodes@[d2 as int].name_of());
        }
        if bytes_eq(&d2_name, &tomb) {
            return Err(FsError::NotFound);
        }
        match self.find_file_exec(d2, &leaf) {
            Some(_) => {
                return Err(FsError::NameCollision);
            },
            None => {},
        }
        proof {
            assert(wf_node_basic(self.nodes@, d2 as int));
        }
        if leaf.len() > 100 || d2_name.len() + leaf.len() > 100 {
            return Err(FsError::InvalidName);
        }
        // allocate at the frontier: header plus payload sectors
        let sectors: u64 = (data.len() as u64 + 511) / 512;
        let nf: u64;
        match self.frontier.checked_add(sectors + 1) {
            Some(v) => {
                nf = v;
            },
            None => {
                return Err(FsError::DeviceBoundary);
            },
        }
        let mut name: Vec<u8> = Vec::new();
        crate::paths::push_copy(&mut name, &d2_name);
        crate::paths::push_copy(&mut name, &leaf);
        let ghost namev = name@;
        let ghost nodesb = self.nodes@;
        let ghost pname = nodesb[d2 as int].name_of();
        proof {
            assert(namev == pname + leaf@);
            assert(namev.subrange(0, pname.len() as int) =~= pname);
            assert(file_child_name_ok(pname, namev)) by {
                assert forall|t: int| pname.len() <= t < namev.len() implies namev[t] != 47 by {
                    assert(namev[t] == leaf@[t - pname.len()]);
                }
            }
            assert(pname.len() > 0 && pname.last() == 47) by {
                assert(wf_node_basic(nodesb, d2 as int));
                assert(nodesb[d2 as int].live());
            }
            lemma_file_child_short(pname, namev);
            assert(file_short_spec(namev) =~= leaf@);
            lemma_find_file_props(nodesb, conts_of(nodesb, d2 as int), leaf@);
            assert forall|j: int|
                0 <= j < conts_of(nodesb, d2 as int).len() implies file_short_spec(
                nodesb[#[trigger] conts_of(nodesb, d2 as int)[j] as int].name_of(),
            ) != file_short_spec(namev) by {
                assert(wf_dir_children(nodesb, d2 as int));
                assert(child_file_ok(nodesb, d2 as int, conts_of(nodesb, d2 as int)[j] as int));
            }
            assert forall|t: int| 0 <= t < namev.len() implies keep_byte(#[trigger] namev[t]) by {
                if t < pname.len() {
                    assert(namev[t] == pname[t]);
                    assert(wf_node_basic(nodesb, d2 as int));
                } else {
                    assert(namev[t] == leaf@[t - pname.len()]);
                }
            }
            assert(namev != tombstone_seq()) by {
                assert(namev[pname.len() - 1] == pname.last());
                assert(pname.last() == 47);
                assert forall|t: int| 0 <= t < tombstone_seq().len() implies tombstone_seq()[t]
                    != 47 by {
                    if t == 0 {
                        assert(tombstone_seq()[0] == 100u8);
                    } else if t == 1 {
                        assert(tombstone_seq()[1] == 101u8);
                    } else if t == 2 {
                        assert(tombstone_seq()[2] == 102u8);
                    } else if t == 3 {
                        assert(tombstone_seq()[3] == 114u8);
                    } else if t == 4 {
                        assert(tombstone_seq()[4] == 97u8);
                    } else {
                        assert(tombstone_seq()[5] == 103u8);
                    }
                }
                if namev == tombstone_seq() {
                    assert(namev[pname.len() - 1] != 47);
                }
            }
        }
        let mut f = File::new(self.frontier, name);
        f.set_data(data);
        f.write = true;
        match kept_time {
            Some(t) => {
                proof {
                    assert(t@.len() == 11);
                }
                f.time = t;
            },
            None => {},
        }
        match kept_prefix {
            Some(px) => {
                proof {
                    assert(px@.len() == 155);
                }
                f.prefix = px;
            },
            None => {},
        }
        let ghost fsnap = f;
        let idx = self.attach_file(d2, f);
        self.frontier = nf;
        proof {
            assert forall|j: int| 0 <= j < self.registry@.len() implies {
                let it = self.nodes@[#[trigger] self.registry@[j] as int];
                it.live() && it.blkid_of() != NOT_PERSISTED ==> it.blkid_of() + it.footprint_of()
                    <= self.frontier
            } by {}
        }
        proof {
            assert(self.nodes@[idx as int].live());
            assert(self.nodes@[idx as int].blkid_of() + self.nodes@[idx as int].footprint_of()
                <= self.frontier);
        }
        self.register_node(idx);
        let ghost nmid = self.nodes@;
        let ghost nodes0 = old(self).nodes@;
        let res = self.write();
        proof {
            lemma_shape_of_updates(nmid[idx as int]);
            assert(same_shape(nmid[idx as int], self.nodes@[idx as int]) || nmid[idx as int]
                == self.nodes@[idx as int]);
            match res {
                Ok(()) => {
                    assert forall|i: int|
                        0 <= i < nodes0.len() implies (#[trigger] self.nodes@[i]).name_of()
                        == nodes0[i].name_of() && (self.nodes@[i] is Directory <==> nodes0[i]
                        is Directory) && subdirs_of(self.nodes@, i) == subdirs_of(nodes0, i)
                        && parent_of_idx(self.nodes@, i) == parent_of_idx(nodes0, i) by {
                        lemma_shape_of_updates(nmid[i]);
                        assert(same_shape(nmid[i], self.nodes@[i]) || nmid[i] == self.nodes@[i]);
                    }
                    assert(conts_of(self.nodes@, d2 as int) =~= conts_of(nodes0, d2 as int).push(
                        nodes0.len() as usize,
                    )) by {
                        lemma_shape_of_updates(nmid[d2 as int]);
                        assert(same_shape(nmid[d2 as int], self.nodes@[d2 as int]) || nmid[
                            d2 as int
                        ] == self.nodes@[d2 as int]);
                    }
                    assert forall|j: int|
                        0 <= j < self.registry@.len() implies !self.nodes@[
                        #[trigger] self.registry@[j] as int
                    ].dirty_of() by {
                        let x = self.registry@[j] as int;
                        assert(in_prefix(self.registry@, self.registry@.len() as int, x)) by {
                            assert(0 <= j < self.registry@.len() && self.registry@[j] as int == x);
                        }
                        assert(self.nodes@[x] == persisted_item(nmid[x]));
                    }
                },
                Err(_) => {},
            }
        }
        match res {
            Ok(()) => Ok(()),
            Err(e) => Err(e),
        }
    }

    /// Tombstones an unlinked node and, below a directory, its whole
    /// subtree, bottom-up: the child lists are emptied, every descendant
    /// takes the reserved name and the write-back mark.
    #[verifier::rlimit(60)]
    #[verifier::spinoff_prover]
    fn drop_subtree(&mut self, idx: usize)
        requires
            old(self).wf(),
            0 < idx < old(self).nodes@.len(),
            unlinked(old(self).nodes@, idx as int),
        ensures
            final(self).wf(),
            dropped_frame(old(self).nodes@, final(self).nodes@),
            is_tombstoned_of(old(self).nodes@[idx as int], final(self).nodes@[idx as int]),
            forall|k: int|
                0 <= k < conts_of(old(self).nodes@, idx as int).len() && 0 <= conts_of(
                    old(self).nodes@,
                    idx as int,
                )[k] < old(self).nodes@.len() ==> is_tombstoned_of(
                    old(self).nodes@[#[trigger] conts_of(old(self).nodes@, idx as int)[k] as int],
                    final(self).nodes@[conts_of(old(self).nodes@, idx as int)[k] as int],
                ),
            forall|k: int|
                0 <= k < subdirs_of(old(self).nodes@, idx as int).len() && 0 <= subdirs_of(
                    old(self).nodes@,
                    idx as int,
                )[k] < old(self).nodes@.len() ==> is_tombstoned_of(
                    old(self).nodes@[#[trigger] subdirs_of(old(self).nodes@, idx as int)[k] as int],
                    final(self).nodes@[subdirs_of(old(self).nodes@, idx as int)[k] as int],
                ),
            final(self).registry == old(self).registry,
            final(self).sessions == old(self).sessions,
            final(self).session_counter == old(self).session_counter,
            final(self).frontier == old(self).frontier,
            final(self).device == old(self).device,
        decreases old(self).nodes@.len() - idx,
    {
        let ghost nodes0 = self.nodes@;
        let is_dir: bool;
        match &self.nodes[idx] {
            Item::Directory(_) => {
                is_dir = true;
            },
            Item::File(_) => {
                is_dir = false;
            },
        }
        let conts: Vec<usize> = if is_dir {
            self.conts_list(idx)
        } else {
            Vec::new()
        };
        let subs: Vec<usize> = if is_dir {
            self.subdir_list(idx)
        } else {
            Vec::new()
        };
        // take the node itself
        match &mut self.nodes[idx] {
            Item::File(f) => {
                f.name = tombstone_name();
                f.write = true;
            },
            Item::Directory(d) => {
                d.name = tombstone_name();
                d.write = true;
                d.contents = Vec::new();
                d.subdirectories = Vec::new();
            },
        }
        proof {
            assert(is_tombstoned_of(nodes0[idx as int], self.nodes@[idx as int]));
            lemma_wf_tombstone_unlinked(
                nodes0,
                self.nodes@,
                idx as int,
                self.registry@,
                session_map(self.sessions),
                self.frontier,
            );
            assert(dropped_frame(nodes0, self.nodes@));
        }
        // the files below
        let m = conts.len();
        let mut j: usize = 0;
        while j < m
            invariant
                old(self).wf(),
                nodes0 == old(self).nodes@,
                self.wf(),
                dropped_frame(nodes0, self.nodes@),
                is_tombstoned_of(nodes0[idx as int], self.nodes@[idx as int]),
                0 < idx < nodes0.len(),
                0 <= j <= m,
                m == conts@.len(),
                is_dir ==> conts@ == conts_of(nodes0, idx as int),
                !is_dir ==> m == 0,
                forall|k: int|
                    0 <= k < j && 0 <= conts@[k] < nodes0.len() ==> is_tombstoned_of(
                        nodes0[#[trigger] conts@[k] as int],
                        self.nodes@[conts@[k] as int],
                    ),
                self.registry == old(self).registry,
                self.sessions == old(self).sessions,
                self.session_counter == old(self).session_counter,
                self.frontier == old(self).frontier,
                self.device == old(self).device,
            decreases m - j,
        {
            let c = conts[j];
            let ghost cur = self.nodes@;
            proof {
                assert(wf_dir_children(nodes0, idx as int));
                assert(child_file_ok(nodes0, idx as int, conts@[j as int] as int));
                // the slot held the node's only link, and taking subtrees
                // leaves lists either kept or empty
                assert forall|i: int, t: int|
                    0 <= i < cur.len() && 0 <= t < conts_of(cur, i).len() implies #[trigger]
                conts_of(cur, i)[t] != c as int by {
                    if conts_of(cur, i)[t] == c {
                        assert(cur[i] == nodes0[i] || is_tombstoned_of(nodes0[i], cur[i]));
                        if cur[i] == nodes0[i] {
                            assert(conts_of(cur, i) == conts_of(nodes0, i));
                            assert(wf_dir_children(nodes0, i));
                            assert(child_file_ok(nodes0, i, c as int));
                            assert(parent_of_idx(nodes0, c as int) == i);
                            assert(parent_of_idx(nodes0, c as int) == idx as int);
                            assert(i == idx as int);
                            assert(is_tombstoned_of(nodes0[idx as int], cur[idx as int]));
                            assert(conts_of(cur, idx as int).len() == 0);
                        } else {
                            assert(conts_of(cur, i).len() == 0);
                        }
                    }
                }
                assert forall|i: int, t: int|
                    0 <= i < cur.len() && 0 <= t < subdirs_of(cur, i).len() implies #[trigger]
                subdirs_of(cur, i)[t] != c as int by {
                    if subdirs_of(cur, i)[t] == c {
                        assert(cur[i] == nodes0[i] || is_tombstoned_of(nodes0[i], cur[i]));
                        if cur[i] == nodes0[i] {
                            assert(subdirs_of(cur, i) == subdirs_of(nodes0, i));
                            assert(wf_dir_children(nodes0, i));
                            assert(child_dir_ok(nodes0, i, c as int));
                            assert(nodes0[c as int] is File);
                        } else {
                            assert(subdirs_of(cur, i).len() == 0);
                        }
                    }
                }
                assert(unlinked(cur, c as int));
                assert(cur[c as int] == nodes0[c as int] || is_tombstoned_of(
                    nodes0[c as int],
                    cur[c as int],
                ));
                assert(cur[c as int] is File);
            }
            match &mut self.nodes[c] {
                Item::File(f) => {
                    f.name = tombstone_name();
                    f.write = true;
                },
                Item::Directory(_) => {
                    proof {
                        assert(false);
                    }
                },
            }
            proof {
                assert(is_tombstoned_of(cur[c as int], self.nodes@[c as int]));
                lemma_wf_tombstone_unlinked(
                    cur,
                    self.nodes@,
                    c as int,
                    self.registry@,
                    session_map(self.sessions),
                    self.frontier,
                );
                assert(dropped_frame(cur, self.nodes@));
                lemma_dropped_frame_trans(nodes0, cur, self.nodes@);
                assert(self.nodes@[idx as int] == cur[idx as int]) by {
                    assert(c as int != idx as int);
                }
                assert forall|k: int|
                    0 <= k < j + 1 && 0 <= conts@[k] < nodes0.len() implies is_tombstoned_of(
                    nodes0[#[trigger] conts@[k] as int],
                    self.nodes@[conts@[k] as int],
                ) by {
                    let x = conts@[k] as int;
                    if k < j {
                        assert(is_tombstoned_of(nodes0[x], cur[x]));
                        assert(self.nodes@[x] == cur[x] || is_tombstoned_of(
                            cur[x],
                            self.nodes@[x],
                        ));
                        lemma_tombstoned_compose(nodes0[x], cur[x], self.nodes@[x]);
                    } else {
                        assert(x == c as int);
                        assert(cur[x] == nodes0[x] || is_tombstoned_of(nodes0[x], cur[x]));
                        if cur[x] == nodes0[x] {
                        } else {
                            lemma_tombstoned_compose(nodes0[x], cur[x], self.nodes@[x]);
                        }
                    }
                }
            }
            j = j + 1;
        }
        // the directories below
        let ms = subs.len();
        let mut j2: usize = 0;
        while j2 < ms
            invariant
                old(self).wf(),
                nodes0 == old(self).nodes@,
                self.wf(),
                dropped_frame(nodes0, self.nodes@),
                is_tombstoned_of(nodes0[idx as int], self.nodes@[idx as int]),
                0 < idx < nodes0.len(),
                self.nodes@.len() == nodes0.len(),
                0 <= j2 <= ms,
                ms == subs@.len(),
                is_dir ==> subs@ == subdirs_of(nodes0, idx as int),
                !is_dir ==> ms == 0,
                forall|k: int|
                    0 <= k < conts@.len() && 0 <= conts@[k] < nodes0.len() ==> is_tombstoned_of(
                        nodes0[#[trigger] conts@[k] as int],
                        self.nodes@[conts@[k] as int],
                    ),
                forall|k: int|
                    0 <= k < j2 && 0 <= subs@[k] < nodes0.len() ==> is_tombstoned_of(
                        nodes0[#[trigger] subs@[k] as int],
                        self.nodes@[subs@[k] as int],
                    ),
                self.registry == old(self).registry,
                self.sessions == old(self).sessions,
                self.session_counter == old(self).session_counter,
                self.frontier == old(self).frontier,
                self.device == old(self).device,
            decreases ms - j2,
        {
            let c = subs[j2];
            let ghost cur = self.nodes@;
            proof {
                assert(wf_dir_children(nodes0, idx as int));
                assert(child_dir_ok(nodes0, idx as int, subs@[j2 as int] as int));
                assert forall|i: int, t: int|
                    0 <= i < cur.len() && 0 <= t < conts_of(cur, i).len() implies #[trigger]
                conts_of(cur, i)[t] != c as int by {
                    if conts_of(cur, i)[t] == c {
                        assert(cur[i] == nodes0[i] || is_tombstoned_of(nodes0[i], cur[i]));
                        if cur[i] == nodes0[i] {
                            assert(conts_of(cur, i) == conts_of(nodes0, i));
                            assert(wf_dir_children(nodes0, i));
                            assert(child_file_ok(nodes0, i, c as int));
                            assert(nodes0[c as int] is Directory);
                        } else {
                            assert(conts_of(cur, i).len() == 0);
                        }
                    }
                }
                assert forall|i: int, t: int|
                    0 <= i < cur.len() && 0 <= t < subdirs_of(cur, i).len() implies #[trigger]
                subdirs_of(cur, i)[t] != c as int by {
                    if subdirs_of(cur, i)[t] == c {
                        assert(cur[i] == nodes0[i] || is_tombstoned_of(nodes0[i], cur[i]));
                        if cur[i] == nodes0[i] {
                            assert(subdirs_of(cur, i) == subdirs_of(nodes0, i));
                            assert(wf_dir_children(nodes0, i));
                            assert(child_dir_ok(nodes0, i, c as int));
                            assert(parent_of_idx(nodes0, c as int) == i);
                            assert(parent_of_idx(nodes0, c as int) == idx as int);
                            assert(is_tombstoned_of(nodes0[idx as int], cur[idx as int]));
                            assert(subdirs_of(cur, idx as int).len() == 0);
                        } else {
                            assert(subdirs_of(cur, i).len() == 0);
                        }
                    }
                }
                assert(unlinked(cur, c as int));
                assert(idx < c < nodes0.len());
            }
            self.drop_subtree(c);
            proof {
                lemma_dropped_frame_trans(nodes0, cur, self.nodes@);
                assert(self.nodes@[idx as int] == cur[idx as int] || is_tombstoned_of(
                    cur[idx as int],
                    self.nodes@[idx as int],
                ));
                if is_tombstoned_of(cur[idx as int], self.nodes@[idx as int]) {
                    lemma_tombstoned_compose(
                        nodes0[idx as int],
                        cur[idx as int],
                        self.nodes@[idx as int],
                    );
                }
                assert forall|k: int|
                    0 <= k < conts@.len() && 0 <= conts@[k] < nodes0.len() implies is_tombstoned_of(
                    nodes0[#[trigger] conts@[k] as int],
                    self.nodes@[conts@[k] as int],
                ) by {
                    let x = conts@[k] as int;
                    assert(is_tombstoned_of(nodes0[x], cur[x]));
                    assert(self.nodes@[x] == cur[x] || is_tombstoned_of(cur[x], self.nodes@[x]));
                    lemma_tombstoned_compose(nodes0[x], cur[x], self.nodes@[x]);
                }
                assert forall|k: int|
                    0 <= k < j2 + 1 && 0 <= subs@[k] < nodes0.len() implies is_tombstoned_of(
                    nodes0[#[trigger] subs@[k] as int],
                    self.nodes@[subs@[k] as int],
                ) by {
                    let x = subs@[k] as int;
                    if k < j2 {
                        assert(is_tombstoned_of(nodes0[x], cur[x]));
                        assert(self.nodes@[x] == cur[x] || is_tombstoned_of(
                            cur[x],
                            self.nodes@[x],
                        ));
                        lemma_tombstoned_compose(nodes0[x], cur[x], self.nodes@[x]);
                    } else {
                        assert(x == c as int);
                        assert(is_tombstoned_of(cur[x], self.nodes@[x]));
                        assert(cur[x] == nodes0[x] || is_tombstoned_of(nodes0[x], cur[x]));
                        if cur[x] == nodes0[x] {
                        } else {
                            lemma_tombstoned_compose(nodes0[x], cur[x], self.nodes@[x]);
                        }
                    }
                }
            }
            j2 = j2 + 1;
        }
    }

    /// Removes the directory at `file`, when it resolves and is not the
    /// root: the node is unlinked from its parent's child directories at
    /// once, every descendant is tombstoned with it, and the volume is
    /// persisted.
    pub fn remove_directory(&mut self, file: &str, id: Option<u64>) -> (r: Result<(), FsError>)
        requires
            old(self).wf(),
        ensures
            final(self).wf(),
            final(self).device.data@.len() == old(self).device.data@.len(),
            final(self).frontier == old(self).frontier,
            final(self).registry == old(self).registry,
            (r matches Err(FsError::NotFound)) ==> final(self).nodes == old(self).nodes
                && final(self).device == old(self).device,
            (r is Ok || r matches Err(FsError::DeviceBoundary)) ==> (forall|i: int|
                0 <= i < old(self).nodes@.len() ==> ((#[trigger] final(self).nodes@[i]).name_of()
                    == old(self).nodes@[i].name_of() || final(self).nodes@[i].name_of()
                    == tombstone_seq()) && (final(self).nodes@[i] is Directory
                    <==> old(self).nodes@[i] is Directory) && final(self).nodes@[i].data_of()
                    == old(self).nodes@[i].data_of()),
            ({
                let pb = file.spec_bytes();
                let nodes0 = old(self).nodes@;
                let sm0 = session_map(old(self).sessions);
                let target = if is_absolute_spec(pb) {
                    resolve_dir_abs(nodes0, pb)
                } else {
                    match id {
                        Some(i) => resolve_dir_rel(nodes0, sm0, pb, i),
                        None => walk(nodes0, 0, split_path_spec(pb), true),
                    }
                };
                // a removable target: a resolvable, live, non-root directory
                &&& ((r matches Err(FsError::NotFound)) <==> (match target {
                    Some(t) => t == 0 || !nodes0[t].live(),
                    None => true,
                }))
                // on removal the target bears the tombstone, hangs in no
                // child list any more, and its children (files and child
                // directories, whose own lists the tombstone emptied in
                // turn) bear the tombstone with it
                &&& ((r is Ok || r matches Err(FsError::DeviceBoundary)) ==> (match target {
                    Some(t) => final(self).nodes@[t].name_of() == tombstone_seq() && unlinked(
                        final(self).nodes@,
                        t,
                    ) && (forall|k: int|
                        0 <= k < conts_of(nodes0, t).len() && 0 <= conts_of(nodes0, t)[k]
                            < nodes0.len() ==> final(self).nodes@[
                            #[trigger] conts_of(nodes0, t)[k] as int
                        ].name_of() == tombstone_seq()) && (forall|k: int|
                        0 <= k < subdirs_of(nodes0, t).len() && 0 <= subdirs_of(nodes0, t)[k]
                            < nodes0.len() ==> final(self).nodes@[
                            #[trigger] subdirs_of(nodes0, t)[k] as int
                        ].name_of() == tombstone_seq()),
                    None => true,
                }))
                // the write-back pass ran: nothing registered stays dirty
                &&& (r is Ok ==> forall|j: int|
                    0 <= j < final(self).registry@.len() ==> !final(self).nodes@[
                        #[trigger] final(self).registry@[j] as int
                    ].dirty_of())
                &&& ((r matches Err(FsError::DeviceBoundary)) ==> !can_persist(
                    final(self).nodes@,
                    final(self).registry@,
                    final(self).device.data@.len(),
                    final(self).frontier,
                ))
            }),
    {
        let p = file.as_bytes_vec();
        let t: usize;
        match self.resolve_directory(&p, id) {
            Some(tt) => {
                t = tt;
            },
            None => {
                return Err(FsError::NotFound);
            },
        }
        if t == 0 {
            // the root cannot be removed
            return Err(FsError::NotFound);
        }
        let t_name: Vec<u8>;
        let parent: usize;
        match &self.nodes[t] {
            Item::Directory(td) => {
                t_name = crate::paths::copy_range(&td.name, 0, td.name.len());
                parent = td.parent;
            },
            Item::File(_) => {
                proof {
                    assert(false);
                }
                t_name = Vec::new();
                parent = 0;
            },
        }
        proof {
            assert(t_name@ =~= self.nodes@[t as int].name_of());
        }
        let tomb = tombstone_name();
        if bytes_eq(&t_name, &tomb) {
            return Err(FsError::NotFound);
        }
        proof {
            assert(0 <= parent_of_idx(self.nodes@, t as int) < t as int);
            assert(self.nodes@[parent_of_idx(self.nodes@, t as int)] is Directory);
        }
        let ghost nodes0 = self.nodes@;
        // unlink the slot, when the node still stands in its parent's list
        let list = self.subdir_list(parent);
        let m = list.len();
        let mut j: usize = 0;
        while j < m && list[j] != t
            invariant
                list@ == subdirs_of(nodes0, parent as int),
                m == list@.len(),
                0 <= j <= m,
                forall|u: int| 0 <= u < j ==> list@[u] != t,
            decreases m - j,
        {
            j = j + 1;
        }
        if j < m {
            match &mut self.nodes[parent] {
                Item::Directory(pd) => {
                    pd.subdirectories.remove(j);
                },
                Item::File(_) => {
                    proof {
                        assert(false);
                    }
                },
            }
            proof {
                assert(subdirs_of(self.nodes@, parent as int) =~= subdirs_of(
                    nodes0,
                    parent as int,
                ).subrange(0, j as int) + subdirs_of(nodes0, parent as int).subrange(
                    j + 1,
                    subdirs_of(nodes0, parent as int).len() as int,
                ));
                lemma_wf_unlink_subdir(
                    nodes0,
                    self.nodes@,
                    parent as int,
                    j as int,
                    self.registry@,
                    session_map(self.sessions),
                    self.frontier,
                );
            }
        } else {
            proof {
                // the node was already out of every list
                assert forall|i: int, u: int|
                    0 <= i < self.nodes@.len() && 0 <= u < conts_of(self.nodes@, i).len() implies #[trigger]
                conts_of(self.nodes@, i)[u] != t as int by {
                    if conts_of(self.nodes@, i)[u] == t {
                        assert(wf_dir_children(self.nodes@, i));
                        assert(child_file_ok(self.nodes@, i, t as int));
                    }
                }
                assert forall|i: int, u: int|
                    0 <= i < self.nodes@.len() && 0 <= u < subdirs_of(self.nodes@, i).len() implies #[trigger]
                subdirs_of(self.nodes@, i)[u] != t as int by {
                    if subdirs_of(self.nodes@, i)[u] == t {
                        assert(wf_dir_children(self.nodes@, i));
                        assert(child_dir_ok(self.nodes@, i, t as int));
                        assert(parent_of_idx(self.nodes@, t as int) == i);
                        assert(list@[u] != t);
                    }
                }
                assert(unlinked(self.nodes@, t as int));
            }
        }
        let ghost nunlinked = self.nodes@;
        proof {
            assert(unlinked(nunlinked, t as int));
        }
        self.drop_subtree(t);
        let ghost nmid = self.nodes@;
        proof {
            lemma_dropped_frame_unlinked(nunlinked, nmid, t as int);
        }
        let res = self.write();
        proof {
            // the target stays tombstoned and out of every list
            assert(self.nodes@[t as int].name_of() == tombstone_seq()) by {
                lemma_shape_of_updates(nmid[t as int]);
                assert(same_shape(nmid[t as int], self.nodes@[t as int]) || nmid[t as int]
                    == self.nodes@[t as int]);
            }
            // so do the children it owned
            assert(conts_of(nunlinked, t as int) == conts_of(nodes0, t as int));
            assert(subdirs_of(nunlinked, t as int) == subdirs_of(nodes0, t as int));
            assert forall|k: int|
                0 <= k < conts_of(nodes0, t as int).len() && 0 <= conts_of(nodes0, t as int)[k]
                    < nodes0.len() implies self.nodes@[
                #[trigger] conts_of(nodes0, t as int)[k] as int
            ].name_of() == tombstone_seq() by {
                let x = conts_of(nodes0, t as int)[k] as int;
                assert(is_tombstoned_of(nunlinked[x], nmid[x]));
                lemma_shape_of_updates(nmid[x]);
                assert(same_shape(nmid[x], self.nodes@[x]) || nmid[x] == self.nodes@[x]);
            }
            assert forall|k: int|
                0 <= k < subdirs_of(nodes0, t as int).len() && 0 <= subdirs_of(nodes0, t as int)[k]
                    < nodes0.len() implies self.nodes@[
                #[trigger] subdirs_of(nodes0, t as int)[k] as int
            ].name_of() == tombstone_seq() by {
                let x = subdirs_of(nodes0, t as int)[k] as int;
                assert(is_tombstoned_of(nunlinked[x], nmid[x]));
                lemma_shape_of_updates(nmid[x]);
                assert(same_shape(nmid[x], self.nodes@[x]) || nmid[x] == self.nodes@[x]);
            }
            assert forall|i: int, u: int|
                0 <= i < self.nodes@.len() && 0 <= u < conts_of(self.nodes@, i).len() implies #[trigger]
            conts_of(self.nodes@, i)[u] != t as int by {
                lemma_shape_of_updates(nmid[i]);
                assert(same_shape(nmid[i], self.nodes@[i]) || nmid[i] == self.nodes@[i]);
                assert(conts_of(self.nodes@, i) == conts_of(nmid, i));
            }
            assert forall|i: int, u: int|
                0 <= i < self.nodes@.len() && 0 <= u < subdirs_of(self.nodes@, i).len() implies #[trigger]
            subdirs_of(self.nodes@, i)[u] != t as int by {
                lemma_shape_of_updates(nmid[i]);
                assert(same_shape(nmid[i], self.nodes@[i]) || nmid[i] == self.nodes@[i]);
                assert(subdirs_of(self.nodes@, i) == subdirs_of(nmid, i));
            }
            assert(unlinked(self.nodes@, t as int));
        }
        proof {
            assert forall|i: int|
                0 <= i < nodes0.len() implies ((#[trigger] self.nodes@[i]).name_of()
                == nodes0[i].name_of() || self.nodes@[i].name_of() == tombstone_seq()) && (
            self.nodes@[i] is Directory <==> nodes0[i] is Directory) && self.nodes@[i].data_of()
                == nodes0[i].data_of() by {
                lemma_shape_of_updates(nmid[i]);
                assert(same_shape(nmid[i], self.nodes@[i]) || nmid[i] == self.nodes@[i]);
                assert(nmid[i] == nunlinked[i] || is_tombstoned_of(nunlinked[i], nmid[i]));
                if i != parent as int {
                    assert(nunlinked[i] == nodes0[i]);
                }
            }
        }
        proof {
            match res {
                Ok(()) => {
                    assert forall|j: int|
                        0 <= j < self.registry@.len() implies !self.nodes@[
                        #[trigger] self.registry@[j] as int
                    ].dirty_of() by {
                        let x = self.registry@[j] as int;
                        assert(in_prefix(self.registry@, self.registry@.len() as int, x)) by {
                            assert(0 <= j < self.registry@.len() && self.registry@[j] as int == x);
                        }
                        assert(self.nodes@[x] == persisted_item(nmid[x]));
                    }
                },
                Err(_) => {},
            }
        }
        match res {
            Ok(()) => Ok(()),
            Err(e) => Err(e),
        }
    }

    /// Walks the registry and writes every dirty item's image at its block,
    /// clearing the dirty flag and refreshing the checksum; then lays two
    /// zero sectors at the frontier, so the next mount scan stops there.
    /// When any dirty item or the end marks would fall outside the device,
    /// nothing at all is written.
    pub fn write(&mut self) -> (r: Result<(), FsError>)
        requires
            old(self).wf(),
        ensures
            final(self).wf(),
            final(self).registry == old(self).registry,
            final(self).sessions == old(self).sessions,
            final(self).session_counter == old(self).session_counter,
            final(self).frontier == old(self).frontier,
            final(self).device.data@.len() == old(self).device.data@.len(),
            match r {
                Ok(()) => {
                    &&& can_persist(
                        old(self).nodes@,
                        old(self).registry@,
                        old(self).device.data@.len(),
                        old(self).frontier,
                    )
                    &&& final(self).device.data@ == persist_image(
                        old(self).device.data@,
                        old(self).nodes@,
                        old(self).registry@,
                        old(self).frontier,
                    )
                    &&& final(self).nodes@.len() == old(self).nodes@.len()
                    &&& forall|i: int|
                        0 <= i < old(self).nodes@.len() ==> #[trigger] final(self).nodes@[i]
                            == if in_prefix(
                            old(self).registry@,
                            old(self).registry@.len() as int,
                            i,
                        ) {
                            persisted_item(old(self).nodes@[i])
                        } else {
                            old(self).nodes@[i]
                        }
                },
                Err(e) => {
                    &&& e == FsError::DeviceBoundary
                    &&& !can_persist(
                        old(self).nodes@,
                        old(self).registry@,
                        old(self).device.data@.len(),
                        old(self).frontier,
                    )
                    &&& *final(self) == *old(self)
                },
            },
    {
        let ghost nodes0 = self.nodes@;
        let ghost reg = self.registry@;
        let ghost dev0 = self.device.data@;
        let dl = self.device.data.len();
        let m = self.registry.len();
        // First pass: check that every dirty item and the end marks fit.
        let mut ok: bool = true;
        let mut j: usize = 0;
        while j < m
            invariant
                old(self).wf(),
                *self == *old(self),
                nodes0 == self.nodes@,
                reg == self.registry@,
                dev0 == self.device.data@,
                dl == dev0.len(),
                m == reg.len(),
                0 <= j <= m,
                ok == (forall|t: int| 0 <= t < j ==> item_fits(nodes0[#[trigger] reg[t] as int], dl as nat)),
            decreases m - j,
        {
            let idx = self.registry[j];
            proof {
                assert(1 <= reg[j as int] < nodes0.len());
                assert(wf_node_basic(nodes0, idx as int));
            }
            let dirty: bool;
            let blkid: u64;
            let sectors: u64;
            match &self.nodes[idx] {
                Item::File(f) => {
                    dirty = f.write;
                    blkid = f.block_id;
                    sectors = 1 + (f.size + 511) / 512;
                },
                Item::Directory(d) => {
                    dirty = d.write;
                    blkid = d.block_id;
                    sectors = 1 + (d.size + 511) / 512;
                },
            }
            proof {
                assert(sectors == nodes0[idx as int].footprint_of());
            }
            let this_ok: bool;
            if !dirty {
                this_ok = true;
            } else if blkid > 0x1_0000_0000u64 - sectors {
                this_ok = false;
            } else {
                this_ok = (blkid + sectors) * 512 <= dl as u64;
            }
            proof {
                assert(this_ok == item_fits(nodes0[idx as int], dl as nat));
            }
            ok = ok && this_ok;
            j = j + 1;
        }
        if !(ok && self.frontier <= 0x1_0000_0000u64 - 2 && (self.frontier + 2) * 512 <= dl as u64)
        {
            return Err(FsError::DeviceBoundary);
        }
        proof {
            assert(can_persist(nodes0, reg, dl as nat, self.frontier));
        }
        // Second pass: write the dirty items out.
        let ghost frontier0 = self.frontier;
        let mut j: usize = 0;
        while j < m
            invariant
                old(self).wf(),
                nodes0 == old(self).nodes@,
                reg == old(self).registry@,
                dev0 == old(self).device.data@,
                dl == dev0.len(),
                m == reg.len(),
                0 <= j <= m,
                can_persist(nodes0, reg, dl as nat, frontier0),
                frontier0 == self.frontier,
                self.registry == old(self).registry,
                self.sessions == old(self).sessions,
                self.session_counter == old(self).session_counter,
                self.frontier == old(self).frontier,
                self.device.data@ == write_out(dev0, nodes0, reg, j as int),
                self.device.data@.len() == dl,
                self.nodes@.len() == nodes0.len(),
                forall|i: int|
                    0 <= i < nodes0.len() ==> #[trigger] self.nodes@[i] == if in_prefix(
                        reg,
                        j as int,
                        i,
                    ) {
                        persisted_item(nodes0[i])
                    } else {
                        nodes0[i]
                    },
            decreases m - j,
        {
            let idx = self.registry[j];
            proof {
                assert(1 <= reg[j as int] < nodes0.len());
                if in_prefix(reg, j as int, idx as int) {
                    let t = choose|t: int| 0 <= t < j && reg[t] == idx as int;
                    assert(reg[t] == reg[j as int]);
                    assert(false);
                }
                assert(self.nodes@[idx as int] == nodes0[idx as int]);
                assert(wf_node_basic(nodes0, idx as int));
                assert(item_fits(nodes0[idx as int], dl as nat));
            }
            let ghost it0 = nodes0[idx as int];
            let mut job: Option<(u64, Vec<u8>)> = None;
            match &mut self.nodes[idx] {
                Item::File(f) => {
                    if f.write {
                        f.write = false;
                        let hdr = f.to_block();
                        let mut img = hdr;
                        crate::paths::push_copy(&mut img, &f.data);
                        let psec64 = (f.size + 511) / 512;
                        proof {
                            assert(f.size < SIZE_LIMIT);
                            assert(psec64 <= 0x200000 && psec64 * 512 >= f.size) by (nonlinear_arith)
                                requires
                                    f.size < 0x4000_0000,
                                    psec64 == (f.size + 511) / 512,
                            ;
                            crate::codec::lemma_header_layout(
                                f.name@,
                                f.size,
                                f.time@,
                                f.prefix@,
                                crate::codec::TYPE_FILE,
                                0,
                            );
                            crate::codec::lemma_header_layout(
                                f.name@,
                                f.size,
                                f.time@,
                                f.prefix@,
                                crate::codec::TYPE_FILE,
                                crate::codec::header_sum(
                                    crate::codec::header_with_cksum(
                                        f.name@,
                                        f.size,
                                        f.time@,
                                        f.prefix@,
                                        crate::codec::TYPE_FILE,
                                        0,
                                    ),
                                ),
                            );
                            assert(img@.len() == 512 + f.size);
                        }
                        let psec = psec64 as usize;
                        let pad = psec * 512 - f.data.len();
                        crate::codec::push_zeros(&mut img, pad);
                        proof {
                            assert(psec == payload_sectors(f.size));
                            assert(img@.len() == 512 + psec * 512);
                            assert(it0.size_of() == f.size);
                            assert(it0.footprint_of() == 1 + payload_sectors(f.size));
                            assert(img@.len() == it0.footprint_of() * 512) by (nonlinear_arith)
                                requires
                                    img@.len() == 512 + psec * 512,
                                    psec == payload_sectors(f.size),
                                    it0.footprint_of() == 1 + payload_sectors(f.size),
                            ;
                            assert(img@ =~= it0.image_of());
                            crate::codec::lemma_header_cksum_indep(
                                f.name@,
                                f.size,
                                f.time@,
                                f.prefix@,
                                crate::codec::TYPE_FILE,
                                0,
                                crate::codec::header_sum(
                                    crate::codec::header_with_cksum(
                                        f.name@,
                                        f.size,
                                        f.time@,
                                        f.prefix@,
                                        crate::codec::TYPE_FILE,
                                        0,
                                    ),
                                ),
                            );
                        }
                        job = Some((f.block_id, img));
                    }
                },
                Item::Directory(d) => {
                    if d.write {
                        d.write = false;
                        let img = d.to_block();
                        proof {
                            crate::codec::lemma_header_layout(
                                d.name@,
                                d.size,
                                d.time@,
                                d.prefix@,
                                crate::codec::TYPE_DIR,
                                0,
                            );
                            crate::codec::lemma_header_layout(
                                d.name@,
                                d.size,
                                d.time@,
                                d.prefix@,
                                crate::codec::TYPE_DIR,
                                crate::codec::header_sum(
                                    crate::codec::header_with_cksum(
                                        d.name@,
                                        d.size,
                                        d.time@,
                                        d.prefix@,
                                        crate::codec::TYPE_DIR,
                                        0,
                                    ),
                                ),
                            );
                            assert(it0.size_of() == d.size && d.size == 0);
                            assert(it0.footprint_of() == 1);
                            assert(img@.len() == 512);
                            assert(img@ =~= it0.image_of());
                            crate::codec::lemma_header_cksum_indep(
                                d.name@,
                                d.size,
                                d.time@,
                                d.prefix@,
                                crate::codec::TYPE_DIR,
                                0,
                                crate::codec::header_sum(
                                    crate::codec::header_with_cksum(
                                        d.name@,
                                        d.size,
                                        d.time@,
                                        d.prefix@,
                                        crate::codec::TYPE_DIR,
                                        0,
                                    ),
                                ),
                            );
                        }
                        job = Some((d.block_id, img));
                    }
                },
            }
            proof {
                assert(self.nodes@[idx as int] == persisted_item(it0));
            }
            match job {
                Some((blk, img)) => {
                    proof {
                        assert(it0.dirty_of());
                        assert(blk == it0.blkid_of());
                        assert(img@ == it0.image_of());
                        assert(img@.len() == it0.footprint_of() * 512);
                        assert(img@.len() % 512 == 0) by (nonlinear_arith)
                            requires
                                img@.len() == it0.footprint_of() * 512,
                        ;
                        assert(img@.len() / 512 == it0.footprint_of()) by (nonlinear_arith)
                            requires
                                img@.len() == it0.footprint_of() * 512,
                        ;
                        assert(blk * 512 + img@.len() <= dl);
                    }
                    let res = self.device.write_bytes(blk, &img);
                    match res {
                        Ok(()) => {},
                        Err(_) => {
                            proof {
                                assert(false);
                            }
                        },
                    }
                },
                None => {
                    proof {
                        assert(!it0.dirty_of());
                        assert(self.nodes@[idx as int] == persisted_item(it0));
                    }
                },
            }
            j = j + 1;
            proof {
                assert(self.device.data@ =~= write_out(dev0, nodes0, reg, j as int));
                assert forall|i: int| 0 <= i < nodes0.len() implies #[trigger] self.nodes@[i]
                    == if in_prefix(reg, j as int, i) {
                    persisted_item(nodes0[i])
                } else {
                    nodes0[i]
                } by {
                    if i == idx as int {
                        assert(0 <= j - 1 < j && reg[j - 1] == i);
                        assert(in_prefix(reg, j as int, i));
                    } else if in_prefix(reg, j as int, i) {
                        let t = choose|t: int| 0 <= t < j && reg[t] == i;
                        assert(t < j - 1 || reg[j - 1] == i);
                        assert(in_prefix(reg, j - 1, i));
                    } else {
                        assert(!in_prefix(reg, j - 1, i)) by {
                            if in_prefix(reg, j - 1, i) {
                                let t = choose|t: int| 0 <= t < j - 1 && reg[t] == i;
                                assert(0 <= t < j && reg[t] == i);
                            }
                        }
                    }
                }
            }
        }
        // The end-of-volume marks: two zero sectors at the frontier.
        let mut z: Vec<u8> = Vec::new();
        crate::codec::push_zeros(&mut z, 512);
        proof {
            assert(z@ =~= crate::codec::zeros(512));
            assert(self.frontier * 512 + 512 <= dl && (self.frontier + 1) * 512 + 512 <= dl) by {
                assert((frontier0 + 2) * 512 <= dl);
            }
        }
        let res1 = self.device.write_bytes(self.frontier, &z);
        match res1 {
            Ok(()) => {},
            Err(_) => {
                proof {
                    assert(false);
                }
            },
        }
        let res2 = self.device.write_bytes(self.frontier + 1, &z);
        match res2 {
            Ok(()) => {},
            Err(_) => {
                proof {
                    assert(false);
                }
            },
        }
        proof {
            assert(self.device.data@ =~= persist_image(dev0, nodes0, reg, frontier0));
            assert forall|i: int| 0 <= i < nodes0.len() implies same_shape(
                nodes0[i],
                #[trigger] self.nodes@[i],
            ) by {
                lemma_shape_of_updates(nodes0[i]);
            }
            lemma_wf_same_shape(
                nodes0,
                self.nodes@,
                reg,
                session_map(self.sessions),
                self.frontier,
            );
        }
        Ok(())
    }

    /// Makes a directory under the session's current directory, unless a
    /// live child directory already answers to the name.  Separators in the
    /// argument are dropped, the new directory's name is the current
    /// directory's name plus the argument and a closing separator, a sector
    /// is claimed at the frontier, and the volume is persisted.  The
    /// frontier moves by exactly the new item's footprint: the mount scan
    /// stops at the first sector without a record, so slack between items
    /// would end the volume there.  An absolute argument goes through
    /// `create_directory_absolute_path`.
    pub fn create_directory(&mut self, file: &str, id: u64) -> (r: Result<(), FsError>)
        requires
            old(self).wf(),
        ensures
            final(self).wf(),
            final(self).device.data@.len() == old(self).device.data@.len(),
            r is Ok ==> (forall|j: int|
                0 <= j < final(self).registry@.len() ==> !final(self).nodes@[
                    #[trigger] final(self).registry@[j] as int
                ].dirty_of()),
            (r matches Err(FsError::DeviceBoundary)) ==> old(self).frontier == u64::MAX
                || !can_persist(
                final(self).nodes@,
                final(self).registry@,
                final(self).device.data@.len(),
                final(self).frontier,
            ),
            is_absolute_spec(file.spec_bytes()) && r is Ok ==> ({
                let nfin = final(self).nodes@;
                &&& nfin.len() > old(self).nodes@.len()
                &&& nfin.last() is Directory
                &&& nfin.last().live()
                &&& nfin.last().registered_of()
                &&& nfin.last().blkid_of() == old(self).frontier
                &&& last_comp(nfin.last().name_of()) == strip_sep_spec(
                    last_comp(file.spec_bytes()),
                )
                &&& final(self).frontier == old(self).frontier + 1
            }),
            ({
                let nodes = old(self).nodes@;
                let sm = session_map(old(self).sessions);
                let arg = file.spec_bytes();
                !is_absolute_spec(arg) ==> {
                    let comp = strip_sep_spec(arg);
                    &&& (!sm.dom().contains(id) ==> (r matches Err(FsError::NotFound))
                        && *final(self) == *old(self))
                    &&& (sm.dom().contains(id) ==> {
                        let cursor = sm[id] as int;
                        let bad = !(forall|k: int|
                            0 <= k < comp.len() ==> keep_byte(#[trigger] comp[k]))
                            || nodes[cursor].name_of().len() + comp.len() + 1 > 100;
                        let clash = find_subdir(nodes, subdirs_of(nodes, cursor), comp) is Some;
                        &&& (!nodes[cursor].live() ==> (r matches Err(FsError::NotFound))
                            && *final(self) == *old(self))
                        &&& (nodes[cursor].live() && bad ==> (r matches Err(FsError::InvalidName))
                            && *final(self) == *old(self))
                        &&& (nodes[cursor].live() && !bad && clash ==> (r matches Err(
                            FsError::NameCollision,
                        )) && *final(self) == *old(self))
                        &&& (nodes[cursor].live() && !bad && !clash ==> (r is Ok || r matches Err(
                            FsError::DeviceBoundary,
                        )))
                        &&& (nodes[cursor].live() && !bad && !clash && r is Ok ==> {
                            &&& final(self).nodes@.len() == nodes.len() + 1
                            &&& final(self).nodes@.last() is Directory
                            &&& final(self).nodes@.last().name_of() == nodes[cursor].name_of()
                                + comp + seq![47u8]
                            &&& final(self).nodes@.last().blkid_of() == old(self).frontier
                            &&& final(self).nodes@.last().registered_of()
                            &&& subdirs_of(final(self).nodes@, cursor) == subdirs_of(
                                nodes,
                                cursor,
                            ).push(nodes.len() as usize)
                            &&& final(self).frontier == old(self).frontier + 1
                            &&& surface_same_except(nodes, final(self).nodes@, nodes.len() as int)
                        })
                    })
                }
            }),
    {
        let p = file.as_bytes_vec();
        if is_absolute(&p) {
            return self.create_directory_absolute(&p);
        }
        let cursor: usize;
        match session_table_get(&self.sessions, id) {
            Some(c) => {
                let nodes_len = self.nodes.len();
                proof {
                    assert(session_map(self.sessions).dom().contains(id));
                    assert(0 <= session_map(self.sessions)[id] < self.nodes@.len());
                    assert(self.nodes@[session_map(self.sessions)[id] as int] is Directory);
                    assert(c < nodes_len as u64);
                }
                cursor = c as usize;
            },
            None => {
                return Err(FsError::NotFound);
            },
        }
        let comp = strip_sep(&p);
        proof {
            assert forall|k: int| 0 <= k < comp@.len() implies #[trigger] comp@[k] != 47 by {
                p@.lemma_filter_pred(|b: u8| b != 47, k);
            }
        }
        self.create_directory_in(cursor, comp)
    }

    /// The shared tail of directory creation: checks, allocation at the
    /// frontier, linking, registration and write-back, under the given
    /// directory.
    fn create_directory_in(&mut self, cursor: usize, comp: Vec<u8>) -> (r: Result<(), FsError>)
        requires
            old(self).wf(),
            cursor < old(self).nodes@.len(),
            old(self).nodes@[cursor as int] is Directory,
            forall|k: int| 0 <= k < comp@.len() ==> #[trigger] comp@[k] != 47,
        ensures
            final(self).wf(),
            final(self).device.data@.len() == old(self).device.data@.len(),
            ({
                let nodes = old(self).nodes@;
                let bad = !(forall|k: int| 0 <= k < comp@.len() ==> keep_byte(#[trigger] comp@[k]))
                    || nodes[cursor as int].name_of().len() + comp@.len() + 1 > 100;
                let clash = find_subdir(nodes, subdirs_of(nodes, cursor as int), comp@) is Some;
                &&& (!nodes[cursor as int].live() ==> (r matches Err(FsError::NotFound))
                    && *final(self) == *old(self))
                &&& (nodes[cursor as int].live() && bad ==> (r matches Err(FsError::InvalidName))
                    && *final(self) == *old(self))
                &&& (nodes[cursor as int].live() && !bad && clash ==> (r matches Err(
                    FsError::NameCollision,
                )) && *final(self) == *old(self))
                &&& (nodes[cursor as int].live() && !bad && !clash ==> (r is Ok || r matches Err(
                    FsError::DeviceBoundary,
                )))
                &&& (nodes[cursor as int].live() && !bad && !clash && r is Ok ==> {
                    &&& final(self).nodes@.len() == nodes.len() + 1
                    &&& final(self).nodes@.last() is Directory
                    &&& final(self).nodes@.last().name_of() == nodes[cursor as int].name_of()
                        + comp@ + seq![47u8]
                    &&& final(self).nodes@.last().blkid_of() == old(self).frontier
                    &&& final(self).nodes@.last().registered_of()
                    &&& subdirs_of(final(self).nodes@, cursor as int) == subdirs_of(
                        nodes,
                        cursor as int,
                    ).push(nodes.len() as usize)
                    &&& final(self).frontier == old(self).frontier + 1
                    &&& surface_same_except(nodes, final(self).nodes@, nodes.len() as int)
                })
            }),
            (r matches Err(FsError::DeviceBoundary)) ==> old(self).frontier == u64::MAX
                || !can_persist(
                final(self).nodes@,
                final(self).registry@,
                final(self).device.data@.len(),
                final(self).frontier,
            ),
            r is Ok ==> (forall|j: int|
                0 <= j < final(self).registry@.len() ==> !final(self).nodes@[
                    #[trigger] final(self).registry@[j] as int
                ].dirty_of()),
    {
        // a removed directory is no place to make anything
        let cursor_name: Vec<u8>;
        match &self.nodes[cursor] {
            Item::Directory(pd) => {
                cursor_name = crate::paths::copy_range(&pd.name, 0, pd.name.len());
            },
            Item::File(_) => {
                proof {
                    assert(false);
                }
                cursor_name = Vec::new();
            },
        }
        proof {
            assert(cursor_name@ =~= self.nodes@[cursor as int].name_of());
        }
        let tomb = tombstone_name();
        if bytes_eq(&cursor_name, &tomb) {
            return Err(FsError::NotFound);
        }
        // the composed name must be sound ASCII and fit the name field
        let mut ascii_ok = true;
        let mut k: usize = 0;
        let cl = comp.len();
        while k < cl
            invariant
                0 <= k <= cl,
                cl == comp@.len(),
                ascii_ok == (forall|t: int| 0 <= t < k ==> keep_byte(#[trigger] comp@[t])),
            decreases cl - k,
        {
            let b = comp[k];
            ascii_ok = ascii_ok && b > 0 && b < 128;
            k = k + 1;
        }
        let parent_name_len: usize;
        match &self.nodes[cursor] {
            Item::Directory(pd) => {
                parent_name_len = pd.name.len();
            },
            Item::File(_) => {
                proof {
                    assert(false);
                }
                parent_name_len = 0;
            },
        }
        proof {
            assert(wf_node_basic(self.nodes@, cursor as int));
        }
        if !ascii_ok || comp.len() > 100 || parent_name_len + comp.len() + 1 > 100 {
            return Err(FsError::InvalidName);
        }
        // a live sibling directory under the same name refuses the call
        match self.find_subdir_exec(cursor, &comp) {
            Some(_) => {
                return Err(FsError::NameCollision);
            },
            None => {},
        }
        let nf: u64;
        match self.frontier.checked_add(1) {
            Some(v) => {
                nf = v;
            },
            None => {
                return Err(FsError::DeviceBoundary);
            },
        }
        // build the new directory
        let mut name: Vec<u8> = Vec::new();
        match &self.nodes[cursor] {
            Item::Directory(pd) => {
                crate::paths::push_copy(&mut name, &pd.name);
            },
            Item::File(_) => {
                proof {
                    assert(false);
                }
            },
        }
        crate::paths::push_copy(&mut name, &comp);
        name.push(47);
        let ghost namev = name@;
        let ghost nodes0 = self.nodes@;
        let ghost pname = nodes0[cursor as int].name_of();
        proof {
            assert(namev == pname + comp@ + seq![47u8]);
            assert(namev.subrange(0, pname.len() as int) =~= pname);
            assert(dir_child_name_ok(pname, namev)) by {
                assert forall|t: int| pname.len() <= t < namev.len() - 1 implies namev[t]
                    != 47 by {
                    assert(namev[t] == comp@[t - pname.len()]);
                    assert(comp@[t - pname.len()] != 47);
                }
            }
            assert(pname.len() > 0 && pname.last() == 47) by {
                assert(wf_node_basic(nodes0, cursor as int));
            }
            lemma_dir_child_last_comp(pname, namev);
            assert(last_comp(namev) =~= comp@);
            lemma_find_subdir_props(nodes0, subdirs_of(nodes0, cursor as int), comp@);
            assert forall|j: int|
                0 <= j < subdirs_of(nodes0, cursor as int).len() implies last_comp(
                nodes0[#[trigger] subdirs_of(nodes0, cursor as int)[j] as int].name_of(),
            ) != last_comp(namev) by {
                assert(wf_dir_children(nodes0, cursor as int));
                assert(child_dir_ok(nodes0, cursor as int, subdirs_of(nodes0, cursor as int)[j] as int));
            }
            assert forall|t: int| 0 <= t < namev.len() implies keep_byte(#[trigger] namev[t]) by {
                if t < pname.len() {
                    assert(namev[t] == pname[t]);
                } else if t < pname.len() + comp@.len() {
                    assert(namev[t] == comp@[t - pname.len()]);
                } else {
                    assert(namev[t] == 47u8);
                }
            }
        }
        let mut dd = Directory::new(self.frontier, name);
        dd.write = true;
        let idx = self.attach_dir(cursor, dd);
        self.frontier = nf;
        proof {
            // the frontier only grew
            assert forall|j: int| 0 <= j < self.registry@.len() implies {
                let it = self.nodes@[#[trigger] self.registry@[j] as int];
                it.live() && it.blkid_of() != NOT_PERSISTED ==> it.blkid_of() + it.footprint_of()
                    <= self.frontier
            } by {}
        }
        self.register_node(idx);
        let ghost nmid = self.nodes@;
        let res = self.write();
        proof {
            assert forall|i: int|
                0 <= i < nodes0.len() && i != nodes0.len() as int implies (#[trigger] self.nodes@[i]).name_of()
                == nodes0[i].name_of() && (self.nodes@[i] is Directory <==> nodes0[i]
                is Directory) && self.nodes@[i].data_of() == nodes0[i].data_of() by {
                lemma_shape_of_updates(nmid[i]);
                assert(same_shape(nmid[i], self.nodes@[i]) || nmid[i] == self.nodes@[i]);
            }
            match res {
                Ok(()) => {
                    assert forall|j2: int|
                        0 <= j2 < self.registry@.len() implies !self.nodes@[
                        #[trigger] self.registry@[j2] as int
                    ].dirty_of() by {
                        let x = self.registry@[j2] as int;
                        assert(in_prefix(self.registry@, self.registry@.len() as int, x)) by {
                            assert(0 <= j2 < self.registry@.len() && self.registry@[j2] as int
                                == x);
                        }
                        assert(self.nodes@[x] == persisted_item(nmid[x]));
                    }
                    assert(self.nodes@.last() is Directory);
                    lemma_shape_of_updates(nmid[nodes0.len() as int]);
                    assert(same_shape(nmid[nodes0.len() as int], self.nodes@[nodes0.len() as int])
                        || nmid[nodes0.len() as int] == self.nodes@[nodes0.len() as int]);
                    assert(subdirs_of(self.nodes@, cursor as int) == subdirs_of(
                        nmid,
                        cursor as int,
                    )) by {
                        lemma_shape_of_updates(nmid[cursor as int]);
                        assert(same_shape(nmid[cursor as int], self.nodes@[cursor as int])
                            || nmid[cursor as int] == self.nodes@[cursor as int]);
                    }
                },
                Err(_) => {
                    assert(self.nodes@.last() is Directory);
                },
            }
        }
        match res {
            Ok(()) => Ok(()),
            Err(e) => Err(e),
        }
    }

    /// Makes a directory at an absolute path: the missing directories of
    /// the parent path are synthesized as placeholders, a fresh session is
    /// pointed at the parent, and the leaf is made there.
    pub fn create_directory_absolute_path(&mut self, path: &str) -> (r: Result<(), FsError>)
        requires
            old(self).wf(),
        ensures
            final(self).wf(),
            final(self).device.data@.len() == old(self).device.data@.len(),
            r is Ok ==> ({
                let nfin = final(self).nodes@;
                &&& nfin.len() > old(self).nodes@.len()
                &&& nfin.last() is Directory
                &&& nfin.last().live()
                &&& nfin.last().registered_of()
                &&& nfin.last().blkid_of() == old(self).frontier
                &&& last_comp(nfin.last().name_of()) == strip_sep_spec(
                    last_comp(path.spec_bytes()),
                )
                &&& final(self).frontier == old(self).frontier + 1
            }),
            r is Ok ==> (forall|j: int|
                0 <= j < final(self).registry@.len() ==> !final(self).nodes@[
                    #[trigger] final(self).registry@[j] as int
                ].dirty_of()),
            (r matches Err(FsError::DeviceBoundary)) ==> old(self).frontier == u64::MAX
                || !can_persist(
                final(self).nodes@,
                final(self).registry@,
                final(self).device.data@.len(),
                final(self).frontier,
            ),
    {
        let p = path.as_bytes_vec();
        self.create_directory_absolute(&p)
    }

    /// Makes a directory at an absolute path given as bytes: missing
    /// directories of the parent path are synthesized, a fresh session is
    /// pointed at the parent, and the leaf is made there.
    fn create_directory_absolute(&mut self, p: &Vec<u8>) -> (r: Result<(), FsError>)
        requires
            old(self).wf(),
        ensures
            final(self).wf(),
            final(self).device.data@.len() == old(self).device.data@.len(),
            r is Ok ==> ({
                let nfin = final(self).nodes@;
                &&& nfin.len() > old(self).nodes@.len()
                &&& nfin.last() is Directory
                &&& nfin.last().live()
                &&& nfin.last().registered_of()
                &&& nfin.last().blkid_of() == old(self).frontier
                &&& last_comp(nfin.last().name_of()) == strip_sep_spec(last_comp(p@))
                &&& final(self).frontier == old(self).frontier + 1
            }),
            r is Ok ==> (forall|j: int|
                0 <= j < final(self).registry@.len() ==> !final(self).nodes@[
                    #[trigger] final(self).registry@[j] as int
                ].dirty_of()),
            (r matches Err(FsError::DeviceBoundary)) ==> old(self).frontier == u64::MAX
                || !can_persist(
                final(self).nodes@,
                final(self).registry@,
                final(self).device.data@.len(),
                final(self).frontier,
            ),
    {
        let mut parts = split_path(p);
        let ghost all = parts.deep_view();
        let leaf: Vec<u8> = match parts.pop() {
            Some(l) => l,
            None => Vec::new(),
        };
        proof {
            if all.len() > 0 {
                assert(leaf@ == all.last());
                assert(leaf@ == last_comp(p@));
            } else {
                assert(leaf@ =~= last_comp(p@));
            }
        }
        let dir: usize;
        match self.generate_path_from(0, &parts) {
            Ok(d) => {
                dir = d;
            },
            Err(e) => {
                return Err(e);
            },
        }
        let id = self.get_id();
        session_table_insert(&mut self.sessions, id, dir as u64);
        let comp = strip_sep(&leaf);
        proof {
            assert forall|k: int| 0 <= k < comp@.len() implies #[trigger] comp@[k] != 47 by {
                leaf@.lemma_filter_pred(|b: u8| b != 47, k);
            }
        }
        let ghost s1 = self.nodes@;
        let ghost fr1 = self.frontier;
        let r = self.create_directory_in(dir, comp);
        proof {
            match r {
                Ok(()) => {
                    let nfin = self.nodes@;
                    // the leaf's component names the new directory
                    assert(nfin.last() is Directory);
                    assert(nfin.last().name_of() == s1[dir as int].name_of() + comp@ + seq![
                        47u8,
                    ]);
                    assert(s1[dir as int].name_of().len() > 0 && s1[dir as int].name_of().last()
                        == 47) by {
                        assert(wf_node_basic(s1, dir as int));
                        assert(s1[dir as int].live());
                    }
                    assert(dir_child_name_ok(s1[dir as int].name_of(), nfin.last().name_of()))
                        by {
                        let pn = s1[dir as int].name_of();
                        let cn = nfin.last().name_of();
                        assert(cn.subrange(0, pn.len() as int) =~= pn);
                        assert forall|t: int| pn.len() <= t < cn.len() - 1 implies cn[t]
                            != 47 by {
                            assert(cn[t] == comp@[t - pn.len()]);
                        }
                    }
                    lemma_dir_child_last_comp(s1[dir as int].name_of(), nfin.last().name_of());
                    assert(last_comp(nfin.last().name_of()) =~= comp@);
                },
                Err(_) => {},
            }
        }
        r
    }

    /// Walks the components from `start`, following existing child
    /// directories by name and synthesizing a placeholder for every missing
    /// one; placeholders are not device backed and stay off the registry.
    fn generate_path_from(&mut self, start: usize, parts: &Vec<Vec<u8>>) -> (r: Result<
        usize,
        FsError,
    >)
        requires
            old(self).wf(),
            start < old(self).nodes@.len(),
            old(self).nodes@[start as int] is Directory,
            old(self).nodes@[start as int].live(),
        ensures
            final(self).wf(),
            final(self).registry == old(self).registry,
            final(self).sessions == old(self).sessions,
            final(self).session_counter == old(self).session_counter,
            final(self).frontier == old(self).frontier,
            final(self).device == old(self).device,
            final(self).nodes@.len() >= old(self).nodes@.len(),
            forall|i: int|
                0 <= i < old(self).nodes@.len() ==> (#[trigger] final(self).nodes@[i]).name_of()
                    == old(self).nodes@[i].name_of() && (final(self).nodes@[i] is Directory
                    <==> old(self).nodes@[i] is Directory) && final(self).nodes@[i].data_of()
                    == old(self).nodes@[i].data_of() && final(self).nodes@[i].registered_of()
                    == old(self).nodes@[i].registered_of() && final(self).nodes@[i].blkid_of()
                    == old(self).nodes@[i].blkid_of() && final(self).nodes@[i].dirty_of()
                    == old(self).nodes@[i].dirty_of(),
            forall|i: int|
                old(self).nodes@.len() <= i < final(self).nodes@.len()
                    ==> (#[trigger] final(self).nodes@[i]).live() && final(self).nodes@[i]
                    is Directory && final(self).nodes@[i].blkid_of() == NOT_PERSISTED
                    && !final(self).nodes@[i].registered_of()
                    && !final(self).nodes@[i].dirty_of(),
            match r {
                Ok(d) => d < final(self).nodes@.len() && final(self).nodes@[d as int]
                    is Directory && final(self).nodes@[d as int].live() && final(self).nodes@[
                    d as int
                ].name_of() == old(self).nodes@[start as int].name_of() + join_dir(
                    parts.deep_view(),
                ),
                Err(e) => e == FsError::InvalidName && (old(self).nodes@[
                    start as int
                ].name_of().len() + join_dir(parts.deep_view()).len() > 100 || (exists|
                    jj: int,
                    kk: int,
                |
                    0 <= jj < parts.deep_view().len() && 0 <= kk < parts.deep_view()[jj].len() && (
                    !keep_byte(#[trigger] parts.deep_view()[jj][kk]) || parts.deep_view()[jj][kk]
                        == 47))),
            },
    {
        let mut cur = start;
        let n = parts.len();
        let mut i: usize = 0;
        proof {
            assert(join_upto(parts.deep_view(), 0) =~= Seq::<u8>::empty());
            assert(self.nodes@[cur as int].name_of() =~= old(self).nodes@[start as int].name_of()
                + join_upto(parts.deep_view(), 0));
        }
        while i < n
            invariant
                old(self).wf(),
                self.wf(),
                cur < self.nodes@.len(),
                self.nodes@[cur as int] is Directory,
                self.nodes@[cur as int].live(),
                self.nodes@[cur as int].name_of() == old(self).nodes@[start as int].name_of()
                    + join_upto(parts.deep_view(), i as int),
                0 <= i <= n,
                n == parts@.len(),
                parts.deep_view().len() == n,
                self.registry == old(self).registry,
                self.sessions == old(self).sessions,
                self.session_counter == old(self).session_counter,
                self.frontier == old(self).frontier,
                self.device == old(self).device,
                self.nodes@.len() >= old(self).nodes@.len(),
                forall|t: int|
                    0 <= t < old(self).nodes@.len() ==> (#[trigger] self.nodes@[t]).name_of()
                        == old(self).nodes@[t].name_of() && (self.nodes@[t] is Directory
                        <==> old(self).nodes@[t] is Directory) && self.nodes@[t].data_of()
                        == old(self).nodes@[t].data_of() && self.nodes@[t].registered_of()
                        == old(self).nodes@[t].registered_of() && self.nodes@[t].blkid_of()
                        == old(self).nodes@[t].blkid_of() && self.nodes@[t].dirty_of()
                        == old(self).nodes@[t].dirty_of(),
                forall|t: int|
                    old(self).nodes@.len() <= t < self.nodes@.len() ==> (#[trigger] self.nodes@[t]).live()
                        && self.nodes@[t] is Directory && self.nodes@[t].blkid_of()
                        == NOT_PERSISTED && !self.nodes@[t].registered_of()
                        && !self.nodes@[t].dirty_of(),
            decreases n - i,
        {
            let comp = &parts[i];
            match self.find_subdir_exec(cur, comp) {
                Some(d) => {
                    proof {
                        lemma_find_subdir_props(
                            self.nodes@,
                            subdirs_of(self.nodes@, cur as int),
                            parts@[i as int]@,
                        );
                        let jj = choose|jj: int|
                            0 <= jj < subdirs_of(self.nodes@, cur as int).len() && subdirs_of(
                                self.nodes@,
                                cur as int,
                            )[jj] == d && 0 <= d < self.nodes@.len() && last_comp(
                                self.nodes@[d as int].name_of(),
                            ) == parts@[i as int]@;
                        assert(wf_dir_children(self.nodes@, cur as int));
                        assert(child_dir_ok(
                            self.nodes@,
                            cur as int,
                            subdirs_of(self.nodes@, cur as int)[jj] as int,
                        ));
                        // the found child's name is the walked name plus
                        // this component and its separator
                        let pn = self.nodes@[cur as int].name_of();
                        let cn = self.nodes@[d as int].name_of();
                        assert(wf_node_basic(self.nodes@, cur as int));
                        assert(pn.len() > 0 && pn.last() == 47);
                        lemma_dir_child_last_comp(pn, cn);
                        assert(cn =~= pn + parts@[i as int]@ + seq![47u8]) by {
                            assert(cn.subrange(0, pn.len() as int) == pn);
                            assert(cn.subrange(pn.len() as int, cn.len() - 1) == last_comp(cn));
                        }
                        assert(parts.deep_view()[i as int] =~= parts@[i as int]@);
                        assert(join_upto(parts.deep_view(), i + 1) == join_upto(
                            parts.deep_view(),
                            i as int,
                        ) + parts.deep_view()[i as int] + seq![47u8]);
                        assert(cn =~= old(self).nodes@[start as int].name_of() + join_upto(
                            parts.deep_view(),
                            i + 1,
                        ));
                    }
                    cur = d;
                },
                None => {
                    // synthesize a placeholder
                    let mut ascii_ok = true;
                    let mut k: usize = 0;
                    let cl = comp.len();
                    while k < cl
                        invariant
                            0 <= k <= cl,
                            cl == comp@.len(),
                            ascii_ok == (forall|t: int|
                                0 <= t < k ==> keep_byte(#[trigger] comp@[t]) && comp@[t] != 47),
                        decreases cl - k,
                    {
                        let b = comp[k];
                        ascii_ok = ascii_ok && b > 0 && b < 128 && b != 47;
                        k = k + 1;
                    }
                    let parent_name_len: usize;
                    match &self.nodes[cur] {
                        Item::Directory(pd) => {
                            parent_name_len = pd.name.len();
                        },
                        Item::File(_) => {
                            proof {
                                assert(false);
                            }
                            parent_name_len = 0;
                        },
                    }
                    proof {
                        assert(wf_node_basic(self.nodes@, cur as int));
                    }
                    if !ascii_ok || comp.len() > 100 || parent_name_len + comp.len() + 1 > 100 {
                        proof {
                            let full = parts.deep_view();
                            if !ascii_ok {
                                let t = choose|t: int|
                                    0 <= t < comp@.len() && !(keep_byte(comp@[t]) && comp@[t]
                                        != 47);
                                assert(full[i as int][t] == comp@[t]);
                                assert(exists|jj: int, kk: int|
                                    0 <= jj < full.len() && 0 <= kk < full[jj].len() && (
                                    !keep_byte(#[trigger] full[jj][kk]) || full[jj][kk] == 47))
                                    by {
                                    assert(0 <= i < full.len() && 0 <= t < full[i as int].len()
                                        && (!keep_byte(full[i as int][t]) || full[i as int][t]
                                        == 47));
                                }
                            } else {
                                assert(join_upto(full, i + 1) == join_upto(full, i as int)
                                    + full[i as int] + seq![47u8]);
                                assert(full[i as int] =~= comp@);
                                assert(old(self).nodes@[start as int].name_of().len() + join_upto(
                                    full,
                                    i + 1,
                                ).len() > 100);
                                lemma_join_upto_len_mono(full, i + 1, full.len() as int);
                                lemma_join_upto_all(full);
                            }
                        }
                        return Err(FsError::InvalidName);
                    }
                    let mut name: Vec<u8> = Vec::new();
                    match &self.nodes[cur] {
                        Item::Directory(pd) => {
                            crate::paths::push_copy(&mut name, &pd.name);
                        },
                        Item::File(_) => {
                            proof {
                                assert(false);
                            }
                        },
                    }
                    crate::paths::push_copy(&mut name, comp);
                    name.push(47);
                    let ghost namev = name@;
                    let ghost nodesb = self.nodes@;
                    let ghost pname = nodesb[cur as int].name_of();
                    proof {
                        assert(namev == pname + comp@ + seq![47u8]);
                        assert(namev.subrange(0, pname.len() as int) =~= pname);
                        assert(dir_child_name_ok(pname, namev)) by {
                            assert forall|t: int|
                                pname.len() <= t < namev.len() - 1 implies namev[t] != 47 by {
                                assert(namev[t] == comp@[t - pname.len()]);
                            }
                        }
                        assert(pname.len() > 0 && pname.last() == 47) by {
                            assert(wf_node_basic(nodesb, cur as int));
                        }
                        lemma_dir_child_last_comp(pname, namev);
                        assert(last_comp(namev) =~= comp@);
                        lemma_find_subdir_props(nodesb, subdirs_of(nodesb, cur as int), comp@);
                        assert forall|j: int|
                            0 <= j < subdirs_of(nodesb, cur as int).len() implies last_comp(
                            nodesb[#[trigger] subdirs_of(nodesb, cur as int)[j] as int].name_of(),
                        ) != last_comp(namev) by {
                            assert(wf_dir_children(nodesb, cur as int));
                            assert(child_dir_ok(
                                nodesb,
                                cur as int,
                                subdirs_of(nodesb, cur as int)[j] as int,
                            ));
                        }
                        assert forall|t: int| 0 <= t < namev.len() implies keep_byte(
                            #[trigger] namev[t],
                        ) by {
                            if t < pname.len() {
                                assert(namev[t] == pname[t]);
                            } else if t < pname.len() + comp@.len() {
                                assert(namev[t] == comp@[t - pname.len()]);
                            } else {
                                assert(namev[t] == 47u8);
                            }
                        }
                    }
                    let dd = Directory::new_directory(name);
                    let idx = self.attach_dir(cur, dd);
                    proof {
                        assert(self.nodes@[idx as int].name_of() == namev);
                        assert(namev.last() == 47 && tombstone_seq().last() == 103u8);
                        assert(self.nodes@[idx as int].live());
                        let full = parts.deep_view();
                        assert(join_upto(full, i + 1) == join_upto(full, i as int) + full[
                            i as int
                        ] + seq![47u8]);
                        assert(full[i as int] =~= comp@);
                        assert(namev =~= old(self).nodes@[start as int].name_of() + join_upto(
                            full,
                            i + 1,
                        ));
                    }
                    cur = idx;
                },
            }
            i = i + 1;
        }
        proof {
            lemma_join_upto_all(parts.deep_view());
        }
        Ok(cur)
    }

    /// Appends a fresh file node and links it into the contents of `d`.
    fn attach_file(&mut self, d: usize, f: File) -> (idx: usize)
        requires
            old(self).wf(),
            d < old(self).nodes@.len(),
            old(self).nodes@[d as int] is Directory,
            0 < f.name@.len() <= 100,
            forall|k: int| 0 <= k < f.name@.len() ==> keep_byte(#[trigger] f.name@[k]),
            f.time@.len() == 11,
            f.prefix@.len() == 155,
            f.size < SIZE_LIMIT,
            f.size == f.data@.len(),
            f.name@ != tombstone_seq(),
            file_child_name_ok(old(self).nodes@[d as int].name_of(), f.name@),
            forall|j: int|
                0 <= j < conts_of(old(self).nodes@, d as int).len() ==> file_short_spec(
                    old(self).nodes@[#[trigger] conts_of(old(self).nodes@, d as int)[j] as int].name_of(),
                ) != file_short_spec(f.name@),
        ensures
            final(self).wf(),
            idx == old(self).nodes@.len(),
            final(self).nodes@.len() == old(self).nodes@.len() + 1,
            final(self).nodes@[idx as int] == Item::File(File { parent: d, ..f }),
            forall|i: int|
                0 <= i < old(self).nodes@.len() && i != d ==> #[trigger] final(self).nodes@[i]
                    == old(self).nodes@[i],
            conts_of(final(self).nodes@, d as int) == conts_of(old(self).nodes@, d as int).push(
                idx,
            ),
            subdirs_of(final(self).nodes@, d as int) == subdirs_of(old(self).nodes@, d as int),
            final(self).nodes@[d as int] is Directory,
            final(self).nodes@[d as int].name_of() == old(self).nodes@[d as int].name_of(),
            final(self).nodes@[d as int].size_of() == old(self).nodes@[d as int].size_of(),
            final(self).nodes@[d as int].time_of() == old(self).nodes@[d as int].time_of(),
            final(self).nodes@[d as int].prefix_of() == old(self).nodes@[d as int].prefix_of(),
            final(self).nodes@[d as int].blkid_of() == old(self).nodes@[d as int].blkid_of(),
            final(self).nodes@[d as int].dirty_of() == old(self).nodes@[d as int].dirty_of(),
            final(self).nodes@[d as int].registered_of() == old(self).nodes@[
                d as int
            ].registered_of(),
            parent_of_idx(final(self).nodes@, d as int) == parent_of_idx(
                old(self).nodes@,
                d as int,
            ),
            final(self).registry == old(self).registry,
            final(self).sessions == old(self).sessions,
            final(self).session_counter == old(self).session_counter,
            final(self).frontier == old(self).frontier,
            final(self).device == old(self).device,
    {
        let idx = self.nodes.len();
        let mut f2 = f;
        f2.parent = d;
        self.nodes.push(Item::File(f2));
        match &mut self.nodes[d] {
            Item::Directory(dd) => {
                dd.contents.push(idx);
            },
            Item::File(_) => {
                proof {
                    assert(false);
                }
            },
        }
        let total = self.nodes.len();
        proof {
            assert(old(self).nodes@.len() < usize::MAX);
            assert(conts_of(self.nodes@, d as int) =~= conts_of(old(self).nodes@, d as int).push(
                idx,
            ));
            lemma_wf_attach_file(
                old(self).nodes@,
                self.nodes@,
                d as int,
                self.registry@,
                session_map(self.sessions),
                self.frontier,
            );
        }
        idx
    }

    /// Appends a fresh, childless directory node and links it into the
    /// child directories of `d`.
    fn attach_dir(&mut self, d: usize, dd: Directory) -> (idx: usize)
        requires
            old(self).wf(),
            d < old(self).nodes@.len(),
            old(self).nodes@[d as int] is Directory,
            0 < dd.name@.len() <= 100,
            forall|k: int| 0 <= k < dd.name@.len() ==> keep_byte(#[trigger] dd.name@[k]),
            dd.time@.len() == 11,
            dd.prefix@.len() == 155,
            dd.size == 0,
            dd.contents@ == Seq::<usize>::empty(),
            dd.subdirectories@ == Seq::<usize>::empty(),
            dir_child_name_ok(old(self).nodes@[d as int].name_of(), dd.name@),
            forall|j: int|
                0 <= j < subdirs_of(old(self).nodes@, d as int).len() ==> last_comp(
                    old(self).nodes@[#[trigger] subdirs_of(old(self).nodes@, d as int)[j] as int].name_of(),
                ) != last_comp(dd.name@),
        ensures
            final(self).wf(),
            idx == old(self).nodes@.len(),
            final(self).nodes@.len() == old(self).nodes@.len() + 1,
            final(self).nodes@[idx as int] == Item::Directory(Directory { parent: d, ..dd }),
            forall|i: int|
                0 <= i < old(self).nodes@.len() && i != d ==> #[trigger] final(self).nodes@[i]
                    == old(self).nodes@[i],
            subdirs_of(final(self).nodes@, d as int) == subdirs_of(
                old(self).nodes@,
                d as int,
            ).push(idx),
            conts_of(final(self).nodes@, d as int) == conts_of(old(self).nodes@, d as int),
            final(self).nodes@[d as int] is Directory,
            final(self).nodes@[d as int].name_of() == old(self).nodes@[d as int].name_of(),
            final(self).nodes@[d as int].size_of() == old(self).nodes@[d as int].size_of(),
            final(self).nodes@[d as int].time_of() == old(self).nodes@[d as int].time_of(),
            final(self).nodes@[d as int].prefix_of() == old(self).nodes@[d as int].prefix_of(),
            final(self).nodes@[d as int].blkid_of() == old(self).nodes@[d as int].blkid_of(),
            final(self).nodes@[d as int].dirty_of() == old(self).nodes@[d as int].dirty_of(),
            final(self).nodes@[d as int].registered_of() == old(self).nodes@[
                d as int
            ].registered_of(),
            parent_of_idx(final(self).nodes@, d as int) == parent_of_idx(
                old(self).nodes@,
                d as int,
            ),
            final(self).registry == old(self).registry,
            final(self).sessions == old(self).sessions,
            final(self).session_counter == old(self).session_counter,
            final(self).frontier == old(self).frontier,
            final(self).device == old(self).device,
    {
        proof {
            assert(dd.name@.last() == 47);
            assert(tombstone_seq().last() == 103u8);
            assert(dd.name@ != tombstone_seq());
        }
        let idx = self.nodes.len();
        let mut d2 = dd;
        d2.parent = d;
        self.nodes.push(Item::Directory(d2));
        match &mut self.nodes[d] {
            Item::Directory(pd) => {
                pd.subdirectories.push(idx);
            },
            Item::File(_) => {
                proof {
                    assert(false);
                }
            },
        }
        let total = self.nodes.len();
        proof {
            assert(old(self).nodes@.len() < usize::MAX);
            assert(subdirs_of(self.nodes@, d as int) =~= subdirs_of(
                old(self).nodes@,
                d as int,
            ).push(idx));
            lemma_wf_attach_dir(
                old(self).nodes@,
                self.nodes@,
                d as int,
                self.registry@,
                session_map(self.sessions),
                self.frontier,
            );
        }
        idx
    }

    /// Puts a node on the write-back registry, once.
    fn register_node(&mut self, idx: usize)
        requires
            old(self).wf(),
            1 <= idx < old(self).nodes@.len(),
            ({
                let it = old(self).nodes@[idx as int];
                it.live() && it.blkid_of() != NOT_PERSISTED ==> it.blkid_of() + it.footprint_of()
                    <= old(self).frontier
            }),
        ensures
            final(self).wf(),
            final(self).nodes@.len() == old(self).nodes@.len(),
            forall|i: int|
                0 <= i < old(self).nodes@.len() && i != idx ==> #[trigger] final(self).nodes@[i]
                    == old(self).nodes@[i],
            final(self).nodes@[idx as int] == registered_item(old(self).nodes@[idx as int]),
            final(self).registry@ == if old(self).nodes@[idx as int].registered_of() {
                old(self).registry@
            } else {
                old(self).registry@.push(idx)
            },
            final(self).sessions == old(self).sessions,
            final(self).session_counter == old(self).session_counter,
            final(self).frontier == old(self).frontier,
            final(self).device == old(self).device,
    {
        let already: bool;
        match &self.nodes[idx] {
            Item::File(f) => {
                already = f.registered;
            },
            Item::Directory(d) => {
                already = d.registered;
            },
        }
        if already {
            proof {
                assert(final(self).nodes@[idx as int] == registered_item(
                    old(self).nodes@[idx as int],
                ));
            }
            return ;
        }
        match &mut self.nodes[idx] {
            Item::File(f) => {
                f.registered = true;
            },
            Item::Directory(d) => {
                d.registered = true;
            },
        }
        self.registry.push(idx);
        proof {
            let n1 = old(self).nodes@;
            let n2 = self.nodes@;
            let reg1 = old(self).registry@;
            let reg2 = self.registry@;
            assert forall|i: int| 0 <= i < n1.len() implies wf_shape(n1[i], #[trigger] n2[i])
                && n1[i].blkid_of() == n2[i].blkid_of() by {}
            lemma_wf_arena_same(n1, n2);
            lemma_wf_sessions_same(n1, n2, session_map(self.sessions));
            lemma_wf_frontier_same(n1, n2, reg1, self.frontier);
            assert forall|j: int| 0 <= j < reg2.len() implies 1 <= #[trigger] reg2[j] < n2.len()
                && n2[reg2[j] as int].registered_of() by {
                if j < reg1.len() {
                    assert(reg2[j] == reg1[j]);
                    assert(n1[reg1[j] as int].registered_of());
                } else {
                    assert(reg2[j] == idx);
                }
            }
            assert forall|j: int, k: int| 0 <= j < k < reg2.len() implies reg2[j] != reg2[k] by {
                if k < reg1.len() {
                    assert(reg2[j] == reg1[j] && reg2[k] == reg1[k]);
                } else {
                    assert(reg2[j] == reg1[j] && reg2[k] == idx);
                    assert(n1[reg1[j] as int].registered_of());
                    assert(!n1[idx as int].registered_of());
                }
            }
            assert forall|j: int| 0 <= j < reg2.len() implies {
                let it = n2[#[trigger] reg2[j] as int];
                it.live() && it.blkid_of() != NOT_PERSISTED ==> it.blkid_of() + it.footprint_of()
                    <= self.frontier
            } by {
                if j < reg1.len() {
                    assert(reg2[j] == reg1[j]);
                    if reg1[j] as int != idx as int {
                        assert(n2[reg1[j] as int] == n1[reg1[j] as int]);
                    } else {
                        assert(n2[idx as int].live() == n1[idx as int].live());
                        assert(n2[idx as int].footprint_of() == n1[idx as int].footprint_of());
                    }
                } else {
                    assert(reg2[j] == idx);
                    assert(n2[idx as int].live() == n1[idx as int].live());
                    assert(n2[idx as int].footprint_of() == n1[idx as int].footprint_of());
                }
            }
        }
    }


    /// Renumbers every live registered item to consecutive sectors from
    /// zero, marking each for write-back, and moves the frontier to the
    /// total live footprint.
    #[verifier::rlimit(100)]
    #[verifier::spinoff_prover]
    fn renumber_live(&mut self, total: u64)
        requires
            old(self).wf(),
            total as nat == live_fp_sum(
                old(self).nodes@,
                old(self).registry@,
                old(self).registry@.len() as int,
            ),
        ensures
            final(self).wf(),
            final(self).registry == old(self).registry,
            final(self).sessions == old(self).sessions,
            final(self).session_counter == old(self).session_counter,
            final(self).device == old(self).device,
            final(self).nodes@.len() == old(self).nodes@.len(),
            final(self).frontier == live_fp_sum(
                old(self).nodes@,
                old(self).registry@,
                old(self).registry@.len() as int,
            ),
            forall|j: int|
                0 <= j < old(self).registry@.len() && old(self).nodes@[#[trigger] old(self).registry@[j] as int].live() ==> final(self).nodes@[old(self).registry@[j] as int]
                    == renumbered_item(
                    old(self).nodes@[old(self).registry@[j] as int],
                    live_fp_sum(old(self).nodes@, old(self).registry@, j) as u64,
                ),
            forall|i: int|
                0 <= i < old(self).nodes@.len() ==> (#[trigger] final(self).nodes@[i]).name_of()
                    == old(self).nodes@[i].name_of() && (final(self).nodes@[i] is Directory
                    <==> old(self).nodes@[i] is Directory) && final(self).nodes@[i].data_of()
                    == old(self).nodes@[i].data_of(),
    {
        let ghost nodes1 = self.nodes@;
        let ghost reg = self.registry@;
        let ghost sm = session_map(self.sessions);
        let m = self.registry.len();
        let mut counter: u64 = 0;
        let mut j: usize = 0;
        while j < m
            invariant
                nodes1.len() == self.nodes@.len(),
                wf_arena(nodes1),
                wf_sessions(nodes1, sm),
                wf_registry(nodes1, reg),
                forall|i: int| 0 <= i < nodes1.len() ==> #[trigger] wf_node_basic(nodes1, i),
                wf_arena(self.nodes@),
                wf_registry(self.nodes@, reg),
                wf_sessions(self.nodes@, sm),
                sm == session_map(self.sessions),
                reg == self.registry@,
                self.registry == old(self).registry,
                self.sessions == old(self).sessions,
                self.session_counter == old(self).session_counter,
                self.device == old(self).device,
                m == reg.len(),
                0 <= j <= m,
                counter as nat == live_fp_sum(nodes1, reg, j as int),
                total as nat == live_fp_sum(nodes1, reg, m as int),
                counter <= total,
                forall|t: int|
                    0 <= t < j && nodes1[#[trigger] reg[t] as int].live() ==> self.nodes@[reg[t] as int]
                        == renumbered_item(
                        nodes1[reg[t] as int],
                        live_fp_sum(nodes1, reg, t) as u64,
                    ),
                forall|i: int|
                    0 <= i < nodes1.len() ==> #[trigger] self.nodes@[i] == nodes1[i] || in_prefix(
                        reg,
                        j as int,
                        i,
                    ),
                forall|i: int|
                    0 <= i < nodes1.len() ==> wf_shape(nodes1[i], #[trigger] self.nodes@[i])
                        && self.nodes@[i].name_of() == nodes1[i].name_of()
                        && self.nodes@[i].data_of() == nodes1[i].data_of()
                        && self.nodes@[i].registered_of() == nodes1[i].registered_of(),
            decreases m - j,
        {
            let idx = self.registry[j];
            proof {
                assert(1 <= reg[j as int] < nodes1.len());
                if in_prefix(reg, j as int, idx as int) {
                    let t = choose|t: int| 0 <= t < j && reg[t] == idx as int;
                    assert(reg[t] == reg[j as int]);
                    assert(false);
                }
                assert(self.nodes@[idx as int] == nodes1[idx as int]);
                assert(wf_node_basic(nodes1, idx as int));
                lemma_live_fp_sum_mono(nodes1, reg, j + 1, m as int);
            }
            let live: bool;
            let fp: u64;
            match &self.nodes[idx] {
                Item::File(f) => {
                    live = !(f.name.len() == 6 && f.name[0] == 100 && f.name[1] == 101 && f.name[2]
                        == 102 && f.name[3] == 114 && f.name[4] == 97 && f.name[5] == 103);
                    fp = 1 + (f.size + 511) / 512;
                    proof {
                        lemma_tombstone_bytes(f.name@);
                    }
                },
                Item::Directory(d) => {
                    live = !(d.name.len() == 6 && d.name[0] == 100 && d.name[1] == 101 && d.name[2]
                        == 102 && d.name[3] == 114 && d.name[4] == 97 && d.name[5] == 103);
                    fp = 1 + (d.size + 511) / 512;
                    proof {
                        lemma_tombstone_bytes(d.name@);
                    }
                },
            }
            proof {
                assert(live == nodes1[idx as int].live());
                assert(fp == nodes1[idx as int].footprint_of());
            }
            if live {
                match &mut self.nodes[idx] {
                    Item::File(f) => {
                        f.block_id = counter;
                        f.write = true;
                    },
                    Item::Directory(d) => {
                        d.block_id = counter;
                        d.write = true;
                    },
                }
                counter = counter + fp;
                proof {
                    assert(self.nodes@[idx as int] == renumbered_item(
                        nodes1[idx as int],
                        live_fp_sum(nodes1, reg, j as int) as u64,
                    ));
                    assert forall|i: int| 0 <= i < nodes1.len() implies wf_shape(
                        nodes1[i],
                        #[trigger] self.nodes@[i],
                    ) by {}
                    lemma_wf_arena_same(nodes1, self.nodes@);
                    lemma_wf_sessions_same(nodes1, self.nodes@, sm);
                    assert forall|t: int| 0 <= t < reg.len() implies 1 <= #[trigger] reg[t]
                        < self.nodes@.len() && self.nodes@[reg[t] as int].registered_of() by {
                        assert(nodes1[reg[t] as int].registered_of());
                    }
                }
            }
            j = j + 1;
            proof {
                assert forall|i: int| 0 <= i < nodes1.len() implies #[trigger] self.nodes@[i]
                    == nodes1[i] || in_prefix(reg, j as int, i) by {
                    if self.nodes@[i] != nodes1[i] {
                        if i == idx as int {
                            assert(0 <= j - 1 < j && reg[j - 1] == i);
                            assert(in_prefix(reg, j as int, i));
                        } else {
                            assert(in_prefix(reg, j - 1, i));
                            let t = choose|t: int| 0 <= t < j - 1 && reg[t] == i;
                            assert(0 <= t < j && reg[t] == i);
                            assert(in_prefix(reg, j as int, i));
                        }
                    }
                }
            }
        }
        self.frontier = counter;
        proof {
            assert forall|t: int| 0 <= t < reg.len() implies {
                let it = self.nodes@[#[trigger] reg[t] as int];
                it.live() && it.blkid_of() != NOT_PERSISTED ==> it.blkid_of() + it.footprint_of()
                    <= self.frontier
            } by {
                let i = reg[t] as int;
                if nodes1[i].live() {
                    assert(self.nodes@[i] == renumbered_item(
                        nodes1[i],
                        live_fp_sum(nodes1, reg, t) as u64,
                    ));
                    assert(live_fp_sum(nodes1, reg, t + 1) == live_fp_sum(nodes1, reg, t)
                        + nodes1[i].footprint_of());
                    lemma_live_fp_sum_mono(nodes1, reg, t + 1, m as int);
                } else {
                    assert(self.nodes@[i].name_of() == nodes1[i].name_of());
                    assert(!self.nodes@[i].live());
                }
            }
        }
    }

    /// Compacts the volume: pending changes are persisted, then every live
    /// registered item is renumbered to consecutive sectors from sector
    /// zero, in registry order, and marked for write-back; the frontier
    /// becomes the sum of the live items' sector footprints, and the volume
    /// is persisted again.  This is the only reclamation of tombstoned
    /// space.
    #[verifier::rlimit(60)]
    #[verifier::spinoff_prover]
    pub fn defragment(&mut self) -> (r: Result<(), FsError>)
        requires
            old(self).wf(),
        ensures
            final(self).wf(),
            final(self).device.data@.len() == old(self).device.data@.len(),
            final(self).registry == old(self).registry,
            final(self).sessions == old(self).sessions,
            final(self).session_counter == old(self).session_counter,
            (r matches Err(FsError::DeviceBoundary)) ==> !can_persist(
                old(self).nodes@,
                old(self).registry@,
                old(self).device.data@.len(),
                old(self).frontier,
            ) || live_fp_sum(old(self).nodes@, old(self).registry@, old(self).registry@.len() as int)
                > u64::MAX || !can_persist(
                final(self).nodes@,
                final(self).registry@,
                final(self).device.data@.len(),
                final(self).frontier,
            ),
            r is Ok ==> (forall|j: int|
                0 <= j < final(self).registry@.len() ==> !final(self).nodes@[
                    #[trigger] final(self).registry@[j] as int
                ].dirty_of()),
            r is Ok ==> ({
                let nodes = old(self).nodes@;
                let reg = old(self).registry@;
                &&& final(self).frontier == live_fp_sum(nodes, reg, reg.len() as int)
                &&& final(self).nodes@.len() == nodes.len()
                &&& (forall|j: int|
                    0 <= j < reg.len() && nodes[#[trigger] reg[j] as int].live()
                        ==> final(self).nodes@[reg[j] as int].blkid_of() == live_fp_sum(
                        nodes,
                        reg,
                        j,
                    ))
                &&& (forall|i: int|
                    0 <= i < nodes.len() ==> (#[trigger] final(self).nodes@[i]).name_of()
                        == nodes[i].name_of() && (final(self).nodes@[i] is Directory <==> nodes[i]
                        is Directory) && final(self).nodes@[i].data_of() == nodes[i].data_of())
            }),
    {
        let ghost nodes0 = self.nodes@;
        let ghost reg = self.registry@;
        let res1 = self.write();
        match res1 {
            Ok(()) => {},
            Err(e) => {
                return Err(e);
            },
        }
        let ghost nodes1 = self.nodes@;
        proof {
            assert forall|i: int|
                0 <= i < nodes0.len() implies (#[trigger] nodes1[i]).live() == nodes0[i].live()
                && nodes1[i].footprint_of() == nodes0[i].footprint_of() by {
                lemma_shape_of_updates(nodes0[i]);
            }
            assert forall|n: int| 0 <= n <= reg.len() implies live_fp_sum(nodes1, reg, n)
                == live_fp_sum(nodes0, reg, #[trigger] (n + 0)) by {
                lemma_live_fp_sum_same(nodes0, nodes1, reg, n);
            }
        }
        // first pass: the total footprint must fit the counter
        let m = self.registry.len();
        let mut total: u64 = 0;
        let mut j: usize = 0;
        while j < m
            invariant
                self.wf(),
                nodes1 == self.nodes@,
                nodes0 == old(self).nodes@,
                reg == old(self).registry@,
                nodes1.len() == nodes0.len(),
                forall|i: int|
                    0 <= i < nodes0.len() ==> (#[trigger] nodes1[i]).live() == nodes0[i].live()
                        && nodes1[i].footprint_of() == nodes0[i].footprint_of(),
                reg == self.registry@,
                self.registry == old(self).registry,
                self.sessions == old(self).sessions,
                self.session_counter == old(self).session_counter,
                self.device.data@.len() == old(self).device.data@.len(),
                m == reg.len(),
                0 <= j <= m,
                total as nat == live_fp_sum(nodes1, reg, j as int),
            decreases m - j,
        {
            let idx = self.registry[j];
            proof {
                assert(1 <= reg[j as int] < nodes1.len());
                assert(wf_node_basic(nodes1, idx as int));
            }
            let live: bool;
            let fp: u64;
            match &self.nodes[idx] {
                Item::File(f) => {
                    live = !(f.name.len() == 6 && f.name[0] == 100 && f.name[1] == 101 && f.name[2]
                        == 102 && f.name[3] == 114 && f.name[4] == 97 && f.name[5] == 103);
                    fp = 1 + (f.size + 511) / 512;
                    proof {
                        lemma_tombstone_bytes(f.name@);
                    }
                },
                Item::Directory(d) => {
                    live = !(d.name.len() == 6 && d.name[0] == 100 && d.name[1] == 101 && d.name[2]
                        == 102 && d.name[3] == 114 && d.name[4] == 97 && d.name[5] == 103);
                    fp = 1 + (d.size + 511) / 512;
                    proof {
                        lemma_tombstone_bytes(d.name@);
                    }
                },
            }
            proof {
                assert(live == nodes1[idx as int].live());
                assert(fp == nodes1[idx as int].footprint_of());
            }
            if live {
                match total.checked_add(fp) {
                    Some(v) => {
                        total = v;
                    },
                    None => {
                        proof {
                            assert(live_fp_sum(nodes1, reg, j + 1) == live_fp_sum(nodes1, reg, j as int)
                                + nodes1[idx as int].footprint_of());
                            lemma_live_fp_sum_mono(nodes1, reg, j + 1, m as int);
                            lemma_live_fp_sum_same(nodes0, nodes1, reg, m as int);
                        }
                        return Err(FsError::DeviceBoundary);
                    },
                }
            }
            j = j + 1;
        }
        self.renumber_live(total);
        let ghost nmid2 = self.nodes@;
        let res2 = self.write();
        proof {
            assert forall|i: int|
                0 <= i < nodes0.len() implies (#[trigger] self.nodes@[i]).name_of()
                == nodes0[i].name_of() && (self.nodes@[i] is Directory <==> nodes0[i]
                is Directory) && self.nodes@[i].data_of() == nodes0[i].data_of() by {
                lemma_shape_of_updates(nmid2[i]);
                assert(same_shape(nmid2[i], self.nodes@[i]) || nmid2[i] == self.nodes@[i]);
                lemma_shape_of_updates(nodes0[i]);
            }
            match res2 {
                Ok(()) => {
                    assert forall|j2: int|
                        0 <= j2 < self.registry@.len() implies !self.nodes@[
                        #[trigger] self.registry@[j2] as int
                    ].dirty_of() by {
                        let x = self.registry@[j2] as int;
                        assert(in_prefix(self.registry@, self.registry@.len() as int, x)) by {
                            assert(0 <= j2 < self.registry@.len() && self.registry@[j2] as int
                                == x);
                        }
                        assert(self.nodes@[x] == persisted_item(nmid2[x]));
                    }
                    lemma_live_fp_sum_same(nodes0, nodes1, reg, m as int);
                    assert forall|t: int|
                        0 <= t < reg.len() && nodes0[#[trigger] reg[t] as int].live() implies
                    self.nodes@[reg[t] as int].blkid_of() == live_fp_sum(nodes0, reg, t) by {
                        let i = reg[t] as int;
                        assert(nodes1[i].live() == nodes0[i].live());
                        assert(nmid2[i] == renumbered_item(
                            nodes1[i],
                            live_fp_sum(nodes1, reg, t) as u64,
                        ));
                        lemma_shape_of_updates(nmid2[i]);
                        assert(same_shape(nmid2[i], self.nodes@[i]) || nmid2[i] == self.nodes@[i]);
                        lemma_live_fp_sum_same(nodes0, nodes1, reg, t);
                        lemma_live_fp_sum_mono(nodes1, reg, t, m as int);
                    }
                },
                Err(_) => {},
            }
        }
                match res2 {
            Ok(()) => Ok(()),
            Err(e) => Err(e),
        }
    }

    /// Mounts a volume: starting at sector zero, headers are read and
    /// checked for the magic sequence; a file record pulls in its payload
    /// sectors; a directory record refreshes an already synthesized
    /// placeholder in place, or is inserted fresh; records bearing the
    /// reserved tombstone name, malformed records, and records of unknown
    /// type are skipped.  The scan stops at the first sector without the
    /// magic sequence, which becomes the frontier; since it stops there,
    /// the volume admits no gaps between items, and allocation is tight.
    /// Every node of a mounted volume is live: tombstoned records never
    /// enter the tree.  The contract pins the tree to the device: every
    /// whole, live file or directory record whose name fits the tree
    /// stands in it under the canonical path its name spells, every file
    /// node carries exactly the name and payload of the record at its
    /// block, and no node awaits write-back.
    #[verifier::rlimit(100)]
    #[verifier::spinoff_prover]
    pub fn mount(device: BlockDevice) -> (v: Volume)
        ensures
            v.wf(),
            v.device.data@ == device.data@,
            v.frontier as int == scan_end(
                device.data@,
                0,
                scan_span(device.data@.len() as int),
            ),
            forall|i: int| 0 <= i < v.nodes@.len() ==> (#[trigger] v.nodes@[i]).live(),
            forall|p: int|
                #[trigger] scanned_file_present(
                    device.data@,
                    scan_span(device.data@.len() as int),
                    v.nodes@,
                    p,
                ),
            forall|p: int|
                #[trigger] scanned_dir_present(
                    device.data@,
                    scan_span(device.data@.len() as int),
                    v.nodes@,
                    p,
                ),
            file_nodes_sound(device.data@, scan_span(device.data@.len() as int), v.nodes@),
            forall|i: int| 0 <= i < v.nodes@.len() ==> !(#[trigger] v.nodes@[i]).dirty_of(),
    {
        let mut v = Volume::empty(device);
        let dl = v.device.data.len();
        let scan_limit: u64 = {
            let c = (dl / 512) as u64;
            if c > 0xffff_0000 {
                0xffff_0000
            } else {
                c
            }
        };
        let ghost gl = scan_limit as int;
        let ghost dev = device.data@;
        proof {
            assert(gl == scan_span(dev.len() as int));
            assert(v.nodes@[0].name_of().len() == 1);
            assert(tombstone_seq().len() == 6);
            assert forall|i: int| 0 <= i < v.nodes@.len() implies (#[trigger] v.nodes@[i]).live() by {
                assert(v.nodes@[i] == v.nodes@[0]);
            }
            assert(scan_reaches(dev, 0, gl, 0));
            assert forall|p: int| p < 0 implies #[trigger] scanned_file_present(
                dev,
                gl,
                v.nodes@,
                p,
            ) by {
                if scan_reaches(dev, 0, gl, p) {
                    lemma_reaches_lower(dev, 0, gl, p);
                }
            }
            assert forall|p: int| p < 0 implies #[trigger] scanned_dir_present(
                dev,
                gl,
                v.nodes@,
                p,
            ) by {
                if scan_reaches(dev, 0, gl, p) {
                    lemma_reaches_lower(dev, 0, gl, p);
                }
            }
            assert forall|i: int| 0 <= i < v.nodes@.len() implies !((#[trigger] v.nodes@[i])
                is File) by {
                assert(v.nodes@[i] == v.nodes@[0]);
            }
            assert forall|i: int| 0 <= i < v.nodes@.len() implies !((#[trigger] v.nodes@[i]).dirty_of()) by {
                assert(v.nodes@[i] == v.nodes@[0]);
            }
            assert(file_nodes_sound(dev, gl, v.nodes@));
        }
        let tomb = tombstone_name();
        let mut counter: u32 = 0;
        let mut going = true;
        while going
            invariant
                v.wf(),
                v.device.data@ == device.data@,
                v.device.data@.len() == dl,
                dev == device.data@,
                gl == scan_limit as int,
                scan_limit <= 0xffff_0000,
                scan_limit <= dl / 512,
                counter as u64 <= scan_limit,
                v.frontier == counter as u64,
                forall|i: int| 0 <= i < v.nodes@.len() ==> (#[trigger] v.nodes@[i]).live(),
                forall|i: int| 0 <= i < v.nodes@.len() ==> !(#[trigger] v.nodes@[i]).dirty_of(),
                going ==> scan_end(dev, 0, gl) == scan_end(dev, counter as int, gl),
                !going ==> counter as int == scan_end(dev, 0, gl),
                tomb@ == tombstone_seq(),
                scan_reaches(dev, 0, gl, counter as int) || counter as int == gl,
                !going ==> counter as int >= gl || !magic_at(dev, counter as int),
                forall|p: int|
                    p < counter as int ==> #[trigger] scanned_file_present(dev, gl, v.nodes@, p),
                forall|p: int|
                    p < counter as int ==> #[trigger] scanned_dir_present(dev, gl, v.nodes@, p),
                file_nodes_sound(dev, gl, v.nodes@),
            decreases (if going {
                1int
            } else {
                0int
            }), scan_limit - counter,
        {
            if counter as u64 >= scan_limit {
                proof {
                    assert(scan_end(dev, counter as int, gl) == counter as int);
                }
                going = false;
            } else {
                let block: Vec<u8>;
                match v.device.read(counter, 1) {
                    Ok(b) => {
                        block = b;
                    },
                    Err(_) => {
                        proof {
                            assert(false);
                        }
                        block = Vec::new();
                    },
                }
                proof {
                    assert(block@ =~= sector_at(dev, counter as int));
                }
                if !crate::codec::check_magic(&block) {
                    proof {
                        assert(!magic_at(dev, counter as int));
                        assert(scan_end(dev, counter as int, gl) == counter as int);
                    }
                    going = false;
                } else {
                    proof {
                        assert(magic_at(dev, counter as int));
                    }
                    let tf = block[156];
                    let ghost header_at = counter as u64;
                    let ghost entry_end = scan_end(dev, header_at as int, gl);
                    let ghost nodes0 = v.nodes@;
                    proof {
                        assert(scan_reaches(dev, 0, gl, header_at as int));
                    }
                    if tf == crate::codec::TYPE_FILE {
                        let file = File::from_block(&block, counter as u64);
                        counter = counter + 1;
                        v.frontier = counter as u64;
                        proof {
                            let field = block@.subrange(125, 135);
                            assert(pow8(10) == 0x4000_0000) by {
                                reveal_with_fuel(pow8, 11);
                            }
                            if crate::octal::all_octal(field) {
                                crate::octal::lemma_octal_value_bound(field);
                            }
                            assert(file.size < SIZE_LIMIT);
                        }
                        let psecs: u64 = (file.size + 511) / 512;
                        proof {
                            assert(psecs <= 0x200000 && psecs == payload_sectors(file.size))
                                by (nonlinear_arith)
                                requires
                                    file.size < 0x4000_0000,
                                    psecs == (file.size + 511) / 512,
                                    payload_sectors(file.size) == ((file.size + 511) / 512) as nat,
                            ;
                        }
                        proof {
                            assert(sector_at(dev, header_at as int)[156]
                                == crate::codec::TYPE_FILE);
                            assert(decoded_size(sector_at(dev, header_at as int)) == file.size);
                            assert(record_span(dev, header_at as int) == 1 + psecs);
                        }
                        let mut data: Vec<u8> = Vec::new();
                        let mut i: u64 = 0;
                        let mut ok = true;
                        while ok && i < psecs
                            invariant
                                v.wf(),
                                v.device.data@ == device.data@,
                                v.device.data@.len() == dl,
                                gl == scan_limit as int,
                                scan_limit <= 0xffff_0000,
                                scan_limit <= dl / 512,
                                counter as u64 <= scan_limit,
                                v.frontier == counter as u64,
                                psecs <= 0x200000,
                                0 <= i <= psecs,
                                counter as u64 == header_at + 1 + i,
                                ok ==> data@.len() == i * 512,
                                !ok ==> counter as u64 == scan_limit && i < psecs,
                                v.nodes@ == nodes0,
                                dev == device.data@,
                                ok ==> data@ == dev.subrange(
                                    (header_at + 1) * 512,
                                    (header_at + 1 + i) * 512,
                                ),
                                forall|t: int|
                                    0 <= t < v.nodes@.len() ==> (#[trigger] v.nodes@[t]).live(),
                            decreases (if ok {
                                1int
                            } else {
                                0int
                            }), psecs - i,
                        {
                            if counter as u64 >= scan_limit {
                                ok = false;
                            } else {
                                match v.device.read(counter, 1) {
                                    Ok(b) => {
                                        crate::paths::push_copy(&mut data, &b);
                                    },
                                    Err(_) => {
                                        proof {
                                            assert(false);
                                        }
                                    },
                                }
                                counter = counter + 1;
                                v.frontier = counter as u64;
                                i = i + 1;
                                proof {
                                    assert((dl / 512) * 512 <= dl) by (nonlinear_arith);
                                    assert(data@ =~= dev.subrange(
                                        (header_at + 1) * 512,
                                        (header_at + 1 + i) * 512,
                                    ));
                                }
                            }
                        }
                        if !ok {
                            proof {
                                assert(header_at + 1 + i == scan_limit && i < psecs);
                                assert(header_at as int + record_span(dev, header_at as int) > gl);
                                assert(entry_end == gl);
                                assert(counter as int == gl);
                                assert forall|p: int|
                                    p < counter as int implies #[trigger] scanned_file_present(
                                    dev,
                                    gl,
                                    v.nodes@,
                                    p,
                                ) by {
                                    if p > header_at as int {
                                        lemma_no_beyond(dev, gl, header_at as int, p);
                                    }
                                }
                                assert forall|p: int|
                                    p < counter as int implies #[trigger] scanned_dir_present(
                                    dev,
                                    gl,
                                    v.nodes@,
                                    p,
                                ) by {
                                    if p > header_at as int {
                                        lemma_no_beyond(dev, gl, header_at as int, p);
                                    } else if p == header_at as int {
                                        assert(sector_at(dev, p)[156] == crate::codec::TYPE_FILE);
                                    }
                                }
                                assert(file_nodes_sound(dev, gl, v.nodes@));
                            }
                            going = false;
                        } else {
                            proof {
                                assert(data@.len() == psecs * 512);
                                assert(psecs * 512 >= file.size) by (nonlinear_arith)
                                    requires
                                        psecs == (file.size + 511) / 512,
                                ;
                            }
                            let mut data = data;
                            data.truncate(file.size as usize);
                            proof {
                                assert(data@.len() == file.size);
                                assert((dl / 512) * 512 <= dl) by (nonlinear_arith);
                                assert(data@ =~= rec_payload(dev, header_at as int));
                                assert(file.block_id == header_at);
                                assert(file.block_id + 1 + payload_sectors(file.size)
                                    == counter as u64);
                                let nf = file.name@;
                                assert forall|k: int| 0 <= k < nf.len() implies keep_byte(
                                    #[trigger] nf[k],
                                ) by {
                                    block@.subrange(0, 100).lemma_filter_pred(
                                        |b: u8| keep_byte(b),
                                        k,
                                    );
                                }
                            }
                            proof {
                                assert(header_at as int + record_span(dev, header_at as int)
                                    == counter as int <= gl);
                                assert(entry_end == scan_end(dev, counter as int, gl));
                            }
                            if !bytes_eq(&file.name, &tomb) {
                                let ghost pre = v.nodes@;
                                v.place_scanned_file(file, data);
                                proof {
                                    assert forall|t: int|
                                        0 <= t < v.nodes@.len() implies (#[trigger] v.nodes@[t]).live() by {
                                        if t < pre.len() {
                                            assert(v.nodes@[t].name_of() == pre[t].name_of());
                                        }
                                    }
                                }
                            }
                            proof {
                                let h = header_at as int;
                                assert(block@.subrange(0, 100) =~= sector_at(dev, h).subrange(
                                    0,
                                    100,
                                ));
                                assert(file.name@ == rec_name(dev, h));
                                lemma_reaches_step(dev, 0, gl, h);
                                assert(scan_reaches(dev, 0, gl, counter as int));
                                assert forall|p: int|
                                    p < counter as int implies #[trigger] scanned_file_present(
                                    dev,
                                    gl,
                                    v.nodes@,
                                    p,
                                ) by {
                                    if p < h {
                                        lemma_presence_frame(dev, gl, nodes0, v.nodes@, p);
                                    } else if p == h {
                                        assert(file.name@ == rec_name(dev, h));
                                    } else {
                                        lemma_no_interior(dev, gl, h, p);
                                    }
                                }
                                assert forall|p: int|
                                    p < counter as int implies #[trigger] scanned_dir_present(
                                    dev,
                                    gl,
                                    v.nodes@,
                                    p,
                                ) by {
                                    if p < h {
                                        lemma_presence_frame(dev, gl, nodes0, v.nodes@, p);
                                    } else if p == h {
                                        assert(sector_at(dev, p)[156] == crate::codec::TYPE_FILE);
                                    } else {
                                        lemma_no_interior(dev, gl, h, p);
                                    }
                                }
                                assert forall|t: int|
                                    0 <= t < v.nodes@.len() && (#[trigger] v.nodes@[t])
                                    is File implies ({
                                    let b = v.nodes@[t].blkid_of() as int;
                                    &&& magic_at(dev, b)
                                    &&& sector_at(dev, b)[156] == crate::codec::TYPE_FILE
                                    &&& b + record_span(dev, b) <= gl
                                    &&& v.nodes@[t].name_of() == canonical_file_name(
                                        rec_name(dev, b),
                                    )
                                    &&& v.nodes@[t].data_of() == rec_payload(dev, b)
                                }) by {
                                    if t < nodes0.len() {
                                        assert(nodes0[t] is File);
                                        assert(v.nodes@[t].name_of() == nodes0[t].name_of()
                                            && v.nodes@[t].data_of() == nodes0[t].data_of()
                                            && v.nodes@[t].blkid_of() == nodes0[t].blkid_of());
                                    } else {
                                        assert(v.nodes@[t].blkid_of() == file.block_id);
                                        assert(v.nodes@[t].data_of() == rec_payload(dev, h));
                                    }
                                }
                                assert(file_nodes_sound(dev, gl, v.nodes@));
                            }
                        }
                    } else if tf == crate::codec::TYPE_DIR {
                        let folder = Directory::from_block(&block, counter as u64);
                        counter = counter + 1;
                        v.frontier = counter as u64;
                        proof {
                            assert(folder.block_id == header_at);
                            assert(folder.block_id + 1 == counter as u64);
                            let nf = folder.name@;
                            assert forall|k: int| 0 <= k < nf.len() implies keep_byte(
                                #[trigger] nf[k],
                            ) by {
                                block@.subrange(0, 100).lemma_filter_pred(|b: u8| keep_byte(b), k);
                            }
                        }
                        proof {
                            assert(sector_at(dev, header_at as int)[156]
                                != crate::codec::TYPE_FILE);
                            assert(record_span(dev, header_at as int) == 1);
                            assert(entry_end == scan_end(dev, counter as int, gl));
                        }
                        if !bytes_eq(&folder.name, &tomb) {
                            let ghost pre = v.nodes@;
                            v.place_scanned_dir(folder);
                            proof {
                                assert forall|t: int|
                                    0 <= t < v.nodes@.len() implies (#[trigger] v.nodes@[t]).live() by {
                                    if t < pre.len() {
                                        assert(v.nodes@[t].name_of() == pre[t].name_of());
                                    }
                                }
                            }
                        }
                        proof {
                            let h = header_at as int;
                            assert(block@.subrange(0, 100) =~= sector_at(dev, h).subrange(0, 100));
                            assert(folder.name@ == rec_name(dev, h));
                            assert(sector_at(dev, h)[156] == crate::codec::TYPE_DIR);
                            lemma_reaches_step(dev, 0, gl, h);
                            assert(scan_reaches(dev, 0, gl, counter as int));
                            assert forall|p: int|
                                p < counter as int implies #[trigger] scanned_file_present(
                                dev,
                                gl,
                                v.nodes@,
                                p,
                            ) by {
                                if p < h {
                                    lemma_presence_frame(dev, gl, nodes0, v.nodes@, p);
                                } else {
                                    assert(p == h);
                                    assert(sector_at(dev, p)[156] == crate::codec::TYPE_DIR);
                                }
                            }
                            assert forall|p: int|
                                p < counter as int implies #[trigger] scanned_dir_present(
                                dev,
                                gl,
                                v.nodes@,
                                p,
                            ) by {
                                if p < h {
                                    lemma_presence_frame(dev, gl, nodes0, v.nodes@, p);
                                } else {
                                    assert(p == h);
                                    assert(folder.name@ == rec_name(dev, h));
                                }
                            }
                            assert forall|t: int|
                                0 <= t < v.nodes@.len() && (#[trigger] v.nodes@[t])
                                is File implies ({
                                let b = v.nodes@[t].blkid_of() as int;
                                &&& magic_at(dev, b)
                                &&& sector_at(dev, b)[156] == crate::codec::TYPE_FILE
                                &&& b + record_span(dev, b) <= gl
                                &&& v.nodes@[t].name_of() == canonical_file_name(rec_name(dev, b))
                                &&& v.nodes@[t].data_of() == rec_payload(dev, b)
                            }) by {
                                assert(t < nodes0.len());
                                assert(nodes0[t] is File);
                                assert(v.nodes@[t].name_of() == nodes0[t].name_of()
                                    && v.nodes@[t].data_of() == nodes0[t].data_of()
                                    && v.nodes@[t].blkid_of() == nodes0[t].blkid_of());
                            }
                            assert(file_nodes_sound(dev, gl, v.nodes@));
                        }
                    } else {
                        // an unsupported record: skip one sector
                        counter = counter + 1;
                        v.frontier = counter as u64;
                        proof {
                            assert(sector_at(dev, header_at as int)[156]
                                != crate::codec::TYPE_FILE);
                            assert(sector_at(dev, header_at as int)[156]
                                != crate::codec::TYPE_DIR);
                            assert(record_span(dev, header_at as int) == 1);
                            assert(entry_end == scan_end(dev, counter as int, gl));
                            lemma_reaches_step(dev, 0, gl, header_at as int);
                            assert(scan_reaches(dev, 0, gl, counter as int));
                            assert forall|p: int|
                                p < counter as int implies #[trigger] scanned_file_present(
                                dev,
                                gl,
                                v.nodes@,
                                p,
                            ) by {
                                if p == header_at as int {
                                    assert(sector_at(dev, p)[156] != crate::codec::TYPE_FILE);
                                }
                            }
                            assert forall|p: int|
                                p < counter as int implies #[trigger] scanned_dir_present(
                                dev,
                                gl,
                                v.nodes@,
                                p,
                            ) by {
                                if p == header_at as int {
                                    assert(sector_at(dev, p)[156] != crate::codec::TYPE_DIR);
                                }
                            }
                            assert(file_nodes_sound(dev, gl, v.nodes@));
                        }
                    }
                }
            }
        }
        proof {
            assert forall|p: int| #[trigger] scanned_file_present(dev, gl, v.nodes@, p) by {
                if scan_visits(dev, 0, gl, p) && !(p < counter as int) {
                    assert((counter as int) < gl);
                    lemma_visits_below_stop(dev, 0, gl, counter as int, p);
                }
            }
            assert forall|p: int| #[trigger] scanned_dir_present(dev, gl, v.nodes@, p) by {
                if scan_visits(dev, 0, gl, p) && !(p < counter as int) {
                    assert((counter as int) < gl);
                    lemma_visits_below_stop(dev, 0, gl, counter as int, p);
                }
            }
        }
        v
    }

    /// Inserts a scanned file into the tree under the path its name
    /// spells, synthesizing missing directories; records whose names do
    /// not fit the tree are left as dead space.
    #[verifier::rlimit(100)]
    #[verifier::spinoff_prover]
    fn place_scanned_file(&mut self, file: File, data: Vec<u8>)
        requires
            old(self).wf(),
            forall|k: int| 0 <= k < file.name@.len() ==> keep_byte(#[trigger] file.name@[k]),
            file.time@.len() == 11,
            file.prefix@.len() == 155,
            file.size < SIZE_LIMIT,
            data@.len() == file.size,
            file.block_id + 1 + payload_sectors(file.size) <= old(self).frontier,
        ensures
            final(self).wf(),
            final(self).device == old(self).device,
            final(self).frontier == old(self).frontier,
            final(self).sessions == old(self).sessions,
            final(self).session_counter == old(self).session_counter,
            final(self).nodes@.len() >= old(self).nodes@.len(),
            forall|i: int|
                0 <= i < old(self).nodes@.len() ==> (#[trigger] final(self).nodes@[i]).name_of()
                    == old(self).nodes@[i].name_of() && (final(self).nodes@[i] is File
                    <==> old(self).nodes@[i] is File) && final(self).nodes@[i].data_of() == old(
                    self,
                ).nodes@[i].data_of() && final(self).nodes@[i].blkid_of() == old(
                    self,
                ).nodes@[i].blkid_of(),
            forall|i: int|
                old(self).nodes@.len() <= i < final(self).nodes@.len()
                    ==> (#[trigger] final(self).nodes@[i]).live(),
            // placement marks nothing for write-back
            forall|i: int|
                0 <= i < old(self).nodes@.len() ==> ((#[trigger] final(self).nodes@[i]).dirty_of()
                    ==> old(self).nodes@[i].dirty_of()),
            !file.write ==> forall|i: int|
                old(self).nodes@.len() <= i < final(self).nodes@.len()
                    ==> !(#[trigger] final(self).nodes@[i]).dirty_of(),
            // a record whose name fits leaves its canonical path populated
            file_record_fits(file.name@) ==> exists|i: int|
                0 <= i < final(self).nodes@.len() && (#[trigger] final(self).nodes@[i]) is File
                    && final(self).nodes@[i].name_of() == canonical_file_name(file.name@),
            // any fresh file node is this record, with its exact payload
            forall|i: int|
                old(self).nodes@.len() <= i < final(self).nodes@.len()
                    && (#[trigger] final(self).nodes@[i]) is File
                    ==> final(self).nodes@[i].name_of() == canonical_file_name(file.name@)
                    && final(self).nodes@[i].data_of() == data@ && final(self).nodes@[i].blkid_of()
                    == file.block_id,
    {
        let ghost rawparts = split_path_spec(file.name@);
        let mut parts = split_path(&file.name);
        let ghost all = parts.deep_view();
        let leaf: Vec<u8>;
        match parts.pop() {
            Some(l) => {
                leaf = l;
            },
            None => {
                proof {
                    assert(rawparts.len() == 0);
                }
                return ;
            },
        }
        proof {
            assert(all == rawparts && all.len() > 0);
            assert(leaf@ == rawparts.last());
            assert(parts.deep_view() =~~= rawparts.drop_last());
        }
        if leaf.len() == 0 {
            return ;
        }
        proof {
            crate::paths::lemma_split_path_no_sep(file.name@);
            crate::paths::lemma_split_all_keep(file.name@, |b: u8| keep_byte(b));
            let sp = split_path_spec(file.name@);
            assert(leaf@ == sp.last());
            assert forall|k: int| 0 <= k < leaf@.len() implies #[trigger] leaf@[k] != 47
                && keep_byte(leaf@[k]) by {
                assert(sp[sp.len() - 1][k] != 47);
                lemma_split_path_keep(file.name@, sp.len() - 1, k);
            }
        }
        let parent: usize;
        match self.generate_path_from(0, &parts) {
            Ok(d) => {
                parent = d;
            },
            Err(_) => {
                proof {
                    // the parent path alone overflows the name field; so
                    // does the canonical path, and the record does not fit
                    let sp = split_path_spec(file.name@);
                    assert(!(exists|jj: int, kk: int|
                        0 <= jj < parts.deep_view().len() && 0 <= kk
                            < parts.deep_view()[jj].len() && (!keep_byte(
                            #[trigger] parts.deep_view()[jj][kk],
                        ) || parts.deep_view()[jj][kk] == 47))) by {
                        assert forall|jj: int, kk: int|
                            0 <= jj < parts.deep_view().len() && 0 <= kk
                                < parts.deep_view()[jj].len() implies keep_byte(
                            #[trigger] parts.deep_view()[jj][kk],
                        ) && parts.deep_view()[jj][kk] != 47 by {
                            assert(parts.deep_view()[jj] == sp[jj]);
                            assert(sp[jj][kk] != 47);
                            lemma_split_path_keep(file.name@, jj, kk);
                        }
                    }
                    assert(old(self).nodes@[0].name_of().len() == 1);
                    assert(1 + join_dir(rawparts.drop_last()).len() > 100);
                    assert(canonical_file_name(file.name@).len() == 1 + join_dir(
                        rawparts.drop_last(),
                    ).len() + rawparts.last().len());
                    assert(!file_record_fits(file.name@));
                }
                return ;
            },
        }
        let parent_name: Vec<u8>;
        match &self.nodes[parent] {
            Item::Directory(pd) => {
                parent_name = crate::paths::copy_range(&pd.name, 0, pd.name.len());
            },
            Item::File(_) => {
                proof {
                    assert(false);
                }
                parent_name = Vec::new();
            },
        }
        proof {
            assert(parent_name@ =~= self.nodes@[parent as int].name_of());
            assert(wf_node_basic(self.nodes@, parent as int));
        }
        proof {
            // the walked directory's name is the canonical parent path
            assert(self.nodes@[parent as int].name_of() == old(self).nodes@[0].name_of()
                + join_dir(rawparts.drop_last()));
            assert(old(self).nodes@[0].name_of() =~= seq![47u8]);
            assert(canonical_file_name(file.name@) =~= self.nodes@[parent as int].name_of()
                + leaf@);
        }
        if leaf.len() > 100 || parent_name.len() + leaf.len() > 100 {
            proof {
                assert(!file_record_fits(file.name@));
            }
            return ;
        }
        match self.find_file_exec(parent, &leaf) {
            Some(hit) => {
                proof {
                    // a file already answers to this leaf here; by the name
                    // structure it stands at the canonical path
                    lemma_find_file_props(
                        self.nodes@,
                        conts_of(self.nodes@, parent as int),
                        leaf@,
                    );
                    let jj = choose|jj: int|
                        0 <= jj < conts_of(self.nodes@, parent as int).len() && conts_of(
                            self.nodes@,
                            parent as int,
                        )[jj] == hit && 0 <= hit < self.nodes@.len() && file_short_spec(
                            self.nodes@[hit as int].name_of(),
                        ) == leaf@;
                    assert(wf_dir_children(self.nodes@, parent as int));
                    assert(child_file_ok(
                        self.nodes@,
                        parent as int,
                        conts_of(self.nodes@, parent as int)[jj] as int,
                    ));
                    let pn = self.nodes@[parent as int].name_of();
                    let mn = self.nodes@[hit as int].name_of();
                    assert(pn.len() > 0 && pn.last() == 47) by {
                        assert(wf_node_basic(self.nodes@, parent as int));
                    }
                    lemma_file_child_short(pn, mn);
                    assert(mn =~= pn + leaf@) by {
                        assert(mn.subrange(0, pn.len() as int) == pn);
                        assert(mn.subrange(pn.len() as int, mn.len() as int) == file_short_spec(
                            mn,
                        ));
                    }
                    assert(mn == canonical_file_name(file.name@));
                    assert(exists|i: int|
                        0 <= i < self.nodes@.len() && (#[trigger] self.nodes@[i]) is File
                            && self.nodes@[i].name_of() == canonical_file_name(file.name@)) by {
                        assert(0 <= hit < self.nodes@.len() && self.nodes@[hit as int] is File
                            && self.nodes@[hit as int].name_of() == canonical_file_name(
                            file.name@,
                        ));
                    }
                }
                return ;
            },
            None => {},
        }
        let mut name: Vec<u8> = Vec::new();
        crate::paths::push_copy(&mut name, &parent_name);
        crate::paths::push_copy(&mut name, &leaf);
        let ghost namev = name@;
        let ghost nodesb = self.nodes@;
        let ghost pname = nodesb[parent as int].name_of();
        proof {
            assert(namev == pname + leaf@);
            assert(namev.subrange(0, pname.len() as int) =~= pname);
            assert(file_child_name_ok(pname, namev)) by {
                assert forall|t: int| pname.len() <= t < namev.len() implies namev[t] != 47 by {
                    assert(namev[t] == leaf@[t - pname.len()]);
                }
            }
            assert(pname.len() > 0 && pname.last() == 47) by {
                assert(nodesb[parent as int].live());
            }
            lemma_file_child_short(pname, namev);
            assert(file_short_spec(namev) =~= leaf@);
            lemma_find_file_props(nodesb, conts_of(nodesb, parent as int), leaf@);
            assert forall|j: int|
                0 <= j < conts_of(nodesb, parent as int).len() implies file_short_spec(
                nodesb[#[trigger] conts_of(nodesb, parent as int)[j] as int].name_of(),
            ) != file_short_spec(namev) by {
                assert(wf_dir_children(nodesb, parent as int));
                assert(child_file_ok(
                    nodesb,
                    parent as int,
                    conts_of(nodesb, parent as int)[j] as int,
                ));
            }
            assert forall|t: int| 0 <= t < namev.len() implies keep_byte(#[trigger] namev[t]) by {
                if t < pname.len() {
                    assert(namev[t] == pname[t]);
                } else {
                    assert(namev[t] == leaf@[t - pname.len()]);
                }
            }
            assert(namev != tombstone_seq()) by {
                assert(namev[pname.len() - 1] == 47);
                lemma_tombstone_no_sep(namev, pname.len() - 1);
            }
        }
        let ghost pre_gen = old(self).nodes@;
        let mut f2 = File::new(file.block_id, name);
        f2.set_data(data);
        f2.time = file.time;
        f2.prefix = file.prefix;
        let ghost fsnap = f2;
        let idx = self.attach_file(parent, f2);
        proof {
            assert(self.nodes@[idx as int].name_of() == namev);
            assert(self.nodes@[idx as int].live());
        }
        proof {
            assert(self.nodes@[idx as int].live());
            assert(self.nodes@[idx as int].blkid_of() == file.block_id);
            assert(self.nodes@[idx as int].footprint_of() == 1 + payload_sectors(file.size));
        }
        self.register_node(idx);
    }

    /// Inserts a scanned directory: a placeholder with the same name under
    /// the same parent is refreshed in place, otherwise a fresh node is
    /// linked in.
    #[verifier::rlimit(100)]
    #[verifier::spinoff_prover]
    fn place_scanned_dir(&mut self, folder: Directory)
        requires
            old(self).wf(),
            forall|k: int| 0 <= k < folder.name@.len() ==> keep_byte(#[trigger] folder.name@[k]),
            folder.time@.len() == 11,
            folder.prefix@.len() == 155,
            folder.size == 0,
            folder.block_id + 1 <= old(self).frontier,
        ensures
            final(self).wf(),
            final(self).device == old(self).device,
            final(self).frontier == old(self).frontier,
            final(self).sessions == old(self).sessions,
            final(self).session_counter == old(self).session_counter,
            final(self).nodes@.len() >= old(self).nodes@.len(),
            forall|i: int|
                0 <= i < old(self).nodes@.len() ==> (#[trigger] final(self).nodes@[i]).name_of()
                    == old(self).nodes@[i].name_of() && (final(self).nodes@[i] is File
                    <==> old(self).nodes@[i] is File) && (final(self).nodes@[i] is File
                    ==> final(self).nodes@[i].data_of() == old(self).nodes@[i].data_of()
                    && final(self).nodes@[i].blkid_of() == old(self).nodes@[i].blkid_of()),
            forall|i: int|
                old(self).nodes@.len() <= i < final(self).nodes@.len()
                    ==> (#[trigger] final(self).nodes@[i]).live() && final(self).nodes@[i]
                    is Directory,
            // placement marks nothing for write-back
            forall|i: int|
                0 <= i < old(self).nodes@.len() ==> ((#[trigger] final(self).nodes@[i]).dirty_of()
                    ==> old(self).nodes@[i].dirty_of()),
            forall|i: int|
                old(self).nodes@.len() <= i < final(self).nodes@.len()
                    ==> !(#[trigger] final(self).nodes@[i]).dirty_of(),
            // a record whose name fits leaves its canonical path populated
            dir_record_fits(folder.name@) ==> exists|i: int|
                0 <= i < final(self).nodes@.len() && (#[trigger] final(self).nodes@[i])
                    is Directory && final(self).nodes@[i].name_of() == canonical_dir_name(
                    folder.name@,
                ),
    {
        let ghost rawparts = split_path_spec(folder.name@);
        let mut parts = split_path(&folder.name);
        let ghost all = parts.deep_view();
        let comp: Vec<u8>;
        match parts.pop() {
            Some(l) => {
                comp = l;
            },
            None => {
                proof {
                    assert(rawparts.len() == 0);
                }
                return ;
            },
        }
        proof {
            assert(all == rawparts && all.len() > 0);
            assert(comp@ == rawparts.last());
            assert(parts.deep_view() =~~= rawparts.drop_last());
            assert(canonical_dir_name(folder.name@) =~= seq![47u8] + join_dir(
                rawparts.drop_last(),
            ) + rawparts.last() + seq![47u8]);
        }
        proof {
            crate::paths::lemma_split_path_no_sep(folder.name@);
            crate::paths::lemma_split_all_keep(folder.name@, |b: u8| keep_byte(b));
            let sp = split_path_spec(folder.name@);
            assert(comp@ == sp.last());
            assert forall|k: int| 0 <= k < comp@.len() implies #[trigger] comp@[k] != 47
                && keep_byte(comp@[k]) by {
                assert(sp[sp.len() - 1][k] != 47);
                lemma_split_path_keep(folder.name@, sp.len() - 1, k);
            }
        }
        let parent: usize;
        match self.generate_path_from(0, &parts) {
            Ok(d) => {
                parent = d;
            },
            Err(_) => {
                proof {
                    let sp = split_path_spec(folder.name@);
                    assert(!(exists|jj: int, kk: int|
                        0 <= jj < parts.deep_view().len() && 0 <= kk
                            < parts.deep_view()[jj].len() && (!keep_byte(
                            #[trigger] parts.deep_view()[jj][kk],
                        ) || parts.deep_view()[jj][kk] == 47))) by {
                        assert forall|jj: int, kk: int|
                            0 <= jj < parts.deep_view().len() && 0 <= kk
                                < parts.deep_view()[jj].len() implies keep_byte(
                            #[trigger] parts.deep_view()[jj][kk],
                        ) && parts.deep_view()[jj][kk] != 47 by {
                            assert(parts.deep_view()[jj] == sp[jj]);
                            assert(sp[jj][kk] != 47);
                            lemma_split_path_keep(folder.name@, jj, kk);
                        }
                    }
                    assert(old(self).nodes@[0].name_of().len() == 1);
                    assert(1 + join_dir(rawparts.drop_last()).len() > 100);
                    assert(canonical_dir_name(folder.name@).len() == 1 + join_dir(
                        rawparts.drop_last(),
                    ).len() + rawparts.last().len() + 1);
                    assert(!dir_record_fits(folder.name@));
                }
                return ;
            },
        }
        proof {
            assert(self.nodes@[parent as int].name_of() == old(self).nodes@[0].name_of()
                + join_dir(rawparts.drop_last()));
            assert(old(self).nodes@[0].name_of() =~= seq![47u8]);
            assert(canonical_dir_name(folder.name@) =~= self.nodes@[parent as int].name_of()
                + comp@ + seq![47u8]);
        }
        match self.find_subdir_exec(parent, &comp) {
            Some(existing) => {
                // refresh the placeholder from the record; by the name
                // structure it already stands at the canonical path
                let ghost nodes0 = self.nodes@;
                proof {
                    lemma_find_subdir_props(
                        self.nodes@,
                        subdirs_of(self.nodes@, parent as int),
                        comp@,
                    );
                    let jj = choose|jj: int|
                        0 <= jj < subdirs_of(self.nodes@, parent as int).len() && subdirs_of(
                            self.nodes@,
                            parent as int,
                        )[jj] == existing && 0 <= existing < self.nodes@.len() && last_comp(
                            self.nodes@[existing as int].name_of(),
                        ) == comp@;
                    assert(wf_dir_children(self.nodes@, parent as int));
                    assert(child_dir_ok(
                        self.nodes@,
                        parent as int,
                        subdirs_of(self.nodes@, parent as int)[jj] as int,
                    ));
                    let pn = self.nodes@[parent as int].name_of();
                    let cn = self.nodes@[existing as int].name_of();
                    assert(pn.len() > 0 && pn.last() == 47) by {
                        assert(wf_node_basic(self.nodes@, parent as int));
                    }
                    lemma_dir_child_last_comp(pn, cn);
                    assert(cn =~= pn + comp@ + seq![47u8]) by {
                        assert(cn.subrange(0, pn.len() as int) == pn);
                        assert(cn.subrange(pn.len() as int, cn.len() - 1) == last_comp(cn));
                    }
                    assert(cn == canonical_dir_name(folder.name@));
                }
                let bid = folder.block_id;
                match &mut self.nodes[existing] {
                    Item::Directory(dd) => {
                        dd.time = folder.time;
                        dd.prefix = folder.prefix;
                        dd.checksum = folder.checksum;
                        dd.block_id = bid;
                        dd.write = false;
                    },
                    Item::File(_) => {
                        proof {
                            assert(false);
                        }
                    },
                }
                proof {
                    let n2 = self.nodes@;
                    assert forall|i: int| 0 <= i < nodes0.len() implies wf_shape(
                        nodes0[i],
                        #[trigger] n2[i],
                    ) by {
                        assert(wf_node_basic(nodes0, existing as int));
                    }
                    lemma_wf_arena_same(nodes0, n2);
                    lemma_wf_sessions_same(nodes0, n2, session_map(self.sessions));
                    assert forall|j: int| 0 <= j < self.registry@.len() implies 1 <= #[trigger]
                    self.registry@[j] < n2.len() && n2[self.registry@[j] as int].registered_of() by {
                        assert(nodes0[self.registry@[j] as int].registered_of());
                    }
                    assert forall|j: int| 0 <= j < self.registry@.len() implies {
                        let it = n2[#[trigger] self.registry@[j] as int];
                        it.live() && it.blkid_of() != NOT_PERSISTED ==> it.blkid_of()
                            + it.footprint_of() <= self.frontier
                    } by {
                        let x = self.registry@[j] as int;
                        if x != existing as int {
                            assert(n2[x] == nodes0[x]);
                        } else {
                            assert(wf_node_basic(nodes0, existing as int));
                            assert(n2[x].footprint_of() == 1);
                            assert(n2[x].blkid_of() == folder.block_id);
                        }
                    }
                }
                proof {
                    assert(wf_node_basic(nodes0, existing as int));
                    assert(self.nodes@[existing as int].size_of() == 0);
                    assert(self.nodes@[existing as int].footprint_of() == 1);
                    assert(self.nodes@[existing as int].blkid_of() == folder.block_id);
                }
                self.register_node(existing);
            },
            None => {
                let parent_name: Vec<u8>;
                match &self.nodes[parent] {
                    Item::Directory(pd) => {
                        parent_name = crate::paths::copy_range(&pd.name, 0, pd.name.len());
                    },
                    Item::File(_) => {
                        proof {
                            assert(false);
                        }
                        parent_name = Vec::new();
                    },
                }
                proof {
                    assert(parent_name@ =~= self.nodes@[parent as int].name_of());
                    assert(wf_node_basic(self.nodes@, parent as int));
                }
                if comp.len() > 100 || parent_name.len() + comp.len() + 1 > 100 {
                    proof {
                        assert(!dir_record_fits(folder.name@));
                    }
                    return ;
                }
                let mut name: Vec<u8> = Vec::new();
                crate::paths::push_copy(&mut name, &parent_name);
                crate::paths::push_copy(&mut name, &comp);
                name.push(47);
                let ghost namev = name@;
                let ghost nodesb = self.nodes@;
                let ghost pname = nodesb[parent as int].name_of();
                proof {
                    assert(namev == pname + comp@ + seq![47u8]);
                    assert(namev.subrange(0, pname.len() as int) =~= pname);
                    assert(dir_child_name_ok(pname, namev)) by {
                        assert forall|t: int| pname.len() <= t < namev.len() - 1 implies namev[t]
                            != 47 by {
                            assert(namev[t] == comp@[t - pname.len()]);
                        }
                    }
                    assert(pname.len() > 0 && pname.last() == 47) by {
                        assert(nodesb[parent as int].live());
                    }
                    lemma_dir_child_last_comp(pname, namev);
                    assert(last_comp(namev) =~= comp@);
                    lemma_find_subdir_props(nodesb, subdirs_of(nodesb, parent as int), comp@);
                    assert forall|j: int|
                        0 <= j < subdirs_of(nodesb, parent as int).len() implies last_comp(
                        nodesb[#[trigger] subdirs_of(nodesb, parent as int)[j] as int].name_of(),
                    ) != last_comp(namev) by {
                        assert(wf_dir_children(nodesb, parent as int));
                        assert(child_dir_ok(
                            nodesb,
                            parent as int,
                            subdirs_of(nodesb, parent as int)[j] as int,
                        ));
                    }
                    assert forall|t: int| 0 <= t < namev.len() implies keep_byte(
                        #[trigger] namev[t],
                    ) by {
                        if t < pname.len() {
                            assert(namev[t] == pname[t]);
                        } else if t < pname.len() + comp@.len() {
                            assert(namev[t] == comp@[t - pname.len()]);
                        } else {
                            assert(namev[t] == 47u8);
                        }
                    }
                }
                let mut d2 = Directory::new(folder.block_id, name);
                d2.time = folder.time;
                d2.prefix = folder.prefix;
                let idx = self.attach_dir(parent, d2);
                proof {
                    assert(self.nodes@[idx as int].blkid_of() == folder.block_id);
                    assert(self.nodes@[idx as int].footprint_of() == 1);
                }
                self.register_node(idx);
            },
        }
    }

    /// The full names of the live items of the arena, in arena order; a
    /// plain rendering of the tree for the shell.
    pub fn print_root(&self) -> (r: Vec<String>)
        requires
            self.wf(),
        ensures
            r@.len() == live_names(self.nodes@, self.nodes@.len() as int).len(),
            forall|j: int|
                0 <= j < r@.len() ==> #[trigger] r@[j]@ == chars_of_bytes(
                    live_names(self.nodes@, self.nodes@.len() as int)[j],
                ),
    {
        let n = self.nodes.len();
        let mut r: Vec<String> = Vec::new();
        let mut i: usize = 0;
        while i < n
            invariant
                self.wf(),
                0 <= i <= n,
                n == self.nodes@.len(),
                r@.len() == live_names(self.nodes@, i as int).len(),
                forall|j: int|
                    0 <= j < r@.len() ==> #[trigger] r@[j]@ == chars_of_bytes(
                        live_names(self.nodes@, i as int)[j],
                    ),
            decreases n - i,
        {
            let live: bool;
            let namec: Vec<u8>;
            match &self.nodes[i] {
                Item::File(f) => {
                    live = !(f.name.len() == 6 && f.name[0] == 100 && f.name[1] == 101 && f.name[2]
                        == 102 && f.name[3] == 114 && f.name[4] == 97 && f.name[5] == 103);
                    namec = crate::paths::copy_range(&f.name, 0, f.name.len());
                    proof {
                        lemma_tombstone_bytes(f.name@);
                    }
                },
                Item::Directory(d) => {
                    live = !(d.name.len() == 6 && d.name[0] == 100 && d.name[1] == 101 && d.name[2]
                        == 102 && d.name[3] == 114 && d.name[4] == 97 && d.name[5] == 103);
                    namec = crate::paths::copy_range(&d.name, 0, d.name.len());
                    proof {
                        lemma_tombstone_bytes(d.name@);
                    }
                },
            }
            proof {
                assert(namec@ =~= self.nodes@[i as int].name_of());
                assert(live == self.nodes@[i as int].live());
            }
            if live {
                proof {
                    assert(wf_node_basic(self.nodes@, i as int));
                    assert forall|k: int| 0 <= k < namec@.len() implies #[trigger] namec@[k]
                        < 128 by {
                        assert(keep_byte(self.nodes@[i as int].name_of()[k]));
                    }
                }
                let line = crate::text::ascii_string(&namec);
                r.push(line);
            }
            i = i + 1;
            proof {
                assert(live_names(self.nodes@, i as int) == live_names(self.nodes@, i - 1) + (
                if self.nodes@[i - 1].live() {
                    seq![self.nodes@[i - 1].name_of()]
                } else {
                    Seq::empty()
                }));
            }
        }
        r
    }

    /// Marks every registered item for write-back, so that the next pass
    /// rewrites the whole volume.
    pub fn set_all_files_to_write(&mut self)
        requires
            old(self).wf(),
        ensures
            final(self).wf(),
            final(self).nodes@.len() == old(self).nodes@.len(),
            forall|i: int|
                0 <= i < old(self).nodes@.len() ==> #[trigger] final(self).nodes@[i] == if in_prefix(
                    old(self).registry@,
                    old(self).registry@.len() as int,
                    i,
                ) {
                    dirtied_item(old(self).nodes@[i])
                } else {
                    old(self).nodes@[i]
                },
            final(self).registry == old(self).registry,
            final(self).sessions == old(self).sessions,
            final(self).session_counter == old(self).session_counter,
            final(self).frontier == old(self).frontier,
            final(self).device == old(self).device,
    {
        let ghost reg = self.registry@;
        let ghost nodes0 = self.nodes@;
        let m = self.registry.len();
        let mut j: usize = 0;
        while j < m
            invariant
                old(self).wf(),
                reg == old(self).registry@,
                nodes0 == old(self).nodes@,
                self.registry == old(self).registry,
                self.sessions == old(self).sessions,
                self.session_counter == old(self).session_counter,
                self.frontier == old(self).frontier,
                self.device == old(self).device,
                m == reg.len(),
                0 <= j <= m,
                self.nodes@.len() == nodes0.len(),
                forall|i: int|
                    0 <= i < nodes0.len() ==> #[trigger] self.nodes@[i] == if in_prefix(
                        reg,
                        j as int,
                        i,
                    ) {
                        dirtied_item(nodes0[i])
                    } else {
                        nodes0[i]
                    },
            decreases m - j,
        {
            let idx = self.registry[j];
            proof {
                assert(1 <= reg[j as int] < nodes0.len());
                if in_prefix(reg, j as int, idx as int) {
                    let t = choose|t: int| 0 <= t < j && reg[t] == idx as int;
                    assert(reg[t] == reg[j as int]);
                    assert(false);
                }
                assert(self.nodes@[idx as int] == nodes0[idx as int]);
            }
            self.mark_dirty(idx);
            j = j + 1;
            proof {
                assert forall|i: int| 0 <= i < nodes0.len() implies #[trigger] self.nodes@[i]
                    == if in_prefix(reg, j as int, i) {
                    dirtied_item(nodes0[i])
                } else {
                    nodes0[i]
                } by {
                    if i == idx as int {
                        assert(0 <= j - 1 < j && reg[j - 1] == i);
                        assert(in_prefix(reg, j as int, i));
                    } else if in_prefix(reg, j as int, i) {
                        let t = choose|t: int| 0 <= t < j && reg[t] == i;
                        assert(t < j - 1 || reg[j - 1] == i);
                        assert(in_prefix(reg, j - 1, i));
                    } else {
                        assert(!in_prefix(reg, j - 1, i)) by {
                            if in_prefix(reg, j - 1, i) {
                                let t = choose|t: int| 0 <= t < j - 1 && reg[t] == i;
                                assert(0 <= t < j && reg[t] == i);
                            }
                        }
                    }
                }
            }
        }
        proof {
            assert forall|i: int| 0 <= i < nodes0.len() implies same_shape(
                nodes0[i],
                #[trigger] self.nodes@[i],
            ) by {
                lemma_shape_of_updates(nodes0[i]);
            }
            lemma_wf_same_shape(
                nodes0,
                self.nodes@,
                reg,
                session_map(self.sessions),
                self.frontier,
            );
        }
    }
}

/// Splits a path into the path of its directory and its leaf name.
pub fn split_last_and_first(path: &Vec<u8>) -> (r: (Vec<u8>, Vec<u8>))
    ensures
        r.0@ == parent_path_spec(path@),
        r.1@ == last_comp(path@),
{
    let abs = is_absolute(path);
    let mut parts = split_path(path);
    let ghost all = parts.deep_view();
    let leaf: Vec<u8> = match parts.pop() {
        Some(p) => p,
        None => Vec::new(),
    };
    proof {
        if all.len() > 0 {
            assert(parts.deep_view() =~~= all.drop_last());
            assert(leaf@ == all.last());
        } else {
            assert(parts.deep_view() =~~= all);
        }
    }
    let mut stem: Vec<u8> = Vec::new();
    if abs {
        stem.push(47);
    }
    let ghost pre = stem@;
    let n = parts.len();
    let mut i: usize = 0;
    proof {
        assert(join_upto(parts.deep_view(), 0) =~= Seq::<u8>::empty());
    }
    while i < n
        invariant
            0 <= i <= n,
            n == parts.deep_view().len(),
            parts.deep_view().len() == parts@.len(),
            stem@ == pre + join_upto(parts.deep_view(), i as int),
        decreases n - i,
    {
        let ghost before = stem@;
        crate::paths::push_copy(&mut stem, &parts[i]);
        stem.push(47);
        proof {
            assert(parts.deep_view()[i as int] =~= parts@[i as int]@);
            assert(join_upto(parts.deep_view(), i + 1) =~= join_upto(parts.deep_view(), i as int)
                + parts.deep_view()[i as int] + seq![47u8]);
            assert(stem@ =~= pre + join_upto(parts.deep_view(), i + 1));
        }
        i = i + 1;
    }
    proof {
        lemma_join_upto_all(parts.deep_view());
        if all.len() > 0 {
            assert(split_path_spec(path@).drop_last() =~~= parts.deep_view());
        }
        assert(stem@ =~= parent_path_spec(path@));
    }
    (stem, leaf)
}

/// The concatenation of the first `n` components, each closed by a
/// separator.
pub open spec fn join_upto(parts: Seq<Seq<u8>>, n: int) -> Seq<u8>
    decreases n,
{
    if n <= 0 {
        Seq::empty()
    } else {
        join_upto(parts, n - 1) + parts[n - 1] + seq![47u8]
    }
}

/// The joined prefix only grows with more components.
proof fn lemma_join_upto_len_mono(parts: Seq<Seq<u8>>, a: int, b: int)
    requires
        0 <= a <= b,
    ensures
        join_upto(parts, a).len() <= join_upto(parts, b).len(),
    decreases b - a,
{
    if a < b {
        lemma_join_upto_len_mono(parts, a, b - 1);
    }
}

proof fn lemma_join_upto_all(parts: Seq<Seq<u8>>)
    ensures
        join_upto(parts, parts.len() as int) == join_dir(parts),
    decreases parts.len(),
{
    if parts.len() > 0 {
        lemma_join_upto_all(parts.drop_last());
        assert forall|k: int| 0 <= k <= parts.drop_last().len() implies join_upto(
            parts.drop_last(),
            k,
        ) == join_upto(parts, k) by {
            lemma_join_upto_prefix(parts, k);
        }
        assert(join_upto(parts, parts.len() as int) == join_upto(parts, parts.len() - 1)
            + parts.last() + seq![47u8]);
    }
}

proof fn lemma_join_upto_prefix(parts: Seq<Seq<u8>>, k: int)
    requires
        0 <= k <= parts.len() - 1,
    ensures
        join_upto(parts.drop_last(), k) == join_upto(parts, k),
    decreases k,
{
    if k > 0 {
        lemma_join_upto_prefix(parts, k - 1);
        assert(parts.drop_last()[k - 1] == parts[k - 1]);
    }
}

} // verus!
