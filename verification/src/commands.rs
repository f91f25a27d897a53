//! The command runner: the shell's input line and the commands it applies
//! to the filesystem and its neighbors.  Printing and display work stay
//! with the caller; the runner keeps the buffer, the cursor, and the
//! session, and forwards each command to the subsystem it drives.

use vstd::prelude::*;
use crate::ustar::Volume;
use crate::FsError;
use vstd::string::StringSliceAdditionalSpecFns;

verus! {

/// Digit value of a decimal ASCII string, most significant first.
pub open spec fn dec_value(s: Seq<u8>) -> nat
    decreases s.len(),
{
    if s.len() == 0 {
        0
    } else {
        dec_value(s.drop_last()) * 10 + (if 48 <= s.last() <= 57 {
            (s.last() - 48) as nat
        } else {
            0
        })
    }
}

pub open spec fn all_dec(s: Seq<u8>) -> bool {
    forall|i: int| 0 <= i < s.len() ==> 48 <= #[trigger] s[i] <= 57
}

/// Reads a small decimal count; anything that is not one falls back to
/// the given default, as the shell's lenient argument handling always did.
pub fn parse_count(s: &Vec<u8>, default: i32) -> (r: i32)
    ensures
        (s@.len() > 0 && s@.len() <= 9 && all_dec(s@)) ==> r == dec_value(s@),
        !(s@.len() > 0 && all_dec(s@)) ==> r == default,
{
    let n = s.len();
    if n == 0 || n > 9 {
        return default;
    }
    let mut acc: i32 = 0;
    let mut i: usize = 0;
    let mut ok = true;
    proof {
        lemma_pow10_le(0, n as nat);
    }
    while i < n
        invariant
            0 <= i <= n,
            0 < n == s@.len() <= 9,
            ok == all_dec(s@.subrange(0, i as int)),
            ok ==> acc == dec_value(s@.subrange(0, i as int)),
            !ok ==> acc == 0,
            (acc as nat) < pow10(i as nat),
            pow10(i as nat) <= pow10(n as nat),
        decreases n - i,
    {
        let b = s[i];
        proof {
            assert(s@.subrange(0, i + 1).drop_last() =~= s@.subrange(0, i as int));
            assert(pow10((i + 1) as nat) == 10 * pow10(i as nat));
            lemma_pow10_le((i + 1) as nat, n as nat);
            lemma_pow10_le(n as nat, 9);
            lemma_pow10_9_value();
        }
        if b < 48 || b > 57 {
            ok = false;
            acc = 0;
            proof {
                assert(!(48 <= s@.subrange(0, i + 1)[i as int] <= 57));
            }
        } else if ok {
            acc = acc * 10 + (b - 48) as i32;
        }
        i = i + 1;
        proof {
            if !ok {
                if all_dec(s@.subrange(0, i as int)) {
                    assert(48 <= s@.subrange(0, i as int)[i - 1] <= 57);
                }
                if all_dec(s@) {
                    assert(48 <= s@[i - 1] <= 57);
                    assert(s@.subrange(0, i as int)[i - 1] == s@[i - 1]);
                    assert forall|t: int|
                        0 <= t < s@.subrange(0, i as int).len() implies 48 <= #[trigger] s@.subrange(
                        0,
                        i as int,
                    )[t] <= 57 by {
                        assert(48 <= s@[t] <= 57);
                    }
                    assert(false);
                }
            }
        }
    }
    proof {
        assert(s@.subrange(0, n as int) =~= s@);
    }
    if ok {
        acc
    } else {
        default
    }
}

pub open spec fn pow10(w: nat) -> nat
    decreases w,
{
    if w == 0 {
        1
    } else {
        10 * pow10((w - 1) as nat)
    }
}

proof fn lemma_pow10_le(a: nat, b: nat)
    requires
        a <= b,
    ensures
        pow10(a) <= pow10(b),
    decreases b,
{
    if a < b {
        lemma_pow10_le(a, (b - 1) as nat);
    }
}

proof fn lemma_pow10_9_value()
    ensures
        pow10(9) == 1000000000,
{
    reveal_with_fuel(pow10, 10);
}

/// The first index of `b` in `s`, or the length when absent.
pub open spec fn first_at(s: Seq<u8>, b: u8) -> int
    decreases s.len(),
{
    if s.len() == 0 {
        0
    } else if s[0] == b {
        0
    } else {
        1 + first_at(s.drop_first(), b)
    }
}

pub proof fn lemma_first_at_pin(s: Seq<u8>, b: u8, k: int)
    requires
        0 <= k <= s.len(),
        forall|t: int| 0 <= t < k ==> s[t] != b,
        k < s.len() ==> s[k] == b,
    ensures
        first_at(s, b) == k,
    decreases s.len(),
{
    if s.len() > 0 && s[0] != b {
        assert(k > 0);
        assert(forall|t: int| 0 <= t < k - 1 ==> s.drop_first()[t] != b);
        lemma_first_at_pin(s.drop_first(), b, k - 1);
    }
}

/// The semicolon-separated fields of the line, in order, all of them.
pub open spec fn line_fields(s: Seq<u8>) -> Seq<Seq<u8>>
    decreases s.len(),
{
    let i = first_at(s, 59);
    if i >= s.len() {
        seq![s]
    } else if 0 <= i {
        seq![s.subrange(0, i)] + line_fields(s.subrange(i + 1, s.len() as int))
    } else {
        seq![s]
    }
}

/// A field's command: what stands before its first space.
pub open spec fn cmd_of(f: Seq<u8>) -> Seq<u8> {
    f.subrange(0, first_at(f, 32))
}

/// A field's argument: what stands after its first space, or nothing.
pub open spec fn arg_of(f: Seq<u8>) -> Seq<u8> {
    let i = first_at(f, 32);
    if i >= f.len() {
        Seq::empty()
    } else {
        f.subrange(i + 1, f.len() as int)
    }
}

/// The shell state: the input line, its cursor, and the session id the
/// The shell state: the input line, its cursor, and the session id the
/// shell works the filesystem under.
pub struct CommandRunner {
    pub command_buffer: Vec<u8>,
    pub dir_id: u64,
    pub index: usize,
}

impl CommandRunner {
    /// The cursor never leaves the line.
    pub open spec fn wf(self) -> bool {
        self.index <= self.command_buffer@.len()
    }

    pub fn new() -> (r: CommandRunner)
        ensures
            r.wf(),
            r.command_buffer@ == Seq::<u8>::empty(),
            r.dir_id == 0,
            r.index == 0,
    {
        CommandRunner { command_buffer: Vec::new(), dir_id: 0, index: 0 }
    }

    /// Takes a session from the volume for the shell's own cursor.
    pub fn init(&mut self, vol: &mut Volume)
        requires
            old(vol).wf(),
        ensures
            final(vol).wf(),
            final(self).dir_id == final(vol).session_counter,
            final(vol).session_counter == (if old(vol).session_counter < u64::MAX {
                (old(vol).session_counter + 1) as u64
            } else {
                u64::MAX
            }),
            crate::sessions::session_map(final(vol).sessions) == crate::sessions::session_map(
                old(vol).sessions,
            ).insert(final(self).dir_id, 0),
            final(vol).nodes == old(vol).nodes,
            final(vol).device == old(vol).device,
            final(self).command_buffer == old(self).command_buffer,
            final(self).index == old(self).index,
    {
        self.dir_id = vol.get_id();
    }

    /// Puts a byte on the line at the cursor: a line feed asks the caller
    /// to evaluate, a backspace deletes before the cursor, any other byte
    /// overwrites at the cursor or extends the line.  Reports whether the
    /// line is to be evaluated.
    pub fn add_to_buffer(&mut self, c: u8) -> (r: bool)
        requires
            old(self).wf(),
        ensures
            final(self).wf(),
            r == (c == 10),
            c == 10 ==> *final(self) == *old(self),
            final(self).dir_id == old(self).dir_id,
    {
        if c == 10 {
            return true;
        }
        if c == 8 {
            self.remove_from_buffer();
            return false;
        }
        if self.index < self.command_buffer.len() {
            self.command_buffer.remove(self.index);
            self.command_buffer.insert(self.index, c);
        } else {
            self.command_buffer.push(c);
        }
        let nl = self.command_buffer.len();
        proof {
            assert(self.index < nl);
        }
        self.index = self.index + 1;
        false
    }

    /// Deletes the byte before the cursor, when there is one.
    pub fn remove_from_buffer(&mut self)
        requires
            old(self).wf(),
        ensures
            final(self).wf(),
            old(self).index == 0 ==> *final(self) == *old(self),
            old(self).index != 0 ==> final(self).index == old(self).index - 1 && final(self).command_buffer@ == old(self).command_buffer@.remove(old(self).index - 1),
            final(self).dir_id == old(self).dir_id,
    {
        if self.index != 0 {
            self.command_buffer.remove(self.index - 1);
            self.index = self.index - 1;
        }
    }

    /// Moves the cursor one place left or right, within the line.
    pub fn move_command_cursor(&mut self, i: i8)
        requires
            old(self).wf(),
        ensures
            final(self).wf(),
            final(self).command_buffer == old(self).command_buffer,
            final(self).dir_id == old(self).dir_id,
            i > 0 && old(self).index < old(self).command_buffer@.len() ==> final(self).index
                == old(self).index + 1,
            i < 0 && old(self).index != 0 ==> final(self).index == old(self).index - 1,
            (i == 0 || (i > 0 && old(self).index >= old(self).command_buffer@.len()) || (i < 0
                && old(self).index == 0)) ==> final(self).index == old(self).index,
    {
        if i > 0 && self.index < self.command_buffer.len() {
            self.index = self.index + 1;
        } else if i < 0 && self.index != 0 {
            self.index = self.index - 1;
        }
    }

    /// Splits the line into commands, one per semicolon-separated field,
    /// and the argument of each, the part after its first space.
    #[verifier::rlimit(60)]
    #[verifier::spinoff_prover]
    pub fn split_buffer(&self) -> (r: (Vec<Vec<u8>>, Vec<Vec<u8>>))
        ensures
            r.0.deep_view() == line_fields(self.command_buffer@).map_values(
                |f: Seq<u8>| cmd_of(f),
            ),
            r.1.deep_view() == line_fields(self.command_buffer@).map_values(
                |f: Seq<u8>| arg_of(f),
            ),
            r.0@.len() == r.1@.len(),
            r.0@.len() >= 1,
    {
        let mut commands: Vec<Vec<u8>> = Vec::new();
        let mut args: Vec<Vec<u8>> = Vec::new();
        let ghost buf = self.command_buffer@;
        let ghost mut done: Seq<Seq<u8>> = Seq::empty();
        let n = self.command_buffer.len();
        let mut start: usize = 0;
        let mut i: usize = 0;
        proof {
            assert(buf.subrange(0, n as int) =~= buf);
            assert(commands.deep_view() =~~= done.map_values(|f: Seq<u8>| cmd_of(f)));
            assert(args.deep_view() =~~= done.map_values(|f: Seq<u8>| arg_of(f)));
        }
        loop
            invariant_except_break
                line_fields(buf) == done + line_fields(buf.subrange(start as int, n as int)),
            invariant
                n == buf.len(),
                buf == self.command_buffer@,
                0 <= start <= i <= n,
                forall|t: int| start <= t < i ==> buf[t] != 59,
                commands.deep_view() == done.map_values(|f: Seq<u8>| cmd_of(f)),
                args.deep_view() == done.map_values(|f: Seq<u8>| arg_of(f)),
                commands@.len() == args@.len(),
                commands@.len() == done.len(),
            ensures
                commands.deep_view() == line_fields(buf).map_values(|f: Seq<u8>| cmd_of(f)),
                args.deep_view() == line_fields(buf).map_values(|f: Seq<u8>| arg_of(f)),
                commands@.len() == args@.len(),
                commands@.len() >= 1,
            decreases n - i, 1int,
        {
            if i == n || self.command_buffer[i] == 59 {
                let ghost field = buf.subrange(start as int, i as int);
                let ghost suffix = buf.subrange(start as int, n as int);
                proof {
                    assert forall|t: int| 0 <= t < i - start implies suffix[t] != 59 by {
                        assert(suffix[t] == buf[start + t]);
                    }
                    if (i as int) - (start as int) < suffix.len() {
                        assert(suffix[i - start] == buf[i as int]);
                    }
                    lemma_first_at_pin(suffix, 59, i - start);
                    assert(field =~= suffix.subrange(0, i - start));
                }
                // one field: split at its first space
                let mut sp: usize = start;
                while sp < i && self.command_buffer[sp] != 32
                    invariant
                        buf == self.command_buffer@,
                        start <= sp <= i <= n,
                        n == buf.len(),
                        forall|t: int| start <= t < sp ==> buf[t] != 32,
                    decreases i - sp,
                {
                    sp = sp + 1;
                }
                proof {
                    assert forall|t: int| 0 <= t < sp - start implies field[t] != 32 by {
                        assert(field[t] == buf[start + t]);
                    }
                    if (sp as int) - (start as int) < field.len() {
                        assert(field[sp - start] == buf[sp as int]);
                    }
                    lemma_first_at_pin(field, 32, sp - start);
                }
                let ghost prev = done;
                let ghost ghost_cmd = cmd_of(field);
                let ghost ghost_arg = arg_of(field);
                let cmd = crate::paths::copy_range(&self.command_buffer, start, sp);
                commands.push(cmd);
                if sp < i {
                    let arg = crate::paths::copy_range(&self.command_buffer, sp + 1, i);
                    args.push(arg);
                    proof {
                        assert(arg@ =~= ghost_arg);
                    }
                } else {
                    args.push(Vec::new());
                    proof {
                        assert(Seq::<u8>::empty() =~= ghost_arg);
                    }
                }
                proof {
                    assert(cmd@ =~= ghost_cmd);
                    done = prev + seq![field];
                    assert(done.map_values(|f: Seq<u8>| cmd_of(f)) =~~= prev.map_values(
                        |f: Seq<u8>| cmd_of(f),
                    ).push(ghost_cmd));
                    assert(commands.deep_view() =~~= prev.map_values(|f: Seq<u8>| cmd_of(f)).push(
                        cmd@,
                    ));
                    assert(commands.deep_view() =~~= done.map_values(|f: Seq<u8>| cmd_of(f)));
                    assert(done.map_values(|f: Seq<u8>| arg_of(f)) =~~= prev.map_values(
                        |f: Seq<u8>| arg_of(f),
                    ).push(ghost_arg));
                    assert(args.deep_view() =~~= prev.map_values(|f: Seq<u8>| arg_of(f)).push(
                        ghost_arg,
                    ));
                    assert(args.deep_view() =~~= done.map_values(|f: Seq<u8>| arg_of(f)));
                }
                if i == n {
                    proof {
                        assert(first_at(suffix, 59) >= suffix.len());
                        assert(line_fields(suffix) == seq![suffix]);
                        assert(field =~= suffix);
                        assert(line_fields(buf) == prev + line_fields(suffix));
                        assert(line_fields(buf) =~~= done);
                        assert(done.len() >= 1);
                    }
                    break ;
                }
                proof {
                    assert(first_at(suffix, 59) == i - start);
                    assert((i as int) - (start as int) < suffix.len());
                    assert(line_fields(suffix) == seq![field] + line_fields(
                        suffix.subrange(i - start + 1, suffix.len() as int),
                    ));
                    assert(suffix.subrange(i - start + 1, suffix.len() as int) =~= buf.subrange(
                        i + 1,
                        n as int,
                    ));
                    assert(line_fields(buf) == prev + line_fields(suffix));
                    assert(line_fields(buf) =~~= done + line_fields(buf.subrange(i + 1, n as int)));
                }
                start = i + 1;
            }
            if i == n {
                proof {
                    assert(false);
                }
            }
            i = i + 1;
        }
        (commands, args)
    }

    /// Changes the session's directory: resolves the target and, only on
    /// success, repoints the shell's cursor.
    pub fn cd(&self, vol: &mut Volume, args: &str) -> (r: bool)
        requires
            old(vol).wf(),
        ensures
            final(vol).wf(),
            final(vol).nodes == old(vol).nodes,
            final(vol).device == old(vol).device,
            ({
                let nodes = old(vol).nodes@;
                let sm = crate::sessions::session_map(old(vol).sessions);
                let target = if crate::paths::is_absolute_spec(args.spec_bytes()) {
                    crate::ustar::resolve_dir_abs(nodes, args.spec_bytes())
                } else {
                    crate::ustar::resolve_dir_rel(nodes, sm, args.spec_bytes(), self.dir_id)
                };
                match target {
                    Some(d) => {
                        &&& r == sm.dom().contains(self.dir_id)
                        &&& crate::sessions::session_map(final(vol).sessions) == if r {
                            sm.insert(self.dir_id, d as u64)
                        } else {
                            sm
                        }
                    },
                    None => r == false && crate::sessions::session_map(final(vol).sessions) == sm,
                }
            }),
    {
        vol.change_directory(args, self.dir_id)
    }

    /// Makes a directory under the shell's current directory, refusing a
    /// live sibling of the same name.
    pub fn mkdir(&self, vol: &mut Volume, args: &str) -> (r: Result<(), FsError>)
        requires
            old(vol).wf(),
        ensures
            final(vol).wf(),
            final(vol).device.data@.len() == old(vol).device.data@.len(),
            crate::paths::is_absolute_spec(args.spec_bytes()) && r is Ok ==> ({
                let nfin = final(vol).nodes@;
                &&& nfin.len() > old(vol).nodes@.len()
                &&& nfin.last() is Directory
                &&& nfin.last().live()
                &&& nfin.last().registered_of()
                &&& nfin.last().blkid_of() == old(vol).frontier
                &&& crate::paths::last_comp(nfin.last().name_of()) == crate::ustar::strip_sep_spec(
                    crate::paths::last_comp(args.spec_bytes()),
                )
                &&& final(vol).frontier == old(vol).frontier + 1
            }),
            ({
                let nodes = old(vol).nodes@;
                let sm = crate::sessions::session_map(old(vol).sessions);
                let arg = args.spec_bytes();
                !crate::paths::is_absolute_spec(arg) ==> {
                    let comp = crate::ustar::strip_sep_spec(arg);
                    &&& (!sm.dom().contains(self.dir_id) ==> (r matches Err(FsError::NotFound)))
                    &&& (sm.dom().contains(self.dir_id) ==> {
                        let cursor = sm[self.dir_id] as int;
                        let clash = crate::ustar::find_subdir(
                            nodes,
                            crate::ustar::subdirs_of(nodes, cursor),
                            comp,
                        ) is Some;
                        &&& (nodes[cursor].live() && (forall|k: int|
                            0 <= k < comp.len() ==> crate::codec::keep_byte(#[trigger] comp[k]))
                            && nodes[cursor].name_of().len() + comp.len() + 1 <= 100 && clash
                            ==> (r matches Err(FsError::NameCollision)) && *final(vol) == *old(
                            vol,
                        ))
                        &&& (r is Ok ==> {
                            &&& final(vol).nodes@.len() == nodes.len() + 1
                            &&& final(vol).nodes@.last() is Directory
                            &&& final(vol).nodes@.last().name_of() == nodes[cursor].name_of()
                                + comp + seq![47u8]
                            &&& final(vol).nodes@.last().blkid_of() == old(vol).frontier
                            &&& final(vol).frontier == old(vol).frontier + 1
                        })
                    })
                }
            }),
    {
        vol.create_directory(args, self.dir_id)
    }

    /// Removes a directory and its whole subtree: everything below takes
    /// the tombstone, and the target leaves its parent's child list.
    pub fn rmdir(&self, vol: &mut Volume, args: &str) -> (r: Result<(), FsError>)
        requires
            old(vol).wf(),
        ensures
            final(vol).wf(),
            final(vol).device.data@.len() == old(vol).device.data@.len(),
            ({
                let pb = args.spec_bytes();
                let nodes0 = old(vol).nodes@;
                let sm0 = crate::sessions::session_map(old(vol).sessions);
                let target = if crate::paths::is_absolute_spec(pb) {
                    crate::ustar::resolve_dir_abs(nodes0, pb)
                } else {
                    crate::ustar::resolve_dir_rel(nodes0, sm0, pb, self.dir_id)
                };
                &&& ((r matches Err(FsError::NotFound)) <==> (match target {
                    Some(t) => t == 0 || !nodes0[t].live(),
                    None => true,
                }))
                &&& ((r is Ok || r matches Err(FsError::DeviceBoundary)) ==> (match target {
                    Some(t) => final(vol).nodes@[t].name_of() == crate::node::tombstone_seq()
                        && crate::ustar::unlinked(final(vol).nodes@, t),
                    None => true,
                }))
            }),
    {
        vol.remove_directory(args, Some(self.dir_id))
    }

    /// Compacts the volume: live items move to consecutive sectors from
    /// zero and the frontier becomes their summed footprint.
    pub fn defrag(&self, vol: &mut Volume) -> (r: Result<(), FsError>)
        requires
            old(vol).wf(),
        ensures
            final(vol).wf(),
            final(vol).device.data@.len() == old(vol).device.data@.len(),
            r is Ok ==> final(vol).frontier == crate::ustar::live_fp_sum(
                old(vol).nodes@,
                old(vol).registry@,
                old(vol).registry@.len() as int,
            ),
            r is Ok ==> (forall|i: int|
                0 <= i < old(vol).nodes@.len() ==> (#[trigger] final(vol).nodes@[i]).name_of()
                    == old(vol).nodes@[i].name_of() && final(vol).nodes@[i].data_of() == old(
                    vol,
                ).nodes@[i].data_of()),
    {
        vol.defragment()
    }

    /// Removes a file: it takes the tombstone and leaves its directory at
    /// once, and afterwards the path no longer resolves.
    pub fn rm(&self, vol: &mut Volume, args: &str) -> (r: Result<(), FsError>)
        requires
            old(vol).wf(),
        ensures
            final(vol).wf(),
            final(vol).device.data@.len() == old(vol).device.data@.len(),
            ({
                let pb = args.spec_bytes();
                let st = crate::ustar::start_for(
                    crate::sessions::session_map(old(vol).sessions),
                    pb,
                    Some(self.dir_id),
                );
                let found = crate::ustar::resolve_file_spec(old(vol).nodes@, st, pb);
                &&& (r is Ok ==> found is Some)
                &&& ((r matches Err(FsError::NotFound)) ==> found is None && final(vol).nodes
                    == old(vol).nodes)
                &&& ((r is Ok || r matches Err(FsError::DeviceBoundary))
                    ==> crate::ustar::resolve_file_spec(final(vol).nodes@, st, pb) is None)
            }),
    {
        vol.remove_file(args, Some(self.dir_id))
    }

    /// Makes a file holding a greeting.
    pub fn touchhello(&self, vol: &mut Volume, args: &str) -> (r: Result<(), FsError>)
        requires
            old(vol).wf(),
        ensures
            final(vol).wf(),
            final(vol).device.data@.len() == old(vol).device.data@.len(),
            r is Ok ==> ({
                let nfin = final(vol).nodes@;
                &&& nfin.len() > old(vol).nodes@.len()
                &&& nfin.last() is File
                &&& nfin.last().live()
                &&& nfin.last().data_of() == seq![
                    72u8, 101u8, 108u8, 108u8, 111u8, 32u8, 87u8, 111u8, 114u8, 108u8, 100u8,
                    33u8,
                ]
                &&& crate::node::file_short_spec(nfin.last().name_of()) == crate::paths::last_comp(
                    args.spec_bytes(),
                )
            }),
            ({
                let pb = args.spec_bytes();
                let nodes0 = old(vol).nodes@;
                let st = crate::ustar::start_for(
                    crate::sessions::session_map(old(vol).sessions),
                    pb,
                    Some(self.dir_id),
                );
                let parent = crate::ustar::parent_path_spec(pb);
                let abs = crate::paths::is_absolute_spec(parent) && parent.len() > 0;
                let wd = if abs {
                    crate::ustar::walk(nodes0, 0, crate::paths::split_path_spec(parent), false)
                } else {
                    crate::ustar::walk(nodes0, st, crate::paths::split_path_spec(parent), true)
                };
                // with the parent in place beforehand, the path afterwards
                // resolves to the fresh file, so the greeting reads back
                (r is Ok && wd is Some) ==> crate::ustar::resolve_file_spec(
                    final(vol).nodes@,
                    st,
                    pb,
                ) == Some(final(vol).nodes@.len() - 1)
            }),
    {
        let mut data: Vec<u8> = Vec::new();
        data.push(72);
        data.push(101);
        data.push(108);
        data.push(108);
        data.push(111);
        data.push(32);
        data.push(87);
        data.push(111);
        data.push(114);
        data.push(108);
        data.push(100);
        data.push(33);
        vol.write_file(args, data, Some(self.dir_id))
    }

    /// Reads a file for the caller to print; a path that does not resolve
    /// reads as empty.
    pub fn cat(&self, vol: &mut Volume, args: &str) -> (r: Vec<u8>)
        requires
            old(vol).wf(),
        ensures
            final(vol).wf(),
            final(vol).nodes == old(vol).nodes,
            final(vol).device == old(vol).device,
            ({
                let pb = args.spec_bytes();
                let st = crate::ustar::start_for(
                    crate::sessions::session_map(old(vol).sessions),
                    pb,
                    Some(self.dir_id),
                );
                match crate::ustar::resolve_file_spec(old(vol).nodes@, st, pb) {
                    Some(c) => r@ == old(vol).nodes@[c].data_of(),
                    None => r@ == Seq::<u8>::empty(),
                }
            }),
    {
        match vol.read_file(args, Some(self.dir_id)) {
            Some(d) => d,
            None => Vec::new(),
        }
    }

    /// Persists pending changes: every dirty registered item's image goes
    /// to its sectors, then the end-of-volume marks.
    pub fn write(&self, vol: &mut Volume) -> (r: Result<(), FsError>)
        requires
            old(vol).wf(),
        ensures
            final(vol).wf(),
            final(vol).device.data@.len() == old(vol).device.data@.len(),
            r is Ok ==> final(vol).device.data@ == crate::ustar::persist_image(
                old(vol).device.data@,
                old(vol).nodes@,
                old(vol).registry@,
                old(vol).frontier,
            ),
            (r matches Err(FsError::DeviceBoundary)) ==> !crate::ustar::can_persist(
                old(vol).nodes@,
                old(vol).registry@,
                old(vol).device.data@.len(),
                old(vol).frontier,
            ) && *final(vol) == *old(vol),
            r is Err ==> (r matches Err(FsError::DeviceBoundary)),
    {
        vol.write()
    }

    /// Makes a file holding a single space.
    pub fn touch(&self, vol: &mut Volume, args: &str) -> (r: Result<(), FsError>)
        requires
            old(vol).wf(),
        ensures
            final(vol).wf(),
            final(vol).device.data@.len() == old(vol).device.data@.len(),
            r is Ok ==> ({
                let nfin = final(vol).nodes@;
                &&& nfin.len() > old(vol).nodes@.len()
                &&& nfin.last() is File
                &&& nfin.last().live()
                &&& nfin.last().data_of() == seq![32u8]
                &&& crate::node::file_short_spec(nfin.last().name_of()) == crate::paths::last_comp(
                    args.spec_bytes(),
                )
            }),
            ({
                let pb = args.spec_bytes();
                let nodes0 = old(vol).nodes@;
                let st = crate::ustar::start_for(
                    crate::sessions::session_map(old(vol).sessions),
                    pb,
                    Some(self.dir_id),
                );
                let parent = crate::ustar::parent_path_spec(pb);
                let abs = crate::paths::is_absolute_spec(parent) && parent.len() > 0;
                let wd = if abs {
                    crate::ustar::walk(nodes0, 0, crate::paths::split_path_spec(parent), false)
                } else {
                    crate::ustar::walk(nodes0, st, crate::paths::split_path_spec(parent), true)
                };
                (r is Ok && wd is Some) ==> crate::ustar::resolve_file_spec(
                    final(vol).nodes@,
                    st,
                    pb,
                ) == Some(final(vol).nodes@.len() - 1)
            }),
    {
        let mut data: Vec<u8> = Vec::new();
        data.push(32);
        vol.write_file(args, data, Some(self.dir_id))
    }

    /// The live items of the tree, for the caller to print.
    pub fn proot(&self, vol: &Volume) -> (r: Vec<String>)
        requires
            vol.wf(),
        ensures
            r@.len() == crate::ustar::live_names(vol.nodes@, vol.nodes@.len() as int).len(),
            forall|j: int|
                0 <= j < r@.len() ==> #[trigger] r@[j]@ == crate::text::chars_of_bytes(
                    crate::ustar::live_names(vol.nodes@, vol.nodes@.len() as int)[j],
                ),
    {
        vol.print_root()
    }

    /// Loads a file into the interpreter and turns the keyboard over to
    /// it; reports whether the file was there.
    pub fn brainf(
        &self,
        vol: &mut Volume,
        bf: &mut crate::brainf::BrainF,
        kmodes: &mut crate::keyboard_routing::Modes,
        args: &str,
    ) -> (r: bool)
        requires
            old(vol).wf(),
        ensures
            final(vol).wf(),
            r ==> final(kmodes).brainf == true && final(kmodes).bfesc == true && final(kmodes).terminal == false,
            !r ==> *final(kmodes) == *old(kmodes) && *final(bf) == *old(bf),
    {
        match vol.read_file(args, Some(self.dir_id)) {
            Some(program) => {
                bf.load(program);
                kmodes.brainf = true;
                kmodes.bfesc = true;
                kmodes.terminal = false;
                kmodes.screenbuffer = false;
                true
            },
            None => false,
        }
    }

    /// Starts the song for the count the argument spells, one run when it
    /// spells none.
    pub fn tet_ost(
        &self,
        sp: &mut crate::speaker::PcSpeaker,
        tmodes: &mut crate::timer_routing::Modes,
        kmodes: &mut crate::keyboard_routing::Modes,
        args: &Vec<u8>,
    )
        ensures
            final(sp).timer == 0,
            final(tmodes).song == true,
            final(kmodes).song == true,
    {
        let num = parse_count(args, 1);
        crate::speaker::play_tet_ost_fn(sp, tmodes, kmodes, num);
    }
}

} // verus!
