//! Path strings, viewed as byte sequences.
//!
//! A path is split on `/`.  A path whose first component is empty (it starts
//! with a slash, or is empty) is absolute.  Splitting drops one trailing and
//! one leading empty component, so `"/docs/"` has the components `["docs"]`.

use vstd::prelude::*;

verus! {

/// ASCII code of the path separator `/`.
pub const SEP: u8 = 47;

/// Index of the last separator in `s`, or -1 when there is none.
pub open spec fn last_sep(s: Seq<u8>) -> int
    decreases s.len(),
{
    if s.len() == 0 {
        -1
    } else if s.last() == 47 {
        s.len() - 1
    } else {
        last_sep(s.drop_last())
    }
}

pub proof fn lemma_last_sep_bounds(s: Seq<u8>)
    ensures
        -1 <= last_sep(s) < s.len(),
        last_sep(s) >= 0 ==> s[last_sep(s)] == 47,
        forall|i: int| last_sep(s) < i < s.len() ==> s[i] != 47,
    decreases s.len(),
{
    if s.len() > 0 && s.last() != 47 {
        lemma_last_sep_bounds(s.drop_last());
        assert forall|i: int| last_sep(s) < i < s.len() implies s[i] != 47 by {
            if i < s.len() - 1 {
                assert(s.drop_last()[i] != 47);
            }
        }
    }
}

/// All fields of `s` between the separators, in order.
pub open spec fn split_all(s: Seq<u8>) -> Seq<Seq<u8>>
    decreases s.len(),
{
    let ls = last_sep(s);
    if ls < 0 {
        seq![s]
    } else if ls < s.len() {
        split_all(s.subrange(0, ls)) + seq![s.subrange(ls + 1, s.len() as int)]
    } else {
        seq![s]
    }
}

/// The components of a path: the fields between separators, with one
/// trailing and one leading empty field dropped.
pub open spec fn split_path_spec(s: Seq<u8>) -> Seq<Seq<u8>> {
    let a = split_all(s);
    let b = if a.len() > 0 && a.last().len() == 0 {
        a.drop_last()
    } else {
        a
    };
    if b.len() > 0 && b[0].len() == 0 {
        b.drop_first()
    } else {
        b
    }
}

pub open spec fn is_absolute_spec(s: Seq<u8>) -> bool {
    s.len() == 0 || s[0] == 47
}

/// The last path component, or the empty sequence when there is none; this
/// is the name under which an item is found in its directory.
pub open spec fn last_comp(s: Seq<u8>) -> Seq<u8> {
    let p = split_path_spec(s);
    if p.len() > 0 {
        p.last()
    } else {
        Seq::empty()
    }
}

/// Copies `s[from..to]` into a fresh vector.
pub fn copy_range(s: &Vec<u8>, from: usize, to: usize) -> (r: Vec<u8>)
    requires
        from <= to <= s@.len(),
    ensures
        r@ == s@.subrange(from as int, to as int),
{
    let mut r: Vec<u8> = Vec::new();
    let mut i: usize = from;
    while i < to
        invariant
            from <= i <= to <= s@.len(),
            r@ == s@.subrange(from as int, i as int),
        decreases to - i,
    {
        r.push(s[i]);
        proof {
            assert(s@.subrange(from as int, i + 1) =~= s@.subrange(from as int, i as int).push(
                s@[i as int],
            ));
        }
        i = i + 1;
    }
    r
}

/// Appends a copy of `src` to `dst`.
pub fn push_copy(dst: &mut Vec<u8>, src: &Vec<u8>)
    ensures
        final(dst)@ == old(dst)@ + src@,
{
    let n = src.len();
    let mut i: usize = 0;
    while i < n
        invariant
            0 <= i <= n,
            n == src@.len(),
            dst@ == old(dst)@ + src@.subrange(0, i as int),
        decreases n - i,
    {
        dst.push(src[i]);
        proof {
            assert(old(dst)@ + src@.subrange(0, i + 1) =~= (old(dst)@ + src@.subrange(
                0,
                i as int,
            )).push(src@[i as int]));
        }
        i = i + 1;
    }
    proof {
        assert(src@.subrange(0, n as int) =~= src@);
    }
}

/// Finds the index of the last separator, as `last_sep` describes.
fn find_last_sep(s: &Vec<u8>) -> (r: Option<usize>)
    ensures
        match r {
            Some(i) => last_sep(s@) == i as int,
            None => last_sep(s@) == -1,
        },
{
    let mut i: usize = s.len();
    proof {
        assert(s@.subrange(0, s@.len() as int) =~= s@);
    }
    while i > 0
        invariant
            0 <= i <= s@.len(),
            last_sep(s@) == last_sep(s@.subrange(0, i as int)),
        decreases i,
    {
        if s[i - 1] == SEP {
            proof {
                lemma_last_sep_prefix(s@, i as int);
            }
            return Some(i - 1);
        }
        proof {
            assert(s@.subrange(0, i as int).drop_last() =~= s@.subrange(0, i - 1));
        }
        i = i - 1;
    }
    proof {
        assert(s@.subrange(0, 0) =~= Seq::<u8>::empty());
    }
    None
}

proof fn lemma_last_sep_prefix(s: Seq<u8>, i: int)
    requires
        0 < i <= s.len(),
        s[i - 1] == 47,
    ensures
        last_sep(s.subrange(0, i)) == i - 1,
{
    let p = s.subrange(0, i);
    assert(p.last() == 47);
}

/// Splits a byte string on every separator.
pub fn split_all_exec(s: &Vec<u8>) -> (r: Vec<Vec<u8>>)
    ensures
        r.deep_view() == split_all(s@),
    decreases s@.len(),
{
    proof {
        lemma_last_sep_bounds(s@);
    }
    match find_last_sep(s) {
        None => {
            let mut r: Vec<Vec<u8>> = Vec::new();
            r.push(copy_range(s, 0, s.len()));
            proof {
                assert(s@.subrange(0, s@.len() as int) =~= s@);
                assert(r.deep_view() =~~= split_all(s@));
            }
            r
        },
        Some(ls) => {
            assert(ls < s.len());
            let head = copy_range(s, 0, ls);
            let tail = copy_range(s, ls + 1, s.len());
            let mut r = split_all_exec(&head);
            r.push(tail);
            proof {
                assert(r.deep_view() =~~= split_all(s@));
            }
            r
        },
    }
}

/// Splits a path into its components, dropping one trailing and one leading
/// empty field, as the shell-facing path grammar asks.
pub fn split_path(s: &Vec<u8>) -> (r: Vec<Vec<u8>>)
    ensures
        r.deep_view() == split_path_spec(s@),
{
    let mut parts = split_all_exec(s);
    if parts.len() > 0 && parts[parts.len() - 1].len() == 0 {
        parts.pop();
    }
    if parts.len() > 0 && parts[0].len() == 0 {
        parts.remove(0);
        proof {
            let a = split_all(s@);
            let b = if a.len() > 0 && a.last().len() == 0 {
                a.drop_last()
            } else {
                a
            };
            assert(parts.deep_view() =~~= b.drop_first());
        }
    }
    proof {
        let a = split_all(s@);
        let b = if a.len() > 0 && a.last().len() == 0 {
            a.drop_last()
        } else {
            a
        };
        assert(b =~= (if a.len() > 0 && a.last().len() == 0 {
            a.subrange(0, a.len() - 1)
        } else {
            a
        }));
        assert(parts.deep_view() =~~= split_path_spec(s@));
    }
    parts
}

/// Every byte of every field of `split_all` is a byte of the input, so a
/// property of all input bytes carries to the fields.
pub proof fn lemma_split_all_keep(s: Seq<u8>, pred: spec_fn(u8) -> bool)
    requires
        forall|k: int| 0 <= k < s.len() ==> pred(#[trigger] s[k]),
    ensures
        forall|j: int, k: int|
            0 <= j < split_all(s).len() && 0 <= k < split_all(s)[j].len() ==> pred(
                #[trigger] split_all(s)[j][k],
            ),
    decreases s.len(),
{
    lemma_last_sep_bounds(s);
    let ls = last_sep(s);
    if ls >= 0 {
        let head = s.subrange(0, ls);
        let tail = s.subrange(ls + 1, s.len() as int);
        assert(forall|k: int| 0 <= k < head.len() ==> pred(#[trigger] head[k]));
        lemma_split_all_keep(head, pred);
        assert forall|j: int, k: int|
            0 <= j < split_all(s).len() && 0 <= k < split_all(s)[j].len() implies pred(
            split_all(s)[j][k],
        ) by {
            if j < split_all(head).len() {
                assert(split_all(s)[j] == split_all(head)[j]);
            } else {
                assert(split_all(s)[j] == tail);
                assert(tail[k] == s[ls + 1 + k]);
            }
        }
    }
}

/// No field of a split holds a separator.
pub proof fn lemma_split_all_no_sep(s: Seq<u8>)
    ensures
        forall|j: int, k: int|
            0 <= j < split_all(s).len() && 0 <= k < split_all(s)[j].len() ==> #[trigger] split_all(
                s,
            )[j][k] != 47,
    decreases s.len(),
{
    lemma_last_sep_bounds(s);
    let ls = last_sep(s);
    if ls < 0 {
        assert forall|j: int, k: int|
            0 <= j < split_all(s).len() && 0 <= k < split_all(s)[j].len() implies #[trigger]
        split_all(s)[j][k] != 47 by {
            assert(split_all(s)[j] == s);
            assert(s[k] != 47);
        }
    } else {
        let head = s.subrange(0, ls);
        let tail = s.subrange(ls + 1, s.len() as int);
        lemma_split_all_no_sep(head);
        assert forall|j: int, k: int|
            0 <= j < split_all(s).len() && 0 <= k < split_all(s)[j].len() implies #[trigger]
        split_all(s)[j][k] != 47 by {
            if j < split_all(head).len() {
                assert(split_all(s)[j] == split_all(head)[j]);
            } else {
                assert(split_all(s)[j] == tail);
                assert(tail[k] == s[ls + 1 + k]);
            }
        }
    }
}

/// No component of a path holds a separator.
pub proof fn lemma_split_path_no_sep(s: Seq<u8>)
    ensures
        forall|j: int, k: int|
            0 <= j < split_path_spec(s).len() && 0 <= k < split_path_spec(s)[j].len()
                ==> #[trigger] split_path_spec(s)[j][k] != 47,
{
    lemma_split_all_no_sep(s);
    let a = split_all(s);
    let b = if a.len() > 0 && a.last().len() == 0 {
        a.drop_last()
    } else {
        a
    };
    let c = if b.len() > 0 && b[0].len() == 0 {
        b.drop_first()
    } else {
        b
    };
    assert forall|j: int, k: int|
        0 <= j < c.len() && 0 <= k < c[j].len() implies #[trigger] c[j][k] != 47 by {
        let off: int = if b.len() > 0 && b[0].len() == 0 {
            1
        } else {
            0
        };
        assert(c[j] == b[j + off]);
        assert(b[j + off] == a[j + off]);
        assert(a[j + off][k] != 47);
    }
}

/// Byte-string equality.
pub fn bytes_eq(a: &Vec<u8>, b: &Vec<u8>) -> (r: bool)
    ensures
        r == (a@ == b@),
{
    if a.len() != b.len() {
        proof {
            assert(a@ != b@);
        }
        return false;
    }
    let n = a.len();
    let mut i: usize = 0;
    while i < n
        invariant
            0 <= i <= n,
            n == a@.len() == b@.len(),
            forall|k: int| 0 <= k < i ==> a@[k] == b@[k],
        decreases n - i,
    {
        if a[i] != b[i] {
            proof {
                assert(a@ != b@);
            }
            return false;
        }
        i = i + 1;
    }
    proof {
        assert(a@ =~= b@);
    }
    true
}

/// The last path component, as `last_comp` describes.
pub fn last_comp_exec(s: &Vec<u8>) -> (r: Vec<u8>)
    ensures
        r@ == last_comp(s@),
{
    let mut parts = split_path(s);
    match parts.pop() {
        Some(p) => p,
        None => Vec::new(),
    }
}

/// Whether the path is absolute: its first component is empty.
pub fn is_absolute(s: &Vec<u8>) -> (r: bool)
    ensures
        r == is_absolute_spec(s@),
{
    s.len() == 0 || s[0] == SEP
}

} // verus!
