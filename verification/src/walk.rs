//! The per-directory step of the concurrent walker.
//!
//! A pool of workers drains a shared queue of pending directory paths. A
//! worker that has popped a path enumerates it and hands the entries — as
//! plain classified values — to [`walk_step`], which decides everything
//! the worker does with them: how many bytes to add to the shared total
//! (the sizes of the regular files, wrapped as an atomic 64-bit add is)
//! and which paths to append to the queue (the subdirectories, in
//! enumeration order). The caller performs the add and the appends.

use vstd::prelude::*;
use crate::tree::WRAP;

verus! {

/// What one enumerated directory entry is.
pub enum EntryKind {
    /// A regular file.
    File,
    /// A directory.
    Dir,
    /// Anything else: a symlink, a special file, an unreadable entry.
    Other,
}

/// One enumerated directory entry, classified, with its path and — for a
/// regular file — its size in bytes.
pub struct EntryInfo {
    pub kind: EntryKind,
    pub size: u64,
    pub path: String,
}

/// The bytes an entry contributes: a regular file's size, else 0.
pub open spec fn entry_size(e: EntryInfo) -> nat {
    if e.kind is File {
        e.size as nat
    } else {
        0
    }
}

/// The bytes a directory's enumeration contributes: the sum of its regular
/// files' sizes.
pub open spec fn entries_size(s: Seq<EntryInfo>) -> nat
    decreases s.len(),
{
    if s.len() == 0 {
        0
    } else {
        entry_size(s[0]) + entries_size(s.drop_first())
    }
}

/// The paths of the subdirectories among the entries, in enumeration order.
pub open spec fn dir_paths(s: Seq<EntryInfo>) -> Seq<Seq<char>>
    decreases s.len(),
{
    if s.len() == 0 {
        Seq::empty()
    } else if s[0].kind is Dir {
        seq![s[0].path@] + dir_paths(s.drop_first())
    } else {
        dir_paths(s.drop_first())
    }
}

/// Decides one worker step from one directory's enumerated entries: the
/// byte count to add to the shared total (the regular files' sizes, summed
/// with wrapping 64-bit addition) and the subdirectory paths to append to
/// the shared queue, in enumeration order.
pub fn walk_step(entries: &Vec<EntryInfo>) -> (res: (u64, Vec<String>))
    ensures
        res.0 as nat == entries_size(entries@) % (WRAP as nat),
        res.1.deep_view() == dir_paths(entries@),
{
    let ghost es = entries@;
    let mut added: u64 = 0;
    let mut dirs: Vec<String> = Vec::new();
    let mut i: usize = 0;
    proof {
        assert(es.subrange(0, es.len() as int) =~= es);
        assert(dirs.deep_view() =~= Seq::<Seq<char>>::empty());
    }
    while i < entries.len()
        invariant
            i <= entries.len(),
            es == entries@,
            (added as nat + entries_size(es.subrange(i as int, es.len() as int))) % (
            WRAP as nat) == entries_size(es) % (WRAP as nat),
            dirs.deep_view() + dir_paths(es.subrange(i as int, es.len() as int)) == dir_paths(
                es,
            ),
        decreases entries.len() - i,
    {
        let ghost rest = es.subrange(i as int, es.len() as int);
        proof {
            assert(rest.len() > 0);
            assert(rest[0] == es[i as int]);
            assert(rest.drop_first() =~= es.subrange(i as int + 1, es.len() as int));
        }
        let e = &entries[i];
        match e.kind {
            EntryKind::File => {
                let ghost a0 = added as nat;
                added = added.wrapping_add(e.size);
                proof {
                    crate::tree::lemma_wrapping_add_mod(a0, e.size as nat);
                    crate::tree::lemma_add_inner_mod(
                        a0 + e.size as nat,
                        entries_size(rest.drop_first()),
                    );
                }
            },
            EntryKind::Dir => {
                let ghost d0 = dirs.deep_view();
                dirs.push(e.path.clone());
                proof {
                    assert(dirs.deep_view() =~= d0.push(es[i as int].path@));
                    assert(d0.push(es[i as int].path@) + dir_paths(rest.drop_first()) =~= d0 + (
                    seq![es[i as int].path@] + dir_paths(rest.drop_first())));
                }
            },
            EntryKind::Other => {},
        }
        i = i + 1;
    }
    proof {
        assert(es.subrange(es.len() as int, es.len() as int) =~= Seq::<EntryInfo>::empty());
        assert(dirs.deep_view() + Seq::<Seq<char>>::empty() =~= dirs.deep_view());
    }
    (added, dirs)
}

} // verus!
