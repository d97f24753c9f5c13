//! Rendering a size-sorted listing of a directory's immediate children.
//!
//! Children are split into two groups — directories first, then regular
//! files — each sorted by descending size with ties kept in enumeration
//! order (a stable sort). Every line carries a connector (a terminal one on
//! the last entry of its group), the child's name, and its human-readable
//! size, coloured with ANSI escapes: yellow directory names, orange
//! file names, cyan sizes.

use vstd::prelude::*;
use vstd::multiset::Multiset;
use crate::format::human_size;
use crate::format::human_size_spec;

verus! {

/// One immediate child of the listed directory: its name and, for a
/// directory, its aggregated subtree size, for a file, its own size.
pub struct ChildEntry {
    pub name: String,
    pub size: u64,
}

/// Inserts `x` into `s` (assumed sorted by descending size) after every
/// entry whose size is at least `x.size`: the insertion step of a stable
/// descending insertion sort.
pub open spec fn insert_desc(x: ChildEntry, s: Seq<ChildEntry>) -> Seq<ChildEntry>
    decreases s.len(),
{
    if s.len() == 0 {
        seq![x]
    } else if s[0].size >= x.size {
        seq![s[0]] + insert_desc(x, s.drop_first())
    } else {
        seq![x] + s
    }
}

/// The stable descending-by-size insertion sort of `s`: what the listing
/// shows each group in.
pub open spec fn sort_desc(s: Seq<ChildEntry>) -> Seq<ChildEntry>
    decreases s.len(),
{
    if s.len() == 0 {
        Seq::empty()
    } else {
        insert_desc(s.last(), sort_desc(s.drop_last()))
    }
}

/// Whether `s` is ordered by descending size.
pub open spec fn sorted_desc(s: Seq<ChildEntry>) -> bool {
    forall|i: int, j: int| 0 <= i <= j < s.len() ==> s[i].size >= s[j].size
}

proof fn lemma_insert_desc_multiset(x: ChildEntry, s: Seq<ChildEntry>)
    ensures
        insert_desc(x, s).to_multiset() == s.to_multiset().insert(x),
    decreases s.len(),
{
    broadcast use vstd::seq_lib::group_to_multiset_ensures;
    broadcast use vstd::multiset::group_multiset_axioms;

    if s.len() == 0 {
        assert(s =~= Seq::<ChildEntry>::empty());
        assert(seq![x] =~= s.push(x));
    } else if s[0].size >= x.size {
        let t = insert_desc(x, s.drop_first());
        lemma_insert_desc_multiset(x, s.drop_first());
        vstd::seq_lib::lemma_multiset_commutative(seq![s[0]], t);
        assert(s =~= seq![s[0]] + s.drop_first());
        vstd::seq_lib::lemma_multiset_commutative(seq![s[0]], s.drop_first());
        assert(seq![s[0]].to_multiset().add(s.drop_first().to_multiset().insert(x)) =~= seq![
            s[0],
        ].to_multiset().add(s.drop_first().to_multiset()).insert(x));
    } else {
        vstd::seq_lib::lemma_multiset_commutative(seq![x], s);
        assert(seq![x] =~= Seq::<ChildEntry>::empty().push(x));
        assert(Seq::<ChildEntry>::empty().to_multiset().len() == 0);
        vstd::multiset::lemma_multiset_empty_len(Seq::<ChildEntry>::empty().to_multiset());
        assert(seq![x].to_multiset() =~= Multiset::<ChildEntry>::empty().insert(x));
        assert(Multiset::<ChildEntry>::empty().insert(x).add(s.to_multiset()) =~= s.to_multiset()
            .insert(x));
    }
}

proof fn lemma_insert_desc_sorted(x: ChildEntry, s: Seq<ChildEntry>)
    requires
        sorted_desc(s),
    ensures
        sorted_desc(insert_desc(x, s)),
    decreases s.len(),
{
    broadcast use vstd::seq_lib::group_to_multiset_ensures;
    broadcast use vstd::multiset::group_multiset_properties;

    if s.len() == 0 {
    } else if s[0].size >= x.size {
        let t = insert_desc(x, s.drop_first());
        let r = seq![s[0]] + t;
        lemma_insert_desc_sorted(x, s.drop_first());
        lemma_insert_desc_multiset(x, s.drop_first());
        assert forall|k: int| 0 <= k < t.len() implies s[0].size >= t[k].size by {
            assert(t.contains(t[k]));
            assert(t.to_multiset().count(t[k]) > 0);
            if t[k] != x {
                assert(s.drop_first().to_multiset().count(t[k]) > 0);
                assert(s.drop_first().contains(t[k]));
                let w = choose|w: int|
                    0 <= w < s.drop_first().len() && s.drop_first()[w] == t[k];
                assert(s[w + 1] == t[k]);
            }
        }
        assert forall|i: int, j: int| 0 <= i <= j < r.len() implies r[i].size >= r[j].size by {
            if i > 0 {
                assert(r[i] == t[i - 1]);
                assert(r[j] == t[j - 1]);
            } else if j > 0 {
                assert(r[j] == t[j - 1]);
            }
        }
    } else {
        let r = seq![x] + s;
        assert forall|i: int, j: int| 0 <= i <= j < r.len() implies r[i].size >= r[j].size by {
            if i > 0 {
                assert(r[i] == s[i - 1]);
                assert(r[j] == s[j - 1]);
            } else if j > 0 {
                assert(r[j] == s[j - 1]);
                assert(s[0].size >= s[j - 1].size);
            }
        }
    }
}

/// The listing order is a true sort: `sort_desc` yields a permutation of
/// its input (no child appears, disappears or repeats) ordered by
/// descending size. Ties keep their enumeration order by the definition of
/// `insert_desc`, which places a new entry after every equal-sized one.
pub proof fn lemma_sort_desc_correct(s: Seq<ChildEntry>)
    ensures
        sorted_desc(sort_desc(s)),
        sort_desc(s).to_multiset() == s.to_multiset(),
    decreases s.len(),
{
    broadcast use vstd::seq_lib::group_to_multiset_ensures;

    if s.len() == 0 {
        assert(sort_desc(s) =~= Seq::<ChildEntry>::empty());
    } else {
        lemma_sort_desc_correct(s.drop_last());
        lemma_insert_desc_sorted(s.last(), sort_desc(s.drop_last()));
        lemma_insert_desc_multiset(s.last(), sort_desc(s.drop_last()));
        assert(s =~= s.drop_last().push(s.last()));
        assert(s.drop_last().push(s.last()).to_multiset() =~= s.drop_last().to_multiset().insert(
            s.last(),
        ));
    }
}

fn insert_sorted(x: ChildEntry, v: Vec<ChildEntry>) -> (r: Vec<ChildEntry>)
    ensures
        r@ == insert_desc(x, v@),
    decreases v.len(),
{
    let ghost v0 = v@;
    if v.len() == 0 {
        let mut r = v;
        r.push(x);
        proof {
            assert(r@ =~= insert_desc(x, v0));
        }
        r
    } else if v[0].size >= x.size {
        let mut v = v;
        let first = v.remove(0);
        proof {
            assert(v@ =~= v0.drop_first());
        }
        let mut r = insert_sorted(x, v);
        r.insert(0, first);
        proof {
            assert(r@ =~= seq![v0[0]] + insert_desc(x, v0.drop_first()));
        }
        r
    } else {
        let mut r = v;
        r.insert(0, x);
        proof {
            assert(r@ =~= seq![x] + v0);
        }
        r
    }
}

/// Sorts one group of children by descending size, stably: children of
/// equal size keep their enumeration order.
pub fn sort_children(v: Vec<ChildEntry>) -> (r: Vec<ChildEntry>)
    ensures
        r@ == sort_desc(v@),
    decreases v.len(),
{
    let ghost v0 = v@;
    if v.len() == 0 {
        v
    } else {
        let mut v = v;
        let n = v.len();
        let x = v.remove(n - 1);
        proof {
            assert(v@ =~= v0.drop_last());
            assert(x == v0.last());
        }
        let s = sort_children(v);
        insert_sorted(x, s)
    }
}

/// The rendered line for one child: default-colour connector, a space, the
/// group's colour, the name, a colour reset, a space, then the size in
/// cyan.
pub open spec fn child_line_spec(e: ChildEntry, connector: Seq<char>, color: Seq<char>) -> Seq<
    char,
> {
    "\x1b[39m"@ + connector + " "@ + color + e.name@ + "\x1b[0m"@ + " "@ + "\x1b[36m"@
        + human_size_spec(e.size as nat)
}

fn child_line(e: &ChildEntry, connector: &str, color: &str) -> (line: String)
    ensures
        line@ == child_line_spec(*e, connector@, color@),
{
    let mut s = String::new();
    s.append("\x1b[39m");
    s.append(connector);
    s.append(" ");
    s.append(color);
    s.append(e.name.as_str());
    s.append("\x1b[0m");
    s.append(" ");
    s.append("\x1b[36m");
    let h = human_size(e.size);
    s.append(h.as_str());
    proof {
        assert(s@ =~= child_line_spec(*e, connector@, color@));
    }
    s
}

/// The lines for the directory group, in order; the last directory gets
/// the terminal connector.
pub open spec fn dir_lines(ds: Seq<ChildEntry>) -> Seq<Seq<char>>
    decreases ds.len(),
{
    if ds.len() == 0 {
        Seq::empty()
    } else {
        seq![
            child_line_spec(
                ds[0],
                if ds.len() == 1 {
                    "└──"@
                } else {
                    "├──"@
                },
                "\x1b[33m"@,
            ),
        ] + dir_lines(ds.drop_first())
    }
}

/// The lines for the file group, in order; the last file gets the terminal
/// connector.
pub open spec fn file_lines(fs: Seq<ChildEntry>) -> Seq<Seq<char>>
    decreases fs.len(),
{
    if fs.len() == 0 {
        Seq::empty()
    } else {
        seq![
            child_line_spec(
                fs[0],
                if fs.len() == 1 {
                    "└"@
                } else {
                    "├"@
                },
                "\x1b[38;5;208m"@,
            ),
        ] + file_lines(fs.drop_first())
    }
}

/// The whole listing: the directory group sorted descending by size, then
/// the file group sorted descending by size.
pub open spec fn listing_spec(ds: Seq<ChildEntry>, fs: Seq<ChildEntry>) -> Seq<Seq<char>> {
    dir_lines(sort_desc(ds)) + file_lines(sort_desc(fs))
}

/// Renders the two-group listing of a directory's immediate children:
/// directories before files, each group sorted by descending size (stable),
/// one coloured, connector-prefixed line per child.
pub fn render_listing(dirs: Vec<ChildEntry>, files: Vec<ChildEntry>) -> (lines: Vec<String>)
    ensures
        lines.deep_view() == listing_spec(dirs@, files@),
{
    let sd = sort_children(dirs);
    let sf = sort_children(files);
    let ghost sdv = sd@;
    let ghost sfv = sf@;
    let mut lines: Vec<String> = Vec::new();
    proof {
        assert(lines.deep_view() =~= Seq::<Seq<char>>::empty());
        assert(sdv.subrange(0, sdv.len() as int) =~= sdv);
        assert(Seq::<Seq<char>>::empty() + dir_lines(sdv) =~= dir_lines(sdv));
    }
    let mut i: usize = 0;
    while i < sd.len()
        invariant
            i <= sd.len(),
            sdv == sd@,
            lines.deep_view() + dir_lines(sdv.subrange(i as int, sdv.len() as int)) == dir_lines(
                sdv,
            ),
        decreases sd.len() - i,
    {
        let ghost rest = sdv.subrange(i as int, sdv.len() as int);
        proof {
            assert(rest.len() > 0);
            assert(rest[0] == sdv[i as int]);
            assert(rest.drop_first() =~= sdv.subrange(i as int + 1, sdv.len() as int));
        }
        let last = i == sd.len() - 1;
        let connector = if last {
            "└──"
        } else {
            "├──"
        };
        let ghost l0 = lines.deep_view();
        let line = child_line(&sd[i], connector, "\x1b[33m");
        lines.push(line);
        proof {
            assert(lines.deep_view() =~= l0.push(
                child_line_spec(
                    rest[0],
                    if rest.len() == 1 {
                        "└──"@
                    } else {
                        "├──"@
                    },
                    "\x1b[33m"@,
                ),
            ));
            assert(l0.push(dir_lines(rest)[0]) + dir_lines(rest.drop_first()) =~= l0 + dir_lines(
                rest,
            ));
        }
        i = i + 1;
    }
    proof {
        assert(sdv.subrange(sdv.len() as int, sdv.len() as int) =~= Seq::<ChildEntry>::empty());
        assert(lines.deep_view() + Seq::<Seq<char>>::empty() =~= lines.deep_view());
        assert(sfv.subrange(0, sfv.len() as int) =~= sfv);
    }
    let mut j: usize = 0;
    while j < sf.len()
        invariant
            j <= sf.len(),
            sfv == sf@,
            lines.deep_view() + file_lines(sfv.subrange(j as int, sfv.len() as int))
                == dir_lines(sdv) + file_lines(sfv),
        decreases sf.len() - j,
    {
        let ghost rest = sfv.subrange(j as int, sfv.len() as int);
        proof {
            assert(rest.len() > 0);
            assert(rest[0] == sfv[j as int]);
            assert(rest.drop_first() =~= sfv.subrange(j as int + 1, sfv.len() as int));
        }
        let last = j == sf.len() - 1;
        let connector = if last {
            "└"
        } else {
            "├"
        };
        let ghost l0 = lines.deep_view();
        let line = child_line(&sf[j], connector, "\x1b[38;5;208m");
        lines.push(line);
        proof {
            assert(lines.deep_view() =~= l0.push(
                child_line_spec(
                    rest[0],
                    if rest.len() == 1 {
                        "└"@
                    } else {
                        "├"@
                    },
                    "\x1b[38;5;208m"@,
                ),
            ));
            assert(l0.push(file_lines(rest)[0]) + file_lines(rest.drop_first()) =~= l0
                + file_lines(rest));
        }
        j = j + 1;
    }
    proof {
        assert(sfv.subrange(sfv.len() as int, sfv.len() as int) =~= Seq::<ChildEntry>::empty());
        assert(lines.deep_view() + Seq::<Seq<char>>::empty() =~= lines.deep_view());
    }
    lines
}

} // verus!
