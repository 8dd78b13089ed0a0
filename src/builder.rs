use vstd::prelude::*;

use crate::tree::{
    add_file_to_fs_tree, capped, headers, size_of, sort_fs_tree, sorted_tree, sum_sizes,
    tree_edges, tree_nodes, wf_entry, wf_tree, Directory, FsEntry, FsTree,
};

verus! {

/// What a look at one filesystem path found. A directory carries its listing,
/// or `None` where the listing could not be read.
pub enum Probe {
    File(u64),
    Directory(Option<Vec<ProbedEntry>>),
    Symlink,
    Other,
    Inaccessible,
}

/// A path and what a look at it found.
pub struct ProbedEntry {
    pub path: String,
    pub probe: Probe,
}

/// Whether a probed path becomes a node: regular files and readable
/// directories do; symlinks, other objects, inaccessible paths and
/// unreadable directories do not.
pub open spec fn kept(p: ProbedEntry) -> bool {
    match p.probe {
        Probe::File(_) => true,
        Probe::Directory(listing) => listing is Some,
        _ => false,
    }
}

/// `t` is the sequence of nodes built from the probed siblings `ps`, in
/// listing order, with the entries that are not kept left out.
pub open spec fn built_level(t: Seq<FsEntry>, ps: Seq<ProbedEntry>) -> bool
    decreases ps,
{
    if ps.len() == 0 {
        t.len() == 0
    } else if kept(ps[ps.len() - 1]) {
        &&& t.len() > 0
        &&& built_level(t.subrange(0, t.len() - 1), ps.subrange(0, ps.len() - 1))
        &&& built_entry(t[t.len() - 1], ps[ps.len() - 1])
    } else {
        built_level(t, ps.subrange(0, ps.len() - 1))
    }
}

/// `e` is the node built from the kept probed path `p`: a file with the probed
/// length, or a directory whose contents are built from its listing and whose
/// size is the (capped) sum of their sizes.
pub open spec fn built_entry(e: FsEntry, p: ProbedEntry) -> bool
    decreases p,
{
    match p.probe {
        Probe::File(n) => match e {
            FsEntry::File(f) => f.path@ == p.path@ && f.size == n,
            FsEntry::Directory(_) => false,
        },
        Probe::Directory(listing) => match listing {
            Some(l) => match e {
                FsEntry::Directory(d) => {
                    &&& d.path@ == p.path@
                    &&& built_level(d.contents@, l@)
                    &&& d.size == capped(sum_sizes(d.contents@))
                },
                FsEntry::File(_) => false,
            },
            None => false,
        },
        _ => false,
    }
}

/// Builds the node of a directory from its listing and appends it to
/// `fs_tree`; returns the directory's aggregate size. An unreadable directory
/// (`listing` is `None`) adds nothing and counts 0.
pub fn add_dir_to_fs_tree(fs_tree: &mut FsTree, path: String, listing: Option<Vec<ProbedEntry>>) -> (r: u64)
    ensures
        listing is None ==> final(fs_tree)@ == old(fs_tree)@ && r == 0,
        listing is Some ==> {
            &&& final(fs_tree)@.len() == old(fs_tree)@.len() + 1
            &&& final(fs_tree)@.drop_last() == old(fs_tree)@
            &&& built_entry(final(fs_tree)@.last(), (ProbedEntry { path, probe: Probe::Directory(listing) }))
            &&& wf_entry(final(fs_tree)@.last())
            &&& r == size_of(final(fs_tree)@.last())
        },
    decreases listing,
{
    let ghost whole = listing;
    let mut entries = match listing {
        Some(entries) => entries,
        None => return 0,
    };
    let ghost orig = entries@;
    // Reverse the listing, so that popping yields the entries in listing order.
    let mut reversed: Vec<ProbedEntry> = Vec::new();
    while entries.len() > 0
        invariant
            entries@ == orig.subrange(0, entries@.len() as int),
            entries@.len() + reversed@.len() == orig.len(),
            forall|i: int| 0 <= i < reversed@.len() ==> #[trigger] reversed@[i] == orig[orig.len() - 1 - i],
        decreases entries@.len(),
    {
        let p = entries.pop().unwrap();
        reversed.push(p);
        assert(entries@ =~= orig.subrange(0, entries@.len() as int));
    }
    let mut contents: FsTree = Vec::new();
    let mut total: u64 = 0;
    let ghost mut done: int = 0;
    assert(orig.subrange(0, 0) =~= Seq::<ProbedEntry>::empty());
    while reversed.len() > 0
        invariant
            whole == listing,
            whole == Some(listing_of(whole)),
            orig == listing_of(whole)@,
            reversed@.len() + done == orig.len(),
            0 <= done <= orig.len(),
            forall|i: int| 0 <= i < reversed@.len() ==> #[trigger] reversed@[i] == orig[orig.len() - 1 - i],
            built_level(contents@, orig.subrange(0, done)),
            wf_tree(contents@),
            total == capped(sum_sizes(contents@)),
        decreases reversed@.len(),
    {
        let p = reversed.pop().unwrap();
        let ghost prev = contents@;
        proof {
            assert(p == orig[done]);
            let v = whole->Some_0;
            assert(decreases_to!(whole => v));
            assert(decreases_to!(v => v[done]));
            assert(v[done] == p);
            assert(decreases_to!(p => p.probe));
            if p.probe is Directory {
                assert(decreases_to!(p.probe => p.probe->Directory_0));
            }
        }
        let ProbedEntry { path: entry_path, probe } = p;
        match probe {
            Probe::File(n) => {
                add_file_to_fs_tree(&mut contents, entry_path, n);
                total = total.saturating_add(n);
            },
            Probe::Directory(sub) => {
                proof {
                    assert(sub == p.probe->Directory_0);
                    assert(decreases_to!(whole => p.probe->Directory_0));
                }
                let s = add_dir_to_fs_tree(&mut contents, entry_path, sub);
                total = total.saturating_add(s);
            },
            _ => {},
        }
        proof {
            let ps = orig.subrange(0, done + 1);
            assert(ps.subrange(0, ps.len() - 1) =~= orig.subrange(0, done));
            assert(ps[ps.len() - 1] == p);
            assert(p.probe == probe);
            if kept(p) {
                assert(contents@.subrange(0, contents@.len() - 1) =~= prev);
                assert(contents@.drop_last() =~= prev);
                assert(contents@[contents@.len() - 1] == contents@.last());
                assert(built_entry(contents@.last(), p));
                assert(built_level(contents@, ps));
                assert forall|i: int| 0 <= i < contents@.len() implies wf_entry(#[trigger] contents@[i]) by {
                    if i < prev.len() {
                        assert(contents@[i] == prev[i]);
                    }
                }
            } else {
                assert(contents@ == prev);
            }
            done = done + 1;
        }
    }
    assert(orig.subrange(0, done) =~= orig);
    let r = total;
    fs_tree.push(FsEntry::Directory(Directory { path, size: total, contents }));
    proof {
        assert(final(fs_tree)@.drop_last() =~= old(fs_tree)@);
    }
    r
}

/// The listing inside a directory probe's `Some`.
pub open spec fn listing_of(listing: Option<Vec<ProbedEntry>>) -> Vec<ProbedEntry> {
    listing->Some_0
}

/// Builds the tree for a probed root path and sorts it. A root that is a
/// symlink, an unreadable directory, inaccessible or neither file nor
/// directory gives an empty tree; a file gives one node; a readable directory
/// gives one directory node holding everything below it.
pub fn build_fs_tree(root: ProbedEntry) -> (r: FsTree)
    ensures
        sorted_tree(r@),
        wf_tree(r@),
        exists|t: Seq<FsEntry>|
            {
                &&& built_level(t, seq![root])
                &&& headers(r@) == headers(t)
                &&& tree_nodes(r@) == tree_nodes(t)
                &&& tree_edges(r@) == tree_edges(t)
            },
{
    let ghost whole = root;
    let mut fs_tree: FsTree = Vec::new();
    let ProbedEntry { path, probe } = root;
    match probe {
        Probe::File(n) => {
            add_file_to_fs_tree(&mut fs_tree, path, n);
        },
        Probe::Directory(listing) => {
            add_dir_to_fs_tree(&mut fs_tree, path, listing);
        },
        _ => {},
    }
    let ghost t = fs_tree@;
    proof {
        let ps = seq![whole];
        assert(ps.subrange(0, 0) =~= Seq::<ProbedEntry>::empty());
        if kept(whole) {
            assert(t.subrange(0, 0) =~= Seq::<FsEntry>::empty());
            assert(built_level(Seq::<FsEntry>::empty(), Seq::<ProbedEntry>::empty()));
            assert(whole == ProbedEntry { path, probe });
            assert(built_entry(t[0], whole));
        } else {
            assert(t =~= Seq::<FsEntry>::empty());
            assert(built_level(Seq::<FsEntry>::empty(), Seq::<ProbedEntry>::empty()));
        }
        assert(built_level(t, ps));
    }
    sort_fs_tree(&mut fs_tree);
    fs_tree
}

/// An entry that does not become a node (a symlink, whatever it points to; an
/// unreadable directory; an inaccessible path; an object that is neither file
/// nor directory) changes nothing where it stands in a listing: the same
/// nodes, with the same sizes, are built with or without it.
pub proof fn law_skipped_entries_ignored(t: Seq<FsEntry>, ps: Seq<ProbedEntry>, k: int, s: ProbedEntry)
    requires
        0 <= k <= ps.len(),
        !kept(s),
    ensures
        built_level(t, ps.insert(k, s)) == built_level(t, ps),
    decreases ps.len(),
{
    let u = ps.insert(k, s);
    if k == ps.len() {
        assert(u.subrange(0, u.len() - 1) =~= ps);
    } else {
        assert(u.subrange(0, u.len() - 1) =~= ps.subrange(0, ps.len() - 1).insert(k, s));
        assert(u[u.len() - 1] == ps[ps.len() - 1]);
        if t.len() > 0 {
            law_skipped_entries_ignored(t.subrange(0, t.len() - 1), ps.subrange(0, ps.len() - 1), k, s);
        }
        law_skipped_entries_ignored(t, ps.subrange(0, ps.len() - 1), k, s);
    }
}

/// The bytes of the regular files among the probed siblings `ps` and below
/// them, through readable directories. Nothing else counts: not a symlink,
/// whatever it points to, nor anything under an unreadable directory.
pub open spec fn files_total(ps: Seq<ProbedEntry>) -> nat
    decreases ps,
{
    if ps.len() == 0 {
        0
    } else {
        files_total(ps.subrange(0, ps.len() - 1)) + probe_total(ps[ps.len() - 1])
    }
}

/// The bytes of the regular files at or below one probed path.
pub open spec fn probe_total(p: ProbedEntry) -> nat
    decreases p,
{
    match p.probe {
        Probe::File(n) => n as nat,
        Probe::Directory(listing) => match listing {
            Some(l) => files_total(l@),
            None => 0,
        },
        _ => 0,
    }
}

/// Sizes add up bottom-up: where the total fits in a `u64`, the sizes of
/// the nodes built from a listing sum to the bytes of the regular files found
/// in it and below it, so that a directory's size is the sum of all file sizes
/// beneath it, symlinks excluded.
pub proof fn law_sizes_count_files(t: Seq<FsEntry>, ps: Seq<ProbedEntry>)
    requires
        built_level(t, ps),
        files_total(ps) <= u64::MAX,
    ensures
        sum_sizes(t) == files_total(ps),
    decreases ps,
{
    if ps.len() > 0 {
        let rest = ps.subrange(0, ps.len() - 1);
        let p = ps[ps.len() - 1];
        if kept(p) {
            let u = t.subrange(0, t.len() - 1);
            law_sizes_count_files(u, rest);
            lemma_entry_counts_files(t[t.len() - 1], p);
            assert(t.drop_last() =~= u);
            assert(sum_sizes(t) == sum_sizes(u) + size_of(t[t.len() - 1]));
        } else {
            law_sizes_count_files(t, rest);
            assert(probe_total(p) == 0);
        }
    } else {
        assert(t.len() == 0);
    }
}

/// The node built from one probed path has as its size the bytes of the
/// regular files at or below that path, where those fit in a `u64`.
proof fn lemma_entry_counts_files(e: FsEntry, p: ProbedEntry)
    requires
        built_entry(e, p),
        probe_total(p) <= u64::MAX,
    ensures
        size_of(e) == probe_total(p),
    decreases p,
{
    match p.probe {
        Probe::Directory(listing) => {
            let l = listing->Some_0;
            assert(decreases_to!(p => p.probe));
            law_sizes_count_files(e->Directory_0.contents@, l@);
        },
        _ => {},
    }
}

/// A readable directory with an empty listing becomes a directory node of
/// size 0 with no contents.
pub proof fn law_empty_directory(e: FsEntry, p: ProbedEntry)
    requires
        built_entry(e, p),
        p.probe is Directory,
        p.probe->Directory_0 is Some,
        p.probe->Directory_0->Some_0@.len() == 0,
    ensures
        e is Directory,
        size_of(e) == 0,
        e->Directory_0.contents@.len() == 0,
{
}

} // verus!
