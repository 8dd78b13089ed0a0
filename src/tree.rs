use vstd::multiset::Multiset;
use vstd::prelude::*;
use vstd::utf8::char_u32_cast;

verus! {

/// A regular file and its length in bytes.
pub struct File {
    pub path: String,
    pub size: u64,
}

/// A directory, its aggregate size and the entries directly inside it.
pub struct Directory {
    pub path: String,
    pub size: u64,
    pub contents: FsTree,
}

/// A node of the tree: exactly one of the two kinds.
pub enum FsEntry {
    File(File),
    Directory(Directory),
}

/// An ordered sequence of sibling nodes.
pub type FsTree = Vec<FsEntry>;

/// The identifying data of a node: whether it is a directory, its path, its size.
pub type Header = (bool, Seq<char>, u64);

pub open spec fn is_dir(e: FsEntry) -> bool {
    e is Directory
}

pub open spec fn path_of(e: FsEntry) -> Seq<char> {
    match e {
        FsEntry::File(f) => f.path@,
        FsEntry::Directory(d) => d.path@,
    }
}

pub open spec fn size_of(e: FsEntry) -> u64 {
    match e {
        FsEntry::File(f) => f.size,
        FsEntry::Directory(d) => d.size,
    }
}

pub open spec fn header(e: FsEntry) -> Header {
    (is_dir(e), path_of(e), size_of(e))
}

/// The sum of the sizes of a sequence of siblings.
pub open spec fn sum_sizes(t: Seq<FsEntry>) -> nat
    decreases t.len(),
{
    if t.len() == 0 {
        0
    } else {
        sum_sizes(t.drop_last()) + size_of(t.last()) as nat
    }
}

/// A byte count held in a `u64`: sums beyond its range stop at `u64::MAX`.
pub open spec fn capped(n: nat) -> u64 {
    if n > u64::MAX {
        u64::MAX
    } else {
        n as u64
    }
}

/// Every directory at or below `e` has as its size the (capped) sum of its children's sizes.
pub open spec fn wf_entry(e: FsEntry) -> bool
    decreases e,
{
    match e {
        FsEntry::File(_) => true,
        FsEntry::Directory(d) => {
            &&& d.size == capped(sum_sizes(d.contents@))
            &&& forall|i: int| 0 <= i < d.contents@.len() ==> wf_entry(#[trigger] d.contents@[i])
        },
    }
}

pub open spec fn wf_tree(t: Seq<FsEntry>) -> bool {
    forall|i: int| 0 <= i < t.len() ==> wf_entry(#[trigger] t[i])
}

/// Lexicographic order on character sequences (which is also the order of
/// their UTF-8 encodings).
pub open spec fn lex_le(a: Seq<char>, b: Seq<char>) -> bool
    decreases a.len(),
{
    if a.len() == 0 {
        true
    } else if b.len() == 0 {
        false
    } else if (a[0] as u32) < (b[0] as u32) {
        true
    } else if (a[0] as u32) > (b[0] as u32) {
        false
    } else {
        lex_le(a.drop_first(), b.drop_first())
    }
}

/// `a` may stand before `b` among siblings: directories first, then larger
/// sizes first, then paths in ascending order. Siblings share their parent's
/// path, so the last rule orders them by name.
pub open spec fn precedes(a: FsEntry, b: FsEntry) -> bool {
    if is_dir(a) != is_dir(b) {
        is_dir(a)
    } else if size_of(a) != size_of(b) {
        size_of(a) > size_of(b)
    } else {
        lex_le(path_of(a), path_of(b))
    }
}

pub open spec fn sorted_level(t: Seq<FsEntry>) -> bool {
    forall|i: int, j: int| 0 <= i < j < t.len() ==> precedes(#[trigger] t[i], #[trigger] t[j])
}

/// Every directory's contents at or below `e` are in sibling order.
pub open spec fn sorted_entry(e: FsEntry) -> bool
    decreases e,
{
    match e {
        FsEntry::File(_) => true,
        FsEntry::Directory(d) => {
            &&& sorted_level(d.contents@)
            &&& forall|i: int|
                0 <= i < d.contents@.len() ==> sorted_entry(#[trigger] d.contents@[i])
        },
    }
}

pub open spec fn sorted_tree(t: Seq<FsEntry>) -> bool {
    &&& sorted_level(t)
    &&& forall|i: int| 0 <= i < t.len() ==> sorted_entry(#[trigger] t[i])
}

/// The headers of a sequence of siblings.
pub open spec fn headers(t: Seq<FsEntry>) -> Multiset<Header>
    decreases t.len(),
{
    if t.len() == 0 {
        Multiset::empty()
    } else {
        headers(t.drop_last()).insert(header(t.last()))
    }
}

/// The headers of every node in a sequence of siblings and below it.
pub open spec fn tree_nodes(t: Seq<FsEntry>) -> Multiset<Header>
    decreases t,
{
    if t.len() == 0 {
        Multiset::empty()
    } else {
        tree_nodes(t.subrange(0, t.len() - 1)).add(entry_nodes(t[t.len() - 1]))
    }
}

/// The headers of `e` and of every node below it.
pub open spec fn entry_nodes(e: FsEntry) -> Multiset<Header>
    decreases e,
{
    match e {
        FsEntry::File(_) => Multiset::singleton(header(e)),
        FsEntry::Directory(d) => Multiset::singleton(header(e)).add(tree_nodes(d.contents@)),
    }
}

/// A parent-child link: the header of a directory and that of one entry
/// directly inside it.
pub type Edge = (Header, Header);

/// The links from a directory with header `h` to each of the siblings `t`.
pub open spec fn child_edges(h: Header, t: Seq<FsEntry>) -> Multiset<Edge>
    decreases t.len(),
{
    if t.len() == 0 {
        Multiset::empty()
    } else {
        child_edges(h, t.drop_last()).insert((h, header(t.last())))
    }
}

/// Every parent-child link in a sequence of siblings and below it: which
/// directory holds which node, at every depth.
pub open spec fn tree_edges(t: Seq<FsEntry>) -> Multiset<Edge>
    decreases t,
{
    if t.len() == 0 {
        Multiset::empty()
    } else {
        tree_edges(t.subrange(0, t.len() - 1)).add(entry_edges(t[t.len() - 1]))
    }
}

/// Every parent-child link at or below `e`.
pub open spec fn entry_edges(e: FsEntry) -> Multiset<Edge>
    decreases e,
{
    match e {
        FsEntry::File(_) => Multiset::empty(),
        FsEntry::Directory(d) => child_edges(header(e), d.contents@).add(tree_edges(d.contents@)),
    }
}

impl FsEntry {
    /// The kind of the entry as a word: "file" or "directory".
    pub fn entry_type(&self) -> (r: &'static str)
        ensures
            r@ == (if is_dir(*self) { "directory"@ } else { "file"@ }),
    {
        match self {
            FsEntry::File(_) => "file",
            FsEntry::Directory(_) => "directory",
        }
    }

    pub fn size(&self) -> (r: u64)
        ensures
            r == size_of(*self),
    {
        match self {
            FsEntry::File(file) => file.size,
            FsEntry::Directory(directory) => directory.size,
        }
    }
}

/// Appends a file node to `fs_tree`.
pub fn add_file_to_fs_tree(fs_tree: &mut FsTree, path: String, size: u64)
    ensures
        final(fs_tree)@ == old(fs_tree)@.push(FsEntry::File(File { path, size })),
{
    fs_tree.push(FsEntry::File(File { path, size }));
}

proof fn lemma_lex_total(a: Seq<char>, b: Seq<char>)
    ensures
        lex_le(a, b) || lex_le(b, a),
    decreases a.len(),
{
    if a.len() > 0 && b.len() > 0 && a[0] as u32 == b[0] as u32 {
        lemma_lex_total(a.drop_first(), b.drop_first());
    }
}

proof fn lemma_lex_trans(a: Seq<char>, b: Seq<char>, c: Seq<char>)
    requires
        lex_le(a, b),
        lex_le(b, c),
    ensures
        lex_le(a, c),
    decreases a.len(),
{
    if a.len() > 0 && b.len() > 0 && c.len() > 0 && a[0] as u32 == b[0] as u32 && b[0] as u32
        == c[0] as u32 {
        lemma_lex_trans(a.drop_first(), b.drop_first(), c.drop_first());
    }
}

proof fn lemma_precedes_total(a: FsEntry, b: FsEntry)
    ensures
        precedes(a, b) || precedes(b, a),
{
    lemma_lex_total(path_of(a), path_of(b));
}

proof fn lemma_precedes_trans(a: FsEntry, b: FsEntry, c: FsEntry)
    requires
        precedes(a, b),
        precedes(b, c),
    ensures
        precedes(a, c),
{
    if is_dir(a) == is_dir(b) && is_dir(b) == is_dir(c) && size_of(a) == size_of(b) && size_of(b)
        == size_of(c) {
        lemma_lex_trans(path_of(a), path_of(b), path_of(c));
    }
}

/// Inserting an entry anywhere among siblings adds its header, its nodes and its size.
proof fn lemma_insert_counts(t: Seq<FsEntry>, k: int, e: FsEntry, h: Header)
    requires
        0 <= k <= t.len(),
    ensures
        child_edges(h, t.insert(k, e)) == child_edges(h, t).insert((h, header(e))),
        tree_edges(t.insert(k, e)) == tree_edges(t).add(entry_edges(e)),
        headers(t.insert(k, e)) == headers(t).insert(header(e)),
        tree_nodes(t.insert(k, e)) == tree_nodes(t).add(entry_nodes(e)),
        sum_sizes(t.insert(k, e)) == sum_sizes(t) + size_of(e),
    decreases t.len(),
{
    let u = t.insert(k, e);
    if k == t.len() {
        assert(u.drop_last() =~= t);
        assert(u.subrange(0, u.len() - 1) =~= t);
    } else {
        lemma_insert_counts(t.drop_last(), k, e, h);
        assert(u.drop_last() =~= t.drop_last().insert(k, e));
        assert(u.subrange(0, u.len() - 1) =~= t.subrange(0, t.len() - 1).insert(k, e));
        assert(t.drop_last() =~= t.subrange(0, t.len() - 1));
        assert(headers(u) =~= headers(t).insert(header(e)));
        assert(tree_nodes(u) =~= tree_nodes(t).add(entry_nodes(e)));
        assert(child_edges(h, u) =~= child_edges(h, t).insert((h, header(e))));
        assert(tree_edges(u) =~= tree_edges(t).add(entry_edges(e)));
    }
}

/// Whether `a` may stand before `b`, by path only.
fn path_le(a: &str, b: &str) -> (r: bool)
    ensures
        r == lex_le(a@, b@),
{
    let la = a.unicode_len();
    let lb = b.unicode_len();
    let mut i: usize = 0;
    assert(a@.skip(0) =~= a@ && b@.skip(0) =~= b@);
    while i < la && i < lb
        invariant
            la == a@.len(),
            lb == b@.len(),
            i <= la,
            i <= lb,
            lex_le(a@, b@) == lex_le(a@.skip(i as int), b@.skip(i as int)),
        decreases la - i,
    {
        let ca = a.get_char(i);
        let cb = b.get_char(i);
        if (ca as u32) < (cb as u32) {
            return true;
        }
        if (ca as u32) > (cb as u32) {
            return false;
        }
        assert(a@.skip(i as int).drop_first() =~= a@.skip(i + 1));
        assert(b@.skip(i as int).drop_first() =~= b@.skip(i + 1));
        i = i + 1;
    }
    i == la
}

/// Whether `a` may stand before `b` among siblings.
fn goes_before(a: &FsEntry, b: &FsEntry) -> (r: bool)
    ensures
        r == precedes(*a, *b),
{
    match (a, b) {
        (FsEntry::Directory(_), FsEntry::File(_)) => true,
        (FsEntry::File(_), FsEntry::Directory(_)) => false,
        (FsEntry::File(x), FsEntry::File(y)) => {
            if x.size != y.size {
                x.size > y.size
            } else {
                path_le(x.path.as_str(), y.path.as_str())
            }
        },
        (FsEntry::Directory(x), FsEntry::Directory(y)) => {
            if x.size != y.size {
                x.size > y.size
            } else {
                path_le(x.path.as_str(), y.path.as_str())
            }
        },
    }
}

/// Inserts `e` into the sorted siblings `t` at the first place where it may stand.
fn insert_sorted(t: &mut FsTree, e: FsEntry)
    requires
        sorted_level(old(t)@),
    ensures
        sorted_level(final(t)@),
        exists|k: int| 0 <= k <= old(t)@.len() && final(t)@ == old(t)@.insert(k, e),
{
    let mut k: usize = 0;
    while k < t.len() && goes_before(&t[k], &e)
        invariant
            k <= t@.len(),
            forall|i: int| 0 <= i < k ==> precedes(#[trigger] t@[i], e),
        decreases t@.len() - k,
    {
        k = k + 1;
    }
    let ghost s = t@;
    proof {
        if k < s.len() {
            lemma_precedes_total(s[k as int], e);
            assert forall|j: int| k <= j < s.len() implies precedes(e, #[trigger] s[j]) by {
                if j > k {
                    lemma_precedes_trans(e, s[k as int], s[j]);
                }
            }
        }
    }
    t.insert(k, e);
    proof {
        let u = t@;
        assert forall|i: int, j: int| 0 <= i < j < u.len() implies precedes(
            #[trigger] u[i],
            #[trigger] u[j],
        ) by {
            if i < k && j == k {
            } else if i < k && j > k {
                assert(u[j] == s[j - 1]);
            } else if i == k {
                assert(u[j] == s[j - 1]);
            } else if i > k {
                assert(u[i] == s[i - 1] && u[j] == s[j - 1]);
            } else {
                assert(u[i] == s[i] && u[j] == s[j]);
            }
        }
        assert(u == s.insert(k as int, e));
    }
}

/// The siblings of `tree` with every level below sorted, in sibling order.
fn sorted_level_of(tree: FsTree, Ghost(h): Ghost<Header>) -> (r: FsTree)
    ensures
        sorted_tree(r@),
        child_edges(h, r@) == child_edges(h, tree@),
        tree_edges(r@) == tree_edges(tree@),
        headers(r@) == headers(tree@),
        tree_nodes(r@) == tree_nodes(tree@),
        sum_sizes(r@) == sum_sizes(tree@),
        wf_tree(tree@) ==> wf_tree(r@),
    decreases tree,
{
    let ghost orig = tree@;
    let mut rest = tree;
    let mut out: FsTree = Vec::new();
    assert(orig.subrange(0, orig.len() as int) =~= orig);
    while rest.len() > 0
        invariant
            rest@ == orig.subrange(0, rest@.len() as int),
            rest@.len() <= orig.len(),
            orig == tree@,
            sorted_tree(out@),
            headers(out@).add(headers(rest@)) == headers(orig),
            tree_nodes(out@).add(tree_nodes(rest@)) == tree_nodes(orig),
            child_edges(h, out@).add(child_edges(h, rest@)) == child_edges(h, orig),
            tree_edges(out@).add(tree_edges(rest@)) == tree_edges(orig),
            sum_sizes(out@) + sum_sizes(rest@) == sum_sizes(orig),
            wf_tree(orig) ==> wf_tree(out@),
        decreases rest@.len(),
    {
        let ghost before = rest@;
        let e = rest.pop().unwrap();
        proof {
            assert(rest@ =~= orig.subrange(0, rest@.len() as int));
            assert(e == tree@[rest@.len() as int]);
            assert(decreases_to!(tree => tree[rest@.len() as int]));
            assert(rest@ == before.subrange(0, before.len() - 1));
            assert(headers(before) == headers(rest@).insert(header(e)));
            assert(tree_nodes(before) == tree_nodes(rest@).add(entry_nodes(e)));
            assert(rest@ == before.drop_last());
            assert(child_edges(h, before) == child_edges(h, rest@).insert((h, header(e))));
            assert(tree_edges(before) == tree_edges(rest@).add(entry_edges(e)));
            assert(wf_tree(orig) ==> wf_entry(e));
        }
        let e2 = sorted_entry_of(e);
        let ghost prev = out@;
        insert_sorted(&mut out, e2);
        proof {
            let k = choose|k: int| 0 <= k <= prev.len() && out@ == prev.insert(k, e2);
            lemma_insert_counts(prev, k, e2, h);
            assert(headers(out@).add(headers(rest@)) =~= headers(orig));
            assert(tree_nodes(out@).add(tree_nodes(rest@)) =~= tree_nodes(orig));
            assert(child_edges(h, out@).add(child_edges(h, rest@)) =~= child_edges(h, orig));
            assert(tree_edges(out@).add(tree_edges(rest@)) =~= tree_edges(orig));
            assert forall|i: int| 0 <= i < out@.len() implies sorted_entry(#[trigger] out@[i])
                && (wf_tree(orig) ==> wf_entry(out@[i])) by {
                if i < k {
                    assert(out@[i] == prev[i]);
                } else if i > k {
                    assert(out@[i] == prev[i - 1]);
                }
            }
        }
    }
    assert(rest@.len() == 0);
    assert(headers(out@).add(headers(rest@)) =~= headers(out@));
    assert(tree_nodes(out@).add(tree_nodes(rest@)) =~= tree_nodes(out@));
    assert(child_edges(h, out@).add(child_edges(h, rest@)) =~= child_edges(h, out@));
    assert(tree_edges(out@).add(tree_edges(rest@)) =~= tree_edges(out@));
    out
}

/// `e` with every directory level below it sorted.
fn sorted_entry_of(e: FsEntry) -> (r: FsEntry)
    ensures
        header(r) == header(e),
        entry_nodes(r) == entry_nodes(e),
        entry_edges(r) == entry_edges(e),
        sorted_entry(r),
        wf_entry(e) ==> wf_entry(r),
    decreases e,
{
    match e {
        FsEntry::File(f) => FsEntry::File(f),
        FsEntry::Directory(d) => {
            let Directory { path, size, contents } = d;
            let sorted = sorted_level_of(contents, Ghost(header(e)));
            let r = FsEntry::Directory(Directory { path, size, contents: sorted });
            r
        },
    }
}

/// Puts the siblings of `fs_tree`, and those of every directory below, in
/// sibling order: directories before files, larger sizes first, then by path.
/// The nodes themselves, and which directory holds which, are kept.
pub fn sort_fs_tree(fs_tree: &mut FsTree)
    ensures
        sorted_tree(final(fs_tree)@),
        headers(final(fs_tree)@) == headers(old(fs_tree)@),
        tree_nodes(final(fs_tree)@) == tree_nodes(old(fs_tree)@),
        tree_edges(final(fs_tree)@) == tree_edges(old(fs_tree)@),
        wf_tree(old(fs_tree)@) ==> wf_tree(final(fs_tree)@),
{
    let mut taken: FsTree = Vec::new();
    std::mem::swap(fs_tree, &mut taken);
    *fs_tree = sorted_level_of(taken, Ghost((false, Seq::empty(), 0)));
}

/// In a well-formed tree every directory, at every level, has as its size the
/// sum of its children's sizes (wherever that sum fits in a `u64`), and its
/// children are well-formed in turn.
pub proof fn law_directory_size_is_sum(e: FsEntry)
    requires
        wf_entry(e),
        e is Directory,
        sum_sizes(e->Directory_0.contents@) <= u64::MAX,
    ensures
        size_of(e) == sum_sizes(e->Directory_0.contents@),
        wf_tree(e->Directory_0.contents@),
{
}

/// Of two siblings in sorted order, the first is a directory and the second a
/// file, or both are of one kind and the first is at least as large.
pub proof fn law_sorted_siblings(t: Seq<FsEntry>, i: int, j: int)
    requires
        sorted_level(t),
        0 <= i < j < t.len(),
    ensures
        (is_dir(t[i]) && !is_dir(t[j])) || (is_dir(t[i]) == is_dir(t[j]) && size_of(t[i])
            >= size_of(t[j])),
{
    assert(precedes(t[i], t[j]));
}

proof fn lemma_lex_antisym(a: Seq<char>, b: Seq<char>)
    requires
        lex_le(a, b),
        lex_le(b, a),
    ensures
        a == b,
    decreases a.len(),
{
    if a.len() == 0 {
        assert(b.len() == 0);
        assert(a =~= b);
    } else {
        assert(b.len() > 0);
        assert(a[0] as u32 == b[0] as u32);
        lemma_lex_antisym(a.drop_first(), b.drop_first());
        char_u32_cast(a[0], a[0] as u32);
        char_u32_cast(b[0], b[0] as u32);
        assert(a[0] == b[0]);
        assert(a =~= seq![a[0]] + a.drop_first());
        assert(b =~= seq![b[0]] + b.drop_first());
    }
}

proof fn lemma_headers_len(t: Seq<FsEntry>)
    ensures
        headers(t).len() == t.len(),
    decreases t.len(),
{
    if t.len() > 0 {
        lemma_headers_len(t.drop_last());
    }
}

proof fn lemma_headers_member(t: Seq<FsEntry>, h: Header)
    requires
        headers(t).count(h) > 0,
    ensures
        exists|j: int| 0 <= j < t.len() && header(#[trigger] t[j]) == h,
    decreases t.len(),
{
    let u = t.drop_last();
    if header(t.last()) == h {
        assert(header(t[t.len() - 1]) == h);
    } else {
        lemma_headers_member(u, h);
        let j = choose|j: int| 0 <= j < u.len() && header(#[trigger] u[j]) == h;
        assert(t[j] == u[j]);
    }
}

/// The order of siblings depends on their headers alone: two sorted
/// sequences of siblings with the same headers list the same headers in the
/// same order. So sorting the same nodes, in whatever order they were listed,
/// always gives one order, and sorting a sorted level keeps it as it is.
pub proof fn law_sorted_order_unique(a: Seq<FsEntry>, b: Seq<FsEntry>)
    requires
        sorted_level(a),
        sorted_level(b),
        headers(a) == headers(b),
    ensures
        a.len() == b.len(),
        forall|i: int| 0 <= i < a.len() ==> header(#[trigger] a[i]) == header(b[i]),
    decreases a.len(),
{
    lemma_headers_len(a);
    lemma_headers_len(b);
    if a.len() > 0 {
        let x = a.last();
        let y = b.last();
        assert(headers(a).count(header(x)) > 0);
        assert(headers(b).count(header(y)) > 0);
        lemma_headers_member(b, header(x));
        lemma_headers_member(a, header(y));
        let j = choose|j: int| 0 <= j < b.len() && header(#[trigger] b[j]) == header(x);
        let k = choose|k: int| 0 <= k < a.len() && header(#[trigger] a[k]) == header(y);
        if j < b.len() - 1 && k < a.len() - 1 {
            assert(precedes(b[j], b[b.len() - 1]));
            assert(precedes(a[k], a[a.len() - 1]));
            assert(precedes(x, y) && precedes(y, x));
            if is_dir(x) == is_dir(y) && size_of(x) == size_of(y) {
                lemma_lex_antisym(path_of(x), path_of(y));
            }
        }
        assert(header(x) == header(y));
        let a2 = a.drop_last();
        let b2 = b.drop_last();
        assert(headers(a2) =~= headers(b2)) by {
            assert(headers(a) == headers(a2).insert(header(x)));
            assert(headers(b) == headers(b2).insert(header(y)));
            broadcast use vstd::multiset::group_multiset_properties;
            assert forall|h: Header| headers(a2).count(h) == headers(b2).count(h) by {
                assert(headers(a).count(h) == headers(b).count(h));
                if h == header(x) {
                    assert(headers(a).count(h) == headers(a2).count(h) + 1);
                    assert(headers(b).count(h) == headers(b2).count(h) + 1);
                } else {
                    assert(headers(a).count(h) == headers(a2).count(h));
                    assert(headers(b).count(h) == headers(b2).count(h));
                }
            }
        }
        assert forall|i: int, l: int| 0 <= i < l < a2.len() implies precedes(
            #[trigger] a2[i],
            #[trigger] a2[l],
        ) by {
            assert(precedes(a[i], a[l]));
        }
        assert forall|i: int, l: int| 0 <= i < l < b2.len() implies precedes(
            #[trigger] b2[i],
            #[trigger] b2[l],
        ) by {
            assert(precedes(b[i], b[l]));
        }
        law_sorted_order_unique(a2, b2);
        assert forall|i: int| 0 <= i < a.len() implies header(#[trigger] a[i]) == header(b[i]) by {
            if i < a.len() - 1 {
                assert(a[i] == a2[i] && b[i] == b2[i]);
            }
        }
    }
}

} // verus!
