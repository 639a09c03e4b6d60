use vstd::prelude::*;

use vstd::multiset::Multiset;
use vstd::relations::{sorted_by, total_ordering};
use vstd::seq_lib::lemma_sorted_unique;

use crate::digest::{digest_bytes, digest_bytes_spec};
use crate::identity::{identity_bytes, identity_bytes_spec, Identity};

verus! {

/// What a tree entry points at: a stored file or subtree by identity, or a
/// symbolic link by its literal target.
#[derive(Clone, PartialEq, Eq, Debug)]
pub enum EntryKind {
    File(Identity),
    Dir(Identity),
    Symlink(Vec<u8>),
}

/// The mathematical shape of an `EntryKind`.
pub enum EntryKindView {
    File(Identity),
    Dir(Identity),
    Symlink(Seq<u8>),
}

impl View for EntryKind {
    type V = EntryKindView;

    closed spec fn view(&self) -> EntryKindView {
        match self {
            EntryKind::File(id) => EntryKindView::File(*id),
            EntryKind::Dir(id) => EntryKindView::Dir(*id),
            EntryKind::Symlink(t) => EntryKindView::Symlink(t@),
        }
    }
}

/// One entry of a directory tree: a name, the permission bits that the
/// canonical form keeps, and what the entry points at.  Volatile metadata
/// (timestamps, ownership) has no field here: it is excluded from the
/// canonical form by design, so semantically identical trees from different
/// build runs receive the same identity.
#[derive(Clone, PartialEq, Eq, Debug)]
pub struct TreeEntry {
    pub name: Vec<u8>,
    pub mode: u32,
    pub kind: EntryKind,
}

/// The mathematical shape of a `TreeEntry`.
pub struct TreeEntryView {
    pub name: Seq<u8>,
    pub mode: u32,
    pub kind: EntryKindView,
}

impl View for TreeEntry {
    type V = TreeEntryView;

    closed spec fn view(&self) -> TreeEntryView {
        TreeEntryView { name: self.name@, mode: self.mode, kind: self.kind@ }
    }
}

/// The views of a sequence of entries.
pub open spec fn views_of(s: Seq<TreeEntry>) -> Seq<TreeEntryView> {
    s.map_values(|e: TreeEntry| e@)
}

/// Byte-wise lexicographic order (non-strict).
pub open spec fn lex_leq(a: Seq<u8>, b: Seq<u8>) -> bool
    decreases a.len(),
{
    if a.len() == 0 {
        true
    } else if b.len() == 0 {
        false
    } else if a.first() < b.first() {
        true
    } else if a.first() > b.first() {
        false
    } else {
        lex_leq(a.drop_first(), b.drop_first())
    }
}

/// Lexicographic order is total.
pub proof fn lemma_lex_total(a: Seq<u8>, b: Seq<u8>)
    ensures
        lex_leq(a, b) || lex_leq(b, a),
    decreases a.len(),
{
    if a.len() != 0 && b.len() != 0 && a.first() == b.first() {
        lemma_lex_total(a.drop_first(), b.drop_first());
    }
}

/// Lexicographic order is antisymmetric.
pub proof fn lemma_lex_antisym(a: Seq<u8>, b: Seq<u8>)
    requires
        lex_leq(a, b),
        lex_leq(b, a),
    ensures
        a == b,
    decreases a.len(),
{
    if a.len() == 0 {
        assert(a =~= b);
    } else {
        lemma_lex_antisym(a.drop_first(), b.drop_first());
        assert(a.len() == b.len()) by {
            assert(a.drop_first().len() == b.drop_first().len());
        }
        assert forall|k: int| 0 <= k < a.len() implies a[k] == b[k] by {
            if k == 0 {
                assert(a.first() == b.first());
            } else {
                assert(a.drop_first()[k - 1] == b.drop_first()[k - 1]);
                assert(a.drop_first()[k - 1] == a[k]);
                assert(b.drop_first()[k - 1] == b[k]);
            }
        }
        assert(a =~= b);
    }
}

/// Lexicographic order is transitive.
pub proof fn lemma_lex_trans(a: Seq<u8>, b: Seq<u8>, c: Seq<u8>)
    requires
        lex_leq(a, b),
        lex_leq(b, c),
    ensures
        lex_leq(a, c),
    decreases a.len(),
{
    if a.len() != 0 {
        if a.first() == b.first() && b.first() == c.first() {
            lemma_lex_trans(a.drop_first(), b.drop_first(), c.drop_first());
        }
    }
}

/// Two byte strings with equal prefixes compare as their tails do.
pub proof fn lemma_lex_skip(a: Seq<u8>, b: Seq<u8>, i: int)
    requires
        0 <= i <= a.len(),
        i <= b.len(),
        a.take(i) == b.take(i),
    ensures
        lex_leq(a, b) == lex_leq(a.skip(i), b.skip(i)),
    decreases i,
{
    if i > 0 {
        assert(a.take(i)[0] == a[0]);
        assert(b.take(i)[0] == b[0]);
        assert(a.take(i)[0] == b.take(i)[0]);
        assert(a.first() == b.first());
        assert(a.drop_first().take(i - 1) =~= b.drop_first().take(i - 1)) by {
            assert forall|k: int| 0 <= k < i - 1 implies #[trigger] a.drop_first().take(i - 1)[k]
                == b.drop_first().take(i - 1)[k] by {
                assert(a.drop_first().take(i - 1)[k] == a.drop_first()[k]);
                assert(b.drop_first().take(i - 1)[k] == b.drop_first()[k]);
                assert(a.drop_first()[k] == a[k + 1]);
                assert(b.drop_first()[k] == b[k + 1]);
                assert(a.take(i)[k + 1] == a[k + 1]);
                assert(b.take(i)[k + 1] == b[k + 1]);
                assert(a.take(i)[k + 1] == b.take(i)[k + 1]);
            }
        }
        lemma_lex_skip(a.drop_first(), b.drop_first(), i - 1);
        assert(a.drop_first().skip(i - 1) =~= a.skip(i));
        assert(b.drop_first().skip(i - 1) =~= b.skip(i));
        if a.len() > 0 && b.len() > 0 && a.first() == b.first() {
            assert(lex_leq(a, b) == lex_leq(a.drop_first(), b.drop_first()));
        }
    } else {
        assert(a.skip(0) =~= a);
        assert(b.skip(0) =~= b);
    }
}

/// Order on identities: the four words compared as one 256-bit value.
pub open spec fn id_leq(x: Identity, y: Identity) -> bool {
    if x.w0 != y.w0 {
        x.w0 < y.w0
    } else if x.w1 != y.w1 {
        x.w1 < y.w1
    } else if x.w2 != y.w2 {
        x.w2 < y.w2
    } else {
        x.w3 <= y.w3
    }
}

/// Rank of an entry kind, used to order entries of different kinds.
pub open spec fn kind_rank(k: EntryKindView) -> int {
    match k {
        EntryKindView::File(_) => 0,
        EntryKindView::Dir(_) => 1,
        EntryKindView::Symlink(_) => 2,
    }
}

/// Order on entry kinds: by rank, then by payload.
pub open spec fn kind_leq(a: EntryKindView, b: EntryKindView) -> bool {
    match (a, b) {
        (EntryKindView::File(x), EntryKindView::File(y)) => id_leq(x, y),
        (EntryKindView::Dir(x), EntryKindView::Dir(y)) => id_leq(x, y),
        (EntryKindView::Symlink(s), EntryKindView::Symlink(t)) => lex_leq(s, t),
        _ => kind_rank(a) <= kind_rank(b),
    }
}

/// The canonical order of tree entries: by name, then kind, then mode.
/// It is a total order, so a multiset of entries has exactly one sorted
/// arrangement — the canonical form that the digest sees.
pub open spec fn entry_leq(a: TreeEntryView, b: TreeEntryView) -> bool {
    if a.name != b.name {
        lex_leq(a.name, b.name)
    } else if a.kind != b.kind {
        kind_leq(a.kind, b.kind)
    } else {
        a.mode <= b.mode
    }
}

/// The canonical order as a relation value.
pub open spec fn entry_order() -> spec_fn(TreeEntryView, TreeEntryView) -> bool {
    |a: TreeEntryView, b: TreeEntryView| entry_leq(a, b)
}

/// Any two entries are comparable.
pub proof fn lemma_entry_total(a: TreeEntryView, b: TreeEntryView)
    ensures
        entry_leq(a, b) || entry_leq(b, a),
{
    if a.name != b.name {
        lemma_lex_total(a.name, b.name);
    } else if a.kind != b.kind {
        match (a.kind, b.kind) {
            (EntryKindView::Symlink(s), EntryKindView::Symlink(t)) => {
                lemma_lex_total(s, t);
            },
            _ => {},
        }
    }
}

/// Entries below each other in the order are equal.
pub proof fn lemma_entry_antisym(a: TreeEntryView, b: TreeEntryView)
    requires
        entry_leq(a, b),
        entry_leq(b, a),
    ensures
        a == b,
{
    if a.name != b.name {
        lemma_lex_antisym(a.name, b.name);
    } else if a.kind != b.kind {
        match (a.kind, b.kind) {
            (EntryKindView::Symlink(s), EntryKindView::Symlink(t)) => {
                lemma_lex_antisym(s, t);
            },
            _ => {},
        }
        assert(false);
    } else {
        assert(a.mode == b.mode);
    }
}

/// The order composes along a chain.
pub proof fn lemma_entry_trans(a: TreeEntryView, b: TreeEntryView, c: TreeEntryView)
    requires
        entry_leq(a, b),
        entry_leq(b, c),
    ensures
        entry_leq(a, c),
{
    if a.name == b.name && b.name == c.name {
        if a.kind != b.kind && b.kind != c.kind {
            match (a.kind, b.kind, c.kind) {
                (
                    EntryKindView::Symlink(s),
                    EntryKindView::Symlink(t),
                    EntryKindView::Symlink(u),
                ) => {
                    lemma_lex_trans(s, t, u);
                    if a.kind == c.kind {
                        lemma_lex_antisym(s, t);
                    }
                },
                _ => {
                    if a.kind == c.kind {
                        assert(false);
                    }
                },
            }
        }
    } else if a.name == b.name && b.name != c.name {
        assert(a.name != c.name && lex_leq(a.name, c.name));
    } else if a.name != b.name && b.name == c.name {
        assert(a.name != c.name && lex_leq(a.name, c.name));
    } else {
        lemma_lex_trans(a.name, b.name, c.name);
        if a.name == c.name {
            lemma_lex_antisym(a.name, b.name);
        }
    }
}

/// The canonical order is a total ordering in the library's sense.
pub proof fn lemma_entry_order_total()
    ensures
        total_ordering(entry_order()),
{
    let r = entry_order();
    assert forall|a: TreeEntryView| #[trigger] r(a, a) by {}
    assert forall|a: TreeEntryView, b: TreeEntryView| #[trigger] r(a, b) && #[trigger] r(b, a)
        implies a == b by {
        lemma_entry_antisym(a, b);
    }
    assert forall|a: TreeEntryView, b: TreeEntryView, c: TreeEntryView|
        #[trigger] r(a, b) && #[trigger] r(b, c) implies r(a, c) by {
        lemma_entry_trans(a, b, c);
    }
    assert forall|a: TreeEntryView, b: TreeEntryView| #[trigger] r(a, b) || #[trigger] r(b, a) by {
        lemma_entry_total(a, b);
    }
}

/// The canonical arrangement of a multiset of entries: sorted by the
/// canonical order.  Trees that differ only in entry order share it.
pub open spec fn canonical_entries(entries: Seq<TreeEntryView>) -> Seq<TreeEntryView> {
    entries.sort_by(entry_order())
}

/// A sorted arrangement of the same entries is the canonical one.
proof fn lemma_sorted_is_canonical(s: Seq<TreeEntryView>, t: Seq<TreeEntryView>)
    requires
        sorted_by(t, entry_order()),
        s.to_multiset() == t.to_multiset(),
    ensures
        canonical_entries(s) == t,
{
    lemma_entry_order_total();
    s.lemma_sort_by_ensures(entry_order());
    lemma_sorted_unique(s.sort_by(entry_order()), t, entry_order());
}

/// Reordering entries does not change the canonical arrangement.
pub proof fn lemma_canonical_reorder(a: Seq<TreeEntryView>, b: Seq<TreeEntryView>)
    requires
        a.to_multiset() == b.to_multiset(),
    ensures
        canonical_entries(a) == canonical_entries(b),
{
    lemma_entry_order_total();
    b.lemma_sort_by_ensures(entry_order());
    lemma_sorted_is_canonical(a, b.sort_by(entry_order()));
}

/// Whether two byte strings are equal.
pub fn bytes_eq(a: &Vec<u8>, b: &Vec<u8>) -> (r: bool)
    ensures
        r == (a@ == b@),
{
    if a.len() != b.len() {
        return false;
    }
    let mut i: usize = 0;
    while i < a.len()
        invariant
            0 <= i <= a@.len(),
            a@.len() == b@.len(),
            forall|k: int| 0 <= k < i ==> a@[k] == b@[k],
        decreases a@.len() - i,
    {
        if a[i] != b[i] {
            return false;
        }
        i = i + 1;
    }
    proof {
        assert(a@ =~= b@);
    }
    true
}

/// Whether `a` is at or below `b` in byte-wise lexicographic order.
pub fn bytes_le(a: &Vec<u8>, b: &Vec<u8>) -> (r: bool)
    ensures
        r == lex_leq(a@, b@),
{
    let n: usize = if a.len() < b.len() {
        a.len()
    } else {
        b.len()
    };
    let mut i: usize = 0;
    while i < n
        invariant
            0 <= i <= n,
            n <= a@.len(),
            n <= b@.len(),
            a@.len() <= b@.len() ==> n == a@.len(),
            b@.len() <= a@.len() ==> n == b@.len(),
            a@.take(i as int) == b@.take(i as int),
        decreases n - i,
    {
        if a[i] != b[i] {
            proof {
                lemma_lex_skip(a@, b@, i as int);
                assert(a@.skip(i as int).first() == a@[i as int]);
                assert(b@.skip(i as int).first() == b@[i as int]);
            }
            return a[i] < b[i];
        }
        proof {
            assert forall|k: int| 0 <= k < i + 1 implies #[trigger] a@.take(i + 1)[k] == b@.take(
                i + 1,
            )[k] by {
                if k < i {
                    assert(a@.take(i as int)[k] == b@.take(i as int)[k]);
                }
            }
            assert(a@.take(i + 1) =~= b@.take(i + 1));
        }
        i = i + 1;
    }
    proof {
        lemma_lex_skip(a@, b@, n as int);
        if a@.len() <= b@.len() {
            assert(a@.skip(n as int).len() == 0);
        } else {
            assert(b@.skip(n as int).len() == 0);
            assert(a@.skip(n as int).len() > 0);
        }
    }
    a.len() <= b.len()
}

/// Whether two identities are equal, as 256-bit values.
fn id_le(x: &Identity, y: &Identity) -> (r: bool)
    ensures
        r == id_leq(*x, *y),
{
    if x.w0 != y.w0 {
        x.w0 < y.w0
    } else if x.w1 != y.w1 {
        x.w1 < y.w1
    } else if x.w2 != y.w2 {
        x.w2 < y.w2
    } else {
        x.w3 <= y.w3
    }
}

/// Whether two entry kinds are equal.
fn kind_eq(a: &EntryKind, b: &EntryKind) -> (r: bool)
    ensures
        r == (a@ == b@),
{
    match a {
        EntryKind::File(x) => match b {
            EntryKind::File(y) => *x == *y,
            _ => false,
        },
        EntryKind::Dir(x) => match b {
            EntryKind::Dir(y) => *x == *y,
            _ => false,
        },
        EntryKind::Symlink(s) => match b {
            EntryKind::Symlink(t) => bytes_eq(s, t),
            _ => false,
        },
    }
}

/// Whether `a` is at or below `b` in the kind order.
fn kind_le(a: &EntryKind, b: &EntryKind) -> (r: bool)
    ensures
        r == kind_leq(a@, b@),
{
    match a {
        EntryKind::File(x) => match b {
            EntryKind::File(y) => id_le(x, y),
            _ => true,
        },
        EntryKind::Dir(x) => match b {
            EntryKind::File(_) => false,
            EntryKind::Dir(y) => id_le(x, y),
            EntryKind::Symlink(_) => true,
        },
        EntryKind::Symlink(s) => match b {
            EntryKind::Symlink(t) => bytes_le(s, t),
            _ => false,
        },
    }
}

/// Whether `a` is at or below `b` in the canonical entry order.
pub fn entry_le(a: &TreeEntry, b: &TreeEntry) -> (r: bool)
    ensures
        r == entry_leq(a@, b@),
{
    if !bytes_eq(&a.name, &b.name) {
        bytes_le(&a.name, &b.name)
    } else if !kind_eq(&a.kind, &b.kind) {
        kind_le(&a.kind, &b.kind)
    } else {
        a.mode <= b.mode
    }
}

/// Views commute with removal.
proof fn lemma_views_remove(s: Seq<TreeEntry>, i: int)
    requires
        0 <= i < s.len(),
    ensures
        views_of(s.remove(i)) == views_of(s).remove(i),
{
    s.remove_ensures(i);
    views_of(s).remove_ensures(i);
    assert(views_of(s.remove(i)) =~= views_of(s).remove(i));
}

/// Views commute with insertion.
proof fn lemma_views_insert(s: Seq<TreeEntry>, i: int, e: TreeEntry)
    requires
        0 <= i <= s.len(),
    ensures
        views_of(s.insert(i, e)) == views_of(s).insert(i, e@),
{
    s.insert_ensures(i, e);
    views_of(s).insert_ensures(i, e@);
    assert(views_of(s.insert(i, e)) =~= views_of(s).insert(i, e@));
}

/// Putting a value back restores a multiset.
proof fn lemma_multiset_remove_insert<A>(m: Multiset<A>, x: A)
    requires
        m.count(x) > 0,
    ensures
        m.remove(x).insert(x) == m,
{
    broadcast use vstd::multiset::group_multiset_axioms;

    assert(m.remove(x).insert(x) =~= m);
}

/// The position in the sorted prefix `[0, hi)` at which `e` belongs.
fn find_pos(v: &Vec<TreeEntry>, hi: usize, e: &TreeEntry) -> (j: usize)
    requires
        hi <= v@.len(),
    ensures
        j <= hi,
        forall|k: int| j <= k < hi ==> entry_leq(e@, views_of(v@)[k]),
        j > 0 ==> entry_leq(views_of(v@)[j - 1], e@),
{
    let mut j: usize = hi;
    while j > 0
        invariant
            0 <= j <= hi,
            hi <= v@.len(),
            forall|k: int| j <= k < hi ==> entry_leq(e@, views_of(v@)[k]),
        decreases j,
    {
        if entry_le(&v[j - 1], e) {
            proof {
                assert(views_of(v@)[j - 1] == v@[j - 1]@);
            }
            return j;
        }
        proof {
            lemma_entry_total(v@[j - 1]@, e@);
            assert(views_of(v@)[j - 1] == v@[j - 1]@);
        }
        j = j - 1;
    }
    j
}

/// Sorts entries into the canonical order.
pub fn sort_entries(v: &mut Vec<TreeEntry>)
    ensures
        views_of(final(v)@) == canonical_entries(views_of(old(v)@)),
{
    let ghost orig = views_of(v@);
    proof {
        lemma_entry_order_total();
    }
    if v.len() <= 1 {
        proof {
            assert(sorted_by(views_of(v@), entry_order()));
            lemma_sorted_is_canonical(orig, views_of(v@));
        }
        return;
    }
    let mut i: usize = 1;
    while i < v.len()
        invariant
            1 <= i <= v@.len(),
            v@.len() >= 2,
            views_of(v@).to_multiset() == orig.to_multiset(),
            sorted_by(views_of(v@).take(i as int), entry_order()),
        decreases v@.len() - i,
    {
        let ghost pre = v@;
        let e = v.remove(i);
        let ghost mid = v@;
        let j = find_pos(v, i, &e);
        v.insert(j, e);
        proof {
            lemma_insert_step(pre, mid, v@, e, i as int, j as int);
            lemma_multiset_after_step(pre, mid, v@, e, i as int, j as int, orig);
        }
        i = i + 1;
    }
    proof {
        assert(views_of(v@).take(v@.len() as int) =~= views_of(v@));
        lemma_sorted_is_canonical(orig, views_of(v@));
    }
}

/// One insertion step keeps the growing prefix sorted.
proof fn lemma_insert_step(
    pre: Seq<TreeEntry>,
    mid: Seq<TreeEntry>,
    post: Seq<TreeEntry>,
    e: TreeEntry,
    i: int,
    j: int,
)
    requires
        0 < i < pre.len(),
        0 <= j <= i,
        mid == pre.remove(i),
        post == mid.insert(j, e),
        e == pre[i],
        sorted_by(views_of(pre).take(i), entry_order()),
        forall|k: int| j <= k < i ==> entry_leq(e@, views_of(mid)[k]),
        j > 0 ==> entry_leq(views_of(mid)[j - 1], e@),
    ensures
        sorted_by(views_of(post).take(i + 1), entry_order()),
{
    let ord = entry_order();
    let vpre = views_of(pre);
    let vmid = views_of(mid);
    let vpost = views_of(post);
    lemma_views_remove(pre, i);
    lemma_views_insert(mid, j, e);
    vpre.remove_ensures(i);
    vmid.insert_ensures(j, e@);
    assert(vpost == vmid.insert(j, e@));
    assert(vmid == vpre.remove(i));
    assert(vpre[i] == e@);
    assert forall|k: int| 0 <= k < i implies vmid[k] == vpre[k] by {}
    let t = vpost.take(i + 1);
    assert forall|p: int, q: int| 0 <= p < q < t.len() implies #[trigger] ord(t[p], t[q]) by {
        assert(t[p] == vpost[p]);
        assert(t[q] == vpost[q]);
        if q < j {
            assert(vpost[p] == vmid[p] && vpost[q] == vmid[q]);
            assert(ord(vpre.take(i)[p], vpre.take(i)[q]));
        } else if p < j && q == j {
            assert(vpost[q] == e@);
            assert(vpost[p] == vmid[p]);
            assert(entry_leq(vmid[j - 1], e@));
            if p < j - 1 {
                assert(ord(vpre.take(i)[p], vpre.take(i)[j - 1]));
                lemma_entry_trans(vpre[p], vpre[j - 1], e@);
            }
        } else if p == j {
            assert(vpost[p] == e@);
            assert(vpost[q] == vmid[q - 1]);
            assert(entry_leq(e@, vmid[q - 1]));
        } else if p < j {
            assert(vpost[p] == vmid[p] && vpost[q] == vmid[q - 1]);
            assert(ord(vpre.take(i)[p], vpre.take(i)[q - 1]));
        } else {
            assert(vpost[p] == vmid[p - 1] && vpost[q] == vmid[q - 1]);
            assert(ord(vpre.take(i)[p - 1], vpre.take(i)[q - 1]));
        }
    }
    assert(sorted_by(t, ord));
}

/// One insertion step keeps the entry multiset.
proof fn lemma_multiset_after_step(
    pre: Seq<TreeEntry>,
    mid: Seq<TreeEntry>,
    post: Seq<TreeEntry>,
    e: TreeEntry,
    i: int,
    j: int,
    orig: Seq<TreeEntryView>,
)
    requires
        0 <= i < pre.len(),
        0 <= j <= mid.len(),
        mid == pre.remove(i),
        post == mid.insert(j, e),
        e == pre[i],
        views_of(pre).to_multiset() == orig.to_multiset(),
    ensures
        views_of(post).to_multiset() == orig.to_multiset(),
{
    let vpre = views_of(pre);
    let vmid = views_of(mid);
    let vpost = views_of(post);
    lemma_views_remove(pre, i);
    lemma_views_insert(mid, j, e);
    vstd::seq_lib::to_multiset_remove(vpre, i);
    vstd::seq_lib::to_multiset_insert(vmid, j, e@);
    assert(vpre[i] == e@);
    assert(vpre.contains(e@));
    vpre.to_multiset_ensures();
    lemma_multiset_remove_insert(vpre.to_multiset(), e@);
}

/// A stored artifact: a single blob of bytes, or a directory tree whose
/// entries are kept in canonical order.
#[derive(Clone, PartialEq, Eq, Debug)]
pub struct Object {
    repr: ObjectRepr,
}

#[derive(Clone, PartialEq, Eq, Debug)]
enum ObjectRepr {
    Blob(Vec<u8>),
    Tree(Vec<TreeEntry>),
}

/// The mathematical shape of an `Object`.
pub enum ObjectView {
    Blob(Seq<u8>),
    Tree(Seq<TreeEntryView>),
}

impl View for Object {
    type V = ObjectView;

    closed spec fn view(&self) -> ObjectView {
        match self.repr {
            ObjectRepr::Blob(b) => ObjectView::Blob(b@),
            ObjectRepr::Tree(es) => ObjectView::Tree(views_of(es@)),
        }
    }
}

impl Object {
    /// A blob object holding exactly the given bytes.
    pub fn blob(bytes: Vec<u8>) -> (r: Object)
        ensures
            r@ == ObjectView::Blob(bytes@),
    {
        Object { repr: ObjectRepr::Blob(bytes) }
    }

    /// A tree object over the given entries, brought into canonical order:
    /// two entry lists that differ only in order yield equal objects, and
    /// therefore equal digests.
    pub fn tree(entries: Vec<TreeEntry>) -> (r: Object)
        ensures
            r@ == ObjectView::Tree(canonical_entries(views_of(entries@))),
    {
        let mut entries = entries;
        sort_entries(&mut entries);
        Object { repr: ObjectRepr::Tree(entries) }
    }

    /// The blob bytes, where this object is a blob.
    pub fn as_blob(&self) -> (r: Option<&Vec<u8>>)
        ensures
            match r {
                Some(b) => self@ == ObjectView::Blob(b@),
                None => self@ is Tree,
            },
    {
        match &self.repr {
            ObjectRepr::Blob(b) => Some(b),
            ObjectRepr::Tree(_) => None,
        }
    }

    /// The entries, where this object is a tree; they are in canonical order.
    pub fn as_tree(&self) -> (r: Option<&Vec<TreeEntry>>)
        ensures
            match r {
                Some(es) => self@ == ObjectView::Tree(views_of(es@)),
                None => self@ is Blob,
            },
    {
        match &self.repr {
            ObjectRepr::Blob(_) => None,
            ObjectRepr::Tree(es) => Some(es),
        }
    }
}

/// The four big-endian bytes of a mode word.
pub open spec fn u32_bytes(m: u32) -> Seq<u8> {
    seq![
        ((m >> 24u32) & 0xff) as u8,
        ((m >> 16u32) & 0xff) as u8,
        ((m >> 8u32) & 0xff) as u8,
        (m & 0xff) as u8,
    ]
}

/// The canonical bytes of what an entry points at, tagged by kind.
pub open spec fn encode_kind(k: EntryKindView) -> Seq<u8> {
    match k {
        EntryKindView::File(id) => seq![0u8] + identity_bytes_spec(id),
        EntryKindView::Dir(id) => seq![1u8] + identity_bytes_spec(id),
        EntryKindView::Symlink(t) => seq![2u8] + t + seq![0u8],
    }
}

/// The canonical bytes of one tree entry: name, mode, then the payload.
pub open spec fn encode_entry(e: TreeEntryView) -> Seq<u8> {
    e.name + seq![0u8] + u32_bytes(e.mode) + encode_kind(e.kind)
}

/// The canonical bytes of a run of entries, in the order given.
pub open spec fn encode_entries(s: Seq<TreeEntryView>) -> Seq<u8>
    decreases s.len(),
{
    if s.len() == 0 {
        Seq::empty()
    } else {
        encode_entry(s.first()) + encode_entries(s.drop_first())
    }
}

/// The canonical serialization of an object.  The leading byte tells blobs
/// and trees apart, so the two can never share an encoding.
pub open spec fn encode_object_spec(o: ObjectView) -> Seq<u8> {
    match o {
        ObjectView::Blob(b) => seq![0u8] + b,
        ObjectView::Tree(es) => seq![1u8] + encode_entries(es),
    }
}

/// The content identity of an object: the digest of its canonical bytes.
pub open spec fn digest_of(o: ObjectView) -> Identity {
    digest_bytes_spec(encode_object_spec(o))
}

/// Entry serialization distributes over concatenation.
proof fn lemma_encode_entries_append(a: Seq<TreeEntryView>, b: Seq<TreeEntryView>)
    ensures
        encode_entries(a + b) == encode_entries(a) + encode_entries(b),
    decreases a.len(),
{
    if a.len() == 0 {
        assert(a + b =~= b);
        assert(encode_entries(a) + encode_entries(b) =~= encode_entries(b));
    } else {
        assert((a + b).drop_first() =~= a.drop_first() + b);
        lemma_encode_entries_append(a.drop_first(), b);
        assert(encode_entries(a + b) =~= encode_entries(a) + encode_entries(b));
    }
}

/// Serializing one more entry appends its bytes.
proof fn lemma_encode_entries_take_step(s: Seq<TreeEntryView>, i: int)
    requires
        0 <= i < s.len(),
    ensures
        encode_entries(s.take(i + 1)) == encode_entries(s.take(i)) + encode_entry(s[i]),
{
    assert(s.take(i + 1) =~= s.take(i) + seq![s[i]]);
    lemma_encode_entries_append(s.take(i), seq![s[i]]);
    assert(seq![s[i]].drop_first() =~= Seq::<TreeEntryView>::empty());
    assert(encode_entries(seq![s[i]]) == encode_entry(s[i]) + encode_entries(
        Seq::<TreeEntryView>::empty(),
    ));
    assert(encode_entry(s[i]) + encode_entries(Seq::<TreeEntryView>::empty()) =~= encode_entry(
        s[i],
    ));
}

/// Appends a copy of `b` to `out`.
fn push_bytes(out: &mut Vec<u8>, b: &Vec<u8>)
    ensures
        final(out)@ == old(out)@ + b@,
{
    let mut i: usize = 0;
    while i < b.len()
        invariant
            0 <= i <= b@.len(),
            out@ == old(out)@ + b@.take(i as int),
        decreases b@.len() - i,
    {
        out.push(b[i]);
        proof {
            assert(old(out)@ + b@.take(i + 1) =~= (old(out)@ + b@.take(i as int)).push(
                b@[i as int],
            ));
        }
        i = i + 1;
    }
    proof {
        assert(b@.take(b@.len() as int) =~= b@);
    }
}

/// Appends the four big-endian bytes of `m` to `out`.
fn push_u32_be(out: &mut Vec<u8>, m: u32)
    ensures
        final(out)@ == old(out)@ + u32_bytes(m),
{
    assert((m >> 24u32) & 0xff < 256 && (m >> 16u32) & 0xff < 256 && (m >> 8u32) & 0xff < 256 && m
        & 0xff < 256) by (bit_vector);
    out.push(((m >> 24u32) & 0xff) as u8);
    out.push(((m >> 16u32) & 0xff) as u8);
    out.push(((m >> 8u32) & 0xff) as u8);
    out.push((m & 0xff) as u8);
    assert(out@ =~= old(out)@ + u32_bytes(m));
}

/// Appends the 32-byte encoding of an identity to `out`.
fn push_identity(out: &mut Vec<u8>, id: &Identity)
    ensures
        final(out)@ == old(out)@ + identity_bytes_spec(*id),
{
    let mut ib = identity_bytes(id);
    out.append(&mut ib);
}

/// Appends the canonical bytes of one entry to `out`.
fn push_entry(out: &mut Vec<u8>, e: &TreeEntry)
    ensures
        final(out)@ == old(out)@ + encode_entry(e@),
{
    push_bytes(out, &e.name);
    out.push(0u8);
    push_u32_be(out, e.mode);
    match &e.kind {
        EntryKind::File(id) => {
            out.push(0u8);
            push_identity(out, id);
        },
        EntryKind::Dir(id) => {
            out.push(1u8);
            push_identity(out, id);
        },
        EntryKind::Symlink(t) => {
            out.push(2u8);
            push_bytes(out, t);
            out.push(0u8);
        },
    }
    assert(out@ =~= old(out)@ + encode_entry(e@));
}

/// The canonical serialization of an object, as written to disk beside the
/// sharded object path.
pub fn encode_object(o: &Object) -> (r: Vec<u8>)
    ensures
        r@ == encode_object_spec(o@),
{
    let mut out: Vec<u8> = Vec::new();
    match &o.repr {
        ObjectRepr::Blob(b) => {
            out.push(0u8);
            push_bytes(&mut out, b);
            proof {
                assert(out@ =~= encode_object_spec(o@));
            }
        },
        ObjectRepr::Tree(es) => {
            out.push(1u8);
            let ghost vs = views_of(es@);
            proof {
                assert(vs.take(0) =~= Seq::<TreeEntryView>::empty());
                assert(out@ =~= seq![1u8] + encode_entries(vs.take(0)));
            }
            let mut i: usize = 0;
            while i < es.len()
                invariant
                    0 <= i <= es@.len(),
                    vs == views_of(es@),
                    out@ == seq![1u8] + encode_entries(vs.take(i as int)),
                decreases es@.len() - i,
            {
                push_entry(&mut out, &es[i]);
                proof {
                    lemma_encode_entries_take_step(vs, i as int);
                    assert(vs[i as int] == es@[i as int]@);
                    assert(out@ =~= seq![1u8] + encode_entries(vs.take(i + 1)));
                }
                i = i + 1;
            }
            proof {
                assert(vs.take(vs.len() as int) =~= vs);
                assert(out@ =~= encode_object_spec(o@));
            }
        },
    }
    out
}

/// Computes the content identity of an object.
///
/// The identity is a pure function of the object's canonical form, so two
/// calls on equal objects always agree — in any process, on any machine.
pub fn digest_object(o: &Object) -> (r: Identity)
    ensures
        r == digest_of(o@),
{
    let bytes = encode_object(o);
    digest_bytes(&bytes)
}

/// Law: the digest canonicalizes.  Trees built from reorderings of the same
/// entries have the same canonical arrangement, and so the same identity.
pub proof fn lemma_tree_digest_reorder(a: Seq<TreeEntryView>, b: Seq<TreeEntryView>)
    requires
        a.to_multiset() == b.to_multiset(),
    ensures
        canonical_entries(a) == canonical_entries(b),
        digest_of(ObjectView::Tree(canonical_entries(a))) == digest_of(
            ObjectView::Tree(canonical_entries(b)),
        ),
{
    lemma_canonical_reorder(a, b);
}

} // verus!
