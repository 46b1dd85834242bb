//! Scanned filesystem entries: an in-memory tree of files and directories
//! with names, POSIX permissions and file bytes, children sorted ascending
//! by raw name bytes.

use vstd::prelude::*;
use vstd::multiset::Multiset;
use vstd::string::StringSliceAdditionalSpecFns;
use vstd::slice::slice_index_get;
use vstd::utf8::encode_utf8;


verus! {

broadcast use vstd::seq_lib::group_to_multiset_ensures;

/// A scanned filesystem entry.
#[derive(Debug)]
pub enum ScannedEntry {
    File { name: String, permissions: u32, size: u64, data: Vec<u8> },
    Directory { name: String, permissions: u32, children: Vec<ScannedEntry> },
}

/// The mathematical shape of a scanned entry: names as character
/// sequences, file bytes as byte sequences.
#[verifier::ext_equal]
pub enum EntryV {
    File { name: Seq<char>, permissions: u32, size: u64, data: Seq<u8> },
    Directory { name: Seq<char>, permissions: u32, children: Seq<EntryV> },
}

pub open spec fn entry_view(e: ScannedEntry) -> EntryV
    decreases e,
{
    match e {
        ScannedEntry::File { name, permissions, size, data } => EntryV::File {
            name: name@,
            permissions,
            size,
            data: data@,
        },
        ScannedEntry::Directory { name, permissions, children } => EntryV::Directory {
            name: name@,
            permissions,
            children: entry_views(children@),
        },
    }
}

pub open spec fn entry_views(s: Seq<ScannedEntry>) -> Seq<EntryV>
    decreases s,
{
    if s.len() == 0 {
        Seq::empty()
    } else {
        entry_views(s.drop_last()).push(entry_view(s.last()))
    }
}

impl View for ScannedEntry {
    type V = EntryV;

    open spec fn view(&self) -> EntryV {
        entry_view(*self)
    }
}

/// The views of a sequence of entries, element by element.
pub proof fn lemma_entry_views(s: Seq<ScannedEntry>)
    ensures
        entry_views(s).len() == s.len(),
        forall|i: int| 0 <= i < s.len() ==> #[trigger] entry_views(s)[i] == s[i]@,
    decreases s.len(),
{
    if s.len() > 0 {
        lemma_entry_views(s.drop_last());
        assert(forall|i: int| 0 <= i < s.len() - 1 ==> s.drop_last()[i] == s[i]);
    }
}

/// The name of an entry.
pub open spec fn entry_name(e: EntryV) -> Seq<char> {
    match e {
        EntryV::File { name, .. } => name,
        EntryV::Directory { name, .. } => name,
    }
}

/// The raw bytes of an entry's name, the key entries are ordered by.
pub open spec fn entry_name_bytes(e: EntryV) -> Seq<u8> {
    encode_utf8(entry_name(e))
}

/// Strict lexicographic order on raw bytes.
pub open spec fn bytes_lt(a: Seq<u8>, b: Seq<u8>) -> bool
    decreases a.len(),
{
    if b.len() == 0 {
        false
    } else if a.len() == 0 {
        true
    } else if a[0] != b[0] {
        a[0] < b[0]
    } else {
        bytes_lt(a.drop_first(), b.drop_first())
    }
}

pub open spec fn bytes_le(a: Seq<u8>, b: Seq<u8>) -> bool {
    bytes_lt(a, b) || a == b
}

/// Two byte sequences that agree on their first `i` bytes compare the way
/// their tails from `i` on compare.
pub proof fn lemma_bytes_lt_common_prefix(a: Seq<u8>, b: Seq<u8>, i: int)
    requires
        0 <= i <= a.len(),
        i <= b.len(),
        forall|j: int| 0 <= j < i ==> a[j] == b[j],
    ensures
        bytes_lt(a, b) == bytes_lt(a.skip(i), b.skip(i)),
    decreases i,
{
    if i > 0 {
        assert(a[0] == b[0]);
        assert(a.drop_first() =~= a.skip(1));
        assert(b.drop_first() =~= b.skip(1));
        lemma_bytes_lt_common_prefix(a.skip(1), b.skip(1), i - 1);
        assert(a.skip(1).skip(i - 1) =~= a.skip(i));
        assert(b.skip(1).skip(i - 1) =~= b.skip(i));
    } else {
        assert(a.skip(0) =~= a);
        assert(b.skip(0) =~= b);
    }
}

/// The byte order is total: of two distinct byte sequences one is strictly
/// below the other.
pub proof fn lemma_bytes_order_total(a: Seq<u8>, b: Seq<u8>)
    ensures
        bytes_lt(a, b) || bytes_lt(b, a) || a == b,
        !(bytes_lt(a, b) && bytes_lt(b, a)),
    decreases a.len(),
{
    if a.len() > 0 && b.len() > 0 && a[0] == b[0] {
        lemma_bytes_order_total(a.drop_first(), b.drop_first());
        if a.drop_first() == b.drop_first() {
            assert forall|k: int| 0 <= k < a.len() implies a[k] == b[k] by {
                if k > 0 {
                    assert(a[k] == a.drop_first()[k - 1]);
                    assert(b[k] == b.drop_first()[k - 1]);
                }
            }
            assert(a =~= b);
        }
    }
}

/// The byte order is transitive.
pub proof fn lemma_bytes_lt_trans(a: Seq<u8>, b: Seq<u8>, c: Seq<u8>)
    requires
        bytes_lt(a, b),
        bytes_lt(b, c),
    ensures
        bytes_lt(a, c),
    decreases a.len(),
{
    if c.len() > 0 && a.len() > 0 {
        if b.len() > 0 {
            if a[0] == b[0] && b[0] == c[0] {
                lemma_bytes_lt_trans(a.drop_first(), b.drop_first(), c.drop_first());
            }
        }
    }
}

impl ScannedEntry {
    /// The entry's name.
    pub fn name(&self) -> (r: &str)
        ensures
            r@ == entry_name(self@),
    {
        match self {
            ScannedEntry::File { name, .. } => name.as_str(),
            ScannedEntry::Directory { name, .. } => name.as_str(),
        }
    }
}

/// Whether `a`'s raw bytes are at or below `b`'s in lexicographic order.
pub fn name_le(a: &str, b: &str) -> (r: bool)
    ensures
        r == bytes_le(a.spec_bytes(), b.spec_bytes()),
{
    let ab = a.as_bytes();
    let bb = b.as_bytes();
    let alen = ab.len();
    let blen = bb.len();
    let mut i: usize = 0;
    while i < alen && i < blen
        invariant
            ab@ == a.spec_bytes(),
            bb@ == b.spec_bytes(),
            alen == ab@.len(),
            blen == bb@.len(),
            0 <= i <= alen,
            i <= blen,
            forall|j: int| 0 <= j < i ==> ab@[j] == bb@[j],
        decreases alen - i,
    {
        let x = *slice_index_get(ab, i);
        let y = *slice_index_get(bb, i);
        if x != y {
            proof {
                lemma_bytes_lt_common_prefix(ab@, bb@, i as int);
                assert(ab@.skip(i as int)[0] == x);
                assert(bb@.skip(i as int)[0] == y);
                if x < y {
                    assert(bytes_lt(ab@, bb@));
                } else {
                    assert(!bytes_lt(ab@, bb@));
                    assert(ab@[i as int] != bb@[i as int]);
                    assert(ab@ != bb@);
                }
            }
            return x < y;
        }
        i += 1;
    }
    proof {
        lemma_bytes_lt_common_prefix(ab@, bb@, i as int);
        if i == alen && i == blen {
            assert(ab@ =~= bb@);
        } else if i == alen {
            assert(bytes_lt(ab@.skip(i as int), bb@.skip(i as int)));
        } else {
            assert(!bytes_lt(ab@.skip(i as int), bb@.skip(i as int)));
            assert(ab@.len() != bb@.len());
            assert(ab@ != bb@);
        }
    }
    alen <= blen
}

/// The entries' names are in ascending raw-byte order.
pub open spec fn entries_sorted(s: Seq<EntryV>) -> bool {
    forall|i: int, j: int|
        0 <= i < j < s.len() ==> bytes_le(
            entry_name_bytes(#[trigger] s[i]),
            entry_name_bytes(#[trigger] s[j]),
        )
}

/// Where `e` belongs in a sorted run of entries: past every entry at or
/// below it, before every entry strictly above it.
fn insert_pos(out: &Vec<ScannedEntry>, e: &ScannedEntry) -> (r: usize)
    requires
        entries_sorted(entry_views(out@)),
    ensures
        r <= out@.len(),
        forall|j: int|
            0 <= j < r ==> bytes_le(entry_name_bytes(#[trigger] out@[j]@), entry_name_bytes(e@)),
        forall|j: int|
            r <= j < out@.len() ==> bytes_le(
                entry_name_bytes(e@),
                entry_name_bytes(#[trigger] out@[j]@),
            ),
{
    proof {
        lemma_entry_views(out@);
    }
    let n = out.len();
    let mut i: usize = 0;
    while i < n
        invariant
            entries_sorted(entry_views(out@)),
            entry_views(out@).len() == out@.len(),
            forall|k: int| 0 <= k < out@.len() ==> #[trigger] entry_views(out@)[k] == out@[k]@,
            n == out@.len(),
            0 <= i <= n,
            forall|j: int|
                0 <= j < i ==> bytes_le(
                    entry_name_bytes(#[trigger] out@[j]@),
                    entry_name_bytes(e@),
                ),
        decreases n - i,
    {
        if !name_le(out[i].name(), e.name()) {
            proof {
                let ov = entry_views(out@);
                assert forall|j: int|
                    i <= j < out@.len() implies bytes_le(
                    entry_name_bytes(e@),
                    entry_name_bytes(out@[j]@),
                ) by {
                    lemma_bytes_order_total(entry_name_bytes(out@[i as int]@), entry_name_bytes(e@));
                    assert(bytes_lt(entry_name_bytes(e@), entry_name_bytes(out@[i as int]@)));
                    if j > i {
                        assert(bytes_le(entry_name_bytes(ov[i as int]), entry_name_bytes(ov[j])));
                        assert(ov[i as int] == out@[i as int]@);
                        assert(ov[j] == out@[j]@);
                        if bytes_lt(entry_name_bytes(out@[i as int]@), entry_name_bytes(out@[j]@)) {
                            lemma_bytes_lt_trans(
                                entry_name_bytes(e@),
                                entry_name_bytes(out@[i as int]@),
                                entry_name_bytes(out@[j]@),
                            );
                        }
                    }
                }
            }
            return i;
        }
        i += 1;
    }
    n
}

/// Sort entries ascending by raw name bytes; the result holds exactly the
/// entries given, reordered.
pub fn sort_entries(v: &mut Vec<ScannedEntry>)
    ensures
        entries_sorted(entry_views(final(v)@)),
        final(v)@.to_multiset() == old(v)@.to_multiset(),
{
    let mut out: Vec<ScannedEntry> = Vec::new();
    proof {
        assert(out@.to_multiset() =~= Multiset::<ScannedEntry>::empty());
        assert(out@.to_multiset().add(v@.to_multiset()) =~= v@.to_multiset());
    }
    while v.len() > 0
        invariant
            entries_sorted(entry_views(out@)),
            out@.to_multiset().add(v@.to_multiset()) == old(v)@.to_multiset(),
        decreases v@.len(),
    {
        let ghost vpre = v@;
        let e = v.remove(0);
        let pos = insert_pos(&out, &e);
        let ghost outpre = out@;
        out.insert(pos, e);
        proof {
            lemma_entry_views(outpre);
            lemma_entry_views(out@);
            assert(out@ == outpre.insert(pos as int, e));
            let ov = entry_views(out@);
            let opv = entry_views(outpre);
            assert forall|x: int, y: int|
                0 <= x < y < ov.len() implies bytes_le(
                entry_name_bytes(#[trigger] ov[x]),
                entry_name_bytes(#[trigger] ov[y]),
            ) by {
                assert(ov[x] == out@[x]@);
                assert(ov[y] == out@[y]@);
                let p = pos as int;
                if x < p && y < p {
                    assert(out@[x] == outpre[x] && out@[y] == outpre[y]);
                    assert(bytes_le(entry_name_bytes(opv[x]), entry_name_bytes(opv[y])));
                    assert(opv[x] == outpre[x]@ && opv[y] == outpre[y]@);
                } else if x < p && y == p {
                    assert(out@[x] == outpre[x]);
                    assert(out@[y] == e);
                } else if x < p && y > p {
                    assert(out@[x] == outpre[x]);
                    assert(out@[y] == outpre[y - 1]);
                    assert(bytes_le(entry_name_bytes(opv[x]), entry_name_bytes(opv[y - 1])));
                    assert(opv[x] == outpre[x]@ && opv[y - 1] == outpre[y - 1]@);
                } else if x == p {
                    assert(out@[x] == e);
                    assert(out@[y] == outpre[y - 1]);
                } else {
                    assert(out@[x] == outpre[x - 1]);
                    assert(out@[y] == outpre[y - 1]);
                    assert(bytes_le(entry_name_bytes(opv[x - 1]), entry_name_bytes(opv[y - 1])));
                    assert(opv[x - 1] == outpre[x - 1]@ && opv[y - 1] == outpre[y - 1]@);
                }
            }
            assert(v@.to_multiset() =~= vpre.to_multiset().remove(e));
            assert(out@.to_multiset() =~= outpre.to_multiset().insert(e));
            assert(vpre.to_multiset().contains(e));
            assert(out@.to_multiset().add(v@.to_multiset()) =~= outpre.to_multiset().add(
                vpre.to_multiset(),
            ));
        }
    }
    proof {
        assert(v@.to_multiset() =~= Multiset::<ScannedEntry>::empty());
        assert(out@.to_multiset().add(Multiset::<ScannedEntry>::empty()) =~= out@.to_multiset());
    }
    *v = out;
}

/// Flatten an entry tree into a list: each directory, emptied of its
/// children, followed by its flattened children in order.
pub open spec fn spec_flatten(e: EntryV) -> Seq<EntryV>
    decreases e,
{
    match e {
        EntryV::File { .. } => seq![e],
        EntryV::Directory { name, permissions, children } => seq![
            EntryV::Directory { name, permissions, children: Seq::empty() },
        ] + spec_flatten_all(children),
    }
}

pub open spec fn spec_flatten_all(s: Seq<EntryV>) -> Seq<EntryV>
    decreases s,
{
    if s.len() == 0 {
        Seq::empty()
    } else {
        spec_flatten_all(s.drop_last()) + spec_flatten(s.last())
    }
}

/// Flatten an entry tree into a list, each directory followed by its
/// children recursively; the directories in the list keep no children of
/// their own.
pub fn flatten_entry(entry: ScannedEntry) -> (r: Vec<ScannedEntry>)
    ensures
        entry_views(r@) == spec_flatten(entry@),
    decreases entry,
{
    let ghost e0 = entry;
    match entry {
        ScannedEntry::File { .. } => {
            let mut result: Vec<ScannedEntry> = Vec::new();
            result.push(entry);
            proof {
                lemma_entry_views(result@);
                assert(entry_views(result@) =~= spec_flatten(e0@));
            }
            result
        },
        ScannedEntry::Directory { name, permissions, mut children } => {
            let ghost children0 = children;
            let ghost cv0 = children@;
            let ghost dirv = EntryV::Directory {
                name: name@,
                permissions,
                children: Seq::empty(),
            };
            let mut result: Vec<ScannedEntry> = Vec::new();
            result.push(ScannedEntry::Directory { name, permissions, children: Vec::new() });
            proof {
                lemma_entry_views(result@);
                lemma_entry_views(cv0);
                assert(entry_views(Seq::<ScannedEntry>::empty()) =~= Seq::<EntryV>::empty());
                assert(result@[0]@ == dirv);
                assert(entry_views(cv0).take(0) =~= Seq::<EntryV>::empty());
                assert(entry_views(result@) =~= seq![dirv] + spec_flatten_all(
                    entry_views(cv0).take(0),
                ));
            }
            let total = children.len();
            let mut i: usize = 0;
            while children.len() > 0
                invariant
                    entry == e0,
                    total == cv0.len(),
                    e0 is Directory,
                    e0->Directory_children == children0,
                    children0@ == cv0,
                    0 <= i <= cv0.len(),
                    i + children@.len() == cv0.len(),
                    children@ =~= cv0.skip(i as int),
                    entry_views(result@) =~= seq![dirv] + spec_flatten_all(
                        entry_views(cv0).take(i as int),
                    ),
                decreases children@.len(),
            {
                let c = children.remove(0);
                proof {
                    assert(c == cv0[i as int]);
                    assert(e0->Directory_children == children0);
                    assert(decreases_to!(e0 => e0->Directory_children));
                    assert(decreases_to!(e0->Directory_children => e0->Directory_children@));
                    assert(decreases_to!(e0->Directory_children@ => e0->Directory_children@[i as int]));
                    assert(e0->Directory_children@[i as int] == cv0[i as int]);
                }
                let mut flat = flatten_entry(c);
                proof {
                    lemma_entry_views(cv0);
                    lemma_concat_entry_views(result@, flat@);
                    assert(entry_views(cv0).take(i + 1).drop_last() =~= entry_views(cv0).take(
                        i as int,
                    ));
                    assert(entry_views(cv0).take(i + 1).last() == cv0[i as int]@);
                }
                append_entries(&mut result, &mut flat);
                i += 1;
            }
            proof {
                lemma_entry_views(cv0);
                assert(entry_views(cv0).take(cv0.len() as int) =~= entry_views(cv0));
                assert(entry_views(result@) =~= spec_flatten(e0@));
            }
            result
        },
    }
}

/// The view of a concatenation is the concatenation of the views.
proof fn lemma_concat_entry_views(a: Seq<ScannedEntry>, b: Seq<ScannedEntry>)
    ensures
        entry_views(a + b) == entry_views(a) + entry_views(b),
    decreases b.len(),
{
    lemma_entry_views(a);
    lemma_entry_views(b);
    lemma_entry_views(a + b);
    assert(entry_views(a + b) =~= entry_views(a) + entry_views(b));
}

/// Move every element of `b` onto the end of `a`.
fn append_entries(a: &mut Vec<ScannedEntry>, b: &mut Vec<ScannedEntry>)
    ensures
        final(a)@ == old(a)@ + old(b)@,
{
    let ghost a0 = a@;
    let ghost b0 = b@;
    let mut i: usize = 0;
    while b.len() > 0
        invariant
            a@ + b@ =~= a0 + b0,
        decreases b@.len(),
    {
        let e = b.remove(0);
        a.push(e);
    }
    proof {
        assert(a@ =~= a@ + b@);
    }
}

} // verus!
