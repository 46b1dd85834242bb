//! The HTTP read path: resolve a host and URL path against the current
//! snapshot's tree, and reassemble the file's body from stored chunks.

use vstd::prelude::*;

use crate::merkle::{node_name, Node, NodeV};
use crate::server::storage::{
    chunks_view, current_row, has_current, has_site, site_id_of, storage_wf, str_eq, Storage,
};

verus! {

/// The index of the first slash in a character sequence, or its length if
/// none occurs.
pub open spec fn first_slash(s: Seq<char>) -> int
    decreases s.len(),
{
    if s.len() == 0 {
        0
    } else if s[0] == '/' {
        0
    } else {
        1 + first_slash(s.drop_first())
    }
}

/// The bounds of `first_slash`: within the sequence, and past a leading
/// non-slash character.
pub proof fn lemma_first_slash_bounds(s: Seq<char>)
    ensures
        0 <= first_slash(s) <= s.len(),
        s.len() > 0 && s[0] != '/' ==> first_slash(s) >= 1,
    decreases s.len(),
{
    if s.len() > 0 && s[0] != '/' {
        lemma_first_slash_bounds(s.drop_first());
    }
}

/// The non-empty segments of a path, split on slashes.
pub open spec fn segs(s: Seq<char>) -> Seq<Seq<char>>
    decreases s.len(),
    via segs_decreases
{
    if s.len() == 0 {
        Seq::empty()
    } else if s[0] == '/' {
        segs(s.drop_first())
    } else {
        seq![s.take(first_slash(s))] + segs(s.skip(first_slash(s)))
    }
}

#[via_fn]
proof fn segs_decreases(s: Seq<char>) {
    lemma_first_slash_bounds(s);
}

/// The index of the first child with the given name, or -1 if none.
pub open spec fn first_match(children: Seq<NodeV>, name: Seq<char>) -> int
    decreases children.len(),
{
    if children.len() == 0 {
        -1
    } else if node_name(children[0]) == name {
        0
    } else {
        let r = first_match(children.drop_first(), name);
        if r == -1 {
            -1
        } else {
            1 + r
        }
    }
}

/// Walk the tree along the segments: at each one, step into the first
/// child carrying that name; an empty list resolves to the node itself.
pub open spec fn resolve(t: NodeV, ss: Seq<Seq<char>>) -> Option<NodeV>
    decreases ss.len(),
{
    if ss.len() == 0 {
        Some(t)
    } else {
        match t {
            NodeV::File { .. } => None,
            NodeV::Directory { children, .. } => {
                let i = first_match(children, ss[0]);
                if i == -1 {
                    None
                } else {
                    resolve(children[i], ss.drop_first())
                }
            },
        }
    }
}

/// What a path names in the tree: its segments walked from the root; a
/// path with no segments names the root's `index.html` child.
pub open spec fn spec_find(t: NodeV, path: Seq<char>) -> Option<NodeV> {
    if segs(path).len() == 0 {
        resolve(t, seq!["index.html"@])
    } else {
        resolve(t, segs(path))
    }
}

/// `first_slash` is the first index that carries a slash.
proof fn lemma_first_slash(s: Seq<char>, m: int)
    requires
        0 <= m <= s.len(),
        forall|k: int| 0 <= k < m ==> s[k] != '/',
        m == s.len() || s[m] == '/',
    ensures
        first_slash(s) == m,
    decreases m,
{
    if m > 0 {
        assert(forall|k: int| 0 <= k < m - 1 ==> s.drop_first()[k] == s[k + 1]);
        lemma_first_slash(s.drop_first(), m - 1);
    }
}

/// `first_match` is the first index whose child carries the name.
proof fn lemma_first_match_at(children: Seq<NodeV>, name: Seq<char>, j: int)
    requires
        0 <= j < children.len(),
        node_name(children[j]) == name,
        forall|q: int| 0 <= q < j ==> node_name(#[trigger] children[q]) != name,
    ensures
        first_match(children, name) == j,
    decreases j,
{
    if j > 0 {
        assert(forall|q: int| 0 <= q < j - 1 ==> children.drop_first()[q] == children[q + 1]);
        lemma_first_match_at(children.drop_first(), name, j - 1);
    }
}

/// When no child carries the name, `first_match` is -1.
proof fn lemma_first_match_none(children: Seq<NodeV>, name: Seq<char>)
    requires
        forall|q: int| 0 <= q < children.len() ==> node_name(#[trigger] children[q]) != name,
    ensures
        first_match(children, name) == -1,
    decreases children.len(),
{
    if children.len() > 0 {
        assert(forall|q: int|
            0 <= q < children.len() - 1 ==> children.drop_first()[q] == children[q + 1]);
        lemma_first_match_none(children.drop_first(), name);
    }
}

/// The views of a vector of strings.
pub open spec fn string_views(s: Seq<String>) -> Seq<Seq<char>> {
    s.map_values(|t: String| t@)
}

/// Split a path into its non-empty segments, in order.
fn split_path(path: &str, from: usize) -> (r: Vec<String>)
    requires
        from <= path@.len(),
    ensures
        string_views(r@) == segs(path@.skip(from as int)),
    decreases path@.len() - from,
{
    let n = path.unicode_len();
    if from == n {
        let r: Vec<String> = Vec::new();
        proof {
            assert(path@.skip(from as int) =~= Seq::<char>::empty());
            assert(string_views(r@) =~= segs(path@.skip(from as int)));
        }
        return r;
    }
    let c = path.get_char(from);
    if c == '/' {
        let r = split_path(path, from + 1);
        proof {
            assert(path@.skip(from as int).drop_first() =~= path@.skip(from + 1));
        }
        return r;
    }
    let mut j = from;
    while j < n && path.get_char(j) != '/'
        invariant
            from <= j <= n,
            n == path@.len(),
            forall|k: int| from <= k < j ==> path@[k] != '/',
        decreases n - j,
    {
        j += 1;
    }
    let head = path.substring_char(from, j);
    let mut rest = split_path(path, j);
    let mut r: Vec<String> = Vec::new();
    r.push(String::from_str(head));
    append_strings(&mut r, &mut rest);
    proof {
        let s = path@.skip(from as int);
        assert(forall|k: int| 0 <= k < j - from ==> s[k] == path@[k + from]);
        lemma_first_slash(s, j - from);
        assert(s.take(j - from) =~= path@.subrange(from as int, j as int));
        assert(s.skip(j - from) =~= path@.skip(j as int));
        assert(head@ == s.take(j - from));
        assert(string_views(r@) =~= seq![s.take(first_slash(s))] + segs(s.skip(first_slash(s))));
    }
    r
}

/// Move every element of `b` onto the end of `a`.
fn append_strings(a: &mut Vec<String>, b: &mut Vec<String>)
    ensures
        final(a)@ == old(a)@ + old(b)@,
{
    let ghost a0 = a@;
    let ghost b0 = b@;
    while b.len() > 0
        invariant
            a@ + b@ =~= a0 + b0,
        decreases b@.len(),
    {
        let e = b.remove(0);
        a.push(e);
    }
    proof {
        assert(a@ =~= a@ + b@);
    }
}

/// Find the first child of `node` named like `name`, if any.
fn find_child<'a>(children: &'a Vec<Node>, name: &str) -> (r: Option<&'a Node>)
    ensures
        ({
            let i = first_match(crate::merkle::node_views(children@), name@);
            match r {
                Some(c) => i >= 0 && c@ == crate::merkle::node_views(children@)[i],
                None => i == -1,
            }
        }),
{
    proof {
        crate::merkle::lemma_node_views(children@);
    }
    let n = children.len();
    let mut j: usize = 0;
    while j < n
        invariant
            n == children@.len(),
            crate::merkle::node_views(children@).len() == n,
            forall|k: int|
                0 <= k < n ==> #[trigger] crate::merkle::node_views(children@)[k]
                    == children@[k]@,
            0 <= j <= n,
            forall|q: int| 0 <= q < j ==> node_name(#[trigger] children@[q]@) != name@,
        decreases n - j,
    {
        if str_eq(children[j].name(), name) {
            proof {
                lemma_first_match_at(crate::merkle::node_views(children@), name@, j as int);
            }
            return Some(&children[j]);
        }
        j += 1;
    }
    proof {
        lemma_first_match_none(crate::merkle::node_views(children@), name@);
    }
    None
}

/// Walk from `node` along the segments from `k` on.
fn find_node_recursive<'a>(node: &'a Node, parts: &Vec<String>, k: usize) -> (r: Option<&'a Node>)
    requires
        k <= parts@.len(),
    ensures
        ({
            match resolve(node@, string_views(parts@).skip(k as int)) {
                Some(nv) => r matches Some(n) && n@ == nv,
                None => r is None,
            }
        }),
    decreases parts@.len() - k,
{
    let ghost ss = string_views(parts@).skip(k as int);
    if k == parts.len() {
        proof {
            assert(ss =~= Seq::<Seq<char>>::empty());
        }
        return Some(node);
    }
    match node {
        Node::File { .. } => {
            proof {
                assert(ss.len() > 0);
            }
            None
        },
        Node::Directory { children, .. } => {
            proof {
                assert(ss[0] == parts@[k as int]@);
            }
            let hit = find_child(children, parts[k].as_str());
            match hit {
                Some(c) => {
                    let r = find_node_recursive(c, parts, k + 1);
                    proof {
                        assert(string_views(parts@).skip(k + 1) =~= ss.drop_first());
                    }
                    r
                },
                None => None,
            }
        },
    }
}

/// Resolve a URL path against a tree: split on slashes, drop empty
/// segments, and walk from the root; an empty path names the root's
/// `index.html` child.
pub fn find_node<'a>(tree: &'a Node, path: &str) -> (r: Option<&'a Node>)
    ensures
        ({
            match spec_find(tree@, path@) {
                Some(nv) => r matches Some(n) && n@ == nv,
                None => r is None,
            }
        }),
{
    let mut parts = split_path(path, 0);
    proof {
        assert(path@.skip(0) =~= path@);
    }
    if parts.len() == 0 {
        parts.push(String::from_str("index.html"));
        proof {
            assert(string_views(parts@) =~= seq!["index.html"@]);
        }
    }
    let r = find_node_recursive(tree, &parts, 0);
    proof {
        assert(string_views(parts@).skip(0) =~= string_views(parts@));
    }
    r
}

/// What serving a request amounts to.
#[verifier::ext_equal]
pub enum ServeOutcome {
    SiteNotFound,
    NotFound,
    MissingChunk,
    Served { body: Seq<u8>, name: Seq<char> },
}

/// A body reassembled from the store: the stored bytes of each digest in
/// order, or nothing if any digest is absent.
pub open spec fn assemble(m: Map<Seq<u8>, Seq<u8>>, ds: Seq<Seq<u8>>) -> Option<Seq<u8>>
    decreases ds.len(),
{
    if ds.len() == 0 {
        Some(Seq::empty())
    } else {
        match assemble(m, ds.drop_last()) {
            None => None,
            Some(b) => {
                if m.dom().contains(ds.last()) {
                    Some(b + m[ds.last()])
                } else {
                    None
                }
            },
        }
    }
}

/// The hostname of a Host header: everything before the first colon.
pub open spec fn first_colon(s: Seq<char>) -> int
    decreases s.len(),
{
    if s.len() == 0 {
        0
    } else if s[0] == ':' {
        0
    } else {
        1 + first_colon(s.drop_first())
    }
}

/// What a request is answered with, as a function of the store, the Host
/// header and the URL path: the current snapshot of the named site is
/// resolved along the path, a directory falls back to its `index.html`,
/// and the file's body is reassembled from stored chunks.
pub open spec fn spec_serve(s: Storage, host: Seq<char>, path: Seq<char>) -> ServeOutcome {
    let hostname = host.take(first_colon(host));
    if !(has_site(s, hostname) && has_current(s, site_id_of(s, hostname))) {
        ServeOutcome::SiteNotFound
    } else {
        let tree = current_row(s, site_id_of(s, hostname)).tree@;
        match spec_find(tree, path) {
            None => ServeOutcome::NotFound,
            Some(nv) => match nv {
                NodeV::File { name, chunks, .. } => match assemble(chunks_view(s), chunks) {
                    None => ServeOutcome::MissingChunk,
                    Some(b) => ServeOutcome::Served { body: b, name },
                },
                NodeV::Directory { .. } => {
                    let ipath = path + seq!['/'] + "index.html"@;
                    match spec_find(tree, ipath) {
                        Some(NodeV::File { name, chunks, .. }) => match assemble(
                            chunks_view(s),
                            chunks,
                        ) {
                            None => ServeOutcome::MissingChunk,
                            Some(b) => ServeOutcome::Served { body: b, name },
                        },
                        _ => ServeOutcome::NotFound,
                    }
                },
            },
        }
    }
}

/// An HTTP answer: a body with the file name it came from, or an error.
#[derive(Debug)]
pub enum HttpReply {
    Served { body: Vec<u8>, name: String },
    SiteNotFound,
    NotFound,
    MissingChunk,
}

/// The outcome an exec reply stands for.
pub open spec fn reply_outcome(r: HttpReply) -> ServeOutcome {
    match r {
        HttpReply::Served { body, name } => ServeOutcome::Served { body: body@, name: name@ },
        HttpReply::SiteNotFound => ServeOutcome::SiteNotFound,
        HttpReply::NotFound => ServeOutcome::NotFound,
        HttpReply::MissingChunk => ServeOutcome::MissingChunk,
    }
}

/// Reassemble a file's body from the store, chunk by chunk, in order.
fn assemble_body(store: &Storage, chunks: &Vec<crate::hashing::Digest>) -> (r: Option<Vec<u8>>)
    requires
        storage_wf(*store),
    ensures
        ({
            match assemble(chunks_view(*store), crate::merkle::digest_views(chunks@)) {
                Some(b) => r matches Some(v) && v@ == b,
                None => r is None,
            }
        }),
{
    let ghost ds = crate::merkle::digest_views(chunks@);
    let n = chunks.len();
    let mut body: Vec<u8> = Vec::new();
    let mut i: usize = 0;
    proof {
        assert(ds.take(0) =~= Seq::<Seq<u8>>::empty());
        assert(assemble(chunks_view(*store), ds.take(0)) == Some(Seq::<u8>::empty()));
        assert(body@ =~= Seq::<u8>::empty());
    }
    while i < n
        invariant
            storage_wf(*store),
            ds == crate::merkle::digest_views(chunks@),
            n == chunks@.len(),
            ds.len() == n,
            0 <= i <= n,
            assemble(chunks_view(*store), ds.take(i as int)) == Some(body@),
        decreases n - i,
    {
        let got = store.get_chunk(&chunks[i]);
        match got {
            Some(mut d) => {
                proof {
                    assert(ds.take(i + 1).drop_last() =~= ds.take(i as int));
                    assert(ds.take(i + 1).last() == ds[i as int]);
                    assert(chunks_view(*store).dom().contains(ds[i as int]));
                }
                append_bytes(&mut body, &mut d);
            },
            None => {
                proof {
                    assert(!chunks_view(*store).dom().contains(ds[i as int]));
                    lemma_assemble_missing(chunks_view(*store), ds, i as int);
                }
                return None;
            },
        }
        i += 1;
    }
    proof {
        assert(ds.take(n as int) =~= ds);
    }
    Some(body)
}

/// A missing digest anywhere leaves nothing to assemble.
proof fn lemma_assemble_missing(m: Map<Seq<u8>, Seq<u8>>, ds: Seq<Seq<u8>>, i: int)
    requires
        0 <= i < ds.len(),
        !m.dom().contains(ds[i]),
    ensures
        assemble(m, ds) is None,
    decreases ds.len(),
{
    if ds.len() > 0 {
        if i == ds.len() - 1 {
        } else {
            lemma_assemble_missing(m, ds.drop_last(), i);
        }
    }
}

/// Move every byte of `b` onto the end of `a`.
fn append_bytes(a: &mut Vec<u8>, b: &mut Vec<u8>)
    ensures
        final(a)@ == old(a)@ + old(b)@,
{
    let ghost a0 = a@;
    let ghost b0 = b@;
    while b.len() > 0
        invariant
            a@ + b@ =~= a0 + b0,
        decreases b@.len(),
    {
        let e = b.remove(0);
        a.push(e);
    }
    proof {
        assert(a@ =~= a@ + b@);
    }
}

/// Answer a request: the Host header picks the site, the path picks the
/// file in its current snapshot, and the body is reassembled from stored
/// chunks; a directory answers with its `index.html`.
pub fn serve_request(store: &Storage, host: &str, path: &str) -> (r: HttpReply)
    requires
        storage_wf(*store),
    ensures
        reply_outcome(r) == spec_serve(*store, host@, path@),
{
    let hostname = host_before_colon(host);
    let current = store.get_current_snapshot(hostname.as_str());
    let (_, tree) = match current {
        Some(pair) => pair,
        None => {
            return HttpReply::SiteNotFound;
        },
    };
    let node = find_node(&tree, path);
    let file = match node {
        Some(n) => {
            match n {
                Node::File { .. } => n,
                Node::Directory { .. } => {
                    let mut ipath = String::from_str(path);
                    ipath.append("/");
                    ipath.append("index.html");
                    proof {
                        reveal_strlit("/");
                        assert("/"@ =~= seq!['/']);
                        assert(ipath@ =~= path@ + seq!['/'] + "index.html"@);
                    }
                    let inode = find_node(&tree, ipath.as_str());
                    match inode {
                        Some(m) => match m {
                            Node::File { .. } => m,
                            Node::Directory { .. } => {
                                return HttpReply::NotFound;
                            },
                        },
                        None => {
                            return HttpReply::NotFound;
                        },
                    }
                },
            }
        },
        None => {
            return HttpReply::NotFound;
        },
    };
    match file {
        Node::File { name, chunks, .. } => {
            let body = assemble_body(store, chunks);
            match body {
                Some(b) => HttpReply::Served { body: b, name: crate::server::storage::clone_string(name) },
                None => HttpReply::MissingChunk,
            }
        },
        Node::Directory { .. } => {
            proof {
                assert(false);
            }
            HttpReply::NotFound
        },
    }
}

/// The part of the Host header before any colon.
fn host_before_colon(host: &str) -> (r: String)
    ensures
        r@ == host@.take(first_colon(host@)),
{
    let n = host.unicode_len();
    let mut j: usize = 0;
    while j < n && host.get_char(j) != ':'
        invariant
            n == host@.len(),
            0 <= j <= n,
            forall|k: int| 0 <= k < j ==> host@[k] != ':',
        decreases n - j,
    {
        j += 1;
    }
    proof {
        lemma_first_colon(host@, j as int);
    }
    String::from_str(host.substring_char(0, j))
}

/// `first_colon` is the first index that carries a colon.
proof fn lemma_first_colon(s: Seq<char>, m: int)
    requires
        0 <= m <= s.len(),
        forall|k: int| 0 <= k < m ==> s[k] != ':',
        m == s.len() || s[m] == ':',
    ensures
        first_colon(s) == m,
    decreases m,
{
    if m > 0 {
        assert(forall|k: int| 0 <= k < m - 1 ==> s.drop_first()[k] == s[k + 1]);
        lemma_first_colon(s.drop_first(), m - 1);
    }
}

} // verus!
