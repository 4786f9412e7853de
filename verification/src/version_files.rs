//! Saved versions of a document kept as files: which directory entries are
//! versions, which old automatic saves are pruned, the order in which
//! versions are listed, and the names of version files.

use vstd::prelude::*;
use vstd::utf8::encode_utf8;
use crate::ast::VersionEntry;
use crate::history::{spec_version_label, version_label};
use crate::text::{push_range, push_str, str_chars, string_from_chars};

verus! {

/// Where the versions of one source are kept.
#[derive(Debug, PartialEq, Eq)]
pub enum VersionDir {
    /// The application's auto-save directory named by the path hash.
    Auto(String),
    /// The history directory beside the document at this path.
    Manual(String),
}

/// Most automatic saves kept for one document.
pub const AUTO_HISTORY_LIMIT: usize = 25;

/// `a` comes strictly before `b` in lexicographic byte order, a proper prefix
/// first: the order of `str`, and of file names on Unix.
pub open spec fn bytes_lt(a: Seq<u8>, b: Seq<u8>) -> bool
    decreases a.len(),
{
    if a.len() == 0 {
        b.len() > 0
    } else if b.len() == 0 {
        false
    } else if a[0] != b[0] {
        a[0] < b[0]
    } else {
        bytes_lt(a.skip(1), b.skip(1))
    }
}

pub proof fn lemma_bytes_lt_irreflexive(a: Seq<u8>)
    ensures
        !bytes_lt(a, a),
    decreases a.len(),
{
    if a.len() > 0 {
        lemma_bytes_lt_irreflexive(a.skip(1));
    }
}

/// Of two different byte strings exactly one comes first.
pub proof fn lemma_bytes_lt_total(a: Seq<u8>, b: Seq<u8>)
    ensures
        !(bytes_lt(a, b) && bytes_lt(b, a)),
        a != b ==> bytes_lt(a, b) || bytes_lt(b, a),
    decreases a.len(),
{
    if a.len() == 0 && b.len() == 0 {
        assert(a =~= b);
    } else if a.len() > 0 && b.len() > 0 && a[0] == b[0] {
        lemma_bytes_lt_total(a.skip(1), b.skip(1));
        if a.skip(1) == b.skip(1) {
            assert(a =~= b) by {
                assert forall|i: int| 0 <= i < a.len() implies a[i] == b[i] by {
                    if i > 0 {
                        assert(a[i] == a.skip(1)[i - 1]);
                        assert(b[i] == b.skip(1)[i - 1]);
                    }
                }
            }
        }
    }
}

pub proof fn lemma_bytes_lt_transitive(a: Seq<u8>, b: Seq<u8>, c: Seq<u8>)
    requires
        bytes_lt(a, b),
        bytes_lt(b, c),
    ensures
        bytes_lt(a, c),
    decreases a.len(),
{
    if a.len() > 0 && a[0] == b[0] && b[0] == c[0] {
        lemma_bytes_lt_transitive(a.skip(1), b.skip(1), c.skip(1));
    }
}

/// Whether `a` comes strictly before `b` in byte order.
pub fn bytes_less(a: &Vec<u8>, b: &Vec<u8>) -> (r: bool)
    ensures
        r == bytes_lt(a@, b@),
{
    let mut i: usize = 0;
    assert(a@.skip(0) =~= a@ && b@.skip(0) =~= b@);
    while i < a.len() && i < b.len() && a[i] == b[i]
        invariant
            i <= a.len(),
            i <= b.len(),
            bytes_lt(a@, b@) == bytes_lt(a@.skip(i as int), b@.skip(i as int)),
        decreases a.len() - i,
    {
        assert(a@.skip(i as int).skip(1) =~= a@.skip(i + 1));
        assert(b@.skip(i as int).skip(1) =~= b@.skip(i + 1));
        i = i + 1;
    }
    if i < a.len() {
        if i < b.len() {
            a[i] < b[i]
        } else {
            false
        }
    } else {
        i < b.len()
    }
}

/// The byte strings held by a vector of byte vectors.
pub open spec fn bytes_view(v: Seq<Vec<u8>>) -> Seq<Seq<u8>> {
    Seq::new(v.len(), |i: int| v[i]@)
}

/// Entry `a` comes before entry `b` when entries are sorted by their keys,
/// ascending or descending, entries with equal keys keeping their order.
pub open spec fn key_before(keys: Seq<Seq<u8>>, desc: bool, a: int, b: int) -> bool {
    (if desc {
        bytes_lt(keys[b], keys[a])
    } else {
        bytes_lt(keys[a], keys[b])
    }) || (keys[a] == keys[b] && a < b)
}

/// `key_before` is a strict total order on positions.
pub proof fn lemma_key_order(keys: Seq<Seq<u8>>, desc: bool, a: int, b: int, c: int)
    ensures
        !key_before(keys, desc, a, a),
        !(key_before(keys, desc, a, b) && key_before(keys, desc, b, a)),
        a != b ==> key_before(keys, desc, a, b) || key_before(keys, desc, b, a),
        key_before(keys, desc, a, b) && key_before(keys, desc, b, c) ==> key_before(keys, desc, a, c),
{
    lemma_bytes_lt_irreflexive(keys[a]);
    lemma_bytes_lt_total(keys[a], keys[b]);
    if key_before(keys, desc, a, b) && key_before(keys, desc, b, c) {
        if desc {
            if bytes_lt(keys[c], keys[b]) && bytes_lt(keys[b], keys[a]) {
                lemma_bytes_lt_transitive(keys[c], keys[b], keys[a]);
            }
        } else {
            if bytes_lt(keys[a], keys[b]) && bytes_lt(keys[b], keys[c]) {
                lemma_bytes_lt_transitive(keys[a], keys[b], keys[c]);
            }
        }
    }
}

/// The positions in `p` are in strictly increasing `key_before` order.
pub open spec fn sorted_by_key(keys: Seq<Seq<u8>>, desc: bool, p: Seq<usize>) -> bool {
    forall|i: int, j: int|
        0 <= i < j < p.len() ==> key_before(keys, desc, #[trigger] p[i] as int, #[trigger] p[j] as int)
}

fn key_less(keys: &Vec<Vec<u8>>, desc: bool, a: usize, b: usize) -> (r: bool)
    requires
        a < keys.len(),
        b < keys.len(),
    ensures
        r == key_before(bytes_view(keys@), desc, a as int, b as int),
{
    let (x, y) = if desc {
        (b, a)
    } else {
        (a, b)
    };
    proof {
        lemma_bytes_lt_total(keys@[x as int]@, keys@[y as int]@);
    }
    bytes_less(&keys[x], &keys[y]) || (!bytes_less(&keys[y], &keys[x]) && a < b)
}

/// The candidate positions sorted by their keys (a stable sort).
pub fn sort_candidates(keys: &Vec<Vec<u8>>, cands: &Vec<usize>, desc: bool) -> (r: Vec<usize>)
    requires
        forall|i: int| 0 <= i < cands.len() ==> cands[i] < keys.len(),
        forall|i: int, j: int| 0 <= i < j < cands.len() ==> cands[i] != cands[j],
    ensures
        r.len() == cands.len(),
        forall|v: usize| r@.contains(v) <==> cands@.contains(v),
        forall|i: int| 0 <= i < r.len() ==> r[i] < keys.len(),
        sorted_by_key(bytes_view(keys@), desc, r@),
{
    let ghost kv = bytes_view(keys@);
    let mut r: Vec<usize> = Vec::new();
    let mut i: usize = 0;
    while i < cands.len()
        invariant
            kv == bytes_view(keys@),
            forall|k: int| 0 <= k < cands.len() ==> cands[k] < keys.len(),
            forall|k: int, j: int| 0 <= k < j < cands.len() ==> cands[k] != cands[j],
            i <= cands.len(),
            r.len() == i,
            forall|v: usize| r@.contains(v) <==> cands@.take(i as int).contains(v),
            forall|k: int| 0 <= k < r.len() ==> r[k] < keys.len(),
            sorted_by_key(kv, desc, r@),
        decreases cands.len() - i,
    {
        let x = cands[i];
        assert(!r@.contains(x)) by {
            if r@.contains(x) {
                let k = choose|k: int| 0 <= k < i && cands@.take(i as int)[k] == x;
                assert(cands[k] == cands[i as int]);
            }
        }
        let mut pos: usize = 0;
        while pos < r.len() && !key_less(keys, desc, x, r[pos])
            invariant
                kv == bytes_view(keys@),
                x < keys.len(),
                !r@.contains(x),
                forall|k: int| 0 <= k < r.len() ==> r[k] < keys.len(),
                pos <= r.len(),
                forall|k: int| 0 <= k < pos ==> key_before(kv, desc, #[trigger] r[k] as int, x as int),
            decreases r.len() - pos,
        {
            proof {
                assert(r@[pos as int] != x);
                lemma_key_order(kv, desc, x as int, r[pos as int] as int, 0);
            }
            pos = pos + 1;
        }
        let ghost old_r = r@;
        r.insert(pos, x);
        proof {
            assert forall|a: int, b: int| 0 <= a < b < r.len() implies key_before(
                kv,
                desc,
                #[trigger] r@[a] as int,
                #[trigger] r@[b] as int,
            ) by {
                if b < pos {
                    assert(r@[a] == old_r[a] && r@[b] == old_r[b]);
                } else if b == pos {
                    assert(r@[a] == old_r[a]);
                } else if a == pos {
                    assert(r@[b] == old_r[b - 1]);
                    if b - 1 > pos {
                        assert(key_before(kv, desc, old_r[pos as int] as int, old_r[b - 1] as int));
                        lemma_key_order(kv, desc, x as int, old_r[pos as int] as int, old_r[b - 1] as int);
                    }
                } else if a < pos {
                    assert(r@[a] == old_r[a] && r@[b] == old_r[b - 1]);
                } else {
                    assert(r@[a] == old_r[a - 1] && r@[b] == old_r[b - 1]);
                }
            }
            assert forall|v: usize| r@.contains(v) <==> cands@.take(i + 1).contains(v) by {
                if r@.contains(v) {
                    let k = choose|k: int| 0 <= k < r.len() && r@[k] == v;
                    if v != x {
                        let k2 = if k < pos {
                            k
                        } else {
                            k - 1
                        };
                        assert(old_r[k2] == v);
                        assert(old_r.contains(v));
                        let m = choose|m: int| 0 <= m < i && cands@.take(i as int)[m] == v;
                        assert(cands@.take(i + 1)[m] == v);
                    } else {
                        assert(cands@.take(i + 1)[i as int] == v);
                    }
                }
                let t = cands@.take(i + 1);
                if t.contains(v) {
                    let m = choose|m: int| 0 <= m < t.len() && t[m] == v;
                    if m < i {
                        assert(cands@.take(i as int)[m] == v);
                        assert(cands@.take(i as int).contains(v));
                        assert(old_r.contains(v));
                        let k = choose|k: int| 0 <= k < old_r.len() && old_r[k] == v;
                        assert(0 <= k < old_r.len() && old_r[k] == v);
                        if k < pos {
                            assert(r@[k] == v);
                        } else {
                            assert(r@[k + 1] == v);
                        }
                    } else {
                        assert(r@[pos as int] == v);
                    }
                }
            }
        }
        i = i + 1;
    }
    assert(cands@.take(cands.len() as int) =~= cands@);
    r
}

/// A directory entry named `name` is a saved version: its extension is `md`,
/// that is, the name ends in `.md` after at least one other byte.
pub open spec fn is_md_name(name: Seq<u8>) -> bool {
    &&& name.len() > 3
    &&& name[name.len() - 3] == 46u8
    &&& name[name.len() - 2] == 109u8
    &&& name[name.len() - 1] == 100u8
}

/// Whether a directory entry name is that of a saved version.
pub fn is_md_file_name(name: &Vec<u8>) -> (r: bool)
    ensures
        r == is_md_name(name@),
{
    let n = name.len();
    n > 3 && name[n - 3] == 46u8 && name[n - 2] == 109u8 && name[n - 1] == 100u8
}

/// The number of version names.
pub open spec fn md_count(names: Seq<Seq<u8>>) -> nat
    decreases names.len(),
{
    if names.len() == 0 {
        0
    } else {
        md_count(names.drop_last()) + if is_md_name(names.last()) {
            1nat
        } else {
            0nat
        }
    }
}

/// The automatic saves to delete so that at most `keep` remain: the
/// positions of the version names, oldest (smallest name) first, except the
/// `keep` newest. Nothing is deleted when there are at most `keep`.
pub fn prune_selection(names: &Vec<Vec<u8>>, keep: usize) -> (r: Vec<usize>)
    ensures
        r.len() == (if md_count(bytes_view(names@)) > keep {
            md_count(bytes_view(names@)) - keep
        } else {
            0
        }),
        forall|k: int| 0 <= k < r.len() ==> (#[trigger] r[k]) < names.len() && is_md_name(names@[r[k] as int]@),
        sorted_by_key(bytes_view(names@), false, r@),
        forall|k: int, j: usize|
            0 <= k < r.len() && j < names.len() && is_md_name(names@[j as int]@) && !r@.contains(j)
                ==> #[trigger] key_before(bytes_view(names@), false, r[k] as int, j as int),
{
    let ghost nv = bytes_view(names@);
    let mut md: Vec<usize> = Vec::new();
    let mut i: usize = 0;
    while i < names.len()
        invariant
            nv == bytes_view(names@),
            i <= names.len(),
            md.len() == md_count(nv.take(i as int)),
            forall|k: int| 0 <= k < md.len() ==> md[k] < i,
            forall|k: int| 0 <= k < md.len() ==> is_md_name(#[trigger] nv[md[k] as int]),
            forall|a: int, b: int| 0 <= a < b < md.len() ==> md[a] < md[b],
            forall|j: usize| j < i && #[trigger] is_md_name(nv[j as int]) ==> md@.contains(j),
        decreases names.len() - i,
    {
        assert(nv.take(i + 1).drop_last() =~= nv.take(i as int));
        assert(nv[i as int] == names@[i as int]@);
        if is_md_file_name(&names[i]) {
            let ghost before = md@;
            md.push(i);
            assert forall|j: usize| j < i + 1 && is_md_name(nv[j as int]) implies md@.contains(j) by {
                if j < i {
                    let k = choose|k: int| 0 <= k < before.len() && before[k] == j;
                    assert(md@[k] == j);
                } else {
                    assert(md@[before.len() as int] == j);
                }
            }
        }
        i = i + 1;
    }
    assert(nv.take(names.len() as int) =~= nv);
    let sorted = sort_candidates(names, &md, false);
    let cut: usize = if md.len() > keep {
        md.len() - keep
    } else {
        0
    };
    let mut r: Vec<usize> = Vec::new();
    let mut k: usize = 0;
    while k < cut
        invariant
            k <= cut <= sorted.len(),
            r@ == sorted@.take(k as int),
        decreases cut - k,
    {
        r.push(sorted[k]);
        k = k + 1;
        assert(r@ =~= sorted@.take(k as int));
    }
    proof {
        assert forall|q: int| 0 <= q < r.len() implies (#[trigger] r[q]) < names.len() && is_md_name(
            names@[r[q] as int]@,
        ) by {
            assert(sorted@.contains(r@[q]));
            let m = choose|m: int| 0 <= m < md.len() && md@[m] == r@[q];
            assert(is_md_name(nv[md[m] as int]));
        }
        assert forall|q: int, j: usize|
            0 <= q < r.len() && j < names.len() && is_md_name(names@[j as int]@) && !r@.contains(j)
                implies #[trigger] key_before(nv, false, r[q] as int, j as int) by {
            assert(nv[j as int] == names@[j as int]@);
            assert(md@.contains(j));
            assert(sorted@.contains(j));
            let p = choose|p: int| 0 <= p < sorted.len() && sorted@[p] == j;
            if p < cut {
                assert(r@[p] == j);
            }
            assert(r@[q] == sorted@[q]);
        }
    }
    r
}

/// The version id of a directory entry named `name`: the name without its
/// `.md` extension, when it has one.
pub open spec fn md_stem(name: Seq<char>) -> Option<Seq<char>> {
    if name.len() > 3 && name.skip(name.len() - 3) == seq!['.', 'm', 'd'] {
        Some(name.take(name.len() - 3))
    } else {
        None
    }
}

/// The entry listed for the directory entry `name` of a version directory
/// whose versions come from `source`: its id is the name without `.md`, its
/// label the id's label; names without that extension are not versions.
pub fn history_entry(name: &str, source: &str) -> (r: Option<VersionEntry>)
    ensures
        match md_stem(name@) {
            Some(stem) => r matches Some(e) && e.version_id@ == stem && e.source@ == source@
                && e.label@ == spec_version_label(stem),
            None => r is None,
        },
{
    let chars = str_chars(name);
    let n = chars.len();
    if n > 3 && chars[n - 3] == '.' && chars[n - 2] == 'm' && chars[n - 1] == 'd' {
        assert(name@.skip(n - 3) =~= seq!['.', 'm', 'd']);
        let mut stem: Vec<char> = Vec::new();
        push_range(&mut stem, &chars, 0, n - 3);
        assert(stem@ =~= name@.take(n - 3));
        let version_id = string_from_chars(&stem);
        let label = version_label(version_id.as_str());
        Some(VersionEntry { version_id, source: String::from_str(source), label })
    } else {
        proof {
            if n > 3 && name@.skip(n - 3) == seq!['.', 'm', 'd'] {
                assert(name@.skip(n - 3)[0] == chars@[n - 3]);
                assert(name@.skip(n - 3)[1] == chars@[n - 2]);
                assert(name@.skip(n - 3)[2] == chars@[n - 1]);
            }
        }
        None
    }
}

/// The UTF-8 bytes of each entry's version id, by which entries are listed.
pub open spec fn id_keys(entries: Seq<VersionEntry>) -> Seq<Seq<u8>> {
    Seq::new(entries.len(), |i: int| encode_utf8(entries[i].version_id@))
}

/// A copy of an entry.
pub fn copy_entry(e: &VersionEntry) -> (r: VersionEntry)
    ensures
        r == *e,
{
    VersionEntry { version_id: e.version_id.clone(), source: e.source.clone(), label: e.label.clone() }
}

/// The entries newest first: sorted by version id, largest first, entries with
/// equal ids keeping their order.
pub fn newest_first(entries: &Vec<VersionEntry>) -> (r: Vec<VersionEntry>)
    ensures
        r.len() == entries.len(),
        exists|p: Seq<usize>|
            {
                &&& p.len() == entries.len()
                &&& sorted_by_key(id_keys(entries@), true, p)
                &&& forall|k: int|
                    0 <= k < p.len() ==> p[k] < entries.len() && #[trigger] r@[k] == entries@[p[k] as int]
            },
{
    let mut keys: Vec<Vec<u8>> = Vec::new();
    let mut cands: Vec<usize> = Vec::new();
    let mut i: usize = 0;
    while i < entries.len()
        invariant
            i <= entries.len(),
            keys.len() == i,
            cands.len() == i,
            forall|k: int| 0 <= k < i ==> #[trigger] keys@[k]@ == encode_utf8(entries@[k].version_id@),
            forall|k: int| 0 <= k < i ==> #[trigger] cands@[k] == k,
        decreases entries.len() - i,
    {
        keys.push(entries[i].version_id.as_str().as_bytes_vec());
        cands.push(i);
        i = i + 1;
    }
    assert(bytes_view(keys@) =~= id_keys(entries@));
    let order = sort_candidates(&keys, &cands, true);
    let mut r: Vec<VersionEntry> = Vec::new();
    let mut k: usize = 0;
    while k < order.len()
        invariant
            k <= order.len() == entries.len(),
            forall|q: int| 0 <= q < order.len() ==> order[q] < entries.len(),
            r.len() == k,
            forall|q: int| 0 <= q < k ==> #[trigger] r@[q] == entries@[order@[q] as int],
        decreases order.len() - k,
    {
        r.push(copy_entry(&entries[order[k]]));
        k = k + 1;
    }
    assert(order@.len() == entries.len() && sorted_by_key(id_keys(entries@), true, order@) && forall|q: int|
        0 <= q < order@.len() ==> order@[q] < entries.len() && #[trigger] r@[q] == entries@[order@[q] as int]);
    r
}

/// The name of a version file: the document's file name and a dot when there
/// is one (manual saves beside the document), the version id, and `.md`.
pub fn version_file_name(file_name: Option<&str>, version_id: &str) -> (r: String)
    ensures
        r@ == (match file_name {
            Some(f) => f@ + seq!['.'],
            None => Seq::<char>::empty(),
        }) + version_id@ + seq!['.', 'm', 'd'],
{
    let mut out: Vec<char> = Vec::new();
    match file_name {
        Some(f) => {
            push_str(&mut out, f);
            out.push('.');
        },
        None => {},
    }
    push_str(&mut out, version_id);
    out.push('.');
    out.push('m');
    out.push('d');
    assert(out@ =~= (match file_name {
        Some(f) => f@ + seq!['.'],
        None => Seq::<char>::empty(),
    }) + version_id@ + seq!['.', 'm', 'd']);
    string_from_chars(&out)
}

} // verus!
