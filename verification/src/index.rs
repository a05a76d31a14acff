//! The content index of the tile library.
//!
//! One entry per library file that decoded as an image: its path, the
//! fingerprint of its bytes, and its average color. A refresh walks a
//! snapshot of the directory (every file's path and bytes), drops entries
//! whose file is gone, reuses entries whose fingerprint is unchanged, and
//! recomputes the rest, skipping files that do not decode.
use vstd::prelude::*;
use crate::color::average_color;
use crate::color::average_of;
use crate::fingerprint::md5_hex;
use crate::fingerprint::md5_hex_of;
use crate::image_data::to_triples;
use crate::image_data::triples_of;
use crate::imagery::decode_rgb;
use crate::imagery::decode_rgb_of;

verus! {

/// The per-file record: fingerprint and average color.
#[derive(Debug)]
pub struct IndexData {
    /// Lowercase hex fingerprint of the file's bytes.
    pub hash: Vec<u8>,
    /// Root-mean-square average color of the decoded image.
    pub average: (u8, u8, u8),
}

/// One indexed library file.
#[derive(Debug)]
pub struct IndexEntry {
    pub path: Vec<u8>,
    pub data: IndexData,
}

/// The mathematical shadow of an entry: plain sequences and a color.
#[verifier::ext_equal]
pub ghost struct EntryModel {
    pub path: Seq<u8>,
    pub hash: Seq<u8>,
    pub average: (u8, u8, u8),
}

impl View for IndexEntry {
    type V = EntryModel;

    open spec fn view(&self) -> EntryModel {
        EntryModel { path: self.path@, hash: self.data.hash@, average: self.data.average }
    }
}

/// The index: entries with pairwise distinct paths, in scan order.
#[derive(Debug)]
pub struct ContentIndex {
    pub entries: Vec<IndexEntry>,
}

impl View for ContentIndex {
    type V = Seq<EntryModel>;

    open spec fn view(&self) -> Seq<EntryModel> {
        self.entries@.map_values(|e: IndexEntry| e@)
    }
}

/// The entry for `path`, if any; scans from the back, which is the unique
/// match whenever the paths are distinct.
pub open spec fn lookup(s: Seq<EntryModel>, path: Seq<u8>) -> Option<EntryModel>
    decreases s.len(),
{
    if s.len() == 0 {
        None
    } else if s.last().path == path {
        Some(s.last())
    } else {
        lookup(s.drop_last(), path)
    }
}

impl ContentIndex {
    /// No two entries share a path.
    pub open spec fn wf(&self) -> bool {
        forall|i: int, j: int|
            0 <= i < j < self@.len() ==> self@[i].path != self@[j].path
    }

    /// An index with no entries at all.
    pub fn empty() -> (r: ContentIndex)
        ensures
            r@ =~= Seq::<EntryModel>::empty(),
            r.wf(),
    {
        ContentIndex { entries: Vec::new() }
    }

    /// Finds the entry for a path by a linear scan.
    pub fn get<'a>(&'a self, path: &Vec<u8>) -> (r: Option<&'a IndexEntry>)
        requires
            self.wf(),
        ensures
            match r {
                Some(e) => lookup(self@, path@) == Some(e@),
                None => lookup(self@, path@) == None::<EntryModel>,
            },
    {
        let n: usize = self.entries.len();
        let mut i: usize = 0;
        while i < n
            invariant
                0 <= i <= n,
                n == self.entries@.len(),
                self.wf(),
                forall|k: int| 0 <= k < i ==> self@[k].path != path@,
            decreases n - i,
        {
            if bytes_eq(&self.entries[i].path, path) {
                proof {
                    lemma_lookup_found(self@, path@, i as int);
                }
                return Some(&self.entries[i]);
            }
            i = i + 1;
        }
        proof {
            lemma_lookup_none(self@, path@);
        }
        None
    }
}

/// Byte-string equality.
pub fn bytes_eq(a: &Vec<u8>, b: &Vec<u8>) -> (r: bool)
    ensures
        r <==> a@ == b@,
{
    let n: usize = a.len();
    if n != b.len() {
        proof {
            assert(a@.len() != b@.len());
        }
        return false;
    }
    let mut i: usize = 0;
    while i < n
        invariant
            0 <= i <= n,
            n == a@.len(),
            n == b@.len(),
            forall|k: int| 0 <= k < i ==> a@[k] == b@[k],
        decreases n - i,
    {
        if a[i] != b[i] {
            return false;
        }
        i = i + 1;
    }
    proof {
        assert(a@ =~= b@);
    }
    true
}

/// Copies a byte string.
pub fn copy_bytes(v: &Vec<u8>) -> (r: Vec<u8>)
    ensures
        r@ == v@,
{
    let n: usize = v.len();
    let mut out: Vec<u8> = Vec::new();
    let mut i: usize = 0;
    while i < n
        invariant
            0 <= i <= n,
            n == v@.len(),
            out@ == v@.take(i as int),
        decreases n - i,
    {
        out.push(v[i]);
        proof {
            assert(out@ =~= v@.take(i + 1));
        }
        i = i + 1;
    }
    proof {
        assert(v@.take(n as int) =~= v@);
    }
    out
}

/// When an entry at `i` matches and paths are distinct, the scan from the
/// back finds exactly that entry.
proof fn lemma_lookup_found(s: Seq<EntryModel>, path: Seq<u8>, i: int)
    requires
        0 <= i < s.len(),
        s[i].path == path,
        forall|p: int, q: int| 0 <= p < q < s.len() ==> s[p].path != s[q].path,
    ensures
        lookup(s, path) == Some(s[i]),
    decreases s.len(),
{
    if i == s.len() - 1 {
    } else {
        assert(s.last().path != path);
        lemma_lookup_found(s.drop_last(), path, i);
    }
}

/// When no entry matches, the scan finds nothing.
proof fn lemma_lookup_none(s: Seq<EntryModel>, path: Seq<u8>)
    requires
        forall|k: int| 0 <= k < s.len() ==> s[k].path != path,
    ensures
        lookup(s, path) == None::<EntryModel>,
    decreases s.len(),
{
    if s.len() > 0 {
        lemma_lookup_none(s.drop_last(), path);
    }
}

/// A directory snapshot: each file's path and raw bytes, as sequences.
pub open spec fn file_views(files: Seq<(Vec<u8>, Vec<u8>)>) -> Seq<(Seq<u8>, Seq<u8>)> {
    files.map_values(|f: (Vec<u8>, Vec<u8>)| (f.0@, f.1@))
}

/// No two files of a snapshot share a path.
pub open spec fn distinct_paths(fs: Seq<(Seq<u8>, Seq<u8>)>) -> bool {
    forall|i: int, j: int| 0 <= i < j < fs.len() ==> fs[i].0 != fs[j].0
}

/// What one scanned file contributes to the refreshed index. The file's
/// fingerprint is always recomputed from its current bytes; the stored
/// average is reused exactly when the stored fingerprint still matches,
/// and otherwise the entry is rebuilt from the decoded image — or dropped
/// when the bytes no longer decode to a non-empty picture.
pub open spec fn refreshed_data(
    old_entry: Option<EntryModel>,
    path: Seq<u8>,
    bytes: Seq<u8>,
) -> Option<EntryModel> {
    let h = md5_hex_of(bytes);
    if old_entry matches Some(e) && old_entry.unwrap().hash == h {
        Some(EntryModel { path, hash: h, average: old_entry.unwrap().average })
    } else {
        match decode_rgb_of(bytes) {
            Some((w, ht, raw)) => if w > 0 && ht > 0 {
                Some(EntryModel { path, hash: h, average: average_of(triples_of(raw)) })
            } else {
                None
            },
            None => None,
        }
    }
}

/// The refreshed index of a snapshot: the contributions of the scanned
/// files, in scan order. Entries of the previous index whose path is not in
/// the snapshot simply never reappear.
pub open spec fn refresh_spec(old: Seq<EntryModel>, fs: Seq<(Seq<u8>, Seq<u8>)>) -> Seq<EntryModel>
    decreases fs.len(),
{
    if fs.len() == 0 {
        Seq::empty()
    } else {
        let prev = refresh_spec(old, fs.drop_last());
        match refreshed_data(lookup(old, fs.last().0), fs.last().0, fs.last().1) {
            Some(e) => prev.push(e),
            None => prev,
        }
    }
}

/// Every refreshed entry stems from a scanned file: it carries that file's
/// path and is exactly what `refreshed_data` yields for it.
pub proof fn lemma_refresh_sources(old: Seq<EntryModel>, fs: Seq<(Seq<u8>, Seq<u8>)>)
    ensures
        forall|k: int|
            #![trigger refresh_spec(old, fs)[k]]
            0 <= k < refresh_spec(old, fs).len() ==> exists|j: int|
                #![trigger fs[j]]
                0 <= j < fs.len() && refresh_spec(old, fs)[k].path == fs[j].0 && refreshed_data(
                    lookup(old, fs[j].0),
                    fs[j].0,
                    fs[j].1,
                ) == Some(refresh_spec(old, fs)[k]),
    decreases fs.len(),
{
    if fs.len() > 0 {
        lemma_refresh_sources(old, fs.drop_last());
        let prev = refresh_spec(old, fs.drop_last());
        assert forall|k: int|
            #![trigger refresh_spec(old, fs)[k]]
        0 <= k < refresh_spec(old, fs).len() implies exists|j: int|
            #![trigger fs[j]]
            0 <= j < fs.len() && refresh_spec(old, fs)[k].path == fs[j].0 && refreshed_data(
                lookup(old, fs[j].0),
                fs[j].0,
                fs[j].1,
            ) == Some(refresh_spec(old, fs)[k]) by {
            if k < prev.len() {
                let j0 = choose|j: int|
                    0 <= j < fs.drop_last().len() && prev[k].path == fs.drop_last()[j].0
                        && refreshed_data(
                        lookup(old, fs.drop_last()[j].0),
                        fs.drop_last()[j].0,
                        fs.drop_last()[j].1,
                    ) == Some(prev[k]);
                assert(fs.drop_last()[j0] == fs[j0]);
                assert(refresh_spec(old, fs)[k] == prev[k]);
            } else {
                let j1 = fs.len() - 1;
                assert(refresh_spec(old, fs)[k].path == fs[j1].0 && refreshed_data(
                    lookup(old, fs[j1].0),
                    fs[j1].0,
                    fs[j1].1,
                ) == Some(refresh_spec(old, fs)[k]));
            }
        }
    }
}

/// A refresh over distinct file paths yields entries with distinct paths.
pub proof fn lemma_refresh_distinct(old: Seq<EntryModel>, fs: Seq<(Seq<u8>, Seq<u8>)>)
    requires
        distinct_paths(fs),
    ensures
        forall|i: int, j: int|
            0 <= i < j < refresh_spec(old, fs).len() ==> refresh_spec(old, fs)[i].path
                != refresh_spec(old, fs)[j].path,
    decreases fs.len(),
{
    if fs.len() > 0 {
        assert(distinct_paths(fs.drop_last())) by {
            assert(forall|i: int, j: int|
                0 <= i < j < fs.drop_last().len() ==> fs.drop_last()[i] == fs[i]
                    && fs.drop_last()[j] == fs[j]);
        }
        lemma_refresh_distinct(old, fs.drop_last());
        lemma_refresh_sources(old, fs.drop_last());
        let prev = refresh_spec(old, fs.drop_last());
        let r = refresh_spec(old, fs);
        assert forall|i: int, j: int| 0 <= i < j < r.len() implies r[i].path != r[j].path by {
            if j < prev.len() {
            } else if j == prev.len() && r.len() > prev.len() {
                let jj = choose|jj: int|
                    0 <= jj < fs.drop_last().len() && prev[i].path == fs.drop_last()[jj].0
                        && refreshed_data(
                        lookup(old, fs.drop_last()[jj].0),
                        fs.drop_last()[jj].0,
                        fs.drop_last()[jj].1,
                    ) == Some(prev[i]);
                assert(fs.drop_last()[jj] == fs[jj]);
                assert(r[j].path == fs[fs.len() - 1].0);
                assert(fs[jj].0 != fs[fs.len() - 1].0);
            }
        }
    }
}

/// After a refresh, every entry's fingerprint reflects the current bytes
/// of its file: each entry stems from a scanned file and carries that
/// file's fingerprint, whether the entry was reused or rebuilt.
pub proof fn lemma_refresh_fingerprints_current(old: Seq<EntryModel>, fs: Seq<(Seq<u8>, Seq<u8>)>)
    ensures
        forall|k: int|
            #![trigger refresh_spec(old, fs)[k]]
            0 <= k < refresh_spec(old, fs).len() ==> exists|j: int|
                #![trigger fs[j]]
                0 <= j < fs.len() && refresh_spec(old, fs)[k].path == fs[j].0 && refresh_spec(
                    old,
                    fs,
                )[k].hash == md5_hex_of(fs[j].1),
{
    lemma_refresh_sources(old, fs);
    let r = refresh_spec(old, fs);
    assert forall|k: int|
        #![trigger refresh_spec(old, fs)[k]]
        0 <= k < r.len() implies exists|j: int|
        #![trigger fs[j]]
        0 <= j < fs.len() && r[k].path == fs[j].0 && r[k].hash == md5_hex_of(fs[j].1) by {
        let j = choose|j: int|
            #![trigger fs[j]]
            0 <= j < fs.len() && r[k].path == fs[j].0 && refreshed_data(
                lookup(old, fs[j].0),
                fs[j].0,
                fs[j].1,
            ) == Some(r[k]);
        assert(r[k].hash == md5_hex_of(fs[j].1));
    }
}

/// Deletion: a path that is absent from the directory snapshot has no
/// entry after the refresh, whatever the previous index held for it.
pub proof fn lemma_deleted_entry_dropped(
    old: Seq<EntryModel>,
    fs: Seq<(Seq<u8>, Seq<u8>)>,
    path: Seq<u8>,
)
    requires
        forall|j: int| 0 <= j < fs.len() ==> fs[j].0 != path,
    ensures
        lookup(refresh_spec(old, fs), path) == None::<EntryModel>,
{
    lemma_refresh_sources(old, fs);
    let r = refresh_spec(old, fs);
    assert forall|k: int| 0 <= k < r.len() implies r[k].path != path by {
        let j = choose|j: int|
            0 <= j < fs.len() && r[k].path == fs[j].0 && refreshed_data(
                lookup(old, fs[j].0),
                fs[j].0,
                fs[j].1,
            ) == Some(r[k]);
    }
    lemma_lookup_none(r, path);
}

/// Looking a scanned file's path up in the refreshed index gives exactly
/// that file's contribution.
pub proof fn lemma_refresh_lookup(old: Seq<EntryModel>, fs: Seq<(Seq<u8>, Seq<u8>)>, j: int)
    requires
        distinct_paths(fs),
        0 <= j < fs.len(),
    ensures
        lookup(refresh_spec(old, fs), fs[j].0) == refreshed_data(
            lookup(old, fs[j].0),
            fs[j].0,
            fs[j].1,
        ),
    decreases fs.len(),
{
    let r = refresh_spec(old, fs);
    let prev = refresh_spec(old, fs.drop_last());
    assert(distinct_paths(fs.drop_last())) by {
        assert(forall|p: int, q: int|
            0 <= p < q < fs.drop_last().len() ==> fs.drop_last()[p] == fs[p] && fs.drop_last()[q]
                == fs[q]);
    }
    if j == fs.len() - 1 {
        match refreshed_data(lookup(old, fs.last().0), fs.last().0, fs.last().1) {
            Some(e) => {
                assert(r == prev.push(e));
                assert(r.last() == e);
                assert(e.path == fs.last().0);
            },
            None => {
                assert(forall|q: int| 0 <= q < fs.drop_last().len() ==> fs.drop_last()[q]
                    == fs[q]);
                lemma_deleted_entry_dropped(old, fs.drop_last(), fs.last().0);
            },
        }
    } else {
        lemma_refresh_lookup(old, fs.drop_last(), j);
        assert(fs.drop_last()[j] == fs[j]);
        match refreshed_data(lookup(old, fs.last().0), fs.last().0, fs.last().1) {
            Some(e) => {
                assert(r == prev.push(e));
                assert(e.path == fs.last().0);
                assert(fs[j].0 != fs.last().0);
                assert(r.drop_last() =~= prev);
            },
            None => {},
        }
    }
}

/// One file's contribution is stable: feeding it back as the stored entry
/// and refreshing against the same bytes reproduces it, because the stored
/// fingerprint is then the fingerprint of the bytes.
proof fn lemma_refreshed_stable(old_entry: Option<EntryModel>, path: Seq<u8>, bytes: Seq<u8>)
    ensures
        refreshed_data(refreshed_data(old_entry, path, bytes), path, bytes) == refreshed_data(
            old_entry,
            path,
            bytes,
        ),
{
}

/// Round-trip half one: refreshing a just-refreshed index against the same
/// unchanged snapshot reproduces it entry for entry — every fingerprint is
/// current, so every entry is reused.
pub proof fn lemma_refresh_idempotent(old: Seq<EntryModel>, fs: Seq<(Seq<u8>, Seq<u8>)>)
    requires
        distinct_paths(fs),
    ensures
        refresh_spec(refresh_spec(old, fs), fs) == refresh_spec(old, fs),
{
    let r = refresh_spec(old, fs);
    lemma_refresh_prefix_stable(old, fs, fs);
}

/// Helper for idempotence: refreshing any prefix of the snapshot against
/// the full refreshed index reproduces that prefix's refresh.
proof fn lemma_refresh_prefix_stable(
    old: Seq<EntryModel>,
    fs: Seq<(Seq<u8>, Seq<u8>)>,
    prefix: Seq<(Seq<u8>, Seq<u8>)>,
)
    requires
        distinct_paths(fs),
        prefix.len() <= fs.len(),
        forall|i: int| 0 <= i < prefix.len() ==> prefix[i] == fs[i],
    ensures
        refresh_spec(refresh_spec(old, fs), prefix) == refresh_spec(old, prefix),
    decreases prefix.len(),
{
    let r = refresh_spec(old, fs);
    if prefix.len() > 0 {
        lemma_refresh_prefix_stable(old, fs, prefix.drop_last());
        let j = prefix.len() - 1;
        assert(prefix.last() == fs[j]);
        lemma_refresh_lookup(old, fs, j);
        lemma_refreshed_stable(lookup(old, fs[j].0), fs[j].0, fs[j].1);
        assert(forall|i: int| 0 <= i < prefix.drop_last().len() ==> prefix.drop_last()[i]
            == prefix[i]);
    }
}

/// Change detection: when the stored fingerprint of a scanned file differs
/// from the fingerprint of its current bytes, the refreshed entry is
/// recomputed from the decoded image — or absent when the bytes no longer
/// decode — never the stale record under the new fingerprint.
pub proof fn lemma_change_forces_recompute(
    old: Seq<EntryModel>,
    fs: Seq<(Seq<u8>, Seq<u8>)>,
    j: int,
)
    requires
        distinct_paths(fs),
        0 <= j < fs.len(),
        lookup(old, fs[j].0) matches Some(e) && e.hash != md5_hex_of(fs[j].1),
    ensures
        lookup(refresh_spec(old, fs), fs[j].0) == match decode_rgb_of(fs[j].1) {
            Some((w, h, raw)) => if w > 0 && h > 0 {
                Some(
                    EntryModel {
                        path: fs[j].0,
                        hash: md5_hex_of(fs[j].1),
                        average: average_of(triples_of(raw)),
                    },
                )
            } else {
                None
            },
            None => None,
        },
{
    lemma_refresh_lookup(old, fs, j);
}

/// Refreshes one file's entry against the previous index: the fingerprint
/// of the bytes is computed, the stored average is reused when the stored
/// fingerprint still matches, otherwise the bytes are decoded and measured
/// afresh, and a file that no longer decodes to a non-empty picture yields
/// nothing. Per-file work is independent, so a caller may run this across
/// its worker pool, one file per unit, and assemble the index.
pub fn refresh_entry(old: &ContentIndex, path: &Vec<u8>, bytes: &Vec<u8>) -> (r: Option<
    IndexEntry,
>)
    requires
        old.wf(),
    ensures
        match r {
            Some(e) => refreshed_data(lookup(old@, path@), path@, bytes@) == Some(e@),
            None => refreshed_data(lookup(old@, path@), path@, bytes@) == None::<EntryModel>,
        },
{
    let h = md5_hex(bytes);
    let ghost old_entry = lookup(old@, path@);
    match old.get(path) {
        Some(e) => {
            if bytes_eq(&e.data.hash, &h) {
                let entry = IndexEntry {
                    path: copy_bytes(path),
                    data: IndexData { hash: h, average: e.data.average },
                };
                proof {
                    assert(refreshed_data(old_entry, path@, bytes@) == Some(entry@));
                }
                return Some(entry);
            }
        },
        None => {},
    }
    match decode_rgb(bytes) {
        Some((w, ht, raw)) => {
            if w > 0 && ht > 0 {
                let ghost m = (w as int) * (ht as int);
                proof {
                    assert(m > 0) by (nonlinear_arith)
                        requires m == (w as int) * (ht as int), w >= 1, ht >= 1;
                    assert(3 * (w as int) * (ht as int) == 3 * m) by (nonlinear_arith)
                        requires m == (w as int) * (ht as int);
                    assert((3 * m) % 3 == 0 && (3 * m) / 3 == m) by (nonlinear_arith)
                        requires m >= 0;
                }
                let pixels = to_triples(&raw);
                let avg = average_color(&pixels);
                let entry = IndexEntry {
                    path: copy_bytes(path),
                    data: IndexData { hash: h, average: avg },
                };
                proof {
                    assert(refreshed_data(old_entry, path@, bytes@) == Some(entry@));
                }
                Some(entry)
            } else {
                None
            }
        },
        None => None,
    }
}

/// Scans a directory snapshot and rebuilds the index: unchanged files keep
/// their stored average, changed and new files are decoded and measured,
/// files that do not decode are skipped, and entries for files no longer
/// present are dropped.
pub fn refresh(old: &ContentIndex, files: &Vec<(Vec<u8>, Vec<u8>)>) -> (r: ContentIndex)
    requires
        old.wf(),
        distinct_paths(file_views(files@)),
    ensures
        r@ == refresh_spec(old@, file_views(files@)),
        r.wf(),
{
    let ghost fv = file_views(files@);
    let n: usize = files.len();
    let mut entries: Vec<IndexEntry> = Vec::new();
    let mut i: usize = 0;
    while i < n
        invariant
            0 <= i <= n,
            n == files@.len(),
            fv == file_views(files@),
            old.wf(),
            entries@.map_values(|e: IndexEntry| e@) == refresh_spec(old@, fv.take(i as int)),
        decreases n - i,
    {
        let ghost pre = entries@.map_values(|e: IndexEntry| e@);
        let path: &Vec<u8> = &files[i].0;
        let bytes: &Vec<u8> = &files[i].1;
        match refresh_entry(old, path, bytes) {
            Some(entry) => {
                entries.push(entry);
            },
            None => {},
        }
        proof {
            assert(fv.take(i + 1).drop_last() =~= fv.take(i as int));
            assert(fv.take(i + 1).last() == (files@[i as int].0@, files@[i as int].1@));
            let cur = entries@.map_values(|e: IndexEntry| e@);
            match refreshed_data(lookup(old@, path@), path@, bytes@) {
                Some(em) => {
                    assert(cur =~= pre.push(em));
                },
                None => {
                    assert(cur =~= pre);
                },
            }
        }
        i = i + 1;
    }
    proof {
        assert(fv.take(n as int) =~= fv);
        lemma_refresh_distinct(old@, fv);
    }
    ContentIndex { entries }
}

} // verus!
