//! Version detection. Each catalog entry's version list is scanned newest
//! (declared last) first; a version with at least one declared file matches
//! when every declared file has a known on-disk hash equal to the expected
//! one; the first match wins and the scan stops. An entry without a match is
//! the sentinel `???` when any hash was known at all for any file the entry
//! declares, across all its versions — present but unidentifiable — and the
//! empty result ("not installed") when no declared file was ever found on
//! disk.

use vstd::prelude::*;

use crate::cache::find_assoc;
use crate::cache::lookup_assoc;
use crate::config::AppDirs;
use crate::config::DirsModel;
use crate::entry::CatalogEntry;
use crate::entry::EntryModel;
use crate::entry::FileModel;
use crate::entry::VersionModel;
use crate::expand::expand_path_key;
use crate::expand::path_key_spec;

verus! {

/// The known hash of a path, or the empty string where none is known.
pub open spec fn found_hash(hm: Seq<(Seq<char>, Seq<char>)>, key: Seq<char>) -> Seq<char> {
    match lookup_assoc(hm, key) {
        Option::Some(h) => h,
        Option::None => Seq::empty(),
    }
}

/// A declared file carries its expected hash: the expected hash is non-empty
/// and the file's known on-disk hash equals it exactly.
pub open spec fn file_matches(f: FileModel, dm: DirsModel, hm: Seq<(Seq<char>, Seq<char>)>) -> bool {
    f.hash.len() > 0 && found_hash(hm, path_key_spec(f.path, dm)) == f.hash
}

/// A version matches when it declares at least one file and every declared
/// file carries its expected hash. A version with no files never matches.
pub open spec fn version_matches(
    files: Seq<FileModel>,
    dm: DirsModel,
    hm: Seq<(Seq<char>, Seq<char>)>,
) -> bool {
    files.len() > 0 && forall|k: int| 0 <= k < files.len() ==> file_matches(#[trigger] files[k], dm, hm)
}

/// The newest matching version at or below index `i` (newest declared last,
/// so checked first), if any.
pub open spec fn detect_scan(
    versions: Seq<VersionModel>,
    i: int,
    dm: DirsModel,
    hm: Seq<(Seq<char>, Seq<char>)>,
) -> Option<Seq<char>>
    decreases i + 1,
{
    if i < 0 || i >= versions.len() {
        None
    } else if version_matches(versions[i].files, dm, hm) {
        Some(versions[i].version)
    } else {
        detect_scan(versions, i - 1, dm, hm)
    }
}

/// Some file record the entry declares — in any of its versions — has a
/// known on-disk hash: the entry left a trace on disk.
pub open spec fn entry_present(
    versions: Seq<VersionModel>,
    dm: DirsModel,
    hm: Seq<(Seq<char>, Seq<char>)>,
) -> bool {
    exists|vi: int, fi: int|
        0 <= vi < versions.len() && 0 <= fi < versions[vi].files.len() && found_hash(
            hm,
            path_key_spec((#[trigger] versions[vi].files[fi]).path, dm),
        ).len() > 0
}

/// The detected version of one entry: the newest matching version's label;
/// else the sentinel `???` when any declared file, in any version, had a
/// known hash at all (present but unidentifiable); else the empty string,
/// meaning not installed.
pub open spec fn detect_one(
    e: EntryModel,
    dm: DirsModel,
    hm: Seq<(Seq<char>, Seq<char>)>,
) -> Seq<char> {
    match detect_scan(e.versions, e.versions.len() - 1, dm, hm) {
        Option::Some(label) => label,
        Option::None => if entry_present(e.versions, dm, hm) {
            "???"@
        } else {
            Seq::empty()
        },
    }
}

/// The id-to-detected-version pairs for the whole catalog, in catalog order,
/// entries with an empty id dropped.
pub open spec fn determine_spec(
    entries: Seq<EntryModel>,
    dm: DirsModel,
    hm: Seq<(Seq<char>, Seq<char>)>,
) -> Seq<(Seq<char>, Seq<char>)>
    decreases entries.len(),
{
    if entries.len() == 0 {
        seq![]
    } else {
        let prev = determine_spec(entries.drop_last(), dm, hm);
        let e = entries.last();
        if e.id.len() == 0 {
            prev
        } else {
            prev.push((e.id, detect_one(e, dm, hm)))
        }
    }
}

/// Whether a version's declared files all carry their expected hashes.
fn version_matches_exec(
    files: &Vec<crate::entry::FileRecord>,
    dirs: &AppDirs,
    hashes: &Vec<(String, String)>,
) -> (r: bool)
    ensures
        r == version_matches(files.deep_view(), dirs@, hashes.deep_view()),
{
    let ghost fm = files.deep_view();
    let ghost dm = dirs@;
    let ghost hm = hashes.deep_view();
    proof {
        crate::cache::lemma_vec_deep_view(*files);
    }
    let n = files.len();
    if n == 0 {
        return false;
    }
    for j in 0..n
        invariant
            n == files@.len(),
            fm == files.deep_view(),
            dm == dirs@,
            hm == hashes.deep_view(),
            fm.len() == n,
            forall|k: int| 0 <= k < n ==> fm[k] == files@[k].deep_view(),
            forall|k: int| 0 <= k < j ==> file_matches(#[trigger] fm[k], dm, hm),
    {
        let key = expand_path_key(files[j].path.as_str(), dirs);
        if files[j].hash.as_str().is_empty() {
            assert(!file_matches(fm[j as int], dm, hm));
            return false;
        }
        match find_assoc(hashes, &key) {
            Option::Some(h) => {
                if !(*h == files[j].hash) {
                    assert(!file_matches(fm[j as int], dm, hm));
                    return false;
                }
            },
            Option::None => {
                proof {
                    assert(found_hash(hm, path_key_spec(fm[j as int].path, dm)) =~= Seq::<
                        char,
                    >::empty());
                    assert(!file_matches(fm[j as int], dm, hm));
                }
                return false;
            },
        }
    }
    true
}

/// Whether any file record the entry declares has a known on-disk hash.
fn entry_present_exec(
    versions: &Vec<crate::entry::VersionRecord>,
    dirs: &AppDirs,
    hashes: &Vec<(String, String)>,
) -> (r: bool)
    ensures
        r == entry_present(versions.deep_view(), dirs@, hashes.deep_view()),
{
    let ghost vm = versions.deep_view();
    let ghost dm = dirs@;
    let ghost hm = hashes.deep_view();
    proof {
        crate::cache::lemma_vec_deep_view(*versions);
    }
    let n = versions.len();
    for i in 0..n
        invariant
            n == versions@.len(),
            vm == versions.deep_view(),
            dm == dirs@,
            hm == hashes.deep_view(),
            vm.len() == n,
            forall|k: int| 0 <= k < n ==> vm[k] == versions@[k].deep_view(),
            forall|vi: int, fi: int|
                0 <= vi < i && 0 <= fi < vm[vi].files.len() ==> found_hash(
                    hm,
                    path_key_spec((#[trigger] vm[vi].files[fi]).path, dm),
                ).len() == 0,
    {
        let ghost fm = vm[i as int].files;
        proof {
            crate::cache::lemma_vec_deep_view(versions@[i as int].files);
        }
        let m = versions[i].files.len();
        for j in 0..m
            invariant
                n == versions@.len(),
                vm == versions.deep_view(),
                dm == dirs@,
                hm == hashes.deep_view(),
                vm.len() == n,
                forall|k: int| 0 <= k < n ==> vm[k] == versions@[k].deep_view(),
                i < n,
                m == versions@[i as int].files@.len(),
                fm == vm[i as int].files,
                fm.len() == m,
                forall|k: int|
                    0 <= k < m ==> fm[k] == versions@[i as int].files@[k].deep_view(),
                forall|vi: int, fi: int|
                    0 <= vi < i && 0 <= fi < vm[vi].files.len() ==> found_hash(
                        hm,
                        path_key_spec((#[trigger] vm[vi].files[fi]).path, dm),
                    ).len() == 0,
                forall|fi: int|
                    0 <= fi < j ==> found_hash(
                        hm,
                        path_key_spec((#[trigger] fm[fi]).path, dm),
                    ).len() == 0,
        {
            let key = expand_path_key(versions[i].files[j].path.as_str(), dirs);
            match find_assoc(hashes, &key) {
                Option::Some(h) => {
                    if !h.as_str().is_empty() {
                        assert(found_hash(hm, path_key_spec(fm[j as int].path, dm)).len() > 0);
                        return true;
                    }
                },
                Option::None => {
                    proof {
                        assert(found_hash(hm, path_key_spec(fm[j as int].path, dm)) =~= Seq::<
                            char,
                        >::empty());
                    }
                },
            }
        }
    }
    proof {
        assert(!entry_present(vm, dm, hm));
    }
    false
}

/// The detected version of one catalog entry.
pub fn detect_entry(e: &CatalogEntry, dirs: &AppDirs, hashes: &Vec<(String, String)>) -> (r:
    String)
    ensures
        r@ == detect_one(e.deep_view(), dirs@, hashes.deep_view()),
{
    let ghost vm = e.deep_view().versions;
    let ghost dm = dirs@;
    let ghost hm = hashes.deep_view();
    proof {
        crate::cache::lemma_vec_deep_view(e.versions);
    }
    let n = e.versions.len();
    let mut detected: Option<String> = None;
    let mut i = n;
    while i > 0 && detected.is_none()
        invariant
            n == e.versions@.len(),
            vm == e.deep_view().versions,
            dm == dirs@,
            hm == hashes.deep_view(),
            vm.len() == n,
            forall|k: int| 0 <= k < n ==> vm[k] == e.versions@[k].deep_view(),
            0 <= i <= n,
            detected is None ==> detect_scan(vm, n as int - 1, dm, hm) == detect_scan(
                vm,
                i as int - 1,
                dm,
                hm,
            ),
            detected matches Some(s) ==> detect_scan(vm, n as int - 1, dm, hm) == Some(s@),
        decreases i,
    {
        i -= 1;
        let vr = &e.versions[i];
        proof {
            assert(vm[i as int].files == e.versions@[i as int].files.deep_view());
        }
        if version_matches_exec(&vr.files, dirs, hashes) {
            detected = Some(vr.version.clone());
        }
    }
    match detected {
        Option::Some(s) => s,
        Option::None => {
            if entry_present_exec(&e.versions, dirs, hashes) {
                String::from_str("???")
            } else {
                String::new()
            }
        },
    }
}

/// Detect, for every catalog entry with an id, which version is installed:
/// the newest version whose declared files all carry their expected hashes,
/// the sentinel `???` for an entry that is present but unidentifiable, the
/// empty string for one that is not installed.
pub fn determine_versions(
    entries: &Vec<CatalogEntry>,
    dirs: &AppDirs,
    hashes: &Vec<(String, String)>,
) -> (r: Vec<(String, String)>)
    ensures
        r.deep_view() == determine_spec(entries.deep_view(), dirs@, hashes.deep_view()),
{
    let ghost em = entries.deep_view();
    let ghost dm = dirs@;
    let ghost hm = hashes.deep_view();
    proof {
        crate::cache::lemma_vec_deep_view(*entries);
    }
    let n = entries.len();
    let mut r: Vec<(String, String)> = Vec::new();
    proof {
        assert(em.take(0) =~= Seq::<EntryModel>::empty());
        crate::cache::lemma_vec_deep_view(r);
        assert(r.deep_view() =~= determine_spec(em.take(0), dm, hm));
    }
    for i in 0..n
        invariant
            n == entries@.len(),
            em == entries.deep_view(),
            dm == dirs@,
            hm == hashes.deep_view(),
            em.len() == n,
            forall|k: int| 0 <= k < n ==> em[k] == entries@[k].deep_view(),
            r.deep_view() == determine_spec(em.take(i as int), dm, hm),
    {
        proof {
            assert(em.take(i + 1).drop_last() =~= em.take(i as int));
            assert(em.take(i + 1).last() == em[i as int]);
        }
        if !entries[i].id.as_str().is_empty() {
            let d = detect_entry(&entries[i], dirs, hashes);
            let ghost rd = r.deep_view();
            proof {
                crate::cache::lemma_vec_deep_view(r);
            }
            r.push((entries[i].id.clone(), d));
            proof {
                crate::cache::lemma_vec_deep_view(r);
                assert(r.deep_view() =~= rd.push((em[i as int].id, detect_one(em[i as int], dm, hm))));
            }
        }
    }
    proof {
        assert(em.take(n as int) =~= em);
    }
    r
}

/// The cache keys of a file list, in order.
pub open spec fn files_keys(fs: Seq<FileModel>, dm: DirsModel) -> Seq<Seq<char>> {
    fs.map_values(|f: FileModel| path_key_spec(f.path, dm))
}

/// The cache keys declared by a version list, in order.
pub open spec fn versions_keys(vs: Seq<VersionModel>, dm: DirsModel) -> Seq<Seq<char>>
    decreases vs.len(),
{
    if vs.len() == 0 {
        seq![]
    } else {
        versions_keys(vs.drop_last(), dm) + files_keys(vs.last().files, dm)
    }
}

/// The cache keys declared by a catalog, in order.
pub open spec fn entries_keys(es: Seq<EntryModel>, dm: DirsModel) -> Seq<Seq<char>>
    decreases es.len(),
{
    if es.len() == 0 {
        seq![]
    } else {
        entries_keys(es.drop_last(), dm) + versions_keys(es.last().versions, dm)
    }
}

/// The list with later duplicates dropped: each key keeps its first position.
pub open spec fn dedup_spec(s: Seq<Seq<char>>) -> Seq<Seq<char>>
    decreases s.len(),
{
    if s.len() == 0 {
        seq![]
    } else {
        let r = dedup_spec(s.drop_last());
        if r.contains(s.last()) {
            r
        } else {
            r.push(s.last())
        }
    }
}

/// Whether one of the strings is the given one.
pub fn contains_string(v: &Vec<String>, s: &String) -> (r: bool)
    ensures
        r == v.deep_view().contains(s@),
{
    proof {
        crate::cache::lemma_vec_deep_view(*v);
    }
    let n = v.len();
    for i in 0..n
        invariant
            n == v@.len(),
            v.deep_view().len() == n,
            forall|k: int| 0 <= k < n ==> v.deep_view()[k] == v@[k]@,
            forall|k: int| 0 <= k < i ==> v.deep_view()[k] != s@,
    {
        if v[i] == *s {
            assert(v.deep_view()[i as int] == s@);
            return true;
        }
    }
    false
}

/// Collect every expanded path the catalog declares, once each, first
/// occurrence first: a file shared between entries or versions is statted
/// and hashed a single time.
pub fn collect_unique_paths(entries: &Vec<CatalogEntry>, dirs: &AppDirs) -> (r: Vec<String>)
    ensures
        r.deep_view() == dedup_spec(entries_keys(entries.deep_view(), dirs@)),
{
    let ghost em = entries.deep_view();
    let ghost dm = dirs@;
    proof {
        crate::cache::lemma_vec_deep_view(*entries);
    }
    let n = entries.len();
    let mut r: Vec<String> = Vec::new();
    let ghost mut done = Seq::<Seq<char>>::empty();
    proof {
        assert(em.take(0) =~= Seq::<EntryModel>::empty());
        assert(entries_keys(em.take(0), dm) =~= done);
        crate::cache::lemma_vec_deep_view(r);
        assert(r.deep_view() =~= dedup_spec(done));
    }
    for i in 0..n
        invariant
            n == entries@.len(),
            em == entries.deep_view(),
            dm == dirs@,
            em.len() == n,
            forall|k: int| 0 <= k < n ==> em[k] == entries@[k].deep_view(),
            done == entries_keys(em.take(i as int), dm),
            r.deep_view() == dedup_spec(done),
    {
        let ghost vm = em[i as int].versions;
        let ghost done_e = done;
        proof {
            crate::cache::lemma_vec_deep_view(entries@[i as int].versions);
            assert(vm == entries@[i as int].versions.deep_view());
            assert(vm.take(0) =~= Seq::<VersionModel>::empty());
            assert(versions_keys(vm.take(0), dm) =~= Seq::<Seq<char>>::empty());
            assert(done_e + versions_keys(vm.take(0), dm) =~= done);
        }
        let nv = entries[i].versions.len();
        for j in 0..nv
            invariant
                n == entries@.len(),
                em == entries.deep_view(),
                dm == dirs@,
                em.len() == n,
                forall|k: int| 0 <= k < n ==> em[k] == entries@[k].deep_view(),
                i < n,
                nv == entries@[i as int].versions@.len(),
                vm == em[i as int].versions,
                vm.len() == nv,
                forall|k: int|
                    0 <= k < nv ==> vm[k] == entries@[i as int].versions@[k].deep_view(),
                done == done_e + versions_keys(vm.take(j as int), dm),
                r.deep_view() == dedup_spec(done),
        {
            let ghost fm = vm[j as int].files;
            let ghost done_v = done;
            proof {
                crate::cache::lemma_vec_deep_view(entries@[i as int].versions@[j as int].files);
                assert(fm == entries@[i as int].versions@[j as int].files.deep_view());
                assert(fm.take(0) =~= Seq::<FileModel>::empty());
                assert(files_keys(fm.take(0), dm) =~= Seq::<Seq<char>>::empty());
                assert(done_v + files_keys(fm.take(0), dm) =~= done);
            }
            let nf = entries[i].versions[j].files.len();
            for k in 0..nf
                invariant
                    n == entries@.len(),
                    em == entries.deep_view(),
                    dm == dirs@,
                    em.len() == n,
                    forall|l: int| 0 <= l < n ==> em[l] == entries@[l].deep_view(),
                    i < n,
                    j < nv,
                    nv == entries@[i as int].versions@.len(),
                    vm == em[i as int].versions,
                    vm.len() == nv,
                    forall|l: int|
                        0 <= l < nv ==> vm[l] == entries@[i as int].versions@[l].deep_view(),
                    nf == entries@[i as int].versions@[j as int].files@.len(),
                    fm == vm[j as int].files,
                    fm.len() == nf,
                    forall|l: int|
                        0 <= l < nf ==> fm[l] == entries@[i as int].versions@[j as
                            int].files@[l].deep_view(),
                    done == done_v + files_keys(fm.take(k as int), dm),
                    r.deep_view() == dedup_spec(done),
            {
                let key = expand_path_key(
                    entries[i].versions[j].files[k].path.as_str(),
                    dirs,
                );
                let present = contains_string(&r, &key);
                if !present {
                    let ghost rd = r.deep_view();
                    proof {
                        crate::cache::lemma_vec_deep_view(r);
                    }
                    r.push(key);
                    proof {
                        crate::cache::lemma_vec_deep_view(r);
                        assert(r.deep_view() =~= rd.push(path_key_spec(fm[k as int].path, dm)));
                    }
                } else {
                    proof {
                        assert(dedup_spec(done).contains(path_key_spec(fm[k as int].path, dm)));
                    }
                }
                proof {
                    let x = path_key_spec(fm[k as int].path, dm);
                    let done2 = done.push(x);
                    assert(done2.drop_last() =~= done);
                    assert(done2.last() == x);
                    assert(dedup_spec(done2) == (if dedup_spec(done).contains(x) {
                        dedup_spec(done)
                    } else {
                        dedup_spec(done).push(x)
                    }));
                    done = done2;
                    assert(files_keys(fm.take(k + 1), dm) =~= files_keys(fm.take(k as int), dm).push(
                        x,
                    ));
                    assert(done_v + files_keys(fm.take(k + 1), dm) =~= (done_v + files_keys(
                        fm.take(k as int),
                        dm,
                    )).push(x));
                }
            }
            proof {
                assert(fm.take(nf as int) =~= fm);
                assert(vm.take(j + 1).drop_last() =~= vm.take(j as int));
                assert(vm.take(j + 1).last() == vm[j as int]);
                assert(versions_keys(vm.take(j + 1), dm) == versions_keys(vm.take(j as int), dm)
                    + files_keys(fm, dm));
                assert(done_e + versions_keys(vm.take(j + 1), dm) =~= (done_e + versions_keys(
                    vm.take(j as int),
                    dm,
                )) + files_keys(fm, dm));
                assert(done == done_v + files_keys(fm, dm));
            }
        }
        proof {
            assert(vm.take(nv as int) =~= vm);
            assert(em.take(i + 1).drop_last() =~= em.take(i as int));
            assert(em.take(i + 1).last() == em[i as int]);
            assert(entries_keys(em.take(i + 1), dm) == entries_keys(em.take(i as int), dm)
                + versions_keys(vm, dm));
            assert(done == done_e + versions_keys(vm, dm));
        }
    }
    proof {
        assert(em.take(n as int) =~= em);
    }
    r
}

/// Law: the scan checks the newest version first. An entry declaring an
/// older version with expected hash `h1` and a newer one with `h2` for the
/// same file, where the file's known hash is `h1`, yields the older label:
/// the newer version is checked first, fails, and the older one matches —
/// the result is its label, not the sentinel.
pub proof fn lemma_version_tie_break(
    e: EntryModel,
    a: Seq<char>,
    h1: Seq<char>,
    h2: Seq<char>,
    dm: DirsModel,
    hm: Seq<(Seq<char>, Seq<char>)>,
)
    requires
        e.versions.len() == 2,
        e.versions[0].files == seq![FileModel { path: a, hash: h1 }],
        e.versions[1].files == seq![FileModel { path: a, hash: h2 }],
        lookup_assoc(hm, path_key_spec(a, dm)) == Some(h1),
        h1.len() > 0,
        h1 != h2,
    ensures
        detect_one(e, dm, hm) == e.versions[0].version,
{
    let f1 = e.versions[0].files;
    let f2 = e.versions[1].files;
    assert(f1[0] == FileModel { path: a, hash: h1 });
    assert(f2[0] == FileModel { path: a, hash: h2 });
    assert(found_hash(hm, path_key_spec(a, dm)) == h1);
    assert(!file_matches(f2[0], dm, hm));
    assert(!version_matches(f2, dm, hm));
    assert(file_matches(f1[0], dm, hm));
    assert forall|k: int| 0 <= k < f1.len() implies file_matches(#[trigger] f1[k], dm, hm) by {}
    assert(version_matches(f1, dm, hm));
    assert(detect_scan(e.versions, 0, dm, hm) == Some(e.versions[0].version));
    assert(detect_scan(e.versions, 1, dm, hm) == Some(e.versions[0].version));
}

/// Law: an entry whose single declared file is absent from disk is not
/// installed — the result is the empty string, not the sentinel.
pub proof fn lemma_absent_file_not_installed(
    e: EntryModel,
    a: Seq<char>,
    h: Seq<char>,
    dm: DirsModel,
    hm: Seq<(Seq<char>, Seq<char>)>,
)
    requires
        e.versions.len() == 1,
        e.versions[0].files == seq![FileModel { path: a, hash: h }],
        lookup_assoc(hm, path_key_spec(a, dm)) is None,
    ensures
        detect_one(e, dm, hm) == Seq::<char>::empty(),
{
    let f1 = e.versions[0].files;
    assert(f1[0] == FileModel { path: a, hash: h });
    assert(found_hash(hm, path_key_spec(a, dm)) =~= Seq::<char>::empty());
    assert(!file_matches(f1[0], dm, hm));
    assert(!version_matches(f1, dm, hm));
    assert(detect_scan(e.versions, -1, dm, hm) is None);
    assert(detect_scan(e.versions, 0, dm, hm) is None);
    assert(!entry_present(e.versions, dm, hm)) by {
        assert forall|vi: int, fi: int|
            0 <= vi < e.versions.len() && 0 <= fi < e.versions[vi].files.len() implies found_hash(
            hm,
            path_key_spec((#[trigger] e.versions[vi].files[fi]).path, dm),
        ).len() == 0 by {
            assert(e.versions[vi].files[fi] == FileModel { path: a, hash: h });
        }
    }
}

/// Law: an entry whose single declared file exists on disk but matches no
/// declared hash yields the sentinel, distinct from not installed.
pub proof fn lemma_mismatched_file_unknown(
    e: EntryModel,
    a: Seq<char>,
    h: Seq<char>,
    f: Seq<char>,
    dm: DirsModel,
    hm: Seq<(Seq<char>, Seq<char>)>,
)
    requires
        e.versions.len() == 1,
        e.versions[0].files == seq![FileModel { path: a, hash: h }],
        lookup_assoc(hm, path_key_spec(a, dm)) == Some(f),
        f.len() > 0,
        f != h,
    ensures
        detect_one(e, dm, hm) == "???"@,
{
    let f1 = e.versions[0].files;
    assert(f1[0] == FileModel { path: a, hash: h });
    assert(found_hash(hm, path_key_spec(a, dm)) == f);
    assert(!file_matches(f1[0], dm, hm));
    assert(!version_matches(f1, dm, hm));
    assert(detect_scan(e.versions, -1, dm, hm) is None);
    assert(detect_scan(e.versions, 0, dm, hm) is None);
    assert(entry_present(e.versions, dm, hm)) by {
        assert(found_hash(hm, path_key_spec((e.versions[0].files[0]).path, dm)).len() > 0);
    }
}

/// Law: an entry whose versions leave any trace on disk — any declared file
/// record with a known hash, in any version, even one a failing scan would
/// not reach — is the sentinel when no version matches, never "not
/// installed".
pub proof fn lemma_any_known_file_means_unknown(
    e: EntryModel,
    vi: int,
    fi: int,
    dm: DirsModel,
    hm: Seq<(Seq<char>, Seq<char>)>,
)
    requires
        detect_scan(e.versions, e.versions.len() - 1, dm, hm) is None,
        0 <= vi < e.versions.len(),
        0 <= fi < e.versions[vi].files.len(),
        found_hash(hm, path_key_spec(e.versions[vi].files[fi].path, dm)).len() > 0,
    ensures
        detect_one(e, dm, hm) == "???"@,
{
    assert(entry_present(e.versions, dm, hm)) by {
        assert(found_hash(hm, path_key_spec((e.versions[vi].files[fi]).path, dm)).len() > 0);
    }
}

} // verus!
