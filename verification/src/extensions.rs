//! The PortalCorp extension repository: registration, catalog listing, the
//! archive URL, and suffix-routed installation planning for its zip
//! bundles.

use vstd::prelude::*;
use vstd::string::{StrSliceExecFns, StringExecFns};
use crate::error::ArchiveError;
use crate::registry::{Predicate, Registry, has_same};
use crate::strutil::{spec_ends_with, str_chars, vec_ends_with};

verus! {

/// The base URL this repository serves.
pub open spec fn spec_portal_corp_url() -> Seq<char> {
    "https://github.com/portal-corp/pgvector_compiled"@
}

/// Returns the base URL this repository serves.
pub fn portal_corp_url() -> (r: &'static str)
    ensures
        r@ == spec_portal_corp_url(),
{
    "https://github.com/portal-corp/pgvector_compiled"
}

/// An installable item a repository offers, with its description.
#[derive(Debug)]
pub struct AvailableExtension {
    pub repository: String,
    pub name: String,
    pub description: String,
}

impl AvailableExtension {
    /// Creates a catalog item.
    pub fn new(repository: &str, name: &str, description: &str) -> (r: AvailableExtension)
        ensures
            r.repository@ == repository@,
            r.name@ == name@,
            r.description@ == description@,
    {
        AvailableExtension {
            repository: String::from_str(repository),
            name: String::from_str(name),
            description: String::from_str(description),
        }
    }

    /// The item's name.
    pub fn name(&self) -> (r: &str)
        ensures
            r@ == self.name@,
    {
        self.name.as_str()
    }

    /// The item's description.
    pub fn description(&self) -> (r: &str)
        ensures
            r@ == self.description@,
    {
        self.description.as_str()
    }
}

/// The length of the maximal suffix of `s` without a `/`.
pub open spec fn tail_run(s: Seq<char>) -> int
    decreases s.len(),
{
    if s.len() == 0 {
        0
    } else if s.last() == '/' {
        0
    } else {
        1 + tail_run(s.drop_last())
    }
}

pub proof fn lemma_tail_run(s: Seq<char>)
    ensures
        0 <= tail_run(s) <= s.len(),
        tail_run(s) < s.len() ==> s[s.len() - tail_run(s) - 1] == '/',
        forall|k: int| s.len() - tail_run(s) <= k < s.len() ==> s[k] != '/',
    decreases s.len(),
{
    if s.len() == 0 {
    } else if s.last() == '/' {
    } else {
        let head = s.drop_last();
        lemma_tail_run(head);
        assert forall|k: int| s.len() - tail_run(s) <= k < s.len() implies s[k] != '/' by {
            if k < s.len() - 1 {
                assert(s[k] == head[k]);
            }
        }
    }
}

/// The part of a stored entry name after its last `/`; a name ending in a
/// slash yields an empty file name, which no suffix matches.
pub open spec fn file_name_of(s: Seq<char>) -> Seq<char> {
    s.subrange(s.len() - tail_run(s), s.len() as int)
}

/// Where an entry routes: shared libraries to the library directory,
/// control and SQL scripts to the extension directory, everything else
/// nowhere.
pub open spec fn routes_to_library(name: Seq<char>) -> bool {
    spec_ends_with(file_name_of(name), ".dylib"@) || spec_ends_with(file_name_of(name), ".so"@)
}

pub open spec fn routes_to_extension(name: Seq<char>) -> bool {
    !routes_to_library(name) && (spec_ends_with(file_name_of(name), ".control"@)
        || spec_ends_with(file_name_of(name), ".sql"@))
}

/// The planned destination path of a routed entry: the directory, a
/// slash, and the entry's file name.
pub open spec fn routed_path(name: Seq<char>, dir: Seq<char>) -> Seq<char> {
    dir + "/"@ + file_name_of(name)
}

/// One file the installation will write.
#[derive(Debug)]
pub struct InstallFile {
    pub path: String,
    pub data: Vec<u8>,
}

/// The mathematical image of the files to write.
#[verifier::ext_equal]
pub ghost struct GhostInstallFile {
    pub path: Seq<char>,
    pub data: Seq<u8>,
}

/// The planned installation of the zip entries, in order: each entry
/// routed by the suffix of its file name, the rest ignored.
pub open spec fn spec_install_plan(
    entries: Seq<(Seq<char>, Seq<u8>)>,
    lib_dir: Seq<char>,
    ext_dir: Seq<char>,
) -> Seq<GhostInstallFile>
    decreases entries.len(),
{
    if entries.len() == 0 {
        Seq::empty()
    } else {
        let head = spec_install_plan(entries.drop_last(), lib_dir, ext_dir);
        let (name, data) = entries.last();
        if routes_to_library(name) {
            head.push(GhostInstallFile { path: routed_path(name, lib_dir), data })
        } else if routes_to_extension(name) {
            head.push(GhostInstallFile { path: routed_path(name, ext_dir), data })
        } else {
            head
        }
    }
}

pub open spec fn install_matches(v: Seq<InstallFile>, s: Seq<GhostInstallFile>) -> bool {
    v.len() == s.len() && forall|i: int|
        0 <= i < v.len() ==> (#[trigger] v[i]).path@ == s[i].path && v[i].data@ == s[i].data
}

/// How many entries the zip archive holds, when the bytes parse as a zip
/// archive; nothing otherwise.
pub uninterp spec fn zip_entry_count_of(b: Seq<u8>) -> Option<int>;

/// The name and decompressed contents of the zip archive's entry `i`, when
/// the bytes parse and that entry is readable; nothing otherwise.
pub uninterp spec fn zip_entry_of(b: Seq<u8>, i: int) -> Option<(Seq<char>, Seq<u8>)>;

/// Relies on zip's `ZipArchive::new` and `len` over an in-memory cursor:
/// the number of entries, and whether the bytes parse at all, is a function
/// of the bytes alone; malformed bytes are reported as an error, never a
/// panic.
#[verifier::external_body]
fn zip_len(bytes: &Vec<u8>) -> (r: Result<usize, ArchiveError>)
    ensures
        r is Ok <==> zip_entry_count_of(bytes@) is Some,
        r is Ok ==> r.unwrap() as int == zip_entry_count_of(bytes@).unwrap(),
{
    match zip::ZipArchive::new(std::io::Cursor::new(bytes.as_slice())) {
        Ok(a) => Ok(a.len()),
        Err(_) => Err(ArchiveError::ExtractionError(String::from_str("cannot read zip archive"))),
    }
}

/// Relies on zip's `ZipArchive::by_index`, `ZipFile::name` and its `Read`
/// impl: entry `i`'s name and decompressed contents, and whether reading
/// them succeeds, are a function of the bytes and the index alone; a
/// malformed archive or an unreadable entry is reported as an error, never
/// a panic.
#[verifier::external_body]
fn zip_entry(bytes: &Vec<u8>, i: usize) -> (r: Result<(String, Vec<u8>), ArchiveError>)
    ensures
        r is Ok <==> zip_entry_of(bytes@, i as int) is Some,
        r is Ok ==> r.unwrap().0@ == zip_entry_of(bytes@, i as int).unwrap().0 && r.unwrap().1@
            == zip_entry_of(bytes@, i as int).unwrap().1,
{
    let err = || ArchiveError::ExtractionError(String::from_str("cannot read zip entry"));
    let mut archive = zip::ZipArchive::new(std::io::Cursor::new(bytes.as_slice())).map_err(
        |_| err(),
    )?;
    let mut file = archive.by_index(i).map_err(|_| err())?;
    let name = file.name().to_string();
    let mut data: Vec<u8> = Vec::new();
    std::io::Read::read_to_end(&mut file, &mut data).map_err(|_| err())?;
    Ok((name, data))
}

/// Returns the index where the file-name part of an entry name starts:
/// just after the last slash.
fn file_name_start(name: &str) -> (i: usize)
    ensures
        i <= name@.len(),
        name@.subrange(i as int, name@.len() as int) == file_name_of(name@),
{
    let chars = str_chars(name);
    let n = chars.len();
    proof {
        lemma_tail_run(name@);
    }
    let mut i: usize = n;
    #[verifier::loop_isolation(false)]
    while i > 0 && chars[i - 1] != '/'
        invariant
            i <= n,
            n == name@.len(),
            chars@ == name@,
            forall|k: int| i <= k < n ==> name@[k] != '/',
        decreases i,
    {
        i = i - 1;
    }
    proof {
        if (n - i) < tail_run(name@) {
            assert(name@[i as int - 1] != '/');
        }
        if tail_run(name@) < n - i {
            assert(name@[n - tail_run(name@) - 1] == '/');
        }
        assert(n - i == tail_run(name@));
    }
    i
}

/// The PortalCorp repository: a stateless capability serving precompiled
/// extension packages from its catalog URL.
#[derive(Debug)]
pub struct PortalCorp;

impl PortalCorp {
    /// Creates a new PortalCorp repository.
    pub fn new() -> (r: Result<PortalCorp, ArchiveError>)
        ensures
            r is Ok,
    {
        Ok(PortalCorp)
    }

    /// Registers this repository's URL predicate with the target-matcher
    /// registry and the catalog registry, in that order. A conflict in the
    /// first registry leaves both unchanged; one in the second leaves the
    /// first registration in place.
    pub fn initialize(
        matchers: &mut Registry<String>,
        catalogs: &mut Registry<String>,
    ) -> (r: Result<(), ArchiveError>)
        ensures
            match r {
                Ok(()) => {
                    &&& !has_same(old(matchers).entries@, spec_portal_corp_url())
                    &&& !has_same(old(catalogs).entries@, spec_portal_corp_url())
                    &&& final(matchers).entries@.len() == old(matchers).entries@.len() + 1
                    &&& final(matchers).entries@.subrange(
                        0,
                        old(matchers).entries@.len() as int,
                    ) == old(matchers).entries@
                    &&& final(matchers).entries@.last().0 is StartsWith
                    &&& final(matchers).entries@.last().0.pattern() == spec_portal_corp_url()
                    &&& final(matchers).entries@.last().1@ == "portal-corp"@
                    &&& final(catalogs).entries@.len() == old(catalogs).entries@.len() + 1
                    &&& final(catalogs).entries@.subrange(
                        0,
                        old(catalogs).entries@.len() as int,
                    ) == old(catalogs).entries@
                    &&& final(catalogs).entries@.last().0 is StartsWith
                    &&& final(catalogs).entries@.last().0.pattern() == spec_portal_corp_url()
                    &&& final(catalogs).entries@.last().1@ == "github"@
                },
                Err(ArchiveError::RegistrationConflict(_)) => (has_same(
                    old(matchers).entries@,
                    spec_portal_corp_url(),
                ) || has_same(old(catalogs).entries@, spec_portal_corp_url()))
                    && final(catalogs).entries@ == old(catalogs).entries@,
                Err(_) => false,
            },
            r is Ok <==> !has_same(old(matchers).entries@, spec_portal_corp_url()) && !has_same(
                old(catalogs).entries@,
                spec_portal_corp_url(),
            ),
    {
        let p1 = Predicate::StartsWith(String::from_str(portal_corp_url()));
        match matchers.register(p1, String::from_str("portal-corp")) {
            Ok(()) => {},
            Err(e) => {
                return Err(e);
            },
        }
        let p2 = Predicate::StartsWith(String::from_str(portal_corp_url()));
        match catalogs.register(p2, String::from_str("github")) {
            Ok(()) => {},
            Err(e) => {
                return Err(e);
            },
        }
        Ok(())
    }

    /// The repository's name.
    pub fn name(&self) -> (r: &'static str)
        ensures
            r@ == "portal-corp"@,
    {
        "portal-corp"
    }

    /// The catalog of installable items this repository offers.
    pub fn get_available_extensions(&self) -> (r: Result<Vec<AvailableExtension>, ArchiveError>)
        ensures
            r is Ok,
            match r {
                Ok(v) => v@.len() == 1 && v@[0].repository@ == "portal-corp"@ && v@[0].name@
                    == "pgvector_compiled"@ && v@[0].description@
                    == "Precompiled OS packages for pgvector"@,
                Err(_) => false,
            },
    {
        let e = AvailableExtension::new(
            self.name(),
            "pgvector_compiled",
            "Precompiled OS packages for pgvector",
        );
        let mut v: Vec<AvailableExtension> = Vec::new();
        v.push(e);
        Ok(v)
    }

    /// The URL an archive for an item is fetched from: the base URL, the
    /// item's name, and the engine version as a query parameter.
    pub fn archive_url(&self, postgresql_version: &str, name: &str) -> (r: String)
        ensures
            r@ == spec_portal_corp_url() + "/"@ + name@ + "?postgresql_version="@
                + postgresql_version@,
    {
        let mut s = String::from_str(portal_corp_url());
        s.append("/");
        s.append(name);
        s.append("?postgresql_version=");
        s.append(postgresql_version);
        s
    }

    /// Plans the installation of a fetched zip bundle: entries whose file
    /// name ends in a shared-library suffix go to the library directory,
    /// control and SQL scripts to the extension directory, anything else
    /// is ignored. Returns the files to write, in entry order. It succeeds
    /// exactly when the bytes parse as a zip archive and every entry is
    /// readable; an invalid bundle is an error, never an empty plan.
    pub fn install(
        &self,
        library_dir: &str,
        extension_dir: &str,
        archive: &Vec<u8>,
    ) -> (r: Result<Vec<InstallFile>, ArchiveError>)
        ensures
            r is Ok <==> zip_entry_count_of(archive@) is Some && (forall|i: int|
                0 <= i < zip_entry_count_of(archive@).unwrap() ==> zip_entry_of(
                    archive@,
                    i,
                ) is Some),
            r is Ok ==> zip_entry_count_of(archive@).unwrap() >= 0,
            r is Ok ==> ({
                let es = Seq::new(
                    zip_entry_count_of(archive@).unwrap() as nat,
                    |i: int| zip_entry_of(archive@, i).unwrap(),
                );
                install_matches(
                    r.unwrap()@,
                    spec_install_plan(es, library_dir@, extension_dir@),
                )
            }),
    {
        let ghost es = Seq::new(
            zip_entry_count_of(archive@).unwrap() as nat,
            |i: int| zip_entry_of(archive@, i).unwrap(),
        );
        let n = match zip_len(archive) {
            Ok(n) => n,
            Err(e) => {
                return Err(e);
            },
        };
        let mut out: Vec<InstallFile> = Vec::new();
        let mut k: usize = 0;
        #[verifier::loop_isolation(false)]
        while k < n
            invariant
                k <= n,
                zip_entry_count_of(archive@) is Some,
                n as int == zip_entry_count_of(archive@).unwrap(),
                es == Seq::new(
                    zip_entry_count_of(archive@).unwrap() as nat,
                    |i: int| zip_entry_of(archive@, i).unwrap(),
                ),
                forall|m: int| 0 <= m < k ==> zip_entry_of(archive@, m) is Some,
                install_matches(
                    out@,
                    spec_install_plan(
                        es.subrange(0, k as int),
                        library_dir@,
                        extension_dir@,
                    ),
                ),
            decreases n - k,
        {
            let (name, data) = match zip_entry(archive, k) {
                Ok(e) => e,
                Err(e) => {
                    proof {
                        assert(zip_entry_of(archive@, k as int) is None);
                    }
                    return Err(e);
                },
            };
            let nm = name.as_str();
            let nlen = nm.unicode_len();
            let start = file_name_start(nm);
            let fname_str = nm.substring_char(start, nlen);
            let fname = str_chars(fname_str);
            proof {
                assert(fname@ == file_name_of(name@));
            }
            let dylib = str_chars(".dylib");
            let so = str_chars(".so");
            let control = str_chars(".control");
            let sql = str_chars(".sql");
            let to_lib = vec_ends_with(&fname, &dylib) || vec_ends_with(&fname, &so);
            let to_ext = !to_lib && (vec_ends_with(&fname, &control) || vec_ends_with(
                &fname,
                &sql,
            ));
            let ghost prev = spec_install_plan(
                es.subrange(0, k as int),
                library_dir@,
                extension_dir@,
            );
            proof {
                assert(es.subrange(0, k as int + 1).drop_last() =~= es.subrange(0, k as int));
                assert(es.subrange(0, k as int + 1).last() == es[k as int]);
                assert(es[k as int] == zip_entry_of(archive@, k as int).unwrap());
                assert(name@ == es[k as int].0);
                assert(data@ == es[k as int].1);
                assert(to_lib == routes_to_library(es[k as int].0));
                assert(to_ext == routes_to_extension(es[k as int].0));
            }
            if to_lib || to_ext {
                let dir = if to_lib {
                    library_dir
                } else {
                    extension_dir
                };
                let mut path = String::from_str(dir);
                path.append("/");
                path.append(fname_str);
                let ghost gitem = GhostInstallFile {
                    path: routed_path(es[k as int].0, dir@),
                    data: es[k as int].1,
                };
                proof {
                    assert(path@ == gitem.path);
                    let cur = spec_install_plan(
                        es.subrange(0, k as int + 1),
                        library_dir@,
                        extension_dir@,
                    );
                    assert(cur == prev.push(gitem));
                }
                out.push(InstallFile { path, data });
            } else {
                proof {
                    let cur = spec_install_plan(
                        es.subrange(0, k as int + 1),
                        library_dir@,
                        extension_dir@,
                    );
                    assert(cur == prev);
                }
            }
            k = k + 1;
        }
        proof {
            assert(es.subrange(0, n as int) =~= es);
        }
        Ok(out)
    }
}

} // verus!
