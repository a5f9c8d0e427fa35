//! Release selection against a catalog listing, and asset resolution within
//! a release.

use vstd::prelude::*;
use vstd::string::StringExecFns;
use crate::error::ArchiveError;
use crate::version::{Version, spec_parse_version, version_chars};

verus! {

/// A single named downloadable file attached to a release.
#[derive(Debug)]
pub struct Asset {
    pub name: String,
    pub download_location: String,
}

/// A published, tagged set of downloadable assets for one version.
#[derive(Debug)]
pub struct Release {
    pub tag: String,
    pub assets: Vec<Asset>,
}

/// The version a release's tag parses to, if it parses.
pub open spec fn tag_version(r: Release) -> Option<Version> {
    spec_parse_version(r.tag@)
}

/// Every tag of the first `j` releases parses.
pub open spec fn tags_parse_up_to(rs: Seq<Release>, j: int) -> bool {
    forall|m: int| 0 <= m < j ==> tag_version(rs[m]) is Some
}

/// Release `i` exists, its tag parses, and it satisfies the constraint.
pub open spec fn release_matches(rs: Seq<Release>, c: Version, i: int) -> bool {
    &&& 0 <= i < rs.len()
    &&& tag_version(rs[i]) is Some
    &&& c.spec_matches(tag_version(rs[i]).unwrap())
}

/// Some release satisfies the constraint.
pub open spec fn has_matching_release(rs: Seq<Release>, c: Version) -> bool {
    exists|i: int| release_matches(rs, c, i)
}

/// Release `b` is the selected one: it matches, no matching release carries
/// a greater version, and none with the same version comes earlier.
pub open spec fn is_selected(rs: Seq<Release>, c: Version, b: int) -> bool {
    &&& release_matches(rs, c, b)
    &&& forall|i: int|
        release_matches(rs, c, i) ==> !tag_version(rs[b]).unwrap().spec_lt(
            tag_version(rs[i]).unwrap(),
        )
    &&& forall|i: int|
        release_matches(rs, c, i) && tag_version(rs[i]) == tag_version(rs[b]) ==> b <= i
}

/// The component-wise order is transitive.
pub proof fn lemma_version_lt_trans(a: Version, b: Version, c: Version)
    requires
        a.spec_lt(b),
        b.spec_lt(c),
    ensures
        a.spec_lt(c),
{
}

/// Selects the release whose parsed tag is the greatest version satisfying
/// the constraint. The whole listing is scanned; a tag that does not parse
/// is a hard error carrying that tag; when no release matches, the error
/// carries the rendered constraint.
pub fn select_release<'a>(releases: &'a Vec<Release>, constraint: &Version) -> (r: Result<
    &'a Release,
    ArchiveError,
>)
    ensures
        match r {
            Ok(rel) => tags_parse_up_to(releases@, releases@.len() as int) && exists|b: int|
                is_selected(releases@, *constraint, b) && *rel == releases@[b],
            Err(ArchiveError::Unexpected(t)) => exists|j: int|
                0 <= j < releases@.len() && tag_version(releases@[j]) is None
                    && tags_parse_up_to(releases@, j) && t@ == releases@[j].tag@,
            Err(ArchiveError::ReleaseNotFound(t)) => tags_parse_up_to(
                releases@,
                releases@.len() as int,
            ) && !has_matching_release(releases@, *constraint) && t@ == version_chars(
                *constraint,
            ),
            Err(_) => false,
        },
        r is Ok <==> tags_parse_up_to(releases@, releases@.len() as int)
            && has_matching_release(releases@, *constraint),
{
    let n = releases.len();
    let mut best_idx: usize = 0;
    let mut best_ver: Version = Version { major: 0, minor: None, patch: None };
    let mut have_best: bool = false;
    let mut k: usize = 0;
    while k < n
        invariant
            n == releases@.len(),
            k <= n,
            tags_parse_up_to(releases@, k as int),
            !have_best ==> forall|m: int|
                0 <= m < k ==> !release_matches(releases@, *constraint, m),
            have_best ==> best_idx < k && release_matches(releases@, *constraint, best_idx as int)
                && Some(best_ver) == tag_version(releases@[best_idx as int]),
            have_best ==> forall|m: int|
                0 <= m < k && release_matches(releases@, *constraint, m) ==> !best_ver.spec_lt(
                    tag_version(releases@[m]).unwrap(),
                ),
            have_best ==> forall|m: int|
                0 <= m < k && release_matches(releases@, *constraint, m) && tag_version(
                    releases@[m],
                ) == Some(best_ver) ==> best_idx <= m,
        decreases n - k,
    {
        let tag_ref: &String = &releases[k].tag;
        match Version::parse(tag_ref.as_str()) {
            None => {
                return Err(ArchiveError::Unexpected(tag_ref.clone()));
            },
            Some(v) => {
                if constraint.matches(&v) {
                    if !have_best {
                        have_best = true;
                        best_idx = k;
                        best_ver = v;
                    } else if best_ver.lt(&v) {
                        proof {
                            let old_best = best_ver;
                            assert forall|m: int|
                                0 <= m < k + 1 && release_matches(releases@, *constraint, m)
                                    implies !v.spec_lt(tag_version(releases@[m]).unwrap()) by {
                                if m < k {
                                    let vm = tag_version(releases@[m]).unwrap();
                                    if v.spec_lt(vm) {
                                        lemma_version_lt_trans(old_best, v, vm);
                                    }
                                } else {
                                    crate::version::lemma_version_trichotomy(
                                        v,
                                        tag_version(releases@[m]).unwrap(),
                                    );
                                }
                            }
                            assert forall|m: int|
                                0 <= m < k + 1 && release_matches(releases@, *constraint, m)
                                    && tag_version(releases@[m]) == Some(v) implies k <= m by {
                                if m < k {
                                    assert(!old_best.spec_lt(tag_version(releases@[m]).unwrap()));
                                }
                            }
                        }
                        best_idx = k;
                        best_ver = v;
                    } else {
                        proof {
                            crate::version::lemma_version_trichotomy(best_ver, v);
                        }
                    }
                }
            },
        }
        k = k + 1;
    }
    if have_best {
        proof {
            assert(is_selected(releases@, *constraint, best_idx as int));
        }
        Ok(&releases[best_idx])
    } else {
        Err(ArchiveError::ReleaseNotFound(constraint.to_text()))
    }
}

/// A fully specified constraint matches only the identical version.
pub proof fn lemma_full_matches_only_itself(v: Version, w: Version)
    requires
        v.full(),
        v.spec_matches(w),
    ensures
        w == v,
{
}

/// An unpublished fully specified version is not found: when no release
/// carries the version's canonical tag, no release can match the
/// constraint — the parser accepts only canonical tags, and a full
/// constraint matches only itself — so `select_release`, whose contract
/// returns `ReleaseNotFound` exactly when nothing matches, reports the
/// version as missing on every listing whose tags parse.
pub proof fn lemma_unpublished_not_found(rs: Seq<Release>, v: Version)
    requires
        v.full(),
        forall|i: int| 0 <= i < rs.len() ==> (#[trigger] rs[i]).tag@ != version_chars(v),
    ensures
        !has_matching_release(rs, v),
{
    assert forall|i: int| 0 <= i < rs.len() implies !release_matches(rs, v, i) by {
        if release_matches(rs, v, i) {
            let w = tag_version(rs[i]).unwrap();
            lemma_full_matches_only_itself(v, w);
            crate::version::lemma_parse_injective(rs[i].tag@, v);
        }
    }
}

/// A direct lookup by exact tag is consistent with enumeration: when every
/// tag parses and release `i` is the first carrying the fully specified
/// version's canonical tag, the enumeration selects exactly release `i`.
pub proof fn lemma_exact_lookup_selects(rs: Seq<Release>, v: Version, i: int)
    requires
        v.full(),
        tags_parse_up_to(rs, rs.len() as int),
        0 <= i < rs.len(),
        rs[i].tag@ == version_chars(v),
        forall|m: int| 0 <= m < i ==> tag_version(rs[m]) != Some(v),
    ensures
        is_selected(rs, v, i),
{
    crate::version::lemma_parse_canonical(v);
    assert(tag_version(rs[i]) == Some(v));
    assert(v.spec_matches(v));
    assert(release_matches(rs, v, i));
    assert forall|j: int| release_matches(rs, v, j) implies !tag_version(rs[i]).unwrap().spec_lt(
        tag_version(rs[j]).unwrap(),
    ) by {
        lemma_full_matches_only_itself(v, tag_version(rs[j]).unwrap());
    }
    assert forall|j: int|
        release_matches(rs, v, j) && tag_version(rs[j]) == tag_version(rs[i]) implies i <= j by {
        if j < i {
            assert(tag_version(rs[j]) != Some(v));
        }
    }
}

/// The conventional archive asset name for a version and target.
pub open spec fn archive_asset_name(v: Version, target: Seq<char>) -> Seq<char> {
    "postgresql-"@ + version_chars(v) + "-"@ + target + ".tar.gz"@
}

/// The checksum companion's name: the archive name with `.sha256` appended.
pub open spec fn hash_asset_name(v: Version, target: Seq<char>) -> Seq<char> {
    archive_asset_name(v, target) + ".sha256"@
}

/// Asset `i` is the first one bearing `name`.
pub open spec fn first_named(assets: Seq<Asset>, name: Seq<char>, i: int) -> bool {
    &&& 0 <= i < assets.len()
    &&& assets[i].name@ == name
    &&& forall|m: int| 0 <= m < i ==> assets[m].name@ != name
}

/// Some asset bears `name`.
pub open spec fn has_named(assets: Seq<Asset>, name: Seq<char>) -> bool {
    exists|i: int| 0 <= i < assets.len() && assets[i].name@ == name
}

/// Builds the conventional archive asset name for a version and target.
pub fn build_archive_name(v: &Version, target: &str) -> (s: String)
    ensures
        s@ == archive_asset_name(*v, target@),
{
    let mut s = String::from_str("postgresql-");
    let vt = v.to_text();
    s.append(vt.as_str());
    s.append("-");
    s.append(target);
    s.append(".tar.gz");
    s
}

/// Returns the index of the first asset bearing `name`.
fn find_named(assets: &Vec<Asset>, name: &String) -> (r: Option<usize>)
    ensures
        match r {
            Some(i) => first_named(assets@, name@, i as int),
            None => !has_named(assets@, name@),
        },
{
    let n = assets.len();
    let mut j: usize = 0;
    while j < n
        invariant
            n == assets@.len(),
            j <= n,
            forall|m: int| 0 <= m < j ==> assets@[m].name@ != name@,
        decreases n - j,
    {
        if assets[j].name == *name {
            return Some(j);
        }
        j = j + 1;
    }
    None
}

/// Locates the two conventionally-named assets for a release and target: the
/// archive and its checksum companion. Both must be present, or the release
/// does not offer that target and the error carries the expected archive
/// name. A tag that does not parse is a hard error carrying the tag.
pub fn find_assets<'a>(release: &'a Release, target: &str) -> (r: Result<
    (Version, &'a Asset, &'a Asset),
    ArchiveError,
>)
    ensures
        match r {
            Ok((v, a, h)) => {
                &&& tag_version(*release) == Some(v)
                &&& exists|i: int|
                    first_named(release.assets@, archive_asset_name(v, target@), i) && *a
                        == release.assets@[i]
                &&& exists|j: int|
                    first_named(release.assets@, hash_asset_name(v, target@), j) && *h
                        == release.assets@[j]
            },
            Err(ArchiveError::Unexpected(t)) => tag_version(*release) is None && t@
                == release.tag@,
            Err(ArchiveError::AssetNotFound(t)) => {
                &&& tag_version(*release) is Some
                &&& {
                    let v = tag_version(*release).unwrap();
                    &&& (!has_named(release.assets@, archive_asset_name(v, target@))
                        || !has_named(release.assets@, hash_asset_name(v, target@)))
                    &&& t@ == archive_asset_name(v, target@)
                }
            },
            Err(_) => false,
        },
        r is Ok <==> tag_version(*release) is Some && has_named(
            release.assets@,
            archive_asset_name(tag_version(*release).unwrap(), target@),
        ) && has_named(
            release.assets@,
            hash_asset_name(tag_version(*release).unwrap(), target@),
        ),
{
    let v = match Version::parse(release.tag.as_str()) {
        Some(v) => v,
        None => {
            return Err(ArchiveError::Unexpected(release.tag.clone()));
        },
    };
    let archive_name = build_archive_name(&v, target);
    let mut hash_name = archive_name.clone();
    hash_name.append(".sha256");
    let ai = find_named(&release.assets, &archive_name);
    let hi = find_named(&release.assets, &hash_name);
    match (ai, hi) {
        (Some(i), Some(j)) => Ok((v, &release.assets[i], &release.assets[j])),
        _ => Err(ArchiveError::AssetNotFound(archive_name)),
    }
}

} // verus!
