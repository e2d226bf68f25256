//! The manager of all servers: where they are installed, which builds of Paper
//! can be downloaded for which version, and the cache of those builds.
use vstd::prelude::*;
use crate::paths;
use crate::paths::{file_name_of, join_path};
use crate::server::Server;
use crate::text;
use crate::text::{StringMap, concat, decimal_string};

verus! {

/// The manager's state, saved as JSON (`json_location` excepted).
pub struct McServerManager {
    /// Where the manager's state is saved.
    pub json_location: String,
    /// The directory that holds one directory per server.
    pub directory: String,
    /// The server directories found so far.
    pub installations: Vec<String>,
    /// The file of cached builds, one `version:uri` per line.
    pub cache_file: String,
    /// The download URI of the newest build of each version.
    pub version_uri: StringMap,
}

/// Where the download of build `commit` of `version` is found.
pub open spec fn download_uri_of(version: Seq<char>, commit: Seq<char>) -> Seq<char> {
    "https://api.papermc.io/v2/projects/paper/versions/"@ + version + "/builds/"@ + commit
        + "/downloads/paper-"@ + version + "-"@ + commit + ".jar"@
}

/// The line that caching `uri` for `version` appends to the cache file.
pub open spec fn cache_entry_of(version: Seq<char>, uri: Seq<char>) -> Seq<char> {
    version + ":"@ + uri + "\n"@
}

/// The versions whose newest build has to be looked up, in order: those that
/// are neither the newest version nor cached (each occurrence counts).
pub open spec fn uncached_versions(
    vs: Seq<Seq<char>>,
    latest: Seq<char>,
    cache: Map<Seq<char>, Seq<char>>,
) -> Seq<Seq<char>>
    decreases vs.len(),
{
    if vs.len() == 0 {
        seq![]
    } else if vs[0] != latest && !cache.contains_key(vs[0]) {
        seq![vs[0]] + uncached_versions(vs.drop_first(), latest, cache)
    } else {
        uncached_versions(vs.drop_first(), latest, cache)
    }
}

/// Every lookup of a newest build that refreshing the download URIs makes, in
/// order: the uncached versions, then the newest version.
pub open spec fn builds_to_fetch_of(vs: Seq<Seq<char>>, cache: Map<Seq<char>, Seq<char>>) -> Seq<
    Seq<char>,
> {
    uncached_versions(vs, vs.last(), cache).push(vs.last())
}

/// Goes through the versions in order with the looked-up builds `commits`:
/// the newest version is passed over; a cached version takes its cached URI;
/// any other takes the URI of the next looked-up build, and its line is cached.
/// Gives the URIs then known, the cache lines written, the builds not used,
/// and whether the builds sufficed.
pub open spec fn scan_builds(
    vs: Seq<Seq<char>>,
    latest: Seq<char>,
    cache: Map<Seq<char>, Seq<char>>,
    commits: Seq<Seq<char>>,
    uris: Map<Seq<char>, Seq<char>>,
) -> (Map<Seq<char>, Seq<char>>, Seq<Seq<char>>, Seq<Seq<char>>, bool)
    decreases vs.len(),
{
    if vs.len() == 0 {
        (uris, seq![], commits, true)
    } else {
        let v = vs[0];
        if v == latest {
            scan_builds(vs.drop_first(), latest, cache, commits, uris)
        } else if cache.contains_key(v) {
            scan_builds(vs.drop_first(), latest, cache, commits, uris.insert(v, cache[v]))
        } else if commits.len() == 0 {
            (uris, seq![], commits, false)
        } else {
            let u = download_uri_of(v, commits[0]);
            let r = scan_builds(vs.drop_first(), latest, cache, commits.drop_first(), uris.insert(v, u));
            (r.0, seq![cache_entry_of(v, u)] + r.1, r.2, r.3)
        }
    }
}

/// Refreshing the download URIs: the scan of the versions, then the newest
/// version with the next looked-up build. Gives the URIs, the cache lines
/// written, and whether the builds sufficed.
pub open spec fn refresh_builds(
    vs: Seq<Seq<char>>,
    cache: Map<Seq<char>, Seq<char>>,
    commits: Seq<Seq<char>>,
    uris: Map<Seq<char>, Seq<char>>,
) -> (Map<Seq<char>, Seq<char>>, Seq<Seq<char>>, bool) {
    let latest = vs.last();
    let r = scan_builds(vs, latest, cache, commits, uris);
    if r.3 && r.2.len() > 0 {
        (r.0.insert(latest, download_uri_of(latest, r.2[0])), r.1, true)
    } else {
        (r.0, r.1, false)
    }
}

/// The strings of a vector as character sequences.
pub open spec fn strings_view(v: Seq<String>) -> Seq<Seq<char>> {
    v.map_values(|s: String| s@)
}

/// What refreshing the download URIs came to.
pub struct BuildsUpdate {
    /// Whether every lookup that was needed had its build.
    pub complete: bool,
    /// The lines to append to the cache file, in order.
    pub cache_lines: Vec<String>,
}

/// Where build `commit` of `version` is downloaded from.
pub fn download_uri(version: &str, commit: &str) -> (u: String)
    ensures
        u@ == download_uri_of(version@, commit@),
{
    let mut u = concat("https://api.papermc.io/v2/projects/paper/versions/", version);
    u.append("/builds/");
    u.append(commit);
    u.append("/downloads/paper-");
    u.append(version);
    u.append("-");
    u.append(commit);
    u.append(".jar");
    u
}

/// The line that records `uri` for `version` in the cache file.
pub fn cache_entry(version: &str, uri: &str) -> (line: String)
    ensures
        line@ == cache_entry_of(version@, uri@),
{
    let mut line = concat(version, ":");
    line.append(uri);
    line.append("\n");
    line
}

/// The newest of the builds of a version (the last one listed), in decimal.
pub fn latest_commit(builds: &Vec<i64>) -> (c: String)
    requires
        builds@.len() > 0,
    ensures
        c@ == text::int_decimal(builds@.last() as int),
{
    decimal_string(builds[builds.len() - 1])
}

/// The lookups of newest builds that refreshing the download URIs makes, in
/// order: the versions that are neither the newest (the last listed) nor
/// cached, then the newest.
pub fn builds_to_fetch(versions: &Vec<String>, cache: &StringMap) -> (r: Vec<String>)
    requires
        versions@.len() > 0,
    ensures
        strings_view(r@) == builds_to_fetch_of(strings_view(versions@), cache@),
{
    let ghost vs = strings_view(versions@);
    let n = versions.len();
    let latest = &versions[n - 1];
    let mut r: Vec<String> = Vec::new();
    let mut i: usize = 0;
    proof {
        assert(vs.skip(0) =~= vs);
        assert(strings_view(r@) + uncached_versions(vs, vs.last(), cache@) =~= uncached_versions(
            vs,
            vs.last(),
            cache@,
        ));
    }
    while i < n
        invariant
            n == versions@.len(),
            vs == strings_view(versions@),
            latest@ == vs.last(),
            i <= n,
            uncached_versions(vs, vs.last(), cache@) == strings_view(r@) + uncached_versions(
                vs.skip(i as int),
                vs.last(),
                cache@,
            ),
        decreases n - i,
    {
        let v = &versions[i];
        proof {
            assert(vs.skip(i as int)[0] == v@);
            assert(vs.skip(i as int).drop_first() =~= vs.skip(i + 1));
        }
        if !(*v == *latest) && !cache.contains_key(v.as_str()) {
            let ghost before = r@;
            r.push(v.clone());
            proof {
                assert(strings_view(r@) =~= strings_view(before) + seq![v@]);
                assert(strings_view(before) + (seq![v@] + uncached_versions(vs.skip(i + 1), vs.last(), cache@))
                    =~= strings_view(r@) + uncached_versions(vs.skip(i + 1), vs.last(), cache@));
            }
        }
        i = i + 1;
    }
    proof {
        assert(vs.skip(n as int).len() == 0);
        assert(strings_view(r@) + Seq::<Seq<char>>::empty() =~= strings_view(r@));
    }
    let ghost before = r@;
    r.push(latest.clone());
    proof {
        assert(strings_view(r@) =~= strings_view(before).push(vs.last()));
    }
    r
}

/// `scan_builds` keeps what the map already holds, and when it completes it
/// knows every version but the newest.
pub proof fn lemma_scan_covers(
    vs: Seq<Seq<char>>,
    latest: Seq<char>,
    cache: Map<Seq<char>, Seq<char>>,
    commits: Seq<Seq<char>>,
    uris: Map<Seq<char>, Seq<char>>,
)
    ensures
        uris.dom().subset_of(scan_builds(vs, latest, cache, commits, uris).0.dom()),
        scan_builds(vs, latest, cache, commits, uris).3 ==> forall|i: int|
            0 <= i < vs.len() && vs[i] != latest ==> scan_builds(
                vs,
                latest,
                cache,
                commits,
                uris,
            ).0.contains_key(#[trigger] vs[i]),
    decreases vs.len(),
{
    if vs.len() > 0 {
        let v = vs[0];
        let rest = vs.drop_first();
        let r = scan_builds(vs, latest, cache, commits, uris);
        if v == latest {
            lemma_scan_covers(rest, latest, cache, commits, uris);
        } else if cache.contains_key(v) {
            lemma_scan_covers(rest, latest, cache, commits, uris.insert(v, cache[v]));
        } else if commits.len() > 0 {
            let u = download_uri_of(v, commits[0]);
            lemma_scan_covers(rest, latest, cache, commits.drop_first(), uris.insert(v, u));
        }
        if r.3 {
            assert forall|i: int| 0 <= i < vs.len() && vs[i] != latest implies r.0.contains_key(
                #[trigger] vs[i],
            ) by {
                if i > 0 {
                    assert(vs[i] == rest[i - 1]);
                }
            }
        }
    }
}

/// `scan_builds` completes exactly when there is a build for every uncached
/// version, and then leaves the builds after those.
pub proof fn lemma_scan_complete(
    vs: Seq<Seq<char>>,
    latest: Seq<char>,
    cache: Map<Seq<char>, Seq<char>>,
    commits: Seq<Seq<char>>,
    uris: Map<Seq<char>, Seq<char>>,
)
    ensures
        scan_builds(vs, latest, cache, commits, uris).3 <==> commits.len() >= uncached_versions(
            vs,
            latest,
            cache,
        ).len(),
        scan_builds(vs, latest, cache, commits, uris).3 ==> scan_builds(
            vs,
            latest,
            cache,
            commits,
            uris,
        ).2 == commits.skip(uncached_versions(vs, latest, cache).len() as int),
    decreases vs.len(),
{
    if vs.len() == 0 {
        assert(commits.skip(0) =~= commits);
    } else {
        let v = vs[0];
        let rest = vs.drop_first();
        if v == latest {
            lemma_scan_complete(rest, latest, cache, commits, uris);
        } else if cache.contains_key(v) {
            lemma_scan_complete(rest, latest, cache, commits, uris.insert(v, cache[v]));
        } else if commits.len() > 0 {
            let u = download_uri_of(v, commits[0]);
            lemma_scan_complete(rest, latest, cache, commits.drop_first(), uris.insert(v, u));
            let k = uncached_versions(rest, latest, cache).len();
            if commits.len() >= k + 1 {
                assert(commits.drop_first().skip(k as int) =~= commits.skip(k as int + 1));
            }
        }
    }
}

/// After a complete refresh every listed version has a download URI.
pub proof fn lemma_refresh_covers_versions(
    vs: Seq<Seq<char>>,
    cache: Map<Seq<char>, Seq<char>>,
    commits: Seq<Seq<char>>,
    uris: Map<Seq<char>, Seq<char>>,
)
    requires
        vs.len() > 0,
        refresh_builds(vs, cache, commits, uris).2,
    ensures
        forall|i: int|
            0 <= i < vs.len() ==> refresh_builds(vs, cache, commits, uris).0.contains_key(
                #[trigger] vs[i],
            ),
        uris.dom().subset_of(refresh_builds(vs, cache, commits, uris).0.dom()),
{
    lemma_scan_covers(vs, vs.last(), cache, commits, uris);
}

/// A refresh completes exactly when every lookup it needed found a build: the
/// builds handed in are as many as `builds_to_fetch` lists, or more.
pub proof fn lemma_refresh_complete(
    vs: Seq<Seq<char>>,
    cache: Map<Seq<char>, Seq<char>>,
    commits: Seq<Seq<char>>,
    uris: Map<Seq<char>, Seq<char>>,
)
    requires
        vs.len() > 0,
    ensures
        refresh_builds(vs, cache, commits, uris).2 <==> commits.len() >= builds_to_fetch_of(
            vs,
            cache,
        ).len(),
{
    lemma_scan_complete(vs, vs.last(), cache, commits, uris);
}

/// What a complete scan knows of each name: a cached version (not the newest)
/// keeps its cached URI; an uncached one takes the URI of the build looked up
/// for one of its occurrences; a name that is not listed, and the newest
/// version, keep what the map held.
pub proof fn lemma_scan_values(
    vs: Seq<Seq<char>>,
    latest: Seq<char>,
    cache: Map<Seq<char>, Seq<char>>,
    commits: Seq<Seq<char>>,
    uris: Map<Seq<char>, Seq<char>>,
)
    requires
        scan_builds(vs, latest, cache, commits, uris).3,
    ensures
        ({
            let r = scan_builds(vs, latest, cache, commits, uris).0;
            let u = uncached_versions(vs, latest, cache);
            &&& forall|i: int|
                0 <= i < vs.len() && vs[i] != latest && cache.contains_key(#[trigger] vs[i])
                    ==> r.contains_key(vs[i]) && r[vs[i]] == cache[vs[i]]
            &&& forall|i: int|
                0 <= i < vs.len() && vs[i] != latest && !cache.contains_key(#[trigger] vs[i])
                    ==> r.contains_key(vs[i]) && exists|j: int|
                    0 <= j < u.len() && #[trigger] u[j] == vs[i] && r[vs[i]] == download_uri_of(
                        vs[i],
                        commits[j],
                    )
            &&& forall|k: Seq<char>|
                (!vs.contains(k) || k == latest) ==> (#[trigger] r.contains_key(k)
                    == uris.contains_key(k) && (uris.contains_key(k) ==> r[k] == uris[k]))
        }),
    decreases vs.len(),
{
    if vs.len() > 0 {
        let v = vs[0];
        let rest = vs.drop_first();
        let r = scan_builds(vs, latest, cache, commits, uris).0;
        let u = uncached_versions(vs, latest, cache);
        assert forall|k: Seq<char>| !vs.contains(k) implies !rest.contains(k) && k != v by {
            if rest.contains(k) {
                let i = choose|i: int| 0 <= i < rest.len() && rest[i] == k;
                assert(vs[i + 1] == k);
            }
            assert(vs[0] == v);
        }
        if v == latest {
            lemma_scan_values(rest, latest, cache, commits, uris);
            assert(u == uncached_versions(rest, latest, cache));
            assert forall|i: int|
                0 <= i < vs.len() && vs[i] != latest && !cache.contains_key(#[trigger] vs[i])
                    implies r.contains_key(vs[i]) && exists|j: int|
                    0 <= j < u.len() && #[trigger] u[j] == vs[i] && r[vs[i]] == download_uri_of(
                        vs[i],
                        commits[j],
                    ) by {
                assert(i > 0);
                assert(rest[i - 1] == vs[i]);
            }
            assert forall|i: int|
                0 <= i < vs.len() && vs[i] != latest && cache.contains_key(#[trigger] vs[i])
                    implies r.contains_key(vs[i]) && r[vs[i]] == cache[vs[i]] by {
                if i > 0 {
                    assert(rest[i - 1] == vs[i]);
                }
            }
            assert forall|k: Seq<char>| (!vs.contains(k) || k == latest) implies (
            #[trigger] r.contains_key(k) == uris.contains_key(k) && (uris.contains_key(k) ==> r[k]
                == uris[k])) by {
                if k != latest {
                    assert(!rest.contains(k) && k != v);
                }
            }
        } else if cache.contains_key(v) {
            let m2 = uris.insert(v, cache[v]);
            lemma_scan_values(rest, latest, cache, commits, m2);
            assert(r == scan_builds(rest, latest, cache, commits, m2).0);
            assert(u == uncached_versions(rest, latest, cache));
            assert forall|i: int|
                0 <= i < vs.len() && vs[i] != latest && !cache.contains_key(#[trigger] vs[i])
                    implies r.contains_key(vs[i]) && exists|j: int|
                    0 <= j < u.len() && #[trigger] u[j] == vs[i] && r[vs[i]] == download_uri_of(
                        vs[i],
                        commits[j],
                    ) by {
                assert(i > 0);
                assert(rest[i - 1] == vs[i]);
            }
            assert forall|i: int|
                0 <= i < vs.len() && vs[i] != latest && cache.contains_key(#[trigger] vs[i])
                    implies r.contains_key(vs[i]) && r[vs[i]] == cache[vs[i]] by {
                if i > 0 {
                    assert(rest[i - 1] == vs[i]);
                } else if rest.contains(v) {
                    let i2 = choose|i2: int| 0 <= i2 < rest.len() && rest[i2] == v;
                    assert(rest[i2] != latest && cache.contains_key(rest[i2]));
                } else {
                    assert(r.contains_key(v) == m2.contains_key(v));
                    assert(m2[v] == cache[v]);
                }
            }
            assert forall|k: Seq<char>| (!vs.contains(k) || k == latest) implies (
            #[trigger] r.contains_key(k) == uris.contains_key(k) && (uris.contains_key(k) ==> r[k]
                == uris[k])) by {
                if k != latest {
                    assert(!rest.contains(k) && k != v);
                }
                assert(k != v);
                assert(r.contains_key(k) == m2.contains_key(k));
                assert(m2.contains_key(k) == uris.contains_key(k));
            }
        } else {
            let c0 = download_uri_of(v, commits[0]);
            let m2 = uris.insert(v, c0);
            let cm2 = commits.drop_first();
            lemma_scan_values(rest, latest, cache, cm2, m2);
            lemma_scan_complete(rest, latest, cache, cm2, m2);
            assert(r == scan_builds(rest, latest, cache, cm2, m2).0);
            let u2 = uncached_versions(rest, latest, cache);
            assert(u == seq![v] + u2);
            assert forall|i: int|
                0 <= i < vs.len() && vs[i] != latest && cache.contains_key(#[trigger] vs[i])
                    implies r.contains_key(vs[i]) && r[vs[i]] == cache[vs[i]] by {
                assert(i > 0);
                assert(rest[i - 1] == vs[i]);
            }
            assert forall|k: Seq<char>| (!vs.contains(k) || k == latest) implies (
            #[trigger] r.contains_key(k) == uris.contains_key(k) && (uris.contains_key(k) ==> r[k]
                == uris[k])) by {
                if k != latest {
                    assert(!rest.contains(k) && k != v);
                }
                assert(k != v);
                assert(r.contains_key(k) == m2.contains_key(k));
                assert(m2.contains_key(k) == uris.contains_key(k));
            }
            assert forall|i: int|
                0 <= i < vs.len() && vs[i] != latest && !cache.contains_key(#[trigger] vs[i])
                    implies r.contains_key(vs[i]) && exists|j: int|
                    0 <= j < u.len() && #[trigger] u[j] == vs[i] && r[vs[i]] == download_uri_of(
                        vs[i],
                        commits[j],
                    ) by {
                if rest.contains(vs[i]) {
                    let i2 = choose|i2: int| 0 <= i2 < rest.len() && rest[i2] == vs[i];
                    assert(rest[i2] != latest && !cache.contains_key(rest[i2]));
                    let j2 = choose|j2: int|
                        0 <= j2 < u2.len() && #[trigger] u2[j2] == rest[i2] && r[rest[i2]]
                            == download_uri_of(rest[i2], cm2[j2]);
                    assert(u[j2 + 1] == u2[j2]);
                    assert(cm2[j2] == commits[j2 + 1]);
                } else {
                    if i > 0 {
                        assert(rest[i - 1] == vs[i]);
                    }
                    assert(vs[i] == v);
                    assert(u[0] == v);
                }
            }
        }
    }
}

/// What a complete refresh gives each listed version, where `commits` answer
/// the lookups of `builds_to_fetch` in order: the newest version (the last
/// listed) takes the last looked-up build, whatever the cache holds for it; a
/// cached older version keeps its cached URI; an uncached older version takes
/// the build looked up for one of its lookups; a name not listed keeps what
/// the map held.
pub proof fn lemma_refresh_values(
    vs: Seq<Seq<char>>,
    cache: Map<Seq<char>, Seq<char>>,
    commits: Seq<Seq<char>>,
    uris: Map<Seq<char>, Seq<char>>,
)
    requires
        vs.len() > 0,
        commits.len() == builds_to_fetch_of(vs, cache).len(),
    ensures
        ({
            let r = refresh_builds(vs, cache, commits, uris);
            let f = builds_to_fetch_of(vs, cache);
            let latest = vs.last();
            &&& r.2
            &&& r.0.contains_key(latest)
            &&& r.0[latest] == download_uri_of(latest, commits.last())
            &&& forall|i: int|
                0 <= i < vs.len() && vs[i] != latest && cache.contains_key(#[trigger] vs[i])
                    ==> r.0.contains_key(vs[i]) && r.0[vs[i]] == cache[vs[i]]
            &&& forall|i: int|
                0 <= i < vs.len() && vs[i] != latest && !cache.contains_key(#[trigger] vs[i])
                    ==> r.0.contains_key(vs[i]) && exists|j: int|
                    0 <= j < f.len() - 1 && #[trigger] f[j] == vs[i] && r.0[vs[i]]
                        == download_uri_of(vs[i], commits[j])
            &&& forall|k: Seq<char>|
                !vs.contains(k) ==> (#[trigger] r.0.contains_key(k) == uris.contains_key(k) && (
                uris.contains_key(k) ==> r.0[k] == uris[k]))
        }),
{
    let latest = vs.last();
    let u = uncached_versions(vs, latest, cache);
    let f = builds_to_fetch_of(vs, cache);
    lemma_scan_complete(vs, latest, cache, commits, uris);
    lemma_scan_values(vs, latest, cache, commits, uris);
    let sc = scan_builds(vs, latest, cache, commits, uris);
    assert(sc.2 == commits.skip(u.len() as int));
    assert(sc.2[0] == commits.last());
    let r = refresh_builds(vs, cache, commits, uris);
    assert(vs.contains(latest)) by {
        assert(vs[vs.len() - 1] == latest);
    }
    assert forall|i: int|
        0 <= i < vs.len() && vs[i] != latest && !cache.contains_key(#[trigger] vs[i])
            implies r.0.contains_key(vs[i]) && exists|j: int|
            0 <= j < f.len() - 1 && #[trigger] f[j] == vs[i] && r.0[vs[i]] == download_uri_of(
                vs[i],
                commits[j],
            ) by {
        let j = choose|j: int|
            0 <= j < u.len() && #[trigger] u[j] == vs[i] && sc.0[vs[i]] == download_uri_of(
                vs[i],
                commits[j],
            );
        assert(f[j] == u[j]);
    }
}

/// A line that the cache records is read back: appending `cache_entry` of
/// `version` and `uri` to a cache file that is empty or ends with a newline
/// gives one more record, and the cache then maps `version` to `uri`. The
/// version must hold no colon and no newline, and the URI no newline and no
/// carriage return at its end, as a download URI of such a version and build
/// does not.
pub proof fn lemma_cache_entry_reads_back(text: Seq<char>, version: Seq<char>, uri: Seq<char>)
    requires
        text.len() == 0 || text.last() == '\n',
        forall|j: int| 0 <= j < version.len() ==> version[j] != ':' && version[j] != '\n',
        forall|j: int| 0 <= j < uri.len() ==> uri[j] != '\n',
        uri.len() > 0 ==> uri.last() != '\r',
        text::entries_of(text::lines(text)) is Some,
    ensures
        text::entries_of(text::lines(text + cache_entry_of(version, uri))) == Some(
            text::entries_of(text::lines(text))->0.push((version, uri)),
        ),
        text::pairs_map(text::entries_of(text::lines(text + cache_entry_of(version, uri)))->0) == text::pairs_map(
            text::entries_of(text::lines(text))->0,
        ).insert(version, uri),
{
    text::lemma_append_record(text, version, uri);
    let es = text::entries_of(text::lines(text))->0;
    assert(es.push((version, uri)).drop_last() =~= es);
}

impl McServerManager {
    /// Where the manager's state is saved: the file given, else
    /// `./mc_server_manager.json`.
    pub fn json_path(json_file: Option<&str>) -> (p: String)
        ensures
            match json_file {
                Some(f) => p@ == f@,
                None => p@ == paths::joined("./"@, "mc_server_manager.json"@),
            },
    {
        match json_file {
            Some(f) => f.to_owned(),
            None => join_path("./", "mc_server_manager.json"),
        }
    }

    /// A manager with nothing saved yet, for the working directory
    /// `current_dir`: servers under `minecraft_servers`, cache in `cache.txt`,
    /// no installation and no download URI known.
    pub fn new(json_location: String, current_dir: &str) -> (m: McServerManager)
        ensures
            m.json_location == json_location,
            m.directory@ == paths::joined(current_dir@, "minecraft_servers"@),
            m.cache_file@ == paths::joined(current_dir@, "cache.txt"@),
            m.installations@.len() == 0,
            m.version_uri@ == Map::<Seq<char>, Seq<char>>::empty(),
    {
        McServerManager {
            json_location,
            directory: join_path(current_dir, "minecraft_servers"),
            installations: Vec::new(),
            cache_file: join_path(current_dir, "cache.txt"),
            version_uri: StringMap::new(),
        }
    }

    /// The directory of the server `name`.
    pub fn server_dir(&self, name: &str) -> (p: String)
        ensures
            p@ == paths::joined(self.directory@, name@),
    {
        join_path(self.directory.as_str(), name)
    }

    /// The file that the state of the server `name` is loaded from.
    pub fn load_server(&self, name: &str) -> (p: String)
        ensures
            p@ == paths::joined(paths::joined(self.directory@, name@), "server_data.json"@),
    {
        let dir = self.server_dir(name);
        join_path(dir.as_str(), "server_data.json")
    }

    /// Whether a server runs, by the state loaded from its file.
    pub fn get_server_status(&self, saved: &Server) -> (active: bool)
        ensures
            active == saved.active,
    {
        saved.active
    }

    /// The file that records which version the server `name` was installed with.
    pub fn version_file(&self, name: &str) -> (p: String)
        ensures
            p@ == paths::joined(paths::joined(self.directory@, name@), "version.txt"@),
    {
        let dir = self.server_dir(name);
        join_path(dir.as_str(), "version.txt")
    }

    /// The download URI known for `version`, if any.
    pub fn download_url(&self, version: &str) -> (u: Option<String>)
        ensures
            match u {
                Some(s) => self.version_uri@.contains_key(version@) && s@ == self.version_uri@[version@],
                None => !self.version_uri@.contains_key(version@),
            },
    {
        self.version_uri.get(version)
    }

    /// Records the server directories found, after those already known.
    pub fn update_installations(&mut self, found: Vec<String>)
        ensures
            final(self).installations@ == old(self).installations@ + found@,
            final(self).directory == old(self).directory,
            final(self).json_location == old(self).json_location,
            final(self).cache_file == old(self).cache_file,
            final(self).version_uri == old(self).version_uri,
    {
        let mut i: usize = 0;
        let ghost before = self.installations@;
        while i < found.len()
            invariant
                i <= found@.len(),
                self.installations@ == before + found@.take(i as int),
                self.directory == old(self).directory,
                self.json_location == old(self).json_location,
                self.cache_file == old(self).cache_file,
                self.version_uri == old(self).version_uri,
            decreases found@.len() - i,
        {
            self.installations.push(found[i].clone());
            proof {
                assert(found@.take(i + 1) =~= found@.take(i as int).push(found@[i as int]));
            }
            i = i + 1;
        }
        proof {
            assert(found@.take(found@.len() as int) =~= found@);
        }
    }

    /// The version file of each installation, in order.
    pub fn installation_version_files(&self) -> (files: Vec<String>)
        ensures
            files@.len() == self.installations@.len(),
            forall|i: int|
                0 <= i < files@.len() ==> (#[trigger] files@[i])@ == paths::joined(
                    self.installations@[i]@,
                    "version.txt"@,
                ),
    {
        let mut files: Vec<String> = Vec::new();
        let mut i: usize = 0;
        while i < self.installations.len()
            invariant
                i <= self.installations@.len(),
                files@.len() == i,
                forall|k: int|
                    0 <= k < i ==> (#[trigger] files@[k])@ == paths::joined(
                        self.installations@[k]@,
                        "version.txt"@,
                    ),
            decreases self.installations@.len() - i,
        {
            files.push(join_path(self.installations[i].as_str(), "version.txt"));
            i = i + 1;
        }
        files
    }

    /// Each installation by name (the last name of its path) with the content
    /// of its version file, given in the same order; `None` when the path of
    /// some installation holds no name.
    pub fn get_installations(&self, versions: &Vec<String>) -> (r: Option<Vec<(String, String)>>)
        requires
            versions@.len() == self.installations@.len(),
        ensures
            (forall|i: int|
                0 <= i < self.installations@.len() ==> (#[trigger] paths::file_name(
                    self.installations@[i]@,
                )) is Some) ==> (r matches Some(v) && v@.len() == self.installations@.len() && (
            forall|i: int|
                0 <= i < v@.len() ==> (#[trigger] v@[i]).0@ == paths::file_name(
                    self.installations@[i]@,
                )->0 && v@[i].1@ == versions@[i]@)),
            !(forall|i: int|
                0 <= i < self.installations@.len() ==> (#[trigger] paths::file_name(
                    self.installations@[i]@,
                )) is Some) ==> r is None,
    {
        let mut out: Vec<(String, String)> = Vec::new();
        let mut i: usize = 0;
        while i < self.installations.len()
            invariant
                i <= self.installations@.len(),
                versions@.len() == self.installations@.len(),
                out@.len() == i,
                forall|k: int| 0 <= k < i ==> (#[trigger] paths::file_name(self.installations@[k]@)) is Some,
                forall|k: int|
                    0 <= k < i ==> (#[trigger] out@[k]).0@ == paths::file_name(
                        self.installations@[k]@,
                    )->0 && out@[k].1@ == versions@[k]@,
            decreases self.installations@.len() - i,
        {
            match file_name_of(self.installations[i].as_str()) {
                Some(name) => {
                    out.push((name, versions[i].clone()));
                },
                None => {
                    return None;
                },
            }
            i = i + 1;
        }
        Some(out)
    }

    /// Refreshes the download URIs with the cached builds and the looked-up
    /// builds `commits`, which answer the lookups of `builds_to_fetch` in order
    /// and stop at the first lookup that failed. Gives the lines to cache and
    /// whether the refresh got through; the URIs learnt before a failed lookup
    /// stay known.
    pub fn apply_builds(
        &mut self,
        versions: &Vec<String>,
        cache: &StringMap,
        commits: &Vec<String>,
    ) -> (u: BuildsUpdate)
        requires
            versions@.len() > 0,
            commits@.len() <= builds_to_fetch_of(strings_view(versions@), cache@).len(),
        ensures
            ({
                let r = refresh_builds(
                    strings_view(versions@),
                    cache@,
                    strings_view(commits@),
                    old(self).version_uri@,
                );
                &&& final(self).version_uri@ == r.0
                &&& strings_view(u.cache_lines@) == r.1
                &&& u.complete == r.2
            }),
            u.complete <==> commits@.len() == builds_to_fetch_of(strings_view(versions@), cache@).len(),
            u.complete ==> final(self).version_uri@.contains_key(versions@.last()@)
                && final(self).version_uri@[versions@.last()@] == download_uri_of(
                versions@.last()@,
                commits@.last()@,
            ),
            final(self).directory == old(self).directory,
            final(self).json_location == old(self).json_location,
            final(self).cache_file == old(self).cache_file,
            final(self).installations == old(self).installations,
    {
        let ghost vs = strings_view(versions@);
        let ghost cm = strings_view(commits@);
        let ghost m0 = self.version_uri@;
        let ghost full = scan_builds(vs, vs.last(), cache@, cm, m0);
        proof {
            lemma_refresh_complete(vs, cache@, cm, m0);
            let rr = refresh_builds(vs, cache@, cm, m0);
            assert(commits@.len() == builds_to_fetch_of(vs, cache@).len() ==> rr.0.contains_key(vs.last())
                && rr.0[vs.last()] == download_uri_of(vs.last(), cm.last())) by {
                if commits@.len() == builds_to_fetch_of(vs, cache@).len() {
                    lemma_refresh_values(vs, cache@, cm, m0);
                }
            }
            assert(vs.last() == versions@.last()@);
            if commits@.len() > 0 {
                assert(cm.last() == commits@.last()@);
            }
            assert(vs.skip(0) =~= vs);
            assert(cm.skip(0) =~= cm);
            assert(Seq::<Seq<char>>::empty() + full.1 =~= full.1);
        }
        let n = versions.len();
        let latest = &versions[n - 1];
        let mut lines_out: Vec<String> = Vec::new();
        let mut i: usize = 0;
        let mut ci: usize = 0;
        while i < n
            invariant
                n == versions@.len(),
                vs == strings_view(versions@),
                cm == strings_view(commits@),
                latest@ == vs.last(),
                i <= n,
                ci <= commits@.len(),
                full == scan_builds(vs, vs.last(), cache@, cm, m0),
                m0 == old(self).version_uri@,
                commits@.len() <= builds_to_fetch_of(vs, cache@).len(),
                refresh_builds(vs, cache@, cm, m0).2 <==> commits@.len() >= builds_to_fetch_of(
                    vs,
                    cache@,
                ).len(),
                ({
                    let r = scan_builds(
                        vs.skip(i as int),
                        vs.last(),
                        cache@,
                        cm.skip(ci as int),
                        self.version_uri@,
                    );
                    &&& full.0 == r.0
                    &&& full.1 == strings_view(lines_out@) + r.1
                    &&& full.2 == r.2
                    &&& full.3 == r.3
                }),
                self.directory == old(self).directory,
                self.json_location == old(self).json_location,
                self.cache_file == old(self).cache_file,
                self.installations == old(self).installations,
            decreases n - i,
        {
            let v = &versions[i];
            proof {
                assert(vs.skip(i as int)[0] == v@);
                assert(vs.skip(i as int).drop_first() =~= vs.skip(i + 1));
            }
            if *v == *latest {
            } else {
                match cache.get(v.as_str()) {
                    Some(uri) => {
                        self.version_uri.insert(v.clone(), uri);
                    },
                    None => {
                        if ci == commits.len() {
                            proof {
                                assert(cm.skip(ci as int).len() == 0);
                                assert(scan_builds(
                                    vs.skip(i as int),
                                    vs.last(),
                                    cache@,
                                    cm.skip(ci as int),
                                    self.version_uri@,
                                ) == (self.version_uri@, Seq::<Seq<char>>::empty(), cm.skip(ci as int), false));
                                assert(strings_view(lines_out@) + Seq::<Seq<char>>::empty()
                                    =~= strings_view(lines_out@));
                            }
                            return BuildsUpdate { complete: false, cache_lines: lines_out };
                        }
                        let uri = download_uri(v.as_str(), commits[ci].as_str());
                        let line = cache_entry(v.as_str(), uri.as_str());
                        proof {
                            assert(cm.skip(ci as int)[0] == commits@[ci as int]@);
                            assert(cm.skip(ci as int).drop_first() =~= cm.skip(ci + 1));
                        }
                        let ghost before = lines_out@;
                        lines_out.push(line);
                        proof {
                            let r = scan_builds(
                                vs.skip(i + 1),
                                vs.last(),
                                cache@,
                                cm.skip(ci + 1),
                                self.version_uri@.insert(v@, uri@),
                            );
                            assert(strings_view(lines_out@) =~= strings_view(before).push(
                                cache_entry_of(v@, uri@),
                            ));
                            assert(strings_view(before) + (seq![cache_entry_of(v@, uri@)] + r.1)
                                =~= strings_view(lines_out@) + r.1);
                        }
                        self.version_uri.insert(v.clone(), uri);
                        ci = ci + 1;
                    },
                }
            }
            i = i + 1;
        }
        proof {
            assert(vs.skip(n as int).len() == 0);
            assert(strings_view(lines_out@) + Seq::<Seq<char>>::empty() =~= strings_view(lines_out@));
        }
        if ci < commits.len() {
            proof {
                assert(cm.skip(ci as int)[0] == commits@[ci as int]@);
            }
            let uri = download_uri(latest.as_str(), commits[ci].as_str());
            self.version_uri.insert(latest.clone(), uri);
            BuildsUpdate { complete: true, cache_lines: lines_out }
        } else {
            BuildsUpdate { complete: false, cache_lines: lines_out }
        }
    }
}

} // verus!
