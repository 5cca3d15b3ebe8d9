//! Device path resolution: turns a `major,minor` identifier into a stable
//! device path, using a startup snapshot of the kernel partition listing and
//! of the device-mapper symlink directory, with memoized results.
//!
//! Loop devices (major `7`) are synthesized directly as `/dev/loop<minor>`:
//! they raise block-layer events but are absent from the partition listing.
//! A resolved name with the `dm-` prefix is traded for its user-facing
//! volume-group/logical-volume path when a mapper symlink points at it; the
//! logical-volume part has the mapper's doubled-hyphen escaping collapsed.

use vstd::prelude::*;
use vstd::string::*;
use crate::text::{
    collapse_hyphens, collapse_hyphens_exec, find_char, find_from, lemma_find_from, spec_lines,
    split_lines, str_eq, str_starts_with, tokenize, tokens_of,
};

verus! {

/// Mathematical image of a `DevicePaths` resolver.
pub struct DevicePathsV {
    pub cache: Seq<(Seq<char>, Seq<char>)>,
    pub partitions: Seq<char>,
    pub links: Seq<(Seq<char>, Seq<char>)>,
}

// ---------------------------------------------------------------------------
// Cache lookup
// ---------------------------------------------------------------------------

/// First cached path for `dev` at or after index `i`.
pub open spec fn cache_lookup(c: Seq<(Seq<char>, Seq<char>)>, dev: Seq<char>, i: int) -> Option<
    Seq<char>,
>
    decreases c.len() - i,
        when 0 <= i <= c.len()
{
    if i == c.len() {
        None
    } else if c[i].0 == dev {
        Some(c[i].1)
    } else {
        cache_lookup(c, dev, i + 1)
    }
}

/// A failed lookup means no entry carries the key.
proof fn lemma_cache_lookup_none(c: Seq<(Seq<char>, Seq<char>)>, dev: Seq<char>, i: int)
    requires
        0 <= i <= c.len(),
        cache_lookup(c, dev, i) is None,
    ensures
        forall|j: int| i <= j < c.len() ==> (#[trigger] c[j]).0 != dev,
    decreases c.len() - i,
{
    if i < c.len() {
        lemma_cache_lookup_none(c, dev, i + 1);
    }
}

/// After a push of the missing key, lookup finds exactly the pushed path.
proof fn lemma_cache_lookup_push(
    c: Seq<(Seq<char>, Seq<char>)>,
    dev: Seq<char>,
    p: Seq<char>,
    i: int,
)
    requires
        0 <= i <= c.len(),
        cache_lookup(c, dev, i) is None,
    ensures
        cache_lookup(c.push((dev, p)), dev, i) == Some(p),
    decreases c.len() - i,
{
    let cp = c.push((dev, p));
    if i == c.len() {
        assert(cp[i].0 == dev);
    } else {
        assert(cp[i] == c[i]);
        lemma_cache_lookup_push(c, dev, p, i + 1);
    }
}

// ---------------------------------------------------------------------------
// Partition table scan
// ---------------------------------------------------------------------------

/// Scan of the listing's lines from `i` on: the name field (fourth token) of
/// the last line whose first two tokens equal `major` and `minor`; `acc`
/// carries the best match so far.
pub open spec fn scan_partitions(
    ls: Seq<Seq<char>>,
    i: int,
    major: Seq<char>,
    minor: Seq<char>,
    acc: Option<Seq<char>>,
) -> Option<Seq<char>>
    decreases ls.len() - i,
        when 0 <= i <= ls.len()
{
    if i == ls.len() {
        acc
    } else {
        let f = tokens_of(ls[i]);
        scan_partitions(
            ls,
            i + 1,
            major,
            minor,
            if f.len() >= 4 && f[0] == major && f[1] == minor {
                Some(f[3])
            } else {
                acc
            },
        )
    }
}

/// Name of the device `major,minor` in the partition listing: its first two
/// lines are headers; among the rest the last match wins.
pub open spec fn partition_name(partitions: Seq<char>, major: Seq<char>, minor: Seq<char>) -> Option<
    Seq<char>,
> {
    let ls = spec_lines(partitions);
    let start = if ls.len() < 2 {
        ls.len() as int
    } else {
        2
    };
    scan_partitions(ls, start, major, minor, None)
}

// ---------------------------------------------------------------------------
// Device-mapper indirection
// ---------------------------------------------------------------------------

/// The path component after the last slash.
pub open spec fn after_last_slash(p: Seq<char>) -> Seq<char>
    decreases p.len(),
{
    if p.len() == 0 {
        Seq::empty()
    } else if p.last() == '/' {
        Seq::empty()
    } else {
        after_last_slash(p.drop_last()).push(p.last())
    }
}

proof fn lemma_after_last_slash(p: Seq<char>, k: int)
    requires
        0 <= k <= p.len(),
        forall|j: int| k <= j < p.len() ==> p[j] != '/',
        k == 0 || p[k - 1] == '/',
    ensures
        after_last_slash(p) == p.skip(k),
    decreases p.len(),
{
    if k == p.len() {
        if k == 0 {
            assert(p.skip(0) =~= p);
        } else {
            assert(p.last() == '/');
            assert(p.skip(k) =~= Seq::<char>::empty());
        }
    } else {
        assert(p[p.len() - 1] != '/');
        let q = p.drop_last();
        assert(forall|j: int| k <= j < q.len() ==> q[j] == p[j]);
        if k > 0 {
            assert(q[k - 1] == p[k - 1]);
        }
        lemma_after_last_slash(q, k);
        assert(q.skip(k).push(p.last()) =~= p.skip(k));
    }
}

/// The path component of `p` after its last slash.
pub fn last_component(p: &str) -> (r: &str)
    ensures
        r@ == after_last_slash(p@),
{
    let n = p.unicode_len();
    let mut i: usize = n;
    while i > 0
        invariant
            i <= n,
            n == p@.len(),
            forall|j: int| i <= j < n ==> p@[j] != '/',
        decreases i,
    {
        if p.get_char(i - 1) == '/' {
            let r = p.substring_char(i, n);
            proof {
                lemma_after_last_slash(p@, i as int);
                assert(r@ =~= p@.skip(i as int));
            }
            return r;
        }
        i = i - 1;
    }
    proof {
        lemma_after_last_slash(p@, 0);
        assert(p@.skip(0) =~= p@);
    }
    p
}

/// Scan of the mapper symlinks from `i` on: the last link (name, target)
/// whose target's file name equals `dmname`; `acc` is the best match so far.
pub open spec fn scan_links(
    links: Seq<(Seq<char>, Seq<char>)>,
    i: int,
    dmname: Seq<char>,
    acc: Option<(Seq<char>, Seq<char>)>,
) -> Option<(Seq<char>, Seq<char>)>
    decreases links.len() - i,
        when 0 <= i <= links.len()
{
    if i == links.len() {
        acc
    } else {
        scan_links(
            links,
            i + 1,
            dmname,
            if after_last_slash(links[i].1) == dmname {
                Some(links[i])
            } else {
                acc
            },
        )
    }
}

/// First hyphen that separates volume group from logical volume: doubled
/// hyphens are the mapper's escape for a literal hyphen and are skipped.
pub open spec fn lvm_sep(name: Seq<char>, i: int) -> Option<int>
    decreases name.len() - i,
        when 0 <= i <= name.len()
{
    if i >= name.len() {
        None
    } else if name[i] == '-' {
        if i + 1 < name.len() && name[i + 1] == '-' {
            lvm_sep(name, i + 2)
        } else {
            Some(i)
        }
    } else {
        lvm_sep(name, i + 1)
    }
}

/// First unescaped hyphen of `s`.
pub fn lvm_sep_exec(s: &str) -> (r: Option<usize>)
    ensures
        match r {
            Some(j) => Some(j as int) == lvm_sep(s@, 0) && j < s@.len(),
            None => lvm_sep(s@, 0) is None,
        },
{
    let n = s.unicode_len();
    let mut i: usize = 0;
    while i < n
        invariant
            i <= n,
            n == s@.len(),
            lvm_sep(s@, 0) == lvm_sep(s@, i as int),
        decreases n - i,
    {
        if s.get_char(i) == '-' {
            if i + 1 < n && s.get_char(i + 1) == '-' {
                i = i + 2;
            } else {
                return Some(i);
            }
        } else {
            i = i + 1;
        }
    }
    None
}

/// The user-facing path for device-mapper name `name` (its plain path being
/// `base`): the matching symlink's name split at the unescaped hyphen into
/// `/dev/<group>/<volume>` with the volume's doubled hyphens collapsed; a
/// separator-free symlink name keeps the link's raw target; no matching
/// symlink keeps `base`.
pub open spec fn mapper_path(
    links: Seq<(Seq<char>, Seq<char>)>,
    name: Seq<char>,
    base: Seq<char>,
) -> Seq<char> {
    match scan_links(links, 0, name, None) {
        None => base,
        Some(link) => {
            match lvm_sep(link.0, 0) {
                Some(sep) => "/dev/"@ + link.0.take(sep) + "/"@ + collapse_hyphens(
                    link.0.skip(sep + 1),
                ),
                None => link.1,
            }
        },
    }
}

// ---------------------------------------------------------------------------
// Resolution
// ---------------------------------------------------------------------------

/// Path resolved for the identifier `dev` (`major,minor`): loop devices come
/// straight from the minor number; other devices are named by the partition
/// listing, with device-mapper names traded for their symlink's path; an
/// identifier without a comma, or absent from the listing, resolves to
/// nothing.
pub open spec fn spec_resolve(v: DevicePathsV, dev: Seq<char>) -> Option<Seq<char>> {
    match find_from(dev, ',', 0) {
        None => None,
        Some(ci) => {
            let major = dev.take(ci);
            let minor = match find_from(dev, ',', ci + 1) {
                None => dev.skip(ci + 1),
                Some(c2) => dev.subrange(ci + 1, c2),
            };
            if major == "7"@ {
                Some("/dev/loop"@ + minor)
            } else {
                match partition_name(v.partitions, major, minor) {
                    None => None,
                    Some(name) => {
                        let base = "/dev/"@ + name;
                        if name.len() >= 3 && name.subrange(0, 3) == "dm-"@ {
                            Some(mapper_path(v.links, name, base))
                        } else {
                            Some(base)
                        }
                    },
                }
            }
        },
    }
}

/// What one `get_dev_path` call does: a cached identifier is answered from
/// the cache and changes nothing; a fresh one is resolved and, on success,
/// cached.
pub open spec fn spec_get_step(v: DevicePathsV, dev: Seq<char>) -> (DevicePathsV, Option<
    Seq<char>,
>) {
    match cache_lookup(v.cache, dev, 0) {
        Some(p) => (v, Some(p)),
        None => match spec_resolve(v, dev) {
            None => (v, None),
            Some(p) => (
                DevicePathsV { cache: v.cache.push((dev, p)), partitions: v.partitions, links: v.links },
                Some(p),
            ),
        },
    }
}

/// Resolution is memoized: a repeated request returns what the first one did
/// and leaves the resolver untouched; after one successful resolution the
/// answer sits in the cache, so later requests consult neither snapshot.
pub proof fn lemma_get_idempotent(v: DevicePathsV, dev: Seq<char>)
    ensures
        ({
            let (v1, r1) = spec_get_step(v, dev);
            let (v2, r2) = spec_get_step(v1, dev);
            v2 == v1 && r2 == r1 && (r1 is Some ==> cache_lookup(v1.cache, dev, 0) == r1)
        }),
{
    match cache_lookup(v.cache, dev, 0) {
        Some(p) => {},
        None => {
            match spec_resolve(v, dev) {
                None => {},
                Some(p) => {
                    lemma_cache_lookup_push(v.cache, dev, p, 0);
                },
            }
        },
    }
}

/// A loop device resolves from the identifier alone: `7,3` yields
/// `/dev/loop3` whatever the partition listing and mapper snapshots hold.
pub proof fn lemma_loop_device(v: DevicePathsV)
    ensures
        spec_resolve(v, "7,3"@) == Some("/dev/loop3"@),
{
    reveal_strlit("7,3");
    reveal_strlit("7");
    reveal_strlit("/dev/loop");
    reveal_strlit("/dev/loop3");
    let s = "7,3"@;
    assert(s.len() == 3);
    assert(find_from(s, ',', 3) is None);
    assert(find_from(s, ',', 2) is None);
    assert(find_from(s, ',', 1) == Some(1int));
    assert(find_from(s, ',', 0) == Some(1int));
    assert(s.take(1) =~= "7"@);
    assert("/dev/loop"@ + s.skip(2) =~= "/dev/loop3"@);
}

/// The resolver: memoized identifier-to-path resolution over startup
/// snapshots of the partition listing and the mapper symlink directory.
pub struct DevicePaths {
    cache: Vec<(String, String)>,
    proc_partitions: String,
    mapper_links: Vec<(String, String)>,
}

impl View for DevicePaths {
    type V = DevicePathsV;

    closed spec fn view(&self) -> DevicePathsV {
        DevicePathsV {
            cache: self.cache.deep_view(),
            partitions: self.proc_partitions@,
            links: self.mapper_links.deep_view(),
        }
    }
}

impl DevicePaths {
    /// The cache never holds an identifier twice.
    pub closed spec fn wf(&self) -> bool {
        forall|i: int, j: int|
            0 <= i < j < self.cache.deep_view().len() ==> (#[trigger] self.cache.deep_view()[i]).0
                != (#[trigger] self.cache.deep_view()[j]).0
    }

    /// A fresh resolver over the given snapshots: `proc_partitions` is the
    /// text of the kernel partition listing, `mapper_links` the (name,
    /// target) pairs of the device-mapper symlink directory.
    pub fn new(proc_partitions: String, mapper_links: Vec<(String, String)>) -> (r: DevicePaths)
        ensures
            r.wf(),
            r@.cache == Seq::<(Seq<char>, Seq<char>)>::empty(),
            r@.partitions == proc_partitions@,
            r@.links == mapper_links.deep_view(),
    {
        let r = DevicePaths { cache: Vec::new(), proc_partitions, mapper_links };
        proof {
            assert(r.cache.deep_view() =~= Seq::<(Seq<char>, Seq<char>)>::empty());
        }
        r
    }

    /// Uncached resolution of one identifier against the snapshots.
    fn resolve(&self, dev: &str) -> (r: Option<String>)
        ensures
            match (r, spec_resolve(self@, dev@)) {
                (Some(a), Some(b)) => a@ == b,
                (None, None) => true,
                _ => false,
            },
    {
        let n = dev.unicode_len();
        let ci = match find_char(dev, ',', 0) {
            None => {
                return None;
            },
            Some(c) => c,
        };
        proof {
            lemma_find_from(dev@, ',', 0);
        }
        let major = dev.substring_char(0, ci);
        proof {
            assert(major@ =~= dev@.take(ci as int));
        }
        let minor = match find_char(dev, ',', ci + 1) {
            None => {
                let m = dev.substring_char(ci + 1, n);
                proof {
                    assert(m@ =~= dev@.skip(ci + 1));
                }
                m
            },
            Some(c2) => {
                proof {
                    lemma_find_from(dev@, ',', ci + 1);
                }
                dev.substring_char(ci + 1, c2)
            },
        };
        if str_eq(major, "7") {
            let mut p = String::from_str("/dev/loop");
            p.append(minor);
            proof {
                assert(spec_resolve(self@, dev@) == Some("/dev/loop"@ + minor@));
                assert(p@ == spec_resolve(self@, dev@)->0);
            }
            return Some(p);
        }
        let name = match self.lookup_partition(major, minor) {
            None => {
                return None;
            },
            Some(nm) => nm,
        };
        let mut base = String::from_str("/dev/");
        base.append(name.as_str());
        if str_starts_with(name.as_str(), "dm-") {
            let ghost basev = base@;
            let ghost majorv = major@;
            let ghost minorv = minor@;
            let m = self.mapper_lookup(name.as_str(), base);
            proof {
                reveal_strlit("dm-");
                assert(partition_name(self@.partitions, majorv, minorv) == Some(name@));
                assert(basev == "/dev/"@ + name@);
                assert(name@.len() >= 3 && name@.subrange(0, 3) == "dm-"@);
                assert(spec_resolve(self@, dev@) == Some(mapper_path(self@.links, name@, basev)));
                assert(m@ == spec_resolve(self@, dev@)->0);
            }
            Some(m)
        } else {
            proof {
                assert(spec_resolve(self@, dev@) == Some(base@));
            }
            Some(base)
        }
    }

    /// Scans the partition listing for `major`/`minor`; the last match wins.
    fn lookup_partition(&self, major: &str, minor: &str) -> (r: Option<String>)
        ensures
            match (r, partition_name(self@.partitions, major@, minor@)) {
                (Some(a), Some(b)) => a@ == b,
                (None, None) => true,
                _ => false,
            },
    {
        let lines = split_lines(self.proc_partitions.as_str());
        let ghost ls = spec_lines(self@.partitions);
        proof {
            assert(lines.deep_view() == ls);
        }
        let nl = lines.len();
        let mut i: usize = if nl < 2 {
            nl
        } else {
            2
        };
        let ghost start = i as int;
        let mut best: Option<String> = None;
        while i < nl
            invariant
                nl == ls.len(),
                lines.deep_view() == ls,
                start <= i <= nl,
                scan_partitions(ls, start, major@, minor@, None) == scan_partitions(
                    ls,
                    i as int,
                    major@,
                    minor@,
                    match best {
                        Some(b) => Some(b@),
                        None => None,
                    },
                ),
            decreases nl - i,
        {
            proof {
                assert(ls[i as int] == lines@[i as int]@);
            }
            let f = tokenize(lines[i].as_str());
            let ghost fv = tokens_of(ls[i as int]);
            proof {
                assert(f.deep_view() == fv);
            }
            if f.len() >= 4 {
                proof {
                    assert(fv[0] == f@[0]@);
                    assert(fv[1] == f@[1]@);
                    assert(fv[3] == f@[3]@);
                }
                if str_eq(f[0].as_str(), major) && str_eq(f[1].as_str(), minor) {
                    best = Some(f[3].clone());
                }
            }
            i = i + 1;
        }
        best
    }

    /// Looks `name` (a `dm-N` device name) up among the mapper symlinks and
    /// builds the user-facing path; `base` is kept when nothing matches.
    fn mapper_lookup(&self, name: &str, base: String) -> (r: String)
        ensures
            r@ == mapper_path(self@.links, name@, base@),
    {
        let ghost lv = self.mapper_links.deep_view();
        let nl = self.mapper_links.len();
        let mut i: usize = 0;
        let mut best: Option<usize> = None;
        while i < nl
            invariant
                nl == lv.len(),
                lv == self.mapper_links.deep_view(),
                i <= nl,
                match best {
                    None => scan_links(lv, 0, name@, None) == scan_links(lv, i as int, name@, None),
                    Some(b) => b < i && scan_links(lv, 0, name@, None) == scan_links(
                        lv,
                        i as int,
                        name@,
                        Some(lv[b as int]),
                    ),
                },
            decreases nl - i,
        {
            proof {
                assert(lv[i as int].1 == self.mapper_links@[i as int].1@);
            }
            let target = last_component(self.mapper_links[i].1.as_str());
            if str_eq(target, name) {
                best = Some(i);
            }
            i = i + 1;
        }
        let b = match best {
            None => {
                return base;
            },
            Some(b) => b,
        };
        proof {
            assert(lv[b as int].0 == self.mapper_links@[b as int].0@);
            assert(lv[b as int].1 == self.mapper_links@[b as int].1@);
        }
        let lname: &String = &self.mapper_links[b].0;
        let ln = lname.as_str().unicode_len();
        match lvm_sep_exec(lname.as_str()) {
            Some(sep) => {
                let vg = lname.as_str().substring_char(0, sep);
                let lv_raw = lname.as_str().substring_char(sep + 1, ln);
                let lvpart = collapse_hyphens_exec(lv_raw);
                let mut p = String::from_str("/dev/");
                p.append(vg);
                p.append("/");
                p.append(lvpart.as_str());
                proof {
                    assert(vg@ =~= lname@.take(sep as int));
                    assert(lv_raw@ =~= lname@.skip(sep + 1));
                    assert(p@ =~= mapper_path(self@.links, name@, base@));
                }
                p
            },
            None => {
                let t = self.mapper_links[b].1.clone();
                t
            },
        }
    }

    /// Resolves `dev`, answering from the cache when it can; a fresh
    /// successful resolution is cached for the process lifetime.
    pub fn get_dev_path(&mut self, dev: &str) -> (r: Option<String>)
        requires
            old(self).wf(),
        ensures
            final(self).wf(),
            final(self)@ == spec_get_step(old(self)@, dev@).0,
            match (r, spec_get_step(old(self)@, dev@).1) {
                (Some(a), Some(b)) => a@ == b,
                (None, None) => true,
                _ => false,
            },
    {
        let ghost cv = self.cache.deep_view();
        let n = self.cache.len();
        let mut i: usize = 0;
        while i < n
            invariant
                *self == *old(self),
                old(self).wf(),
                n == cv.len(),
                cv == self.cache.deep_view(),
                i <= n,
                cache_lookup(cv, dev@, 0) == cache_lookup(cv, dev@, i as int),
            decreases n - i,
        {
            proof {
                assert(cv[i as int].0 == self.cache@[i as int].0@);
                assert(cv[i as int].1 == self.cache@[i as int].1@);
            }
            if str_eq(self.cache[i].0.as_str(), dev) {
                let p = self.cache[i].1.clone();
                return Some(p);
            }
            i = i + 1;
        }
        proof {
            lemma_cache_lookup_none(cv, dev@, 0);
        }
        match self.resolve(dev) {
            None => None,
            Some(p) => {
                let key = String::from_str(dev);
                let ret = p.clone();
                self.cache.push((key, p));
                proof {
                    assert(self.cache.deep_view() =~= cv.push((dev@, spec_get_step(old(self)@, dev@).1->0)));
                }
                Some(ret)
            },
        }
    }
}

} // verus!
