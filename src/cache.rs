//! Decides whether a locally cached download can be reused.
use vstd::prelude::*;
use vstd::slice::slice_subrange;

verus! {

/// A cached file whose modification age exceeds this many seconds is stale.
pub const STALE_AFTER_SECS: u64 = 604800;

/// Only this many leading bytes of a cached file are inspected for the
/// access-denied marker before the file is trusted.
pub const SAMPLE_LEN: usize = 1024;

/// The bytes of `<TITLE>Access Denied</TITLE>`, the title of the HTML error
/// page that a refused request sometimes saves in place of the data.
pub open spec fn denied_marker() -> Seq<u8> {
    seq![
        60u8, 84u8, 73u8, 84u8, 76u8, 69u8, 62u8, 65u8, 99u8, 99u8, 101u8, 115u8, 115u8, 32u8,
        68u8, 101u8, 110u8, 105u8, 101u8, 100u8, 60u8, 47u8, 84u8, 73u8, 84u8, 76u8, 69u8, 62u8,
    ]
}

/// `s` holds `m` as a contiguous run starting at byte `i`.
pub open spec fn occurs_at(s: Seq<u8>, m: Seq<u8>, i: int) -> bool {
    0 <= i && i + m.len() <= s.len() && s.subrange(i, i + m.len()) == m
}

/// `s` holds the access-denied marker somewhere.
pub open spec fn has_denied_marker(s: Seq<u8>) -> bool {
    exists|i: int| occurs_at(s, denied_marker(), i)
}

/// The part of a file's leading bytes that the validator inspects.
pub open spec fn sample_of(head: Seq<u8>) -> Seq<u8> {
    if head.len() <= SAMPLE_LEN {
        head
    } else {
        head.take(SAMPLE_LEN as int)
    }
}

fn denied_marker_bytes() -> (r: Vec<u8>)
    ensures
        r@ == denied_marker(),
{
    let r: Vec<u8> = vec![
        60u8, 84u8, 73u8, 84u8, 76u8, 69u8, 62u8, 65u8, 99u8, 99u8, 101u8, 115u8, 115u8, 32u8,
        68u8, 101u8, 110u8, 105u8, 101u8, 100u8, 60u8, 47u8, 84u8, 73u8, 84u8, 76u8, 69u8, 62u8,
    ];
    assert(r@ =~= denied_marker());
    r
}

fn occurs_at_exec(s: &[u8], m: &Vec<u8>, i: usize) -> (r: bool)
    requires
        i + m@.len() <= s@.len(),
    ensures
        r == occurs_at(s@, m@, i as int),
{
    let n: usize = s.len();
    let mut j: usize = 0;
    while j < m.len()
        invariant
            n == s@.len(),
            i + m@.len() <= s@.len(),
            j <= m@.len(),
            forall|k: int| 0 <= k < j ==> s@[i + k] == m@[k],
        decreases m@.len() - j,
    {
        if s[i + j] != m[j] {
            assert(s@.subrange(i as int, i + m@.len())[j as int] != m@[j as int]);
            return false;
        }
        j = j + 1;
    }
    assert(s@.subrange(i as int, i + m@.len()) =~= m@);
    true
}

/// Whether `bytes` holds the access-denied marker anywhere.
pub fn contains_denied_marker(bytes: &[u8]) -> (r: bool)
    ensures
        r == has_denied_marker(bytes@),
{
    let m = denied_marker_bytes();
    if bytes.len() < m.len() {
        assert forall|i: int| !occurs_at(bytes@, denied_marker(), i) by {}
        return false;
    }
    let last: usize = bytes.len() - m.len();
    let mut i: usize = 0;
    while i <= last
        invariant
            m@ == denied_marker(),
            m@.len() == 28,
            bytes@.len() <= usize::MAX,
            last + m@.len() == bytes@.len(),
            i <= last + 1,
            forall|k: int| 0 <= k < i ==> !occurs_at(bytes@, denied_marker(), k),
        decreases last + 1 - i,
    {
        if occurs_at_exec(bytes, &m, i) {
            return true;
        }
        i = i + 1;
    }
    assert forall|k: int| !occurs_at(bytes@, denied_marker(), k) by {
        if 0 <= k < i {
        }
    }
    false
}

/// What could be learned about a cache file that exists.
pub struct CacheProbe {
    /// Length of the file in bytes.
    pub len: u64,
    /// The file's leading bytes as read (empty if reading failed).
    pub head: Vec<u8>,
    /// Seconds since the file was last modified; `None` when the timestamp
    /// could not be read or lies in the future.
    pub age_secs: Option<u64>,
}

/// The verdict on a cache path.
#[derive(Clone, Copy, Debug, PartialEq, Eq, Structural)]
pub enum CacheState {
    /// No file exists at the path.
    Missing,
    /// The file exists but holds no bytes.
    Empty,
    /// The file's leading bytes hold the access-denied marker.
    AccessDenied,
    /// The file is older than the staleness threshold, or its age is unknown.
    Stale,
    /// The file may be reused as it is.
    Fresh,
}

/// A file whose age is unknown counts as stale.
pub open spec fn is_stale(age_secs: Option<u64>) -> bool {
    match age_secs {
        None => true,
        Some(a) => a > STALE_AFTER_SECS,
    }
}

/// The verdict on a cache path, given what a probe found there.
pub open spec fn classify_spec(probe: Option<CacheProbe>) -> CacheState {
    match probe {
        None => CacheState::Missing,
        Some(p) => if p.len == 0 {
            CacheState::Empty
        } else if has_denied_marker(sample_of(p.head@)) {
            CacheState::AccessDenied
        } else if is_stale(p.age_secs) {
            CacheState::Stale
        } else {
            CacheState::Fresh
        },
    }
}

impl CacheState {
    pub open spec fn spec_must_delete(self) -> bool {
        self == CacheState::Empty || self == CacheState::AccessDenied
    }

    pub open spec fn spec_must_fetch(self) -> bool {
        self != CacheState::Fresh
    }

    /// Whether the cached file is corrupt and has to be removed before any read.
    pub fn must_delete(&self) -> (r: bool)
        ensures
            r == self.spec_must_delete(),
    {
        match self {
            CacheState::Empty | CacheState::AccessDenied => true,
            _ => false,
        }
    }

    /// Whether the data has to be fetched again before it is read.
    pub fn must_fetch(&self) -> (r: bool)
        ensures
            r == self.spec_must_fetch(),
    {
        match self {
            CacheState::Fresh => false,
            _ => true,
        }
    }
}

/// Classifies a cache path: `None` when no file exists there, else what a
/// probe of the file found. Only the first `SAMPLE_LEN` bytes of `head` are
/// inspected.
pub fn classify_cache(probe: &Option<CacheProbe>) -> (r: CacheState)
    ensures
        r == classify_spec(*probe),
{
    match probe {
        None => CacheState::Missing,
        Some(p) => {
            if p.len == 0 {
                return CacheState::Empty;
            }
            let n: usize = if p.head.len() <= SAMPLE_LEN {
                p.head.len()
            } else {
                SAMPLE_LEN
            };
            let sample = slice_subrange(p.head.as_slice(), 0, n);
            assert(sample@ =~= sample_of(p.head@));
            if contains_denied_marker(sample) {
                return CacheState::AccessDenied;
            }
            let stale = match p.age_secs {
                None => true,
                Some(a) => a > STALE_AFTER_SECS,
            };
            if stale {
                CacheState::Stale
            } else {
                CacheState::Fresh
            }
        },
    }
}

/// Why freshly downloaded content was refused.
#[derive(Clone, Copy, Debug, PartialEq, Eq, Structural)]
pub enum DownloadError {
    /// The server answered with its access-denied page instead of the data.
    AccessDenied,
}

/// Checks freshly downloaded content: it is refused when the access-denied
/// marker occurs anywhere in it, not only in its first bytes.
pub fn check_download(content: &[u8]) -> (r: Result<(), DownloadError>)
    ensures
        r is Err <==> has_denied_marker(content@),
{
    if contains_denied_marker(content) {
        Err(DownloadError::AccessDenied)
    } else {
        Ok(())
    }
}

/// An empty cache file is deleted and fetched again.
pub proof fn lemma_empty_cache_refetched(probe: CacheProbe)
    requires
        probe.len == 0,
    ensures
        classify_spec(Some(probe)) == CacheState::Empty,
        classify_spec(Some(probe)).spec_must_delete(),
        classify_spec(Some(probe)).spec_must_fetch(),
{
}

/// A non-empty cache file whose first `SAMPLE_LEN` bytes hold the
/// access-denied marker is deleted and fetched again, whatever follows it.
pub proof fn lemma_denied_cache_refetched(probe: CacheProbe, at: int)
    requires
        probe.len > 0,
        occurs_at(probe.head@, denied_marker(), at),
        at + denied_marker().len() <= SAMPLE_LEN,
    ensures
        classify_spec(Some(probe)) == CacheState::AccessDenied,
        classify_spec(Some(probe)).spec_must_delete(),
        classify_spec(Some(probe)).spec_must_fetch(),
{
    let s = sample_of(probe.head@);
    let m = denied_marker();
    assert(s.subrange(at, at + m.len()) =~= probe.head@.subrange(at, at + m.len()));
    assert(occurs_at(s, m, at));
}

/// A cache file that is older than the threshold, or whose age is unknown, is
/// fetched again even when its content is sound; it is not deleted first.
pub proof fn lemma_stale_cache_refetched(probe: CacheProbe)
    requires
        probe.len > 0,
        !has_denied_marker(sample_of(probe.head@)),
        is_stale(probe.age_secs),
    ensures
        classify_spec(Some(probe)) == CacheState::Stale,
        !classify_spec(Some(probe)).spec_must_delete(),
        classify_spec(Some(probe)).spec_must_fetch(),
{
}

/// Only a sound, recent cache file is reused: whenever the verdict lets the
/// file stand, it is non-empty, free of the marker and within the threshold.
pub proof fn lemma_reused_cache_is_sound(probe: Option<CacheProbe>)
    requires
        !classify_spec(probe).spec_must_fetch(),
    ensures
        probe matches Some(p) && p.len > 0 && !has_denied_marker(sample_of(p.head@)) && !is_stale(
            p.age_secs,
        ),
        !classify_spec(probe).spec_must_delete(),
{
}

} // verus!
