//! Which files a sync looks at: the size gate, the binary sniff, and the
//! ignore patterns handed to the directory walker.
use vstd::prelude::*;
use crate::config::{Config, strings_view};
use crate::text::{trim, trim_str};

verus! {

/// Number of leading bytes searched for a NUL.
pub const NUL_SNIFF_SIZE: usize = 512;

/// A file passes the size gate when it is not empty and not larger than
/// the configured maximum.
pub fn passes_size_limit(length: u64, max_size: u64) -> (b: bool)
    ensures
        b == (length != 0 && length <= max_size),
{
    length != 0 && length <= max_size
}

/// How many leading bytes of a file of `file_len` bytes are searched.
pub open spec fn sniff_len(file_len: nat, available: nat) -> nat {
    let a = if file_len < NUL_SNIFF_SIZE { file_len } else { NUL_SNIFF_SIZE as nat };
    if a < available { a } else { available }
}

/// Whether a NUL byte occurs among the first `min(file_len, 512)` bytes
/// that were read.
pub fn sniff_contains_nul(sniffed: &[u8], file_len: u64) -> (b: bool)
    ensures
        b == exists|i: int| 0 <= i < sniff_len(file_len as nat, sniffed@.len()) && sniffed@[i] == 0u8,
{
    let a: usize = if file_len < NUL_SNIFF_SIZE as u64 {
        file_len as usize
    } else {
        NUL_SNIFF_SIZE
    };
    let n: usize = if a < sniffed.len() {
        a
    } else {
        sniffed.len()
    };
    let mut i: usize = 0;
    while i < n
        invariant
            i <= n,
            n == sniff_len(file_len as nat, sniffed@.len()),
            n <= sniffed@.len(),
            forall|j: int| 0 <= j < i ==> sniffed@[j] != 0u8,
        decreases n - i,
    {
        if sniffed[i] == 0 {
            return true;
        }
        i += 1;
    }
    false
}

/// What was read of one walked entry: whether it is a regular file, its
/// length, and its first bytes (up to 512). `readable` is false when its
/// metadata or contents could not be read.
pub struct FileProbe {
    pub path: String,
    pub is_file: bool,
    pub readable: bool,
    pub length: u64,
    pub head: Vec<u8>,
}

/// A probed entry is indexed: a readable regular file that passes the
/// size gate and shows no NUL in its first bytes.
pub open spec fn accepted(p: FileProbe, max_size: u64) -> bool {
    &&& p.is_file
    &&& p.readable
    &&& p.length != 0 && p.length <= max_size
    &&& !exists|i: int| 0 <= i < sniff_len(p.length as nat, p.head@.len()) && p.head@[i] == 0u8
}

/// Whether a probed entry is a text file to index.
pub fn is_safe_text_file(probe: &FileProbe, max_size: u64) -> (b: bool)
    ensures
        b == accepted(*probe, max_size),
{
    probe.is_file && probe.readable && passes_size_limit(probe.length, max_size) && !sniff_contains_nul(
        probe.head.as_slice(),
        probe.length,
    )
}

/// Scans according to a configuration.
pub struct FileScanner {
    pub config: Config,
}

impl FileScanner {
    pub fn new(config: Config) -> (s: FileScanner)
        ensures
            s.config == config,
    {
        FileScanner { config }
    }
}

/// The paths of the accepted entries, in the order they were walked.
pub open spec fn accepted_paths(probes: Seq<FileProbe>, max_size: u64) -> Seq<Seq<char>>
    decreases probes.len(),
{
    if probes.len() == 0 {
        Seq::empty()
    } else {
        let r = accepted_paths(probes.drop_last(), max_size);
        if accepted(probes.last(), max_size) {
            r.push(probes.last().path@)
        } else {
            r
        }
    }
}

/// The files to index among the walked entries.
pub fn scan_files(config: &Config, probes: Vec<FileProbe>) -> (r: Vec<String>)
    ensures
        strings_view(r@) == accepted_paths(probes@, config.max_file_size),
{
    let ghost pv = probes@;
    let mut rest = probes;
    let mut out: Vec<String> = Vec::new();
    let ghost mut k: int = 0;
    while rest.len() > 0
        invariant
            0 <= k <= pv.len(),
            rest@ == pv.subrange(k, pv.len() as int),
            strings_view(out@) == accepted_paths(pv.take(k), config.max_file_size),
        decreases rest@.len(),
    {
        let p = rest.remove(0);
        proof {
            assert(rest@ =~= pv.subrange(k + 1, pv.len() as int));
            assert(pv.take(k + 1).drop_last() =~= pv.take(k));
            assert(pv.take(k + 1).last() == p);
        }
        let ghost ob = out@;
        if is_safe_text_file(&p, config.max_file_size) {
            out.push(p.path);
            assert(strings_view(out@) =~= strings_view(ob).push(out@.last()@));
        }
        proof {
            k = k + 1;
        }
    }
    assert(pv.take(pv.len() as int) =~= pv);
    out
}

/// The ignore patterns as walker overrides: each non-blank pattern,
/// trimmed, becomes an exclusion (`!` followed by the pattern without a
/// leading `!`).
pub open spec fn override_globs(patterns: Seq<Seq<char>>) -> Seq<Seq<char>>
    decreases patterns.len(),
{
    if patterns.len() == 0 {
        Seq::empty()
    } else {
        let r = override_globs(patterns.drop_last());
        let t = trim(patterns.last());
        if t.len() == 0 {
            r
        } else if t[0] == '!' {
            r.push(t)
        } else {
            r.push(seq!['!'] + t)
        }
    }
}

/// The override globs for the walker, or `None` when no pattern is left.
pub fn build_overrides(ignore_patterns: &Vec<String>) -> (r: Option<Vec<String>>)
    ensures
        match r {
            Some(v) => strings_view(v@) == override_globs(strings_view(ignore_patterns@)) && v@.len() > 0,
            None => override_globs(strings_view(ignore_patterns@)).len() == 0,
        },
{
    let ghost pv = strings_view(ignore_patterns@);
    let mut out: Vec<String> = Vec::new();
    let mut i: usize = 0;
    while i < ignore_patterns.len()
        invariant
            i <= ignore_patterns.len(),
            pv == strings_view(ignore_patterns@),
            strings_view(out@) == override_globs(pv.take(i as int)),
        decreases ignore_patterns.len() - i,
    {
        proof {
            assert(pv.take(i + 1).drop_last() =~= pv.take(i as int));
            assert(pv.take(i + 1).last() == pv[i as int]);
        }
        let t = trim_str(ignore_patterns[i].as_str());
        let tv = crate::text::chars_of(t.as_str());
        let ghost ob = strings_view(out@);
        if tv.len() > 0 {
            if tv[0] == '!' {
                out.push(t);
                assert(strings_view(out@) =~= ob.push(tv@));
            } else {
                let mut g = String::new();
                g.push('!');
                crate::text::push_str(&mut g, t.as_str());
                out.push(g);
                assert(strings_view(out@) =~= ob.push(seq!['!'] + tv@));
            }
        }
        i += 1;
    }
    assert(pv.take(ignore_patterns@.len() as int) =~= pv);
    if out.len() == 0 {
        None
    } else {
        Some(out)
    }
}

} // verus!
