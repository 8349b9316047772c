//! Scanner configuration: defaults, merging of a global and a more specific
//! configuration, and the human-friendly size and duration notations.
use vstd::prelude::*;
use crate::text::{
    decimal, decimal_string, push_str,
    ascii_upper, ascii_upper_exec, ascii_upper_seq, chars_eq, chars_of, ends_with, parse_u64,
    parse_u64_range, skip_ws_backward, skip_ws_forward, string_of, trim,
};

verus! {

pub const DEFAULT_MAX_FILE_SIZE: u64 = 1048576;

pub const DEFAULT_SEARCH_LIMIT: usize = 5;

pub const DEFAULT_CACHE_TTL_SECONDS: u64 = 3600;

/// User configuration of the skill scanner.
pub struct Config {
    pub scan_paths: Vec<String>,
    pub ignore_patterns: Vec<String>,
    pub max_file_size: u64,
    pub search_limit: usize,
    pub cache_ttl_seconds: u64,
    pub copy_to_clipboard_on_pick: bool,
    pub language: Option<String>,
}

/// The mathematical content of a [`Config`].
pub struct ConfigView {
    pub scan_paths: Seq<Seq<char>>,
    pub ignore_patterns: Seq<Seq<char>>,
    pub max_file_size: u64,
    pub search_limit: usize,
    pub cache_ttl_seconds: u64,
    pub copy_to_clipboard_on_pick: bool,
    pub language: Option<Seq<char>>,
}

pub open spec fn strings_view(v: Seq<String>) -> Seq<Seq<char>> {
    v.map_values(|s: String| s@)
}

pub open spec fn opt_string_view(o: Option<String>) -> Option<Seq<char>> {
    match o {
        Some(s) => Some(s@),
        None => None,
    }
}

impl View for Config {
    type V = ConfigView;

    open spec fn view(&self) -> ConfigView {
        ConfigView {
            scan_paths: strings_view(self.scan_paths@),
            ignore_patterns: strings_view(self.ignore_patterns@),
            max_file_size: self.max_file_size,
            search_limit: self.search_limit,
            cache_ttl_seconds: self.cache_ttl_seconds,
            copy_to_clipboard_on_pick: self.copy_to_clipboard_on_pick,
            language: opt_string_view(self.language),
        }
    }
}

/// `target` followed by each item of `source` that is not already present
/// (checked against everything kept so far).
pub open spec fn extend_unique_spec(target: Seq<Seq<char>>, source: Seq<Seq<char>>) -> Seq<Seq<char>>
    decreases source.len(),
{
    if source.len() == 0 {
        target
    } else {
        let r = extend_unique_spec(target, source.drop_last());
        if r.contains(source.last()) {
            r
        } else {
            r.push(source.last())
        }
    }
}

pub open spec fn default_config_view() -> ConfigView {
    ConfigView {
        scan_paths: Seq::empty(),
        ignore_patterns: Seq::empty(),
        max_file_size: DEFAULT_MAX_FILE_SIZE,
        search_limit: DEFAULT_SEARCH_LIMIT,
        cache_ttl_seconds: DEFAULT_CACHE_TTL_SECONDS,
        copy_to_clipboard_on_pick: false,
        language: None,
    }
}

/// The merge of a base configuration with a more specific one: list fields
/// keep the base items and append new ones, scalar fields take the more
/// specific value unless it is the default, the clipboard flag is set by
/// either side, and a language given by the more specific side wins.
pub open spec fn merge_spec(base: ConfigView, other: ConfigView) -> ConfigView {
    ConfigView {
        scan_paths: extend_unique_spec(base.scan_paths, other.scan_paths),
        ignore_patterns: extend_unique_spec(base.ignore_patterns, other.ignore_patterns),
        max_file_size: if other.max_file_size != DEFAULT_MAX_FILE_SIZE {
            other.max_file_size
        } else {
            base.max_file_size
        },
        search_limit: if other.search_limit != DEFAULT_SEARCH_LIMIT {
            other.search_limit
        } else {
            base.search_limit
        },
        cache_ttl_seconds: if other.cache_ttl_seconds != DEFAULT_CACHE_TTL_SECONDS {
            other.cache_ttl_seconds
        } else {
            base.cache_ttl_seconds
        },
        copy_to_clipboard_on_pick: base.copy_to_clipboard_on_pick
            || other.copy_to_clipboard_on_pick,
        language: if other.language is Some {
            other.language
        } else {
            base.language
        },
    }
}

/// Copies a string.
pub fn copy_string(s: &String) -> (r: String)
    ensures
        r@ == s@,
{
    s.clone()
}

/// Copies a list of strings.
pub fn copy_strings(v: &Vec<String>) -> (r: Vec<String>)
    ensures
        strings_view(r@) == strings_view(v@),
        r@.len() == v@.len(),
{
    let mut out: Vec<String> = Vec::new();
    let mut i: usize = 0;
    while i < v.len()
        invariant
            i <= v.len(),
            out@.len() == i,
            forall|j: int| 0 <= j < i ==> (#[trigger] out@[j])@ == v@[j]@,
        decreases v.len() - i,
    {
        out.push(copy_string(&v[i]));
        i += 1;
    }
    assert(strings_view(out@) =~= strings_view(v@));
    out
}

pub fn copy_opt_string(o: &Option<String>) -> (r: Option<String>)
    ensures
        opt_string_view(r) == opt_string_view(*o),
{
    match o {
        Some(s) => Some(copy_string(s)),
        None => None,
    }
}

/// Whether `item` is one of `v`.
pub fn contains_string(v: &Vec<String>, item: &String) -> (r: bool)
    ensures
        r == strings_view(v@).contains(item@),
{
    let mut i: usize = 0;
    while i < v.len()
        invariant
            i <= v.len(),
            forall|j: int| 0 <= j < i ==> v@[j]@ != item@,
        decreases v.len() - i,
    {
        if v[i] == *item {
            assert(strings_view(v@)[i as int] == item@);
            return true;
        }
        i += 1;
    }
    proof {
        if strings_view(v@).contains(item@) {
            let k = choose|k: int| 0 <= k < strings_view(v@).len() && strings_view(v@)[k] == item@;
            assert(v@[k]@ == item@);
        }
    }
    false
}

/// Appends each item of `source` that `target` does not hold yet.
pub fn extend_unique(target: &mut Vec<String>, source: &Vec<String>)
    ensures
        strings_view(final(target)@) == extend_unique_spec(strings_view(old(target)@), strings_view(source@)),
{
    let ghost t0 = strings_view(target@);
    let mut i: usize = 0;
    while i < source.len()
        invariant
            i <= source.len(),
            strings_view(target@) == extend_unique_spec(t0, strings_view(source@.take(i as int))),
        decreases source.len() - i,
    {
        let ghost before = strings_view(target@);
        proof {
            assert(strings_view(source@.take(i + 1)).drop_last() =~= strings_view(source@.take(i as int)));
            assert(strings_view(source@.take(i + 1)).last() == source@[i as int]@);
        }
        if !contains_string(target, &source[i]) {
            target.push(copy_string(&source[i]));
            assert(strings_view(target@) =~= before.push(source@[i as int]@));
        }
        i += 1;
    }
    assert(source@.take(source@.len() as int) =~= source@);
}

impl Config {
    /// The built-in configuration: no scan paths or ignore patterns, and
    /// the default limits.
    pub fn default_config() -> (c: Config)
        ensures
            c@ == default_config_view(),
    {
        let c = Config {
            scan_paths: Vec::new(),
            ignore_patterns: Vec::new(),
            max_file_size: DEFAULT_MAX_FILE_SIZE,
            search_limit: DEFAULT_SEARCH_LIMIT,
            cache_ttl_seconds: DEFAULT_CACHE_TTL_SECONDS,
            copy_to_clipboard_on_pick: false,
            language: None,
        };
        assert(c@.scan_paths =~= Seq::<Seq<char>>::empty());
        assert(c@.ignore_patterns =~= Seq::<Seq<char>>::empty());
        c
    }

    /// An independent copy of this configuration.
    pub fn copy(&self) -> (c: Config)
        ensures
            c@ == self@,
    {
        Config {
            scan_paths: copy_strings(&self.scan_paths),
            ignore_patterns: copy_strings(&self.ignore_patterns),
            max_file_size: self.max_file_size,
            search_limit: self.search_limit,
            cache_ttl_seconds: self.cache_ttl_seconds,
            copy_to_clipboard_on_pick: self.copy_to_clipboard_on_pick,
            language: copy_opt_string(&self.language),
        }
    }

    /// Merges `other`, the more specific configuration, into this one.
    pub fn merge(&self, other: &Config) -> (merged: Config)
        ensures
            merged@ == merge_spec(self@, other@),
    {
        let mut merged = self.copy();
        extend_unique(&mut merged.scan_paths, &other.scan_paths);
        extend_unique(&mut merged.ignore_patterns, &other.ignore_patterns);
        if other.max_file_size != DEFAULT_MAX_FILE_SIZE {
            merged.max_file_size = other.max_file_size;
        }
        if other.search_limit != DEFAULT_SEARCH_LIMIT {
            merged.search_limit = other.search_limit;
        }
        if other.cache_ttl_seconds != DEFAULT_CACHE_TTL_SECONDS {
            merged.cache_ttl_seconds = other.cache_ttl_seconds;
        }
        if other.copy_to_clipboard_on_pick {
            merged.copy_to_clipboard_on_pick = other.copy_to_clipboard_on_pick;
        }
        if let Some(language) = &other.language {
            merged.language = Some(copy_string(language));
        }
        merged
    }
}

pub open spec fn kib() -> nat {
    1024
}

pub open spec fn mib() -> nat {
    1024 * 1024
}

pub open spec fn gib() -> nat {
    1024 * 1024 * 1024
}

/// The number part and the multiplier of a size with a unit suffix
/// (`GB`, `MB`, `KB`, `G`, `M` or `K`), looked up on the upper-cased text.
pub open spec fn size_suffix(u: Seq<char>) -> Option<(Seq<char>, nat)> {
    if ends_with(u, seq!['G', 'B']) {
        Some((u.subrange(0, u.len() - 2), gib()))
    } else if ends_with(u, seq!['M', 'B']) {
        Some((u.subrange(0, u.len() - 2), mib()))
    } else if ends_with(u, seq!['K', 'B']) {
        Some((u.subrange(0, u.len() - 2), kib()))
    } else if ends_with(u, seq!['G']) {
        Some((u.subrange(0, u.len() - 1), gib()))
    } else if ends_with(u, seq!['M']) {
        Some((u.subrange(0, u.len() - 1), mib()))
    } else if ends_with(u, seq!['K']) {
        Some((u.subrange(0, u.len() - 1), kib()))
    } else {
        None
    }
}

/// The number of bytes a size notation stands for (unbounded): a plain
/// byte count, or a number with a binary unit suffix in any ASCII case.
pub open spec fn file_size_value(s: Seq<char>) -> Option<nat> {
    let t = trim(s);
    if t.len() == 0 {
        None
    } else if parse_u64(t) is Some {
        Some(parse_u64(t)->0 as nat)
    } else {
        match size_suffix(ascii_upper_seq(t)) {
            Some((num, m)) => match parse_u64(trim(num)) {
                Some(n) => Some(n as nat * m),
                None => None,
            },
            None => None,
        }
    }
}

/// The notation's byte count does not fit in 64 bits.
pub open spec fn file_size_overflows(s: Seq<char>) -> bool {
    file_size_value(s) matches Some(n) && n > u64::MAX
}

/// The number part and multiplier of a duration with a unit suffix
/// (`S`, `M`, `H`, `D`) on the upper-cased text; `MS` is handled apart.
pub open spec fn duration_suffix(u: Seq<char>) -> Option<(Seq<char>, nat)> {
    if ends_with(u, seq!['S']) {
        Some((u.subrange(0, u.len() - 1), 1))
    } else if ends_with(u, seq!['M']) {
        Some((u.subrange(0, u.len() - 1), 60))
    } else if ends_with(u, seq!['H']) {
        Some((u.subrange(0, u.len() - 1), 3600))
    } else if ends_with(u, seq!['D']) {
        Some((u.subrange(0, u.len() - 1), 86400))
    } else {
        None
    }
}

/// The number of seconds a duration notation stands for (unbounded): plain
/// seconds, whole seconds of a millisecond count (`MS`), or a number with a
/// `S`, `M`, `H` or `D` suffix in any ASCII case.
pub open spec fn duration_value(s: Seq<char>) -> Option<nat> {
    let t = trim(s);
    if t.len() == 0 {
        None
    } else if parse_u64(t) is Some {
        Some(parse_u64(t)->0 as nat)
    } else {
        let u = ascii_upper_seq(t);
        if ends_with(u, seq!['M', 'S']) {
            match parse_u64(trim(u.subrange(0, u.len() - 2))) {
                Some(n) => Some(n as nat / 1000),
                None => None,
            }
        } else {
            match duration_suffix(u) {
                Some((num, m)) => match parse_u64(trim(num)) {
                    Some(n) => Some(n as nat * m),
                    None => None,
                },
                None => None,
            }
        }
    }
}

pub open spec fn duration_overflows(s: Seq<char>) -> bool {
    duration_value(s) matches Some(n) && n > u64::MAX
}

/// The upper-cased, trimmed scalars of `value` and the bounds of the trim.
fn trimmed_upper(value: &str) -> (res: (Vec<char>, usize, usize))
    ensures
        res.1 <= res.2 <= res.0@.len(),
        res.0@.subrange(res.1 as int, res.2 as int) == ascii_upper_seq(trim(value@)),
        res.2 - res.1 == trim(value@).len(),
{
    let v = chars_of(value);
    let a = skip_ws_forward(&v, 0, v.len());
    let b = skip_ws_backward(&v, a, v.len());
    assert(v@.subrange(0, v@.len() as int) =~= v@);
    let mut u: Vec<char> = Vec::new();
    let mut i: usize = 0;
    while i < v.len()
        invariant
            i <= v.len(),
            u@ == ascii_upper_seq(v@.take(i as int)),
        decreases v.len() - i,
    {
        u.push(ascii_upper_exec(v[i]));
        i += 1;
        assert(u@ =~= ascii_upper_seq(v@.take(i as int)));
    }
    assert(v@.take(v@.len() as int) =~= v@);
    assert(u@.subrange(a as int, b as int) =~= ascii_upper_seq(v@.subrange(a as int, b as int)));
    (u, a, b)
}

/// Whether `u[a..b]` ends with `suffix` (given as a vector of scalars).
fn range_ends_with(u: &Vec<char>, a: usize, b: usize, suffix: &Vec<char>) -> (r: bool)
    requires
        a <= b <= u.len(),
    ensures
        r == ends_with(u@.subrange(a as int, b as int), suffix@),
{
    if suffix.len() > b - a {
        return false;
    }
    let start = b - suffix.len();
    let mut k: usize = 0;
    while k < suffix.len()
        invariant
            start + suffix.len() == b,
            a <= start,
            b <= u.len(),
            k <= suffix.len(),
            forall|j: int| 0 <= j < k ==> u@[start + j] == suffix@[j],
        decreases suffix.len() - k,
    {
        if u[start + k] != suffix[k] {
            proof {
                let s = u@.subrange(a as int, b as int);
                assert(s.subrange(s.len() - suffix.len(), s.len() as int)[k as int] == u@[start + k]);
            }
            return false;
        }
        k += 1;
    }
    let ghost s = u@.subrange(a as int, b as int);
    assert(s.subrange(s.len() - suffix.len(), s.len() as int) =~= suffix@);
    true
}

/// `str::parse::<u64>` on the trim of `u[a..b]`.
fn parse_trimmed(u: &Vec<char>, a: usize, b: usize) -> (r: Option<u64>)
    requires
        a <= b <= u.len(),
    ensures
        r == parse_u64(trim(u@.subrange(a as int, b as int))),
{
    let x = skip_ws_forward(u, a, b);
    let y = skip_ws_backward(u, x, b);
    parse_u64_range(u, x, y)
}

proof fn lemma_upper_parse(t: Seq<char>)
    ensures
        parse_u64(ascii_upper_seq(t)) == parse_u64(t),
{
    let u = ascii_upper_seq(t);
    assert forall|i: int| 0 <= i < t.len() implies (#[trigger] u[i] == t[i] || !(
    '0' <= t[i] && t[i] <= '9' || t[i] == '+')) by {}
    let bt = if t.len() > 0 && t[0] == '+' { t.drop_first() } else { t };
    let bu = if u.len() > 0 && u[0] == '+' { u.drop_first() } else { u };
    if t.len() > 0 {
        assert(u[0] == '+' <==> t[0] == '+');
    }
    assert(bu == ascii_upper_seq(bt));
    if crate::text::all_digits(bt) {
        assert(bu =~= bt);
    }
    if crate::text::all_digits(bu) {
        assert forall|i: int| 0 <= i < bt.len() implies crate::text::is_ascii_digit(#[trigger] bt[i]) by {
            assert(bu[i] == ascii_upper(bt[i]));
        }
        assert(bu =~= bt);
    }
}

fn chars2(a: char, b: char) -> (v: Vec<char>)
    ensures
        v@ == seq![a, b],
{
    let mut v = Vec::new();
    v.push(a);
    v.push(b);
    assert(v@ =~= seq![a, b]);
    v
}

fn chars1(a: char) -> (v: Vec<char>)
    ensures
        v@ == seq![a],
{
    let mut v = Vec::new();
    v.push(a);
    assert(v@ =~= seq![a]);
    v
}

/// Splits a size notation into its number and multiplier: `Some((n, m))`
/// exactly when the notation denotes `n * m` bytes; no multiplication is
/// done, so this never overflows.
pub fn split_file_size(value: &str) -> (r: Option<(u64, u64)>)
    ensures
        r is Some <==> file_size_value(value@) is Some,
        r matches Some((n, m)) ==> file_size_value(value@) == Some(n as nat * m as nat),
{
    let (u, a, b) = trimmed_upper(value);
    let ghost t = trim(value@);
    proof {
        lemma_upper_parse(t);
    }
    if a == b {
        return None;
    }
    if let Some(bytes) = parse_u64_range(&u, a, b) {
        return Some((bytes, 1));
    }
    let ghost us = u@.subrange(a as int, b as int);
    let gb = chars2('G', 'B');
    let mb = chars2('M', 'B');
    let kb = chars2('K', 'B');
    let g = chars1('G');
    let m = chars1('M');
    let k = chars1('K');
    let (end, mult): (usize, u64) = if range_ends_with(&u, a, b, &gb) {
        (b - 2, 1073741824)
    } else if range_ends_with(&u, a, b, &mb) {
        (b - 2, 1048576)
    } else if range_ends_with(&u, a, b, &kb) {
        (b - 2, 1024)
    } else if range_ends_with(&u, a, b, &g) {
        (b - 1, 1073741824)
    } else if range_ends_with(&u, a, b, &m) {
        (b - 1, 1048576)
    } else if range_ends_with(&u, a, b, &k) {
        (b - 1, 1024)
    } else {
        return None;
    };
    proof {
        assert(us.subrange(0, us.len() - (b - end)) =~= u@.subrange(a as int, end as int));
    }
    match parse_trimmed(&u, a, end) {
        Some(n) => Some((n, mult)),
        None => None,
    }
}

/// The byte count of a size notation such as `1048576`, `2MB` or `512k`;
/// `None` when the notation is not understood.
pub fn parse_file_size(value: &str) -> (r: Option<u64>)
    requires
        !file_size_overflows(value@),
    ensures
        r is Some <==> file_size_value(value@) is Some,
        r matches Some(n) ==> file_size_value(value@) == Some(n as nat),
{
    match split_file_size(value) {
        Some((n, m)) => {
            assert(n as nat * m as nat <= u64::MAX);
            Some(n * m)
        },
        None => None,
    }
}

/// Whether the size notation denotes more bytes than 64 bits hold.
pub fn file_size_overflows_exec(value: &str) -> (r: bool)
    ensures
        r == file_size_overflows(value@),
{
    match split_file_size(value) {
        Some((n, m)) => n.checked_mul(m).is_none(),
        None => false,
    }
}

/// Splits a duration notation into its number of seconds before scaling:
/// `Some((n, m, false))` for `n * m` seconds, `Some((n, 0, true))` for a
/// millisecond count `n`.
pub fn split_duration(value: &str) -> (r: Option<(u64, u64, bool)>)
    ensures
        r is Some <==> duration_value(value@) is Some,
        r matches Some((n, m, millis)) ==> duration_value(value@) == Some(
            if millis {
                n as nat / 1000
            } else {
                n as nat * m as nat
            },
        ),
{
    let (u, a, b) = trimmed_upper(value);
    let ghost t = trim(value@);
    proof {
        lemma_upper_parse(t);
    }
    if a == b {
        return None;
    }
    if let Some(secs) = parse_u64_range(&u, a, b) {
        return Some((secs, 1, false));
    }
    let ghost us = u@.subrange(a as int, b as int);
    let ms = chars2('M', 'S');
    if range_ends_with(&u, a, b, &ms) {
        proof {
            assert(us.subrange(0, us.len() - 2) =~= u@.subrange(a as int, b - 2));
        }
        return match parse_trimmed(&u, a, b - 2) {
            Some(n) => Some((n, 0, true)),
            None => None,
        };
    }
    let s = chars1('S');
    let m = chars1('M');
    let h = chars1('H');
    let d = chars1('D');
    let (end, mult): (usize, u64) = if range_ends_with(&u, a, b, &s) {
        (b - 1, 1)
    } else if range_ends_with(&u, a, b, &m) {
        (b - 1, 60)
    } else if range_ends_with(&u, a, b, &h) {
        (b - 1, 3600)
    } else if range_ends_with(&u, a, b, &d) {
        (b - 1, 86400)
    } else {
        return None;
    };
    proof {
        assert(us.subrange(0, us.len() - 1) =~= u@.subrange(a as int, end as int));
    }
    match parse_trimmed(&u, a, end) {
        Some(n) => Some((n, mult, false)),
        None => None,
    }
}

/// The number of seconds of a duration notation such as `3600`, `90m`,
/// `2h`, `1d` or `1500ms`; `None` when the notation is not understood.
pub fn parse_duration_seconds(value: &str) -> (r: Option<u64>)
    requires
        !duration_overflows(value@),
    ensures
        r is Some <==> duration_value(value@) is Some,
        r matches Some(n) ==> duration_value(value@) == Some(n as nat),
{
    match split_duration(value) {
        Some((n, m, millis)) => {
            if millis {
                Some(n / 1000)
            } else {
                assert(n as nat * m as nat <= u64::MAX);
                Some(n * m)
            }
        },
        None => None,
    }
}

/// Whether the duration notation denotes more seconds than 64 bits hold.
pub fn duration_overflows_exec(value: &str) -> (r: bool)
    ensures
        r == duration_overflows(value@),
{
    match split_duration(value) {
        Some((n, m, millis)) => !millis && n.checked_mul(m).is_none(),
        None => false,
    }
}

/// How a byte count is written back into a configuration file.
pub enum FileSizeRepr {
    /// A whole number of mebibytes, written `<n>MB`.
    Megabytes(u64),
    /// Any other count, written as a plain number.
    Bytes(u64),
}

/// Whole mebibytes are written with the `MB` suffix, other counts as bytes.
pub fn file_size_repr(size: u64) -> (r: FileSizeRepr)
    ensures
        size % 1048576 == 0 ==> r == FileSizeRepr::Megabytes(size / 1048576),
        size % 1048576 != 0 ==> r == FileSizeRepr::Bytes(size),
{
    if size % 1048576 == 0 {
        FileSizeRepr::Megabytes(size / 1048576)
    } else {
        FileSizeRepr::Bytes(size)
    }
}

/// How a number of seconds is written back into a configuration file.
pub enum DurationRepr {
    Days(u64),
    Hours(u64),
    Minutes(u64),
    Seconds(u64),
}

/// Non-zero whole days, hours or minutes use the largest such unit; other
/// counts are written as plain seconds.
pub fn duration_repr(seconds: u64) -> (r: DurationRepr)
    ensures
        seconds != 0 && seconds % 86400 == 0 ==> r == DurationRepr::Days(seconds / 86400),
        seconds != 0 && seconds % 86400 != 0 && seconds % 3600 == 0 ==> r == DurationRepr::Hours(
            seconds / 3600,
        ),
        seconds != 0 && seconds % 3600 != 0 && seconds % 60 == 0 ==> r == DurationRepr::Minutes(
            seconds / 60,
        ),
        seconds == 0 || seconds % 60 != 0 ==> r == DurationRepr::Seconds(seconds),
{
    if seconds != 0 && seconds % 86400 == 0 {
        DurationRepr::Days(seconds / 86400)
    } else if seconds != 0 && seconds % 3600 == 0 {
        DurationRepr::Hours(seconds / 3600)
    } else if seconds != 0 && seconds % 60 == 0 {
        DurationRepr::Minutes(seconds / 60)
    } else {
        DurationRepr::Seconds(seconds)
    }
}


/// How a byte count is written into a configuration file: whole mebibytes
/// as `<n>MB`, other counts as a plain number.
pub open spec fn file_size_text(size: nat) -> Seq<char> {
    if size % mib() == 0 {
        decimal(size / mib()) + "MB"@
    } else {
        decimal(size)
    }
}

/// The notation a byte count is saved with.
pub fn format_file_size(size: u64) -> (r: String)
    ensures
        r@ == file_size_text(size as nat),
{
    if size % 1048576 == 0 {
        let mut s = decimal_string(size / 1048576);
        push_str(&mut s, "MB");
        s
    } else {
        decimal_string(size)
    }
}

/// How a number of seconds is written into a configuration file: the
/// largest unit among days, hours and minutes that divides it exactly
/// (`d`, `h`, `m`), else plain seconds; zero as `0`.
pub open spec fn duration_text(secs: nat) -> Seq<char> {
    if secs != 0 && secs % 86400 == 0 {
        decimal(secs / 86400) + "d"@
    } else if secs != 0 && secs % 3600 == 0 {
        decimal(secs / 3600) + "h"@
    } else if secs != 0 && secs % 60 == 0 {
        decimal(secs / 60) + "m"@
    } else {
        decimal(secs)
    }
}

/// The notation a number of seconds is saved with.
pub fn format_duration(secs: u64) -> (r: String)
    ensures
        r@ == duration_text(secs as nat),
{
    if secs != 0 && secs % 86400 == 0 {
        let mut s = decimal_string(secs / 86400);
        push_str(&mut s, "d");
        s
    } else if secs != 0 && secs % 3600 == 0 {
        let mut s = decimal_string(secs / 3600);
        push_str(&mut s, "h");
        s
    } else if secs != 0 && secs % 60 == 0 {
        let mut s = decimal_string(secs / 60);
        push_str(&mut s, "m");
        s
    } else {
        decimal_string(secs)
    }
}
} // verus!
