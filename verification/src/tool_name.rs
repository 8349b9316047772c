//! Agent-facing tool names: normalisation of explicit names and derivation
//! of stable automatic names from a display name and a file path.
use vstd::prelude::*;
use crate::text::{
    ascii_lower, chars_of, is_ascii_digit, is_ascii_lower, is_ascii_upper, push_all,
    string_of_range,
};

verus! {

/// What `char::to_lowercase` yields for a non-ASCII scalar `c`: its
/// Unicode lowercase mapping, one or more scalars.
pub uninterp spec fn char_lowercase(c: char) -> Seq<char>;

/// The lowercase mapping of any scalar: ASCII letters fold to ASCII,
/// every other ASCII scalar maps to itself, and a non-ASCII scalar maps
/// to what the Unicode tables give.
pub open spec fn lower_of(c: char) -> Seq<char> {
    if (c as u32) < 128 {
        seq![ascii_lower(c)]
    } else {
        char_lowercase(c)
    }
}

/// `char::to_lowercase`, collected into a vector. The contract states that
/// an ASCII scalar yields exactly its ASCII lowercase form and names the
/// result for any other scalar; the Unicode tables behind that name are
/// not stated.
#[verifier::external_body]
fn lowercase_char(c: char) -> (res: Vec<char>)
    ensures
        (c as u32) < 128 ==> res@ == seq![ascii_lower(c)],
        (c as u32) >= 128 ==> res@ == char_lowercase(c),
{
    c.to_lowercase().collect()
}

/// Concatenation of the lowercase mappings of every scalar of `s`.
pub open spec fn lower_seq(s: Seq<char>) -> Seq<char>
    decreases s.len(),
{
    if s.len() == 0 {
        Seq::empty()
    } else {
        lower_seq(s.drop_last()) + lower_of(s.last())
    }
}

pub open spec fn is_sep(c: char) -> bool {
    c == '_' || c == '-'
}

/// Scalars kept verbatim in a tool name; every other scalar becomes `_`.
pub open spec fn map_tool_char(c: char) -> char {
    if is_ascii_lower(c) || is_ascii_digit(c) || is_sep(c) {
        c
    } else {
        '_'
    }
}

/// Maps every scalar and drops a separator that directly follows another.
pub open spec fn collapse(s: Seq<char>) -> Seq<char>
    decreases s.len(),
{
    if s.len() == 0 {
        Seq::empty()
    } else {
        let r = collapse(s.drop_last());
        let m = map_tool_char(s.last());
        if is_sep(m) && r.len() > 0 && is_sep(r.last()) {
            r
        } else {
            r.push(m)
        }
    }
}

/// Index of the first scalar of `s` that is not a separator.
pub open spec fn first_non_sep(s: Seq<char>) -> int
    decreases s.len(),
{
    if s.len() > 0 && is_sep(s[0]) {
        1 + first_non_sep(s.drop_first())
    } else {
        0
    }
}

/// One past the last scalar of `s` that is not a separator.
pub open spec fn last_non_sep(s: Seq<char>) -> int
    decreases s.len(),
{
    if s.len() > 0 && is_sep(s.last()) {
        last_non_sep(s.drop_last())
    } else {
        s.len() as int
    }
}

/// `s` with separators removed at both ends.
pub open spec fn strip_seps(s: Seq<char>) -> Seq<char> {
    let a = first_non_sep(s);
    if a >= s.len() {
        Seq::empty()
    } else {
        s.subrange(a, last_non_sep(s))
    }
}

pub open spec fn skill_word() -> Seq<char> {
    seq!['s', 'k', 'i', 'l', 'l']
}

pub open spec fn is_ascii_alpha(c: char) -> bool {
    is_ascii_lower(c) || is_ascii_upper(c)
}

/// The normalised form of a tool name: lowercase, `[a-z0-9_-]` only, no
/// doubled separators, no separator at either end, and `skill_` in front
/// when it would not start with a letter; empty when nothing is left.
pub open spec fn sanitize(input: Seq<char>) -> Seq<char> {
    let t = strip_seps(collapse(lower_seq(input)));
    if t.len() == 0 {
        Seq::empty()
    } else if is_ascii_alpha(t[0]) {
        t
    } else {
        skill_word().push('_') + t
    }
}

pub open spec fn fnv_offset() -> u64 {
    0xcbf29ce484222325u64
}

pub open spec fn fnv_prime() -> u64 {
    0x100000001b3u64
}

/// 64-bit FNV-1 over `bytes`: multiply, then xor in each byte.
pub open spec fn fnv1(bytes: Seq<u8>) -> u64
    decreases bytes.len(),
{
    if bytes.len() == 0 {
        fnv_offset()
    } else {
        (((fnv1(bytes.drop_last()) as nat * fnv_prime() as nat) % 0x1_0000_0000_0000_0000) as u64)
            ^ (bytes.last() as u64)
    }
}

pub open spec fn hex_digit(d: nat) -> char {
    if d < 10 {
        (('0' as u32) + d) as char
    } else {
        (('a' as u32) + (d - 10)) as char
    }
}

/// The low `n` hexadecimal digits of `v`, lowercase, zero-padded.
pub open spec fn hex_fixed(v: nat, n: nat) -> Seq<char>
    decreases n,
{
    if n == 0 {
        Seq::empty()
    } else {
        hex_fixed(v / 16, (n - 1) as nat).push(hex_digit(v % 16))
    }
}

/// Eight lowercase hex digits of the low 32 bits of the FNV-1 hash of the
/// UTF-8 encoding of `s`.
pub open spec fn stable_hash(s: Seq<char>) -> Seq<char> {
    hex_fixed((fnv1(vstd::utf8::encode_utf8(s)) as nat) % 0x1_0000_0000, 8)
}

/// The automatic tool name: the first non-empty of the sanitised display
/// name, the sanitised fallback stem and `skill`, then `_` and the hash of
/// the path.
pub open spec fn auto_tool_name(display: Seq<char>, path: Seq<char>, stem: Option<Seq<char>>) -> Seq<
    char,
> {
    let base = if sanitize(display).len() > 0 {
        sanitize(display)
    } else if stem is Some && sanitize(stem->0).len() > 0 {
        sanitize(stem->0)
    } else {
        skill_word()
    };
    base.push('_') + stable_hash(path)
}

/// A scalar that may appear in a tool name.
pub open spec fn is_tool_char(c: char) -> bool {
    is_ascii_lower(c) || is_ascii_digit(c) || is_sep(c)
}

pub proof fn lemma_collapse_tool_chars(s: Seq<char>)
    ensures
        forall|i: int| 0 <= i < collapse(s).len() ==> is_tool_char(#[trigger] collapse(s)[i]),
    decreases s.len(),
{
    if s.len() > 0 {
        lemma_collapse_tool_chars(s.drop_last());
        let r = collapse(s.drop_last());
        let m = map_tool_char(s.last());
        assert(is_tool_char(m));
        if !(is_sep(m) && r.len() > 0 && is_sep(r.last())) {
            assert forall|i: int| 0 <= i < r.push(m).len() implies is_tool_char(
                #[trigger] r.push(m)[i],
            ) by {
                if i < r.len() {
                    assert(r.push(m)[i] == r[i]);
                }
            }
        }
    }
}

pub proof fn lemma_strip_bounds(s: Seq<char>)
    ensures
        0 <= first_non_sep(s) <= s.len(),
        0 <= last_non_sep(s) <= s.len(),
        first_non_sep(s) < s.len() ==> first_non_sep(s) < last_non_sep(s),
        first_non_sep(s) < s.len() ==> !is_sep(s[first_non_sep(s)]),
        last_non_sep(s) > 0 ==> !is_sep(s[last_non_sep(s) - 1]),
        forall|i: int| 0 <= i < first_non_sep(s) ==> is_sep(#[trigger] s[i]),
        forall|i: int| last_non_sep(s) <= i < s.len() ==> is_sep(#[trigger] s[i]),
    decreases s.len(),
{
    if s.len() > 0 {
        lemma_strip_bounds(s.drop_first());
        lemma_strip_bounds(s.drop_last());
        if is_sep(s[0]) {
            let t = s.drop_first();
            assert forall|i: int| 0 <= i < first_non_sep(s) implies is_sep(#[trigger] s[i]) by {
                if i > 0 {
                    assert(s[i] == t[i - 1]);
                }
            }
            if first_non_sep(s) < s.len() {
                assert(s[first_non_sep(s)] == t[first_non_sep(t)]);
                // the last non-separator lies at or after the first one
                lemma_last_ge_first(s);
            }
        } else if first_non_sep(s) < s.len() {
            lemma_last_ge_first(s);
        }
        if is_sep(s.last()) {
            let t = s.drop_last();
            assert forall|i: int| last_non_sep(s) <= i < s.len() implies is_sep(#[trigger] s[i]) by {
                if i < s.len() - 1 {
                    assert(s[i] == t[i]);
                }
            }
            if last_non_sep(s) > 0 {
                assert(s[last_non_sep(s) - 1] == t[last_non_sep(t) - 1]);
            }
        }
    }
}

proof fn lemma_last_ge_first(s: Seq<char>)
    requires
        first_non_sep(s) < s.len(),
    ensures
        first_non_sep(s) < last_non_sep(s),
    decreases s.len(),
{
    if is_sep(s.last()) {
        let t = s.drop_last();
        lemma_first_of_drop_last(s);
        lemma_last_ge_first(t);
    }
}

proof fn lemma_first_of_drop_last(s: Seq<char>)
    requires
        first_non_sep(s) < s.len(),
        s.len() > 0,
        is_sep(s.last()),
    ensures
        first_non_sep(s.drop_last()) == first_non_sep(s),
        first_non_sep(s.drop_last()) < s.drop_last().len(),
    decreases s.len(),
{
    if is_sep(s[0]) {
        let t = s.drop_first();
        assert(first_non_sep(t) < t.len());
        assert(t.last() == s.last());
        lemma_first_of_drop_last(t);
        assert(t.drop_last() =~= s.drop_last().drop_first());
    }
}

/// Every scalar of a sanitised name is one of `[a-z0-9_-]`.
pub proof fn lemma_sanitize_tool_chars(input: Seq<char>)
    ensures
        forall|i: int| 0 <= i < sanitize(input).len() ==> is_tool_char(#[trigger] sanitize(input)[i]),
{
    let c = collapse(lower_seq(input));
    lemma_collapse_tool_chars(lower_seq(input));
    lemma_strip_bounds(c);
    let t = strip_seps(c);
    assert forall|i: int| 0 <= i < t.len() implies is_tool_char(#[trigger] t[i]) by {
        assert(t[i] == c[first_non_sep(c) + i]);
    }
    if t.len() > 0 && !is_ascii_alpha(t[0]) {
        let r = skill_word().push('_') + t;
        assert forall|i: int| 0 <= i < r.len() implies is_tool_char(#[trigger] r[i]) by {
            if i >= 6 {
                assert(r[i] == t[i - 6]);
            }
        }
    }
}

fn map_tool_char_exec(c: char) -> (r: char)
    ensures
        r == map_tool_char(c),
{
    if ('a' <= c && c <= 'z') || ('0' <= c && c <= '9') || c == '_' || c == '-' {
        c
    } else {
        '_'
    }
}

/// Normalises `input` into a tool-name identifier (possibly empty).
pub fn sanitize_tool_name(input: &str) -> (res: String)
    ensures
        res@ == sanitize(input@),
{
    let chars = chars_of(input);
    let mut out: Vec<char> = Vec::new();
    let mut i: usize = 0;
    while i < chars.len()
        invariant
            i <= chars.len(),
            out@ == collapse(lower_seq(chars@.take(i as int))),
        decreases chars.len() - i,
    {
        let lc = lowercase_char(chars[i]);
        let ghost prefix = lower_seq(chars@.take(i as int));
        proof {
            assert(chars@.take(i + 1).drop_last() =~= chars@.take(i as int));
        }
        let mut j: usize = 0;
        assert(prefix + lc@.take(0) =~= prefix);
        while j < lc.len()
            invariant
                j <= lc.len(),
                out@ == collapse(prefix + lc@.take(j as int)),
            decreases lc.len() - j,
        {
            let m = map_tool_char_exec(lc[j]);
            proof {
                let s2 = prefix + lc@.take(j + 1);
                assert(s2.drop_last() =~= prefix + lc@.take(j as int));
                assert(s2.last() == lc@[j as int]);
            }
            let sep = m == '_' || m == '-';
            let last_sep = out.len() > 0 && (out[out.len() - 1] == '_' || out[out.len() - 1] == '-');
            if !(sep && last_sep) {
                out.push(m);
            }
            j += 1;
        }
        assert(lc@.take(lc@.len() as int) =~= lc@);
        i += 1;
    }
    assert(chars@.take(chars@.len() as int) =~= chars@);
    let ghost c = out@;
    // strip separators at both ends
    let mut a: usize = 0;
    while a < out.len() && (out[a] == '_' || out[a] == '-')
        invariant
            a <= out.len(),
            out@ == c,
            forall|k: int| 0 <= k < a ==> is_sep(#[trigger] c[k]),
        decreases out.len() - a,
    {
        a += 1;
    }
    proof {
        lemma_strip_bounds(c);
        lemma_first_non_sep_exact(c, a as int);
    }
    if a >= out.len() {
        return String::new();
    }
    let mut b: usize = out.len();
    while b > a && (out[b - 1] == '_' || out[b - 1] == '-')
        invariant
            a < out.len(),
            a <= b <= out.len(),
            out@ == c,
            forall|k: int| b <= k < c.len() ==> is_sep(#[trigger] c[k]),
            !is_sep(c[a as int]),
        decreases b - a,
    {
        b -= 1;
    }
    proof {
        lemma_last_non_sep_exact(c, b as int);
    }
    let t = string_of_range(&out, a, b);
    if 'a' <= out[a] && out[a] <= 'z' || 'A' <= out[a] && out[a] <= 'Z' {
        t
    } else {
        let mut r = String::new();
        r.push('s');
        r.push('k');
        r.push('i');
        r.push('l');
        r.push('l');
        r.push('_');
        let tv = chars_of(t.as_str());
        push_all(&mut r, &tv);
        assert(r@ =~= skill_word().push('_') + t@);
        r
    }
}

proof fn lemma_first_non_sep_exact(s: Seq<char>, a: int)
    requires
        0 <= a <= s.len(),
        forall|k: int| 0 <= k < a ==> is_sep(#[trigger] s[k]),
        a < s.len() ==> !is_sep(s[a]),
    ensures
        first_non_sep(s) == a,
    decreases a,
{
    if a > 0 {
        let t = s.drop_first();
        assert forall|k: int| 0 <= k < a - 1 implies is_sep(#[trigger] t[k]) by {
            assert(t[k] == s[k + 1]);
        }
        if a - 1 < t.len() {
            assert(t[a - 1] == s[a]);
        }
        assert(is_sep(s[0]));
        lemma_first_non_sep_exact(t, a - 1);
    } else if s.len() > 0 {
        assert(!is_sep(s[0]));
    }
}

proof fn lemma_last_non_sep_exact(s: Seq<char>, b: int)
    requires
        0 < b <= s.len(),
        forall|k: int| b <= k < s.len() ==> is_sep(#[trigger] s[k]),
        !is_sep(s[b - 1]),
    ensures
        last_non_sep(s) == b,
    decreases s.len() - b,
{
    if b < s.len() {
        let t = s.drop_last();
        assert forall|k: int| b <= k < t.len() implies is_sep(#[trigger] t[k]) by {
            assert(t[k] == s[k]);
        }
        assert(t[b - 1] == s[b - 1]);
        assert(is_sep(s.last()));
        lemma_last_non_sep_exact(t, b);
    }
}

/// The normalised explicit tool name, or `None` when nothing is left.
pub fn validate_explicit_tool_name(tool_name: &str) -> (res: Option<String>)
    ensures
        res is Some <==> sanitize(tool_name@).len() > 0,
        res matches Some(n) ==> n@ == sanitize(tool_name@),
{
    let sanitized = sanitize_tool_name(tool_name);
    if sanitized.as_str().is_empty() {
        None
    } else {
        Some(sanitized)
    }
}

fn hex_digit_exec(d: u64) -> (c: char)
    requires
        d < 16,
    ensures
        c == hex_digit(d as nat),
{
    if d < 10 {
        ((d as u8) + 48u8) as char
    } else {
        ((d as u8) + 87u8) as char
    }
}

fn hex_fixed_exec(v: u64, n: usize) -> (s: String)
    ensures
        s@ == hex_fixed(v as nat, n as nat),
    decreases n,
{
    if n == 0 {
        String::new()
    } else {
        let mut s = hex_fixed_exec(v / 16, n - 1);
        s.push(hex_digit_exec(v % 16));
        s
    }
}

proof fn lemma_fnv_push(bytes: Seq<u8>, b: u8)
    ensures
        fnv1(bytes.push(b)) == (vstd::wrapping::u64_specs::wrapping_mul(fnv1(bytes), fnv_prime()) ^ (
        b as u64)),
{
    assert(bytes.push(b).drop_last() =~= bytes);
}

/// Eight hex digits of the FNV-1 hash of the UTF-8 bytes of `input`.
pub fn short_stable_hash(input: &str) -> (res: String)
    ensures
        res@ == stable_hash(input@),
{
    let bytes = input.as_bytes();
    let mut hash: u64 = 0xcbf29ce484222325u64;
    let mut i: usize = 0;
    while i < bytes.len()
        invariant
            i <= bytes.len(),
            bytes@ == vstd::utf8::encode_utf8(input@),
            hash == fnv1(bytes@.take(i as int)),
        decreases bytes.len() - i,
    {
        proof {
            assert(bytes@.take(i + 1) =~= bytes@.take(i as int).push(bytes@[i as int]));
            lemma_fnv_push(bytes@.take(i as int), bytes@[i as int]);
        }
        hash = hash.wrapping_mul(0x100000001b3u64) ^ (bytes[i] as u64);
        i += 1;
    }
    assert(bytes@.take(bytes@.len() as int) =~= bytes@);
    hex_fixed_exec(hash % 0x1_0000_0000, 8)
}

/// The stable automatic tool name for a skill.
pub fn build_auto_tool_name(display_name: &str, path: &str, fallback_stem: Option<&str>) -> (res:
    String)
    ensures
        res@ == auto_tool_name(
            display_name@,
            path@,
            match fallback_stem {
                Some(s) => Some(s@),
                None => None,
            },
        ),
{
    let first = sanitize_tool_name(display_name);
    let mut base = if !first.as_str().is_empty() {
        first
    } else {
        let second = match fallback_stem {
            Some(stem) => sanitize_tool_name(stem),
            None => String::new(),
        };
        if !second.as_str().is_empty() {
            second
        } else {
            let mut s = String::new();
            s.push('s');
            s.push('k');
            s.push('i');
            s.push('l');
            s.push('l');
            assert(s@ =~= skill_word());
            s
        }
    };
    base.push('_');
    let h = short_stable_hash(path);
    let hv = chars_of(h.as_str());
    push_all(&mut base, &hv);
    base
}

/// The hash suffix used to make colliding tool names unique: the part of
/// the automatic name for `skill` and `path` after its last `_`.
pub fn short_path_hash(path: &str) -> (res: String)
    ensures
        res@ == stable_hash(path@),
{
    let name = build_auto_tool_name("skill", path, None);
    let v = chars_of(name.as_str());
    proof {
        reveal_strlit("skill");
        assert("skill"@ =~= skill_word());
        lemma_sanitize_skill();
        lemma_hash_no_underscore(path@);
        assert(v@ =~= skill_word().push('_') + stable_hash(path@));
    }
    let mut k: usize = v.len();
    while k > 0 && v[k - 1] != '_'
        invariant
            k <= v.len(),
            v@ == skill_word().push('_') + stable_hash(path@),
            forall|j: int| k <= j < v.len() ==> v@[j] != '_',
        decreases k,
    {
        k -= 1;
    }
    proof {
        assert(v@[5] == '_');
        assert(k >= 6);
        if k > 6 {
            assert(v@[k - 1] == stable_hash(path@)[k - 7]);
        }
        assert(v@.subrange(k as int, v.len() as int) =~= stable_hash(path@));
    }
    string_of_range(&v, k, v.len())
}

proof fn lemma_sanitize_skill()
    ensures
        sanitize(skill_word()) == skill_word(),
{
    let w = skill_word();
    reveal_with_fuel(lower_seq, 6);
    reveal_with_fuel(collapse, 6);
    assert(w.drop_last().drop_last().drop_last().drop_last().drop_last() =~= Seq::<char>::empty());
    assert(lower_seq(w) =~= w);
    assert(collapse(w) =~= w);
    assert(first_non_sep(w) == 0);
    assert(last_non_sep(w) == 5);
    assert(w.subrange(0, 5) =~= w);
}

proof fn lemma_hash_no_underscore(path: Seq<char>)
    ensures
        stable_hash(path).len() == 8,
        forall|i: int| 0 <= i < 8 ==> #[trigger] stable_hash(path)[i] != '_',
{
    lemma_hex_fixed(fnv1(vstd::utf8::encode_utf8(path)) as nat % 0x1_0000_0000, 8);
}

proof fn lemma_hex_fixed(v: nat, n: nat)
    ensures
        hex_fixed(v, n).len() == n,
        forall|i: int| 0 <= i < n ==> #[trigger] hex_fixed(v, n)[i] != '_',
    decreases n,
{
    if n > 0 {
        lemma_hex_fixed(v / 16, (n - 1) as nat);
    }
}

} // verus!
