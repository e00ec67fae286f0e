//! Pure, buffer-agnostic helpers for regex find-and-replace.
//!
//! The pattern search and capture-group expansion are done by the `regex`
//! crate behind the trusted declarations below; the template normalization
//! and the scan that collects non-overlapping matches in order are this
//! crate's own verified logic.

use vstd::prelude::*;
use vstd::std_specs::iter::IteratorSpec;
use vstd::string::StringExecFns;
use vstd::utf8::{decode_utf8, valid_utf8};

verus! {

#[verifier::external_type_specification]
#[verifier::external_body]
pub struct ExRegex(regex::bytes::Regex);

#[verifier::external_type_specification]
#[verifier::external_body]
pub struct ExCaptures<'h>(regex::bytes::Captures<'h>);

/// Relies on regex::bytes::RegexBuilder: compile `pattern`, optionally case
/// insensitive; `None` when the pattern is invalid. Nothing further is
/// assumed of the compiled value, which is opaque here.
#[verifier::external_body]
fn build_case_regex(pattern: &str, case_insensitive: bool) -> (r: Option<regex::bytes::Regex>) {
    regex::bytes::RegexBuilder::new(pattern).case_insensitive(case_insensitive).build().ok()
}

/// Relies on regex::bytes::Regex::captures_at and Captures::get_match: the
/// leftmost match at or after `from`, with its byte extent, which the regex
/// crate documents as offsets into the haystack (so `from <= start <= end
/// <= len`). `captures_at` panics when `from` exceeds the haystack length,
/// so that is required here.
#[verifier::external_body]
fn next_match_from<'h>(re: &regex::bytes::Regex, haystack: &'h [u8], from: usize) -> (r: Option<
    (usize, usize, regex::bytes::Captures<'h>),
>)
    requires
        from <= haystack@.len(),
    ensures
        r matches Some(m) ==> from <= m.0 <= m.1 <= haystack@.len(),
{
    match re.captures_at(haystack, from) {
        None => None,
        Some(caps) => {
            let m = caps.get_match();
            Some((m.start(), m.end(), caps))
        },
    }
}

/// Relies on regex::bytes::Captures::expand: the template with `$1`,
/// `${name}` and the like replaced by the captured groups. The result
/// depends on the opaque captures, so nothing is assumed of it.
#[verifier::external_body]
fn expand_captures(caps: &regex::bytes::Captures, template: &str) -> (r: Vec<u8>) {
    let mut dst = Vec::new();
    caps.expand(template.as_bytes(), &mut dst);
    dst
}

/// What String::from_utf8_lossy returns for the given bytes: a function of
/// the bytes alone.
pub uninterp spec fn lossy_utf8(bytes: Seq<u8>) -> Seq<char>;

/// Relies on String::from_utf8_lossy: decodes the bytes, replacing invalid
/// sequences with the replacement character; valid UTF-8 passes through
/// unchanged.
#[verifier::external_body]
fn lossy_string(bytes: &Vec<u8>) -> (r: String)
    ensures
        r@ == lossy_utf8(bytes@),
        valid_utf8(bytes@) ==> r@ == decode_utf8(bytes@),
{
    String::from_utf8_lossy(bytes).into_owned()
}

/// The characters of a string slice, collected in order.
fn str_chars(s: &str) -> (r: Vec<char>)
    ensures
        r@ == s@,
{
    let mut it = s.chars();
    let mut out: Vec<char> = Vec::new();
    loop
        invariant
            it.obeys_prophetic_iter_laws(),
            it.decrease() is Some,
            out@ + it.remaining() == s@,
        decreases it.decrease()->0,
    {
        let ghost pre = out@;
        let ghost rem = it.remaining();
        match it.next() {
            None => {
                proof {
                    assert(out@ =~= s@);
                }
                return out;
            },
            Some(c) => {
                out.push(c);
                proof {
                    assert(pre + rem =~= (pre + seq![c]) + rem.drop_first());
                }
            },
        }
    }
}

/// Relies on String's FromIterator over char: collecting characters yields
/// the string of exactly those characters.
#[verifier::external_body]
fn chars_to_string(v: &Vec<char>) -> (r: String)
    ensures
        r@ == v@,
{
    v.iter().collect()
}

/// An ASCII digit.
pub open spec fn is_ascii_digit_char(c: char) -> bool {
    48 <= c as u32 <= 57
}

/// The length of the leading run of ASCII digits.
pub open spec fn digit_run_len(s: Seq<char>) -> int
    decreases s.len(),
{
    if s.len() > 0 && is_ascii_digit_char(s[0]) {
        1 + digit_run_len(s.skip(1))
    } else {
        0
    }
}

proof fn lemma_digit_run_len_bounds(s: Seq<char>)
    ensures
        0 <= digit_run_len(s) <= s.len(),
    decreases s.len(),
{
    if s.len() > 0 && is_ascii_digit_char(s[0]) {
        lemma_digit_run_len_bounds(s.skip(1));
    }
}

/// The run is exactly the digits up to the first non-digit.
proof fn lemma_digit_run_len_exact(s: Seq<char>, n: int)
    requires
        0 <= n <= s.len(),
        forall|k: int| 0 <= k < n ==> is_ascii_digit_char(#[trigger] s[k]),
        n < s.len() ==> !is_ascii_digit_char(s[n]),
    ensures
        digit_run_len(s) == n,
    decreases n,
{
    if n == 0 {
    } else {
        assert(is_ascii_digit_char(s[0]));
        lemma_digit_run_len_exact(s.skip(1), n - 1);
    }
}

/// `$N` capture references rewritten to `${N}`, so a following letter is
/// not swallowed into the group name; everything else, including already
/// braced or named references, is copied unchanged.
pub open spec fn normalize_spec(s: Seq<char>) -> Seq<char>
    decreases s.len(),
    via normalize_spec_decreases
{
    if s.len() == 0 {
        s
    } else if s[0] == '$' && s.len() > 1 && is_ascii_digit_char(s[1]) {
        let d = digit_run_len(s.skip(1));
        seq!['$', '{'] + s.subrange(1, 1 + d) + seq!['}'] + normalize_spec(s.skip(1 + d))
    } else {
        seq![s[0]] + normalize_spec(s.skip(1))
    }
}

#[via_fn]
proof fn normalize_spec_decreases(s: Seq<char>) {
    if s.len() != 0 && s[0] == '$' && s.len() > 1 && is_ascii_digit_char(s[1]) {
        lemma_digit_run_len_bounds(s.skip(1));
    }
}

fn is_digit_char(c: char) -> (r: bool)
    ensures
        r == is_ascii_digit_char(c),
{
    let u = c as u32;
    48 <= u && u <= 57
}

/// Normalize `$N` capture references to `${N}` so the regex crate doesn't
/// greedily consume trailing letters as part of the group name:
/// `oo$1oo` becomes `oo${1}oo`, matching the usual backreference semantics.
pub fn normalize_replacement(template: &str) -> (r: String)
    ensures
        r@ == normalize_spec(template@),
{
    let chars = str_chars(template);
    let n = chars.len();
    let mut out: Vec<char> = Vec::new();
    let mut i: usize = 0;
    proof {
        assert(chars@.skip(0) =~= chars@);
        assert(out@ + normalize_spec(chars@) =~= normalize_spec(chars@));
    }
    while i < n
        invariant
            i <= n == chars@.len(),
            chars@ == template@,
            out@ + normalize_spec(chars@.skip(i as int)) == normalize_spec(chars@),
        decreases n - i,
    {
        let ghost pre = out@;
        let ghost rest = chars@.skip(i as int);
        let c = chars[i];
        proof {
            assert(rest[0] == c);
        }
        if c == '$' && i + 1 < n && is_digit_char(chars[i + 1]) {
            proof {
                assert(rest[1] == chars@[i + 1]);
            }
            out.push('$');
            out.push('{');
            let start = i + 1;
            let mut end = start;
            while end < n && is_digit_char(chars[end])
                invariant
                    start <= end <= n == chars@.len(),
                    chars@ == template@,
                    forall|k: int| start <= k < end ==> is_ascii_digit_char(#[trigger] chars@[k]),
                    out@ == pre + seq!['$', '{'] + chars@.subrange(start as int, end as int),
                decreases n - end,
            {
                out.push(chars[end]);
                proof {
                    assert(out@ =~= pre + seq!['$', '{'] + chars@.subrange(
                        start as int,
                        end + 1,
                    ));
                }
                end += 1;
            }
            out.push('}');
            proof {
                let d = digit_run_len(rest.skip(1));
                assert(rest.skip(1) =~= chars@.skip(start as int));
                assert forall|k: int|
                    0 <= k < end - start implies is_ascii_digit_char(
                    #[trigger] chars@.skip(start as int)[k],
                ) by {
                    assert(chars@.skip(start as int)[k] == chars@[start + k]);
                }
                if end < n {
                    assert(chars@.skip(start as int)[end - start] == chars@[end as int]);
                }
                lemma_digit_run_len_exact(chars@.skip(start as int), end - start);
                assert(d == end - start);
                assert(rest.subrange(1, 1 + d) =~= chars@.subrange(start as int, end as int));
                assert(rest.skip(1 + d) =~= chars@.skip(end as int));
                assert(normalize_spec(rest) == seq!['$', '{'] + rest.subrange(1, 1 + d) + seq![
                    '}',
                ] + normalize_spec(rest.skip(1 + d)));
                assert(out@ =~= pre + (seq!['$', '{'] + chars@.subrange(start as int, end as int)
                    + seq!['}']));
                assert(pre + (seq!['$', '{'] + rest.subrange(1, 1 + d) + seq!['}']
                    + normalize_spec(rest.skip(1 + d))) =~= (pre + (seq!['$', '{']
                    + chars@.subrange(start as int, end as int) + seq!['}'])) + normalize_spec(
                    chars@.skip(end as int),
                ));
            }
            i = end;
        } else {
            out.push(c);
            proof {
                assert(normalize_spec(rest) == seq![rest[0]] + normalize_spec(rest.skip(1)));
                assert(rest.skip(1) =~= chars@.skip(i + 1));
                assert(out@ =~= pre + seq![c]);
                assert(pre + (seq![c] + normalize_spec(chars@.skip(i + 1))) =~= (pre + seq![c])
                    + normalize_spec(chars@.skip(i + 1)));
            }
            i += 1;
        }
    }
    proof {
        assert(chars@.skip(n as int) =~= Seq::<char>::empty());
        assert(normalize_spec(Seq::<char>::empty()) =~= Seq::<char>::empty());
        assert(out@ =~= normalize_spec(chars@));
    }
    chars_to_string(&out)
}

/// A single match found in a buffer, together with its expanded replacement.
#[derive(Debug, Clone)]
pub struct ReplaceMatch {
    /// Byte offset of the match start.
    pub offset: usize,
    /// Length of the matched text in bytes.
    pub len: usize,
    /// The replacement text after capture-group expansion.
    pub replacement: String,
}

/// Build a regex from user-supplied search settings: `None` when `use_regex`
/// is off (or the pattern does not compile). With `whole_word` the search
/// term is wrapped in word-boundary assertions; matching is case insensitive
/// unless `case_sensitive` is set.
pub fn build_regex(search: &str, use_regex: bool, whole_word: bool, case_sensitive: bool) -> (r:
    Option<regex::bytes::Regex>)
    ensures
        !use_regex ==> r is None,
{
    if !use_regex {
        return None;
    }
    let pattern = if whole_word {
        let mut p = "\\b".to_owned();
        p.append(search);
        p.append("\\b");
        p
    } else {
        search.to_owned()
    };
    build_case_regex(pattern.as_str(), !case_sensitive)
}

/// Find every match of `regex` in `haystack`, in order, and expand
/// `replacement_template` for each one (honouring `$1`, `${name}` and the
/// like). The matches come back sorted by offset, non-overlapping and in
/// bounds; what each one's expansion holds is up to the regex crate.
pub fn collect_regex_matches(
    regex: &regex::bytes::Regex,
    haystack: &[u8],
    replacement_template: &str,
) -> (r: Vec<ReplaceMatch>)
    ensures
        forall|i: int|
            0 <= i < r@.len() ==> (#[trigger] r@[i]).offset + r@[i].len <= haystack@.len(),
        forall|i: int, j: int|
            0 <= i < j < r@.len() ==> (#[trigger] r@[i]).offset + r@[i].len <= (
            #[trigger] r@[j]).offset && r@[i].offset < r@[j].offset,
{
    let normalized = normalize_replacement(replacement_template);
    let mut out: Vec<ReplaceMatch> = Vec::new();
    let mut pos: usize = 0;
    while pos <= haystack.len()
        invariant
            pos <= haystack@.len() + 1,
            forall|i: int|
                0 <= i < out@.len() ==> (#[trigger] out@[i]).offset + out@[i].len
                    <= haystack@.len(),
            forall|i: int|
                0 <= i < out@.len() ==> (#[trigger] out@[i]).offset < pos && out@[i].offset
                    + out@[i].len <= pos,
            forall|i: int, j: int|
                0 <= i < j < out@.len() ==> (#[trigger] out@[i]).offset + out@[i].len <= (
                #[trigger] out@[j]).offset && out@[i].offset < out@[j].offset,
        decreases haystack@.len() + 1 - pos,
    {
        match next_match_from(regex, haystack, pos) {
            None => {
                return out;
            },
            Some((s, e, caps)) => {
                let expanded = expand_captures(&caps, normalized.as_str());
                let rep = lossy_string(&expanded);
                let ghost before = out@;
                out.push(ReplaceMatch { offset: s, len: e - s, replacement: rep });
                if s == e {
                    if e == haystack.len() {
                        proof {
                            assert forall|i: int, j: int|
                                0 <= i < j < out@.len() implies (#[trigger] out@[i]).offset
                                + out@[i].len <= (#[trigger] out@[j]).offset && out@[i].offset
                                < out@[j].offset by {
                                if j < out@.len() - 1 {
                                    assert(out@[i] == before[i] && out@[j] == before[j]);
                                } else {
                                    assert(out@[i] == before[i]);
                                }
                            }
                        }
                        return out;
                    }
                    pos = e + 1;
                } else {
                    pos = e;
                }
                proof {
                    assert forall|i: int, j: int|
                        0 <= i < j < out@.len() implies (#[trigger] out@[i]).offset + out@[i].len
                        <= (#[trigger] out@[j]).offset && out@[i].offset < out@[j].offset by {
                        if j < out@.len() - 1 {
                            assert(out@[i] == before[i] && out@[j] == before[j]);
                        } else {
                            assert(out@[i] == before[i]);
                        }
                    }
                }
            },
        }
    }
    out
}

/// Expand capture-group references in `replacement_template` against a
/// single already-matched byte string; the template comes back unchanged
/// when the regex finds no match in it. Whether it matches, and what the
/// groups captured, is decided by the opaque regex, so this function's
/// behaviour is pinned only through the contract of
/// [`normalize_replacement`] and is exercised by tests.
pub fn expand_replacement(
    regex: &regex::bytes::Regex,
    matched_bytes: &[u8],
    replacement_template: &str,
) -> String {
    match next_match_from(regex, matched_bytes, 0) {
        Some((_, _, caps)) => {
            let normalized = normalize_replacement(replacement_template);
            let expanded = expand_captures(&caps, normalized.as_str());
            lossy_string(&expanded)
        },
        None => replacement_template.to_owned(),
    }
}

} // verus!
