//! Schema texts: comparing them, and describing how two of them differ.
//!
//! Two schemas are equal when they are the same text, character for
//! character. The difference of two schemas is shown as the lines of each
//! that span the part where they disagree.

use vstd::prelude::*;
use vstd::std_specs::iter::IteratorSpec;
use vstd::string::{StrSliceExecFns, StringExecFns, StringSliceAdditionalSpecFns};
use vstd::utf8::{encode_utf8_decode_utf8, valid_utf8};

verus! {

/// The position from which two texts differ, searched from `i` on: the first
/// position at or after `i` where one text ends or the two hold different
/// characters.
pub open spec fn common_prefix_from(a: Seq<char>, b: Seq<char>, i: nat) -> nat
    decreases a.len() - i,
{
    if i < a.len() && i < b.len() && a[i as int] == b[i as int] {
        common_prefix_from(a, b, i + 1)
    } else {
        i
    }
}

/// The number of characters that two texts share at their ends, counted from
/// `k` on and up to `limit`.
pub open spec fn common_suffix_from(a: Seq<char>, b: Seq<char>, k: nat, limit: nat) -> nat
    decreases limit - k,
{
    if k < limit && k < a.len() && k < b.len() && a[a.len() - 1 - k] == b[b.len() - 1 - k] {
        common_suffix_from(a, b, k + 1, limit)
    } else {
        k
    }
}

/// The start of the line that holds position `p`.
pub open spec fn line_start(a: Seq<char>, p: nat) -> nat
    decreases p,
{
    if p == 0 || p > a.len() || a[p - 1] == '\n' {
        p
    } else {
        line_start(a, (p - 1) as nat)
    }
}

/// The end of the line that holds position `p`: the position of the next
/// line feed, or the end of the text.
pub open spec fn line_end(a: Seq<char>, p: nat) -> nat
    decreases a.len() - p,
{
    if p >= a.len() || a[p as int] == '\n' {
        p
    } else {
        line_end(a, p + 1)
    }
}

/// The smaller of two lengths.
pub open spec fn shorter(x: nat, y: nat) -> nat {
    if x <= y {
        x
    } else {
        y
    }
}

/// How the stored schema differs from the expected one: the lines of each
/// from the first line that differs to the last one, under a heading.
pub open spec fn diff_text(stored: Seq<char>, expected: Seq<char>) -> Seq<char> {
    let prefix = common_prefix_from(stored, expected, 0);
    let limit = (shorter(stored.len(), expected.len()) - prefix) as nat;
    let suffix = common_suffix_from(stored, expected, 0, limit);
    let start = line_start(stored, prefix);
    let stored_end = line_end(stored, (stored.len() - suffix) as nat);
    let expected_end = line_end(expected, (expected.len() - suffix) as nat);
    "--- stored\n"@ + stored.subrange(start as int, stored_end as int) + "\n+++ expected\n"@
        + expected.subrange(start as int, expected_end as int) + "\n"@
}

/// The error that `std::str::from_utf8` gives for bytes that are not valid
/// UTF-8: it tells up to where the bytes are valid and how many bytes are
/// wrong there.
pub uninterp spec fn utf8_error_of(bytes: Seq<u8>) -> std::str::Utf8Error;

/// Calls `std::str::from_utf8`. Trusted: the call succeeds exactly on valid
/// UTF-8, the text it gives is made of the very bytes handed in, and the
/// error it gives depends on the bytes alone.
#[verifier::external_body]
pub(crate) fn text_of(bytes: &[u8]) -> (text: Result<&str, std::str::Utf8Error>)
    ensures
        text is Ok <==> valid_utf8(bytes@),
        text is Ok ==> text->Ok_0.spec_bytes() == bytes@,
        text is Err ==> text->Err_0 == utf8_error_of(bytes@),
{
    std::str::from_utf8(bytes)
}

/// Whether two texts are the same, character for character.
pub fn str_eq(a: &str, b: &str) -> (eq: bool)
    ensures
        eq == (a@ == b@),
{
    let x = a.as_bytes();
    let y = b.as_bytes();
    proof {
        encode_utf8_decode_utf8(a@);
        encode_utf8_decode_utf8(b@);
    }
    if x.len() != y.len() {
        return false;
    }
    let mut i: usize = 0;
    while i < x.len()
        invariant
            i <= x@.len() == y@.len(),
            forall|k: int| 0 <= k < i ==> x@[k] == y@[k],
            x@ == a.spec_bytes(),
            y@ == b.spec_bytes(),
            a@ == b@ ==> x@ == y@,
        decreases x@.len() - i,
    {
        if x[i] != y[i] {
            return false;
        }
        i += 1;
    }
    assert(x@ =~= y@);
    true
}

/// The characters of a text.
pub fn chars_of(text: &str) -> (chars: Vec<char>)
    ensures
        chars@ == text@,
{
    broadcast use vstd::string::group_string_axioms;

    let mut chars: Vec<char> = Vec::new();
    let mut rest = text.chars();
    loop
        invariant
            chars@ + rest.remaining() == text@,
            rest.decrease() is Some,
        ensures
            chars@ == text@,
        decreases rest.decrease()->0,
    {
        match rest.next() {
            Some(c) => {
                chars.push(c);
            },
            None => {
                break ;
            },
        }
    }
    chars
}

/// Describes how the stored schema differs from the expected one.
pub fn schema_diff(stored: &str, expected: &str) -> (diff: String)
    ensures
        diff@ == diff_text(stored@, expected@),
{
    let a = chars_of(stored);
    let b = chars_of(expected);
    let short = if a.len() <= b.len() {
        a.len()
    } else {
        b.len()
    };
    let mut prefix: usize = 0;
    while prefix < short && a[prefix] == b[prefix]
        invariant
            prefix <= short == shorter(a@.len(), b@.len()),
            common_prefix_from(a@, b@, 0) == common_prefix_from(a@, b@, prefix as nat),
        decreases short - prefix,
    {
        prefix += 1;
    }
    let limit = short - prefix;
    let mut suffix: usize = 0;
    while suffix < limit && a[a.len() - 1 - suffix] == b[b.len() - 1 - suffix]
        invariant
            suffix <= limit,
            limit + prefix == shorter(a@.len(), b@.len()),
            common_suffix_from(a@, b@, 0, limit as nat) == common_suffix_from(
                a@,
                b@,
                suffix as nat,
                limit as nat,
            ),
        decreases limit - suffix,
    {
        suffix += 1;
    }
    let mut start: usize = prefix;
    while start > 0 && a[start - 1] != '\n'
        invariant
            start <= prefix <= a@.len(),
            line_start(a@, prefix as nat) == line_start(a@, start as nat),
        decreases start,
    {
        start -= 1;
    }
    let mut stored_end: usize = a.len() - suffix;
    while stored_end < a.len() && a[stored_end] != '\n'
        invariant
            a@.len() - suffix <= stored_end <= a@.len(),
            line_end(a@, (a@.len() - suffix) as nat) == line_end(a@, stored_end as nat),
        decreases a@.len() - stored_end,
    {
        stored_end += 1;
    }
    let mut expected_end: usize = b.len() - suffix;
    while expected_end < b.len() && b[expected_end] != '\n'
        invariant
            b@.len() - suffix <= expected_end <= b@.len(),
            line_end(b@, (b@.len() - suffix) as nat) == line_end(b@, expected_end as nat),
        decreases b@.len() - expected_end,
    {
        expected_end += 1;
    }
    let mut diff = String::from_str("--- stored\n");
    diff.append(stored.substring_char(start, stored_end));
    diff.append("\n+++ expected\n");
    diff.append(expected.substring_char(start, expected_end));
    diff.append("\n");
    diff
}

/// A difference is never empty.
pub proof fn lemma_diff_not_empty(stored: Seq<char>, expected: Seq<char>)
    ensures
        diff_text(stored, expected).len() > 0,
{
    reveal_strlit("\n");
}

} // verus!
