//! Text helpers: the length and concatenation of NUL-terminated strings,
//! and the bytes that the print helpers write to standard output.
//!
//! A string argument is `None` for the null pointer and otherwise the bytes
//! found at the pointer; what counts of them is what stands before the
//! first NUL.

use vstd::prelude::*;
use vstd::slice::slice_subrange;
use vstd::utf8::valid_utf8;

verus! {

/// Index of the first NUL of `buf` at or after `i`, or the length of `buf`
/// if there is none.
pub open spec fn nul_from(buf: Seq<u8>, i: int) -> int
    decreases buf.len() - i,
{
    if i < 0 || i >= buf.len() || buf[i] == 0 {
        i
    } else {
        nul_from(buf, i + 1)
    }
}

/// Length of the string that `buf` holds: the number of bytes before the
/// first NUL, or all of them where no NUL follows.
pub open spec fn c_len(buf: Seq<u8>) -> int {
    nul_from(buf, 0)
}

/// The string that `buf` holds, without its terminator.
pub open spec fn c_str(buf: Seq<u8>) -> Seq<u8> {
    buf.take(c_len(buf))
}

/// The length of a string is the position of its first NUL.
pub proof fn lemma_c_len(buf: Seq<u8>)
    ensures
        0 <= c_len(buf) <= buf.len(),
        c_len(buf) < buf.len() ==> buf[c_len(buf)] == 0,
        forall|j: int| 0 <= j < c_len(buf) ==> buf[j] != 0,
{
    lemma_nul_from(buf, 0);
}

proof fn lemma_nul_from(buf: Seq<u8>, i: int)
    requires
        0 <= i <= buf.len(),
    ensures
        i <= nul_from(buf, i) <= buf.len(),
        nul_from(buf, i) < buf.len() ==> buf[nul_from(buf, i)] == 0,
        forall|j: int| i <= j < nul_from(buf, i) ==> buf[j] != 0,
    decreases buf.len() - i,
{
    if i < buf.len() && buf[i] != 0 {
        lemma_nul_from(buf, i + 1);
    }
}

/// The bytes that a string argument contributes to a concatenation: none
/// for the null pointer, otherwise the string that the buffer holds,
/// whatever its encoding.
pub open spec fn bytes_or_empty(arg: Option<Seq<u8>>) -> Seq<u8> {
    match arg {
        Some(buf) => c_str(buf),
        None => Seq::empty(),
    }
}

/// The length of a string argument: zero for the null pointer, otherwise
/// the length of the string that the buffer holds.
pub open spec fn arg_len(arg: Option<Seq<u8>>) -> int {
    match arg {
        Some(buf) => c_len(buf),
        None => 0,
    }
}

/// The buffer that concatenating two string arguments yields: the bytes of
/// the first, the bytes of the second, and a terminator.
pub open spec fn joined_text(a: Option<Seq<u8>>, b: Option<Seq<u8>>) -> Seq<u8> {
    bytes_or_empty(a) + bytes_or_empty(b) + seq![0u8]
}

/// A position that holds the first NUL of a buffer, or its end where it
/// holds none, is the length of its string.
pub proof fn lemma_first_nul_is_c_len(buf: Seq<u8>, n: int)
    requires
        0 <= n <= buf.len(),
        n < buf.len() ==> buf[n] == 0,
        forall|j: int| 0 <= j < n ==> buf[j] != 0,
    ensures
        c_len(buf) == n,
{
    lemma_nul_from_reaches(buf, n, 0);
}

proof fn lemma_nul_from_reaches(buf: Seq<u8>, n: int, i: int)
    requires
        0 <= i <= n <= buf.len(),
        n < buf.len() ==> buf[n] == 0,
        forall|j: int| 0 <= j < n ==> buf[j] != 0,
    ensures
        nul_from(buf, i) == n,
    decreases n - i,
{
    if i < n {
        lemma_nul_from_reaches(buf, n, i + 1);
    }
}

/// The string of a concatenation is the first string followed by the
/// second, and its length is the sum of their lengths: the only NUL of the
/// result stands at its end.
pub proof fn lemma_joined_text_holds_both(a: Option<Seq<u8>>, b: Option<Seq<u8>>)
    ensures
        c_str(joined_text(a, b)) == bytes_or_empty(a) + bytes_or_empty(b),
        c_len(joined_text(a, b)) == arg_len(a) + arg_len(b),
        c_len(joined_text(a, b)) == joined_text(a, b).len() - 1,
        bytes_or_empty(a).len() == arg_len(a),
        bytes_or_empty(b).len() == arg_len(b),
        a matches Some(buf) ==> 0 <= c_len(buf) <= buf.len(),
        b matches Some(buf) ==> 0 <= c_len(buf) <= buf.len(),
{
    let first = bytes_or_empty(a);
    let second = bytes_or_empty(b);
    let joined = joined_text(a, b);
    if let Some(buf) = a {
        lemma_c_len(buf);
    }
    if let Some(buf) = b {
        lemma_c_len(buf);
    }
    assert forall|j: int| 0 <= j < first.len() + second.len() implies joined[j] != 0 by {
        if j < first.len() {
            assert(joined[j] == first[j]);
        } else {
            assert(joined[j] == second[j - first.len()]);
        }
    }
    let n = (first.len() + second.len()) as int;
    lemma_first_nul_is_c_len(joined, n);
    assert(joined.take(n) =~= first + second);
}

/// The bytes of `null`.
pub open spec fn null_text() -> Seq<u8> {
    seq![110u8, 117u8, 108u8, 108u8]
}

/// The bytes of `<invalid utf8>`.
pub open spec fn invalid_text() -> Seq<u8> {
    seq![60u8, 105u8, 110u8, 118u8, 97u8, 108u8, 105u8, 100u8, 32u8, 117u8, 116u8, 102u8, 56u8, 62u8]
}

/// The bytes of `true`.
pub open spec fn true_text() -> Seq<u8> {
    seq![116u8, 114u8, 117u8, 101u8]
}

/// The bytes of `false`.
pub open spec fn false_text() -> Seq<u8> {
    seq![102u8, 97u8, 108u8, 115u8, 101u8]
}

/// What printing a string argument writes: `null` for the null pointer,
/// the string itself if it is well-formed UTF-8, a placeholder otherwise.
pub open spec fn printed_string(arg: Option<Seq<u8>>) -> Seq<u8> {
    match arg {
        Some(buf) => if valid_utf8(c_str(buf)) {
            c_str(buf)
        } else {
            invalid_text()
        },
        None => null_text(),
    }
}

/// The decimal digits of `n`, most significant first, in ASCII.
pub open spec fn digits(n: nat) -> Seq<u8>
    decreases n,
{
    if n < 10 {
        seq![(48 + n) as u8]
    } else {
        digits(n / 10).push((48 + n % 10) as u8)
    }
}

/// What printing an integer writes: its decimal digits, after a minus sign
/// if it is negative.
pub open spec fn printed_int(val: int) -> Seq<u8> {
    if val < 0 {
        seq![45u8] + digits((-val) as nat)
    } else {
        digits(val as nat)
    }
}

/// Tells whether `bytes` is well-formed UTF-8, by `core::str::from_utf8`,
/// which accepts exactly the well-formed byte strings.
#[verifier::external_body]
fn is_utf8(bytes: &[u8]) -> (ok: bool)
    ensures
        ok == valid_utf8(bytes@),
{
    match core::str::from_utf8(bytes) {
        Ok(_) => true,
        Err(_) => false,
    }
}

/// The part of `buf` before its first NUL.
fn until_nul(buf: &[u8]) -> (text: &[u8])
    ensures
        text@ == c_str(buf@),
{
    let mut i: usize = 0;
    while i < buf.len() && buf[i] != 0
        invariant
            i <= buf.len(),
            nul_from(buf@, 0) == nul_from(buf@, i as int),
        decreases buf.len() - i,
    {
        i = i + 1;
    }
    slice_subrange(buf, 0, i)
}

/// Appends the bytes of `text` to `out`.
fn append(out: &mut Vec<u8>, text: &[u8])
    ensures
        final(out)@ == old(out)@ + text@,
{
    let mut i: usize = 0;
    while i < text.len()
        invariant
            i <= text.len(),
            out@ == old(out)@ + text@.take(i as int),
        decreases text.len() - i,
    {
        out.push(text[i]);
        i = i + 1;
    }
}

/// Length in bytes of a NUL-terminated string; zero for the null pointer.
pub fn sydney_strlen(text: Option<&[u8]>) -> (len: i64)
    requires
        text matches Some(buf) ==> buf@.len() <= i64::MAX,
    ensures
        len == arg_len(arg_bytes(text)),
{
    match text {
        Some(buf) => {
            let body = until_nul(buf);
            proof {
                lemma_c_len(buf@);
            }
            body.len() as i64
        },
        None => 0,
    }
}

/// The bytes behind a string argument, for use in contracts.
pub open spec fn arg_bytes(arg: Option<&[u8]>) -> Option<Seq<u8>> {
    match arg {
        Some(buf) => Some(buf@),
        None => None,
    }
}

/// Concatenation of two NUL-terminated strings, as a new NUL-terminated
/// string: the bytes of the first up to its NUL, the bytes of the second up
/// to its NUL, and a NUL.  The null pointer counts as the empty string, and
/// the bytes are taken as they are, whatever their encoding.  The length
/// of the result is the sum of the two lengths.
pub fn sydney_strcat(a: Option<&[u8]>, b: Option<&[u8]>) -> (joined: Vec<u8>)
    ensures
        joined@ == joined_text(arg_bytes(a), arg_bytes(b)),
        c_str(joined@) == bytes_or_empty(arg_bytes(a)) + bytes_or_empty(arg_bytes(b)),
        c_len(joined@) == arg_len(arg_bytes(a)) + arg_len(arg_bytes(b)),
        joined@.len() == c_len(joined@) + 1,
        joined@.len() <= 1 + match a {
            Some(buf) => buf@.len(),
            None => 0,
        } + match b {
            Some(buf) => buf@.len(),
            None => 0,
        },
{
    proof {
        lemma_joined_text_holds_both(arg_bytes(a), arg_bytes(b));
    }
    let mut joined: Vec<u8> = Vec::new();
    match a {
        Some(buf) => {
            append(&mut joined, until_nul(buf));
        },
        None => {},
    }
    match b {
        Some(buf) => {
            append(&mut joined, until_nul(buf));
        },
        None => {},
    }
    joined.push(0);
    joined
}

/// The bytes that printing a NUL-terminated string writes.
pub fn sydney_print_string(text: Option<&[u8]>) -> (out: Vec<u8>)
    ensures
        out@ == printed_string(arg_bytes(text)),
{
    let mut out: Vec<u8> = Vec::new();
    match text {
        Some(buf) => {
            let body = until_nul(buf);
            if is_utf8(body) {
                append(&mut out, body);
            } else {
                let placeholder: [u8; 14] = [60, 105, 110, 118, 97, 108, 105, 100, 32, 117, 116, 102, 56, 62];
                append(&mut out, placeholder.as_slice());
            }
        },
        None => {
            let null: [u8; 4] = [110, 117, 108, 108];
            append(&mut out, null.as_slice());
        },
    }
    out
}

/// The bytes that printing a boolean writes: `true` for any value but zero.
pub fn sydney_print_bool(val: i8) -> (out: Vec<u8>)
    ensures
        out@ == if val != 0 {
            true_text()
        } else {
            false_text()
        },
{
    let mut out: Vec<u8> = Vec::new();
    if val != 0 {
        let yes: [u8; 4] = [116, 114, 117, 101];
        append(&mut out, yes.as_slice());
    } else {
        let no: [u8; 5] = [102, 97, 108, 115, 101];
        append(&mut out, no.as_slice());
    }
    out
}

/// The bytes that ending a line writes.
pub fn sydney_print_newline() -> (out: Vec<u8>)
    ensures
        out@ == seq![10u8],
{
    let mut out: Vec<u8> = Vec::new();
    out.push(10);
    out
}

/// The bytes that printing an integer writes.
pub fn sydney_print_int(val: i64) -> (out: Vec<u8>)
    ensures
        out@ == printed_int(val as int),
{
    let negative = val < 0;
    let magnitude: u64 = if negative {
        (0 - (val as i128)) as u64
    } else {
        val as u64
    };
    let mut low_first: Vec<u8> = Vec::new();
    let mut rest: u64 = magnitude;
    while rest >= 10
        invariant
            digits(magnitude as nat) == digits(rest as nat) + Seq::new(
                low_first@.len(),
                |i: int| low_first@[low_first@.len() - 1 - i],
            ),
        decreases rest,
    {
        let digit: u8 = 48 + (rest % 10) as u8;
        low_first.push(digit);
        rest = rest / 10;
    }
    low_first.push(48 + rest as u8);
    let mut out: Vec<u8> = Vec::new();
    if negative {
        out.push(45);
    }
    let ghost sign = out@;
    let ghost all = Seq::new(low_first@.len(), |i: int| low_first@[low_first@.len() - 1 - i]);
    let mut i: usize = low_first.len();
    while i > 0
        invariant
            i <= low_first.len(),
            all == Seq::new(low_first@.len(), |k: int| low_first@[low_first@.len() - 1 - k]),
            out@ == sign + all.take(low_first.len() - i),
        decreases i,
    {
        i = i - 1;
        out.push(low_first[i]);
    }
    out
}

} // verus!
