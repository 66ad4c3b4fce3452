//! The run matcher: how far a printable run reaches from a position, and
//! whether it qualifies as a string.
use vstd::prelude::*;
use crate::bytes::{is_printable, isPrintableASCII};
use crate::utf8seq::{multibyte_at, multibyte_len};

verus! {

/// What decides whether a run counts as a string.
#[derive(Clone, Copy, Debug)]
pub struct ScanConfig {
    /// The least number of characters a run needs (bytes in ASCII mode).
    pub min_len: i32,
    /// When set, any non-printable byte may end a string; when clear, only a
    /// zero byte does.
    pub null_bytes: bool,
    /// When set, multi-byte UTF-8 characters may continue a run.
    pub utf8: bool,
    /// When set, long runs of repeated strings are not emitted in full.
    pub remove_repeats: bool,
}

/// The number of printable bytes in a row from `p`.
pub open spec fn printable_run(b: Seq<u8>, p: int) -> nat
    decreases b.len() - p,
{
    if 0 <= p < b.len() && is_printable(b[p]) {
        1 + printable_run(b, p + 1)
    } else {
        0
    }
}

/// The run from `q` in UTF-8 mode, as (characters, bytes). A printable byte
/// is one character of one byte. A non-printable byte that is followed by a
/// byte of 128 or more, where a multi-byte sequence of length `l` starts, is
/// one character of `l + 1` bytes. Anything else, or the end of the buffer,
/// ends the run.
pub open spec fn utf8_run(b: Seq<u8>, q: int) -> (nat, nat)
    decreases b.len() - q,
{
    if q < 0 || q >= b.len() {
        (0, 0)
    } else if is_printable(b[q]) {
        let r = utf8_run(b, q + 1);
        (r.0 + 1, r.1 + 1)
    } else if q + 1 < b.len() && b[q + 1] >= 128 && multibyte_len(b, q + 1) > 0 {
        let l = multibyte_len(b, q + 1);
        let r = utf8_run(b, q + 1 + l);
        (r.0 + 1, r.1 + l + 1)
    } else {
        (0, 0)
    }
}

/// The run from `p` as (characters counted, bytes spanned) in the given mode.
pub open spec fn run_extent(b: Seq<u8>, p: int, utf8: bool) -> (nat, nat) {
    if utf8 {
        utf8_run(b, p)
    } else {
        (printable_run(b, p), printable_run(b, p))
    }
}

/// The matcher's answer at `p`: whether the run there is a string, and the
/// number of bytes it spans. A string needs at least `min_len` characters and
/// a terminating byte inside the buffer, which must be zero unless
/// `null_bytes` is set.
pub open spec fn run_match(b: Seq<u8>, p: int, min_len: int, null_bytes: bool, utf8: bool) -> (
    bool,
    nat,
) {
    let (count, span) = run_extent(b, p, utf8);
    let t = p + span;
    (t < b.len() && count >= min_len && (null_bytes || b[t] == 0), span)
}

/// The matcher's answer at `p` under a configuration.
pub open spec fn match_at(b: Seq<u8>, p: int, cfg: ScanConfig) -> (bool, nat) {
    run_match(b, p, cfg.min_len as int, cfg.null_bytes, cfg.utf8)
}

proof fn lemma_printable_run_bound(b: Seq<u8>, p: int)
    requires
        0 <= p,
    ensures
        p + printable_run(b, p) <= b.len() || printable_run(b, p) == 0,
    decreases b.len() - p,
{
    if 0 <= p < b.len() && is_printable(b[p]) {
        lemma_printable_run_bound(b, p + 1);
    }
}

proof fn lemma_utf8_run_bound(b: Seq<u8>, q: int)
    requires
        0 <= q,
    ensures
        q + utf8_run(b, q).1 <= b.len() || utf8_run(b, q).1 == 0,
        utf8_run(b, q).0 <= utf8_run(b, q).1,
    decreases b.len() - q,
{
    if q < 0 || q >= b.len() {
    } else if is_printable(b[q]) {
        lemma_utf8_run_bound(b, q + 1);
    } else if q + 1 < b.len() && b[q + 1] >= 128 && multibyte_len(b, q + 1) > 0 {
        let l = multibyte_len(b, q + 1);
        lemma_utf8_run_bound(b, q + 1 + l);
    }
}

/// The span of a run never reaches past the end of the buffer.
pub proof fn lemma_run_within(b: Seq<u8>, p: int, utf8: bool)
    requires
        0 <= p,
    ensures
        p + run_extent(b, p, utf8).1 <= b.len() || run_extent(b, p, utf8).1 == 0,
        run_extent(b, p, utf8).0 <= run_extent(b, p, utf8).1,
{
    lemma_printable_run_bound(b, p);
    lemma_utf8_run_bound(b, p);
}

fn ascii_run(buf: &[u8], index: usize) -> (i: usize)
    requires
        index <= buf@.len(),
    ensures
        i == printable_run(buf@, index as int),
        index + i <= buf@.len(),
{
    let ghost b = buf@;
    let n = buf.len();
    let mut i: usize = 0;
    while index + i < n && isPrintableASCII(buf[index + i])
        invariant
            index + i <= b.len(),
            n == b.len(),
            b == buf@,
            printable_run(b, index as int) == i + printable_run(b, index + i),
        decreases b.len() - index - i,
    {
        i = i + 1;
    }
    i
}

fn utf8_extent(buf: &[u8], index: usize) -> (r: (usize, usize))
    requires
        index <= buf@.len(),
    ensures
        r.0 == utf8_run(buf@, index as int).0,
        r.1 == utf8_run(buf@, index as int).1,
        index + r.1 <= buf@.len(),
{
    let ghost b = buf@;
    let mut i: usize = 0;
    let mut chars: usize = 0;
    let n = buf.len();
    loop
        invariant
            index + i <= b.len(),
            n == b.len(),
            b == buf@,
            chars <= i,
            utf8_run(b, index as int).0 == chars + utf8_run(b, index + i).0,
            utf8_run(b, index as int).1 == i + utf8_run(b, index + i).1,
        ensures
            utf8_run(b, index + i) == (0nat, 0nat),
            utf8_run(b, index as int).0 == chars,
            utf8_run(b, index as int).1 == i,
        decreases b.len() - index - i,
    {
        let q: usize = index + i;
        if q >= n {
            break;
        }
        if isPrintableASCII(buf[q]) {
            i = i + 1;
            chars = chars + 1;
        } else if q + 1 < buf.len() && buf[q + 1] >= 128 {
            let (found, l) = multibyte_at(buf, q + 1);
            if found {
                proof {
                    lemma_utf8_run_bound(b, q + 1 + l);
                }
                i = i + l + 1;
                chars = chars + 1;
            } else {
                break;
            }
        } else {
            break;
        }
    }
    (chars, i)
}

/// Whether `count` characters meet the least length `min_len`.
fn long_enough(count: usize, min_len: i32) -> (r: bool)
    ensures
        r == (count as int >= min_len as int),
{
    min_len <= 0 || count >= min_len as usize
}

/// Runs the matcher at `index`: whether the run there is a string, and how
/// many bytes it spans (also when it is not a string, so that a caller may
/// step past it). Reads nothing past the end of the buffer.
pub fn match_run(buf: &[u8], index: usize, cfg: &ScanConfig) -> (r: (bool, usize))
    ensures
        r.0 == match_at(buf@, index as int, *cfg).0,
        r.1 == match_at(buf@, index as int, *cfg).1,
        r.0 ==> index + r.1 < buf@.len(),
{
    if index >= buf.len() {
        return (false, 0);
    }
    let (count, span) = if cfg.utf8 {
        utf8_extent(buf, index)
    } else {
        let n = ascii_run(buf, index);
        (n, n)
    };
    let t: usize = index + span;
    let found = t < buf.len() && long_enough(count, cfg.min_len) && (cfg.null_bytes || buf[t]
        == 0);
    (found, span)
}

/// Checks whether a string starts at `index` of `file`, under a least length
/// of `numBytes` characters, with or without the zero-terminator requirement
/// (`nullBytes` lifts it) and in ASCII or UTF-8 mode. Returns whether one does
/// and the byte span of the run.
pub fn checkForString(file: Vec<u8>, index: usize, numBytes: i32, nullBytes: bool, utf8: bool) -> (r: (
    bool,
    u64,
))
    ensures
        r.0 == run_match(file@, index as int, numBytes as int, nullBytes, utf8).0,
        r.1 as int == run_match(file@, index as int, numBytes as int, nullBytes, utf8).1,
{
    let cfg = ScanConfig { min_len: numBytes, null_bytes: nullBytes, utf8, remove_repeats: false };
    let (found, span) = match_run(file.as_slice(), index, &cfg);
    (found, span as u64)
}

} // verus!
