//! The extraction driver: walks a buffer, runs the matcher, decodes what it
//! finds and holds back long runs of repeated strings.
use vstd::prelude::*;
use vstd::utf8::{decode_utf8, valid_utf8};
use crate::bytes::{fingerprint, fingerprint_of};
use crate::matcher::{match_at, match_run, ScanConfig};
use crate::utf8seq::str_from_utf8;

verus! {

/// The number of recent fingerprints that repeat detection keeps.
pub const RECENT_CAP: usize = 10;

/// The text that a byte slice stands for: its UTF-8 decoding, or the empty
/// text where the slice is not well-formed UTF-8.
pub open spec fn text_of(s: Seq<u8>) -> Seq<char> {
    if valid_utf8(s) {
        decode_utf8(s)
    } else {
        Seq::empty()
    }
}

/// The text of the `len` bytes at `offset`.
pub open spec fn text_at(b: Seq<u8>, offset: int, len: int) -> Seq<char> {
    text_of(b.subrange(offset, offset + len))
}

/// A string is held back when the history is full and every fingerprint in
/// it equals the string's own.
pub open spec fn suppressed(recent: Seq<u32>, h: u32) -> bool {
    recent.len() == RECENT_CAP && forall|k: int| 0 <= k < recent.len() ==> recent[k] == h
}

/// The history after a fingerprint is added: it goes last, and the oldest
/// leaves once more than the capacity would remain.
pub open spec fn remember(recent: Seq<u32>, h: u32) -> Seq<u32> {
    if recent.len() >= RECENT_CAP {
        recent.drop_first().push(h)
    } else {
        recent.push(h)
    }
}

/// The strings the matcher finds from `p` on, as (offset, byte length) in
/// order. After a string at `q` of length `l` the next position examined is
/// `q + l + 1`, past its terminator; after anything else it is the next byte.
pub open spec fn candidates(b: Seq<u8>, cfg: ScanConfig, p: int) -> Seq<(int, int)>
    decreases b.len() - p,
{
    if p < 0 || p >= b.len() {
        Seq::empty()
    } else {
        let m = match_at(b, p, cfg);
        if m.0 {
            seq![(p, m.1 as int)] + candidates(b, cfg, p + m.1 + 1)
        } else {
            candidates(b, cfg, p + 1)
        }
    }
}

/// Which of `cands` are emitted, given the recent fingerprints `recent`
/// before the first of them. Every string, emitted or not, enters the
/// history; with `remove_repeats` clear nothing is held back.
pub open spec fn emitted(b: Seq<u8>, remove_repeats: bool, cands: Seq<(int, int)>, recent: Seq<u32>) -> Seq<
    (int, int),
>
    decreases cands.len(),
{
    if cands.len() == 0 {
        Seq::empty()
    } else {
        let c = cands[0];
        let h = fingerprint(text_at(b, c.0, c.1));
        let rest = emitted(b, remove_repeats, cands.drop_first(), remember(recent, h));
        if remove_repeats && suppressed(recent, h) {
            rest
        } else {
            seq![c] + rest
        }
    }
}

/// What a sequential scan of `b` emits, as (offset, byte length) in order.
pub open spec fn scan_result(b: Seq<u8>, cfg: ScanConfig) -> Seq<(int, int)> {
    emitted(b, cfg.remove_repeats, candidates(b, cfg, 0), Seq::empty())
}

/// A string found in the buffer.
#[derive(Clone, Debug)]
pub struct Hit {
    /// Where it starts, counted from the start of the whole buffer.
    pub offset: usize,
    /// How many bytes it spans.
    pub len: usize,
    /// Its text.
    pub text: String,
}

/// `h` reports the string `c` of `b`, where `b` starts at `base` in the
/// whole buffer.
pub open spec fn hit_is(h: Hit, b: Seq<u8>, c: (int, int), base: int) -> bool {
    &&& h.offset == base + c.0
    &&& h.len == c.1
    &&& h.text@ == text_at(b, c.0, c.1)
}

/// `hits` reports exactly the strings `cs` of `b`, in order.
pub open spec fn hits_are(hits: Seq<Hit>, b: Seq<u8>, cs: Seq<(int, int)>, base: int) -> bool {
    &&& hits.len() == cs.len()
    &&& forall|i: int| 0 <= i < cs.len() ==> hit_is(#[trigger] hits[i], b, cs[i], base)
}

/// Decodes the bytes in `[start, end)` as UTF-8; a slice that is not
/// well-formed gives the empty string.
pub fn extract_text(buf: &[u8], start: usize, end: usize) -> (r: String)
    requires
        start <= end <= buf@.len(),
    ensures
        r@ == text_at(buf@, start as int, end - start),
{
    let part: &[u8] = &buf[start..end];
    match str_from_utf8(part) {
        Some(s) => s.to_owned(),
        None => String::new(),
    }
}

/// Returns the text of `file` between `startIndex` (inclusive) and
/// `endIndex` (exclusive), decoded as UTF-8; the empty string where those
/// bytes are not well-formed UTF-8 or the range is empty.
pub fn getString(file: Vec<u8>, startIndex: u64, endIndex: u64) -> (r: String)
    requires
        startIndex >= endIndex || endIndex <= file@.len(),
    ensures
        startIndex < endIndex ==> r@ == text_at(
            file@,
            startIndex as int,
            endIndex - startIndex,
        ),
        startIndex >= endIndex ==> r@ == Seq::<char>::empty(),
{
    if startIndex >= endIndex {
        return String::new();
    }
    let n: usize = file.len();
    assert(endIndex as int <= n as int);
    extract_text(file.as_slice(), startIndex as usize, endIndex as usize)
}

/// The fingerprints of the most recent strings, oldest first.
pub struct RecentHashes {
    hashes: Vec<u32>,
}

impl View for RecentHashes {
    type V = Seq<u32>;

    closed spec fn view(&self) -> Seq<u32> {
        self.hashes@
    }
}

impl RecentHashes {
    /// The history never holds more than its capacity.
    pub open spec fn wf(&self) -> bool {
        self@.len() <= RECENT_CAP
    }

    /// An empty history.
    pub fn new() -> (r: RecentHashes)
        ensures
            r@ == Seq::<u32>::empty(),
            r.wf(),
    {
        RecentHashes { hashes: Vec::new() }
    }

    /// Whether a string with fingerprint `h` is to be held back.
    pub fn should_suppress(&self, h: u32) -> (r: bool)
        requires
            self.wf(),
        ensures
            r == suppressed(self@, h),
    {
        if self.hashes.len() != RECENT_CAP {
            return false;
        }
        let mut k: usize = 0;
        while k < self.hashes.len()
            invariant
                k <= self@.len(),
                forall|j: int| 0 <= j < k ==> self@[j] == h,
            decreases self@.len() - k,
        {
            if self.hashes[k] != h {
                return false;
            }
            k = k + 1;
        }
        true
    }

    /// Adds fingerprint `h` as the newest, dropping the oldest beyond the
    /// capacity.
    pub fn remember(&mut self, h: u32)
        requires
            old(self).wf(),
        ensures
            final(self)@ == remember(old(self)@, h),
            final(self).wf(),
    {
        if self.hashes.len() >= RECENT_CAP {
            self.hashes.remove(0);
        }
        self.hashes.push(h);
        proof {
            let before = old(self)@;
            if before.len() >= RECENT_CAP {
                assert(self@ =~= before.drop_first().push(h));
            }
        }
    }
}

/// Scans the bytes in `[start, end)` of `buf` as a buffer of their own:
/// runs do not reach outside the range, and the history of recent strings
/// starts empty. Offsets in the result count from the start of `buf`.
pub fn scan_range(buf: &[u8], start: usize, end: usize, cfg: &ScanConfig) -> (r: Vec<Hit>)
    requires
        start <= end <= buf@.len(),
    ensures
        hits_are(
            r@,
            buf@.subrange(start as int, end as int),
            scan_result(buf@.subrange(start as int, end as int), *cfg),
            start as int,
        ),
{
    let part: &[u8] = &buf[start..end];
    let ghost b = part@;
    let ghost all = scan_result(b, *cfg);
    let n = part.len();
    let mut out: Vec<Hit> = Vec::new();
    let mut recent = RecentHashes::new();
    let ghost mut done: Seq<(int, int)> = Seq::empty();
    let mut p: usize = 0;
    while p < n
        invariant
            p <= n,
            n == b.len(),
            b == part@,
            b == buf@.subrange(start as int, end as int),
            start + n == end,
            end <= buf@.len(),
            all == scan_result(b, *cfg),
            recent.wf(),
            hits_are(out@, b, done, start as int),
            done + emitted(b, cfg.remove_repeats, candidates(b, *cfg, p as int), recent@) == all,
        decreases n - p,
    {
        let (found, len) = match_run(part, p, cfg);
        if found {
            let text = extract_text(part, p, p + len);
            let h = fingerprint_of(text.as_str());
            let ghost c = (p as int, len as int);
            let ghost rest = candidates(b, *cfg, p + len + 1);
            assert(candidates(b, *cfg, p as int) == seq![c] + rest);
            assert((seq![c] + rest).drop_first() =~= rest);
            let hold = cfg.remove_repeats && recent.should_suppress(h);
            if !hold {
                let hit = Hit { offset: start + p, len, text };
                out.push(hit);
                proof {
                    let tail = emitted(b, cfg.remove_repeats, rest, remember(recent@, h));
                    assert(done + (seq![c] + tail) =~= done.push(c) + tail);
                    done = done.push(c);
                    assert(hit_is(out@[out@.len() - 1], b, c, start as int));
                }
            }
            recent.remember(h);
            p = p + len + 1;
        } else {
            p = p + 1;
        }
    }
    assert(done =~= all);
    out
}

/// Scans the whole buffer in one pass and returns the strings it emits, in
/// order of their offsets.
pub fn scan(buf: &[u8], cfg: &ScanConfig) -> (r: Vec<Hit>)
    ensures
        hits_are(r@, buf@, scan_result(buf@, *cfg), 0),
{
    let r = scan_range(buf, 0, buf.len(), cfg);
    assert(buf@.subrange(0, buf@.len() as int) =~= buf@);
    r
}

} // verus!
