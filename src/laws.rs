//! Properties of the scan as a whole.
use vstd::prelude::*;
use vstd::utf8::{
    decode_utf8, is_continuation_byte, length_of_first_scalar, pop_first_scalar, valid_utf8,
};
use crate::bytes::{fingerprint, is_printable};
use crate::extract::{
    candidates, emitted, hits_are, remember, scan_result, suppressed, text_at, Hit, RECENT_CAP,
};
use crate::matcher::{match_at, printable_run, run_extent, utf8_run, ScanConfig};
use crate::partition::{chunk_end, chunk_start};
use crate::utf8seq::{multibyte_fits, multibyte_len};

verus! {

/// Each string of `s` ends before the next one starts: the byte ranges do
/// not overlap and their offsets strictly increase.
pub open spec fn spaced(s: Seq<(int, int)>) -> bool {
    forall|i: int, j: int| 0 <= i < j < s.len() ==> s[i].0 + s[i].1 < s[j].0
}

/// What the matcher found from `p` on: each entry is a string at its offset,
/// with the span the matcher gave, at or after `p`, in increasing order.
proof fn lemma_candidates_shape(b: Seq<u8>, cfg: ScanConfig, p: int)
    requires
        0 <= p,
    ensures
        spaced(candidates(b, cfg, p)),
        forall|k: int|
            0 <= k < candidates(b, cfg, p).len() ==> {
                let c = #[trigger] candidates(b, cfg, p)[k];
                &&& p <= c.0 < b.len()
                &&& match_at(b, c.0, cfg).0
                &&& c.1 == match_at(b, c.0, cfg).1
            },
    decreases b.len() - p,
{
    if p < b.len() {
        let m = match_at(b, p, cfg);
        if m.0 {
            let q = p + m.1 + 1;
            lemma_candidates_shape(b, cfg, q);
            let rest = candidates(b, cfg, q);
            let s = candidates(b, cfg, p);
            assert(s == seq![(p, m.1 as int)] + rest);
            assert forall|i: int, j: int| 0 <= i < j < s.len() implies s[i].0 + s[i].1 < s[j].0 by {
                if i > 0 {
                    assert(s[i] == rest[i - 1]);
                }
                assert(s[j] == rest[j - 1]);
            }
            assert forall|k: int| 0 <= k < s.len() implies {
                let c = #[trigger] s[k];
                &&& p <= c.0 < b.len()
                &&& match_at(b, c.0, cfg).0
                &&& c.1 == match_at(b, c.0, cfg).1
            } by {
                if k > 0 {
                    assert(s[k] == rest[k - 1]);
                }
            }
        } else {
            lemma_candidates_shape(b, cfg, p + 1);
        }
    }
}

/// What is emitted is drawn from the candidates, and keeps their spacing.
proof fn lemma_emitted_within(
    b: Seq<u8>,
    remove_repeats: bool,
    cands: Seq<(int, int)>,
    recent: Seq<u32>,
)
    ensures
        forall|k: int|
            0 <= k < emitted(b, remove_repeats, cands, recent).len() ==> cands.contains(
                #[trigger] emitted(b, remove_repeats, cands, recent)[k],
            ),
        spaced(cands) ==> spaced(emitted(b, remove_repeats, cands, recent)),
    decreases cands.len(),
{
    if cands.len() > 0 {
        let c = cands[0];
        let h = crate::bytes::fingerprint(text_at(b, c.0, c.1));
        let tail = cands.drop_first();
        let next = crate::extract::remember(recent, h);
        lemma_emitted_within(b, remove_repeats, tail, next);
        let rest = emitted(b, remove_repeats, tail, next);
        let e = emitted(b, remove_repeats, cands, recent);
        assert forall|k: int| 0 <= k < rest.len() implies cands.contains(#[trigger] rest[k]) by {
            let x = rest[k];
            let j = choose|j: int| 0 <= j < tail.len() && tail[j] == x;
            assert(cands[j + 1] == x);
        }
        if !(remove_repeats && crate::extract::suppressed(recent, h)) {
            assert(e == seq![c] + rest);
            assert forall|k: int| 0 <= k < e.len() implies cands.contains(#[trigger] e[k]) by {
                if k == 0 {
                    assert(cands[0] == e[k]);
                } else {
                    assert(e[k] == rest[k - 1]);
                }
            }
            if spaced(cands) {
                assert(spaced(tail));
                assert forall|i: int, j: int| 0 <= i < j < e.len() implies e[i].0 + e[i].1
                    < e[j].0 by {
                    assert(e[j] == rest[j - 1]);
                    if i > 0 {
                        assert(e[i] == rest[i - 1]);
                    } else {
                        let x = rest[j - 1];
                        let jj = choose|jj: int| 0 <= jj < tail.len() && tail[jj] == x;
                        assert(cands[jj + 1] == x);
                    }
                }
            }
        } else {
            if spaced(cands) {
                assert(spaced(tail));
            }
        }
    }
}

proof fn lemma_printable_bytes(b: Seq<u8>, p: int)
    requires
        0 <= p,
    ensures
        p + printable_run(b, p) <= b.len() || printable_run(b, p) == 0,
        forall|k: int| p <= k < p + printable_run(b, p) ==> is_printable(#[trigger] b[k]),
    decreases b.len() - p,
{
    if 0 <= p < b.len() && is_printable(b[p]) {
        lemma_printable_bytes(b, p + 1);
    }
}

/// Bytes below 128 are well-formed UTF-8, one character per byte.
pub proof fn lemma_ascii_decodes(s: Seq<u8>)
    requires
        forall|k: int| 0 <= k < s.len() ==> s[k] < 128,
    ensures
        valid_utf8(s),
        decode_utf8(s).len() == s.len(),
    decreases s.len(),
{
    if s.len() > 0 {
        let b0 = s[0];
        assert((b0 & 0x7F) as u32 <= 0x7F) by (bit_vector);
        let tail = s.subrange(1, s.len() as int);
        assert(pop_first_scalar(s) =~= tail);
        lemma_ascii_decodes(tail);
    }
}

/// The number of bytes of `s` that are not UTF-8 continuation bytes: in
/// well-formed UTF-8, one per character.
pub open spec fn lead_count(s: Seq<u8>) -> nat
    decreases s.len(),
{
    if s.len() == 0 {
        0
    } else {
        (if is_continuation_byte(s[0]) {
            0nat
        } else {
            1nat
        }) + lead_count(s.drop_first())
    }
}

proof fn lemma_lead_count_split(s: Seq<u8>, k: int)
    requires
        0 <= k <= s.len(),
    ensures
        lead_count(s) == lead_count(s.subrange(0, k)) + lead_count(s.subrange(k, s.len() as int)),
    decreases k,
{
    if k == 0 {
        assert(s.subrange(0, 0) =~= Seq::<u8>::empty());
        assert(s.subrange(0, s.len() as int) =~= s);
    } else {
        let t = s.drop_first();
        lemma_lead_count_split(t, k - 1);
        assert(t.subrange(0, k - 1) =~= s.subrange(0, k).drop_first());
        assert(t.subrange(k - 1, t.len() as int) =~= s.subrange(k, s.len() as int));
        assert(s.subrange(0, k)[0] == s[0]);
    }
}

/// Well-formed UTF-8 decodes to one character per byte that is not a
/// continuation byte.
pub proof fn lemma_decoded_len(s: Seq<u8>)
    requires
        valid_utf8(s),
    ensures
        decode_utf8(s).len() == lead_count(s),
    decreases s.len(),
{
    if s.len() > 0 {
        let k = length_of_first_scalar(s);
        let head = s.subrange(0, k);
        let pop = pop_first_scalar(s);
        lemma_decoded_len(pop);
        lemma_lead_count_split(s, k);
        reveal_with_fuel(lead_count, 5);
        assert(head[0] == s[0]);
        if k >= 2 {
            assert(head.drop_first()[0] == s[1]);
        }
        if k >= 3 {
            assert(head.drop_first().drop_first()[0] == s[2]);
        }
        if k >= 4 {
            assert(head.drop_first().drop_first().drop_first()[0] == s[3]);
        }
        assert(lead_count(head) == 1);
    }
}

proof fn lemma_utf8_run_leads(b: Seq<u8>, q: int)
    requires
        0 <= q,
    ensures
        q + utf8_run(b, q).1 <= b.len() || utf8_run(b, q).1 == 0,
        lead_count(b.subrange(q, q + utf8_run(b, q).1)) >= utf8_run(b, q).0,
    decreases b.len() - q,
{
    crate::matcher::lemma_run_within(b, q, true);
    let r = utf8_run(b, q);
    let seg = b.subrange(q, q + r.1);
    if q >= b.len() {
    } else if is_printable(b[q]) {
        lemma_utf8_run_leads(b, q + 1);
        assert(seg.drop_first() =~= b.subrange(q + 1, q + 1 + utf8_run(b, q + 1).1));
        assert(seg[0] == b[q]);
    } else if q + 1 < b.len() && b[q + 1] >= 128 && multibyte_len(b, q + 1) > 0 {
        let l = multibyte_len(b, q + 1) as int;
        let next = q + 1 + l;
        lemma_utf8_run_leads(b, next);
        let rest = seg.drop_first();
        assert(rest =~= b.subrange(q + 1, q + r.1));
        lemma_lead_count_split(rest, l);
        let piece = rest.subrange(0, l);
        assert(piece =~= b.subrange(q + 1, q + 1 + l));
        assert(rest.subrange(l, rest.len() as int) =~= b.subrange(next, next + utf8_run(b, next).1));
        assert(valid_utf8(piece));
        assert(!is_continuation_byte(piece[0]));
        assert(lead_count(piece) >= 1);
    }
}

/// Every string that a scan emits has at least `min_len` characters as the
/// matcher counts them (bytes in ASCII mode, characters in UTF-8 mode), and
/// spans the bytes of its run. In ASCII mode its text has exactly one
/// character per byte; in UTF-8 mode, where its bytes are well-formed, its
/// text has at least as many characters as were counted. Either way the text
/// itself is then at least `min_len` long. (Bytes that are not well-formed
/// UTF-8 give the empty text.)
pub proof fn lemma_emitted_long_enough(b: Seq<u8>, cfg: ScanConfig)
    ensures
        forall|k: int|
            0 <= k < scan_result(b, cfg).len() ==> {
                let c = #[trigger] scan_result(b, cfg)[k];
                &&& run_extent(b, c.0, cfg.utf8).0 >= cfg.min_len
                &&& c.1 == run_extent(b, c.0, cfg.utf8).1
                &&& !cfg.utf8 ==> text_at(b, c.0, c.1).len() == c.1
                &&& cfg.utf8 && valid_utf8(b.subrange(c.0, c.0 + c.1)) ==> text_at(b, c.0, c.1).len()
                    >= cfg.min_len
            },
{
    let cands = candidates(b, cfg, 0);
    lemma_candidates_shape(b, cfg, 0);
    lemma_emitted_within(b, cfg.remove_repeats, cands, Seq::empty());
    let e = scan_result(b, cfg);
    assert forall|k: int| 0 <= k < e.len() implies {
        let c = #[trigger] e[k];
        &&& run_extent(b, c.0, cfg.utf8).0 >= cfg.min_len
        &&& c.1 == run_extent(b, c.0, cfg.utf8).1
        &&& !cfg.utf8 ==> text_at(b, c.0, c.1).len() == c.1
        &&& cfg.utf8 && valid_utf8(b.subrange(c.0, c.0 + c.1)) ==> text_at(b, c.0, c.1).len()
            >= cfg.min_len
    } by {
        let c = e[k];
        let j = choose|j: int| 0 <= j < cands.len() && cands[j] == c;
        assert(cands[j] == c);
        if !cfg.utf8 {
            lemma_printable_bytes(b, c.0);
            let s = b.subrange(c.0, c.0 + c.1);
            assert forall|i: int| 0 <= i < s.len() implies s[i] < 128 by {
                assert(s[i] == b[c.0 + i]);
            }
            lemma_ascii_decodes(s);
        } else if valid_utf8(b.subrange(c.0, c.0 + c.1)) {
            lemma_utf8_run_leads(b, c.0);
            lemma_decoded_len(b.subrange(c.0, c.0 + c.1));
        }
    }
}

/// The strings of a sequential scan come in order of their offsets, and
/// each ends before the next begins.
pub proof fn lemma_emitted_in_order(b: Seq<u8>, cfg: ScanConfig)
    ensures
        spaced(scan_result(b, cfg)),
        forall|k: int|
            0 <= k < scan_result(b, cfg).len() ==> 0 <= (#[trigger] scan_result(b, cfg)[k]).0 && 
                scan_result(b, cfg)[k].0 + scan_result(b, cfg)[k].1 < b.len(),
{
    let cands = candidates(b, cfg, 0);
    lemma_candidates_shape(b, cfg, 0);
    lemma_emitted_within(b, cfg.remove_repeats, cands, Seq::empty());
    let e = scan_result(b, cfg);
    assert forall|k: int| 0 <= k < e.len() implies 0 <= (#[trigger] e[k]).0 && e[k].0 + e[k].1
        < b.len() by {
        let c = e[k];
        let j = choose|j: int| 0 <= j < cands.len() && cands[j] == c;
        assert(cands[j] == c);
        crate::matcher::lemma_run_within(b, c.0, cfg.utf8);
    }
}

/// Scanning the same buffer twice under the same configuration gives the
/// same strings, at the same offsets, in the same order.
pub proof fn lemma_scan_repeatable(b: Seq<u8>, cfg: ScanConfig, first: Seq<Hit>, second: Seq<Hit>)
    requires
        hits_are(first, b, scan_result(b, cfg), 0),
        hits_are(second, b, scan_result(b, cfg), 0),
    ensures
        first.len() == second.len(),
        forall|i: int|
            0 <= i < first.len() ==> (#[trigger] first[i]).offset == second[i].offset
                && first[i].len == second[i].len && first[i].text@ == second[i].text@,
{
    assert forall|i: int| 0 <= i < first.len() implies (#[trigger] first[i]).offset
        == second[i].offset && first[i].len == second[i].len && first[i].text@
        == second[i].text@ by {
        assert(crate::extract::hit_is(first[i], b, scan_result(b, cfg)[i], 0));
        assert(crate::extract::hit_is(second[i], b, scan_result(b, cfg)[i], 0));
    }
}

/// Without repeat removal every candidate is emitted.
proof fn lemma_emitted_all(b: Seq<u8>, cands: Seq<(int, int)>, recent: Seq<u32>)
    ensures
        emitted(b, false, cands, recent) == cands,
    decreases cands.len(),
{
    if cands.len() > 0 {
        let c = cands[0];
        let h = fingerprint(text_at(b, c.0, c.1));
        lemma_emitted_all(b, cands.drop_first(), remember(recent, h));
        assert(seq![c] + cands.drop_first() =~= cands);
    }
}

/// `n` copies of the fingerprint `h`.
spec fn repeated(h: u32, n: nat) -> Seq<u32> {
    Seq::new(n, |k: int| h)
}

proof fn lemma_repeat_tail(b: Seq<u8>, cands: Seq<(int, int)>, h: u32, j: int)
    requires
        cands.len() == RECENT_CAP + 1,
        0 <= j <= RECENT_CAP,
        forall|i: int|
            0 <= i < cands.len() ==> fingerprint(text_at(b, (#[trigger] cands[i]).0, cands[i].1)) == h,
    ensures
        emitted(b, true, cands.subrange(j, cands.len() as int), repeated(h, j as nat)).len()
            == RECENT_CAP - j,
    decreases RECENT_CAP - j,
{
    let s = cands.subrange(j, cands.len() as int);
    let recent = repeated(h, j as nat);
    assert(s[0] == cands[j]);
    let next = remember(recent, h);
    assert(s.drop_first() =~= cands.subrange(j + 1, cands.len() as int));
    if j == RECENT_CAP {
        assert(suppressed(recent, h));
        assert(s.drop_first().len() == 0);
        assert(emitted(b, true, s.drop_first(), next).len() == 0);
    } else {
        assert(!suppressed(recent, h));
        assert(next =~= repeated(h, (j + 1) as nat));
        lemma_repeat_tail(b, cands, h, j + 1);
    }
}

/// A buffer whose candidate strings are eleven identical ones: with repeat
/// removal the scan emits ten of them; without it, all eleven.
pub proof fn lemma_repeats_capped(b: Seq<u8>, cfg: ScanConfig)
    requires
        candidates(b, cfg, 0).len() == 11,
        forall|i: int|
            0 <= i < 11 ==> text_at(b, (#[trigger] candidates(b, cfg, 0)[i]).0, candidates(b, cfg, 0)[i].1)
                == text_at(b, candidates(b, cfg, 0)[0].0, candidates(b, cfg, 0)[0].1),
    ensures
        cfg.remove_repeats ==> scan_result(b, cfg).len() == 10,
        !cfg.remove_repeats ==> scan_result(b, cfg) == candidates(b, cfg, 0),
        !cfg.remove_repeats ==> scan_result(b, cfg).len() == 11,
{
    let cands = candidates(b, cfg, 0);
    if cfg.remove_repeats {
        let h = fingerprint(text_at(b, cands[0].0, cands[0].1));
        lemma_repeat_tail(b, cands, h, 0);
        assert(cands.subrange(0, 11) =~= cands);
        assert(repeated(h, 0) =~= Seq::<u32>::empty());
    } else {
        lemma_emitted_all(b, cands, Seq::empty());
    }
}

/// No string and no multi-byte character crosses position `s` of `b`: the
/// byte before `s` is a non-printable ASCII byte, and neither the byte at `s`
/// nor any of the four before it lies outside ASCII.
pub open spec fn quiet_boundary(b: Seq<u8>, s: int) -> bool {
    &&& 0 < s < b.len()
    &&& !is_printable(b[s - 1])
    &&& b[s] < 128
    &&& forall|k: int| s - 4 <= k < s && 0 <= k ==> #[trigger] b[k] < 128
}

/// The strings `cs` with their offsets moved forward by `base`.
pub open spec fn shifted(cs: Seq<(int, int)>, base: int) -> Seq<(int, int)> {
    cs.map_values(|c: (int, int)| (c.0 + base, c.1))
}

/// What the workers of a parallel scan with `w` chunks emit, chunk after
/// chunk from chunk `i` on, with offsets counted in the whole buffer.
pub open spec fn chunk_results(b: Seq<u8>, cfg: ScanConfig, w: int, i: int) -> Seq<(int, int)>
    decreases w - i,
{
    if i < 0 || i >= w {
        Seq::empty()
    } else {
        let s = chunk_start(b.len() as int, w, i);
        let e = chunk_end(b.len() as int, w, i);
        shifted(scan_result(b.subrange(s, e), cfg), s) + chunk_results(b, cfg, w, i + 1)
    }
}

proof fn lemma_multibyte_in_chunk(b: Seq<u8>, start: int, end: int, i: int)
    requires
        0 <= start <= i,
        start <= end <= b.len(),
        end == b.len() || i + 4 < end,
    ensures
        multibyte_len(b.subrange(start, end), i - start) == multibyte_len(b, i),
{
    let sub = b.subrange(start, end);
    if i < end {
        assert forall|l: int| 2 <= l <= 4 implies multibyte_fits(sub, i - start, l)
            == multibyte_fits(b, i, l) by {
            if i + l <= end {
                assert(sub.subrange(i - start, i - start + l) =~= b.subrange(i, i + l));
            }
        }
    }
}

proof fn lemma_printable_run_in_chunk(b: Seq<u8>, start: int, end: int, q: int)
    requires
        0 <= start <= q <= end <= b.len(),
        q < end || end == b.len(),
        end == b.len() || quiet_boundary(b, end),
    ensures
        printable_run(b.subrange(start, end), q - start) == printable_run(b, q),
        end < b.len() ==> q + printable_run(b, q) < end,
    decreases end - q,
{
    let sub = b.subrange(start, end);
    if q < b.len() && is_printable(b[q]) {
        assert(sub[q - start] == b[q]);
        lemma_printable_run_in_chunk(b, start, end, q + 1);
    }
}

proof fn lemma_utf8_run_in_chunk(b: Seq<u8>, start: int, end: int, q: int)
    requires
        0 <= start <= q <= end <= b.len(),
        q < end || end == b.len(),
        end == b.len() || quiet_boundary(b, end),
    ensures
        utf8_run(b.subrange(start, end), q - start) == utf8_run(b, q),
        end < b.len() ==> q + utf8_run(b, q).1 < end,
    decreases end - q,
{
    let sub = b.subrange(start, end);
    if q < b.len() {
        assert(sub[q - start] == b[q]);
        if is_printable(b[q]) {
            lemma_utf8_run_in_chunk(b, start, end, q + 1);
        } else if q + 1 < end {
            assert(sub[q - start + 1] == b[q + 1]);
            if b[q + 1] >= 128 {
                if end < b.len() {
                    assert(q + 5 < end) by {
                        if q + 5 >= end {
                            assert(b[q + 1] < 128);
                        }
                    }
                }
                lemma_multibyte_in_chunk(b, start, end, q + 1);
                let l = multibyte_len(b, q + 1);
                if l > 0 {
                    lemma_utf8_run_in_chunk(b, start, end, q + 1 + l);
                }
            }
        }
    }
}

proof fn lemma_match_in_chunk(b: Seq<u8>, cfg: ScanConfig, start: int, end: int, q: int)
    requires
        0 <= start <= q < end <= b.len(),
        end == b.len() || quiet_boundary(b, end),
    ensures
        match_at(b.subrange(start, end), q - start, cfg) == match_at(b, q, cfg),
        match_at(b, q, cfg).0 ==> q + match_at(b, q, cfg).1 < end,
{
    let sub = b.subrange(start, end);
    lemma_printable_run_in_chunk(b, start, end, q);
    lemma_utf8_run_in_chunk(b, start, end, q);
    let span = run_extent(b, q, cfg.utf8).1;
    assert(run_extent(sub, q - start, cfg.utf8) == run_extent(b, q, cfg.utf8));
    if q + span < end {
        assert(sub[q - start + span] == b[q + span]);
    }
}

proof fn lemma_candidates_in_chunk(b: Seq<u8>, cfg: ScanConfig, start: int, end: int, p: int)
    requires
        0 <= start <= p <= end <= b.len(),
        start == end || end == b.len() || quiet_boundary(b, end),
    ensures
        candidates(b, cfg, p) == shifted(candidates(b.subrange(start, end), cfg, p - start), start)
            + candidates(b, cfg, end),
    decreases end - p,
{
    let sub = b.subrange(start, end);
    if p == end {
        assert(shifted(candidates(sub, cfg, p - start), start) =~= Seq::<(int, int)>::empty());
        assert(Seq::<(int, int)>::empty() + candidates(b, cfg, end) =~= candidates(b, cfg, end));
    } else {
        lemma_match_in_chunk(b, cfg, start, end, p);
        let m = match_at(b, p, cfg);
        let tail = candidates(b, cfg, end);
        if m.0 {
            let next = p + m.1 + 1;
            lemma_candidates_in_chunk(b, cfg, start, end, next);
            let inner = candidates(sub, cfg, next - start);
            assert(candidates(sub, cfg, p - start) == seq![(p - start, m.1 as int)] + inner);
            assert(shifted(seq![(p - start, m.1 as int)] + inner, start) =~= seq![(p, m.1 as int)]
                + shifted(inner, start));
            assert(seq![(p, m.1 as int)] + (shifted(inner, start) + tail) =~= (seq![(p, m.1 as int)]
                + shifted(inner, start)) + tail);
        } else {
            lemma_candidates_in_chunk(b, cfg, start, end, p + 1);
        }
    }
}

proof fn lemma_chunk_bounds(n: int, w: int, i: int)
    requires
        0 <= n,
        1 <= w,
        0 <= i < w,
    ensures
        0 <= chunk_start(n, w, i) <= chunk_end(n, w, i) <= n,
        i < w - 1 ==> chunk_end(n, w, i) == chunk_start(n, w, i + 1),
        i == 0 ==> chunk_start(n, w, i) == 0,
{
    let c = n / w;
    assert(0 <= c * w <= n) by (nonlinear_arith)
        requires
            c == n / w,
            0 <= n,
            1 <= w,
    ;
    assert(0 <= i * c <= (i + 1) * c) by (nonlinear_arith)
        requires
            0 <= i,
            0 <= c,
    ;
    assert(i < w - 1 ==> (i + 1) * c <= c * w) by (nonlinear_arith)
        requires
            0 <= c,
            0 <= i,
    ;
    assert(i * c <= c * w) by (nonlinear_arith)
        requires
            0 <= c,
            0 <= i < w,
    ;
}

proof fn lemma_chunks_from(b: Seq<u8>, cfg: ScanConfig, w: int, i: int)
    requires
        w >= 1,
        0 <= i < w,
        !cfg.remove_repeats,
        forall|k: int|
            1 <= k < w ==> #[trigger] chunk_start(b.len() as int, w, k) == 0 || quiet_boundary(
                b,
                chunk_start(b.len() as int, w, k),
            ),
    ensures
        candidates(b, cfg, chunk_start(b.len() as int, w, i)) == chunk_results(b, cfg, w, i),
    decreases w - i,
{
    let n = b.len() as int;
    let s = chunk_start(n, w, i);
    let e = chunk_end(n, w, i);
    let sub = b.subrange(s, e);
    lemma_chunk_bounds(n, w, i);
    lemma_emitted_all(sub, candidates(sub, cfg, 0), Seq::empty());
    if i < w - 1 {
        lemma_chunk_bounds(n, w, i + 1);
        assert(s == e || quiet_boundary(b, e)) by {
            assert(e == chunk_start(n, w, i + 1));
            if e == 0 {
                assert(s == 0);
            }
        }
        lemma_candidates_in_chunk(b, cfg, s, e, s);
        lemma_chunks_from(b, cfg, w, i + 1);
    } else {
        lemma_candidates_in_chunk(b, cfg, s, e, s);
        assert(chunk_results(b, cfg, w, i + 1) == Seq::<(int, int)>::empty());
        assert(candidates(b, cfg, e) == Seq::<(int, int)>::empty());
        assert(shifted(candidates(sub, cfg, 0), s) + Seq::<(int, int)>::empty() =~= shifted(
            candidates(sub, cfg, 0),
            s,
        ));
    }
}

/// With repeat removal off, and no string crossing an edge between chunks,
/// a parallel scan with `w` chunks emits the same strings at the same
/// offsets as the sequential scan: the chunks' results, put one after the
/// other, are the sequential result.
pub proof fn lemma_parallel_agrees(b: Seq<u8>, cfg: ScanConfig, w: int)
    requires
        w >= 1,
        !cfg.remove_repeats,
        forall|k: int|
            1 <= k < w ==> #[trigger] chunk_start(b.len() as int, w, k) == 0 || quiet_boundary(
                b,
                chunk_start(b.len() as int, w, k),
            ),
    ensures
        scan_result(b, cfg) == chunk_results(b, cfg, w, 0),
{
    lemma_chunk_bounds(b.len() as int, w, 0);
    lemma_chunks_from(b, cfg, w, 0);
    lemma_emitted_all(b, candidates(b, cfg, 0), Seq::empty());
}

/// A string found in a chunk reads the same as the same bytes in the whole
/// buffer.
pub proof fn lemma_chunk_text(b: Seq<u8>, start: int, end: int, offset: int, len: int)
    requires
        0 <= start <= end <= b.len(),
        0 <= offset,
        0 <= len,
        offset + len <= end - start,
    ensures
        text_at(b.subrange(start, end), offset, len) == text_at(b, start + offset, len),
{
    assert(b.subrange(start, end).subrange(offset, offset + len) =~= b.subrange(
        start + offset,
        start + offset + len,
    ));
}

} // verus!
