//! The client configuration and the in-memory sink that turns decoded
//! response bytes into a [`Response`].
//!
//! [`CabotLibWrite`] receives exactly one header write (the raw status
//! line and header lines), then body writes in order, then one flush.
//! It splits the header block into lines, unfolds obsolete line folding
//! (a continuation line starts with a space or a tab and is joined to
//! the previous header with a single space), and hands everything to a
//! [`ResponseBuilder`].

use crate::ascii::{
    bytes_subrange, find_byte, idx_of, is_ws_byte, lemma_first_occurrence_is_idx_of, lemma_idx_of,
    lemma_no_occurrence_idx_of, lemma_trim_clean_ws_suffix, lemma_trim_fixed_ends, trim_bytes,
    trim_end_bytes, trim_left, trim_right, trim_spec,
};
use crate::response::{Response, ResponseBuilder};
use crate::results::CabotResult;
use crate::strconv::{bytes_to_vec, extend_bytes, str_eq, string_from_utf8_lossy};
use vstd::prelude::*;
use vstd::utf8::{encode_utf8, valid_utf8};

verus! {

// --- splitting a header block into lines and unfolding ---

/// Split a byte string on line feeds. The line feed bytes are not kept;
/// a trailing line feed yields a final empty segment.
pub open spec fn split_lf(s: Seq<u8>) -> Seq<Seq<u8>>
    decreases s.len(),
    via split_lf_decreases
{
    let i = idx_of(s, 0x0a);
    if i >= s.len() {
        seq![s]
    } else {
        seq![s.take(i)] + split_lf(s.subrange(i + 1, s.len() as int))
    }
}

#[via_fn]
proof fn split_lf_decreases(s: Seq<u8>) {
    lemma_idx_of(s, 0x0a);
}

/// A continuation line of an obsolete line-folded header: it starts
/// with a space or a horizontal tab.
pub open spec fn is_fold_start(seg: Seq<u8>) -> bool {
    seg.len() > 0 && (seg[0] == 0x20 || seg[0] == 0x09)
}

/// Unfold header segments into logical header lines, joining folded
/// continuations with a single space, trimming each piece, and
/// dropping segments that are empty once trimmed. `acc` is the header
/// gathered so far and is emitted (trimmed) when a new header starts
/// and at the end.
pub open spec fn spec_unfold(segs: Seq<Seq<u8>>, acc: Seq<u8>) -> Seq<Seq<u8>>
    decreases segs.len(),
{
    if segs.len() == 0 {
        if trim_spec(acc).len() > 0 {
            seq![trim_spec(acc)]
        } else {
            Seq::<Seq<u8>>::empty()
        }
    } else {
        let seg = segs.first();
        let rest = segs.drop_first();
        if is_fold_start(seg) {
            spec_unfold(rest, acc + seq![0x20u8] + trim_spec(seg))
        } else if trim_spec(acc).len() > 0 {
            seq![trim_spec(acc)] + spec_unfold(rest, trim_spec(seg))
        } else {
            spec_unfold(rest, acc + trim_spec(seg))
        }
    }
}

/// The logical header lines of a header block: every segment after the
/// status line, unfolded.
pub open spec fn spec_unfolded_headers(buf: Seq<u8>) -> Seq<Seq<u8>> {
    spec_unfold(split_lf(buf).drop_first(), Seq::<u8>::empty())
}

/// The trimmed status line of a header block: its first line.
pub open spec fn spec_status_of(buf: Seq<u8>) -> Seq<u8> {
    trim_right(split_lf(buf).first())
}

/// The built header strings match the unfolded byte lines: same count,
/// and each line that is valid UTF-8 is the encoding of its string.
pub open spec fn out_matches(headers: Seq<String>, out: Seq<Seq<u8>>) -> bool {
    &&& headers.len() == out.len()
    &&& forall|i: int|
        0 <= i < out.len() && valid_utf8(#[trigger] out[i]) ==> encode_utf8(headers[i]@) == out[i]
}

/// What holds of a builder filled from the header block `buf`.
pub open spec fn spec_headers_parsed(b: ResponseBuilder, buf: Seq<u8>) -> bool {
    &&& b.status_line matches Some(s) && (valid_utf8(spec_status_of(buf)) ==> encode_utf8(s@)
        == spec_status_of(buf))
    &&& out_matches(b.headers@, spec_unfolded_headers(buf))
    &&& b.body is None
}

/// The effect of handing a header block to the sink: when the block
/// holds at least one line feed it is parsed, else nothing changes.
pub open spec fn spec_split_headers_post(
    old_b: ResponseBuilder,
    new_b: ResponseBuilder,
    buf: Seq<u8>,
) -> bool {
    if idx_of(buf, 0x0a) < buf.len() {
        spec_headers_parsed(new_b, buf)
    } else {
        new_b == old_b
    }
}

// --- the header-block round trip ---

/// A well-formed logical header line: nonempty, free of CR and LF, and
/// already trimmed.
pub open spec fn wf_header_line(h: Seq<u8>) -> bool {
    &&& h.len() > 0
    &&& trim_spec(h) == h
    &&& forall|i: int| 0 <= i < h.len() ==> h[i] != 0x0a && h[i] != 0x0d
}

/// The serialized header lines of a head block: each line's bytes
/// followed by CRLF, in order.
pub open spec fn spec_head_lines(hs: Seq<Seq<u8>>) -> Seq<u8>
    decreases hs.len(),
{
    if hs.len() == 0 {
        Seq::<u8>::empty()
    } else {
        hs.first() + seq![0x0du8, 0x0au8] + spec_head_lines(hs.drop_first())
    }
}

/// A complete head block: the status line, the header lines, and the
/// final empty line, all CRLF-terminated.
pub open spec fn spec_head_block(status: Seq<u8>, hs: Seq<Seq<u8>>) -> Seq<u8> {
    status + seq![0x0du8, 0x0au8] + spec_head_lines(hs) + seq![0x0du8, 0x0au8]
}

/// Splitting off one line: when `l` holds no line feed, the first
/// segment of `l LF r` is `l` and the rest splits on its own.
pub proof fn lemma_split_lf_line(l: Seq<u8>, r: Seq<u8>)
    requires
        forall|i: int| 0 <= i < l.len() ==> l[i] != 0x0a,
    ensures
        split_lf(l + seq![0x0au8] + r) =~~= seq![l] + split_lf(r),
{
    let s = l + seq![0x0au8] + r;
    assert(s[l.len() as int] == 0x0a);
    assert forall|j: int| 0 <= j < l.len() implies s[j] != 0x0a by {
        assert(s[j] == l[j]);
    }
    lemma_first_occurrence_is_idx_of(s, 0x0a, l.len() as int);
    assert(s.take(l.len() as int) =~= l);
    assert(s.subrange(l.len() as int + 1, s.len() as int) =~= r);
}

/// Each well-formed header line is one segment of the split, followed
/// by the two segments the final CRLF leaves: a bare CR and an empty
/// tail.
proof fn lemma_split_head_lines(hs: Seq<Seq<u8>>)
    requires
        forall|i: int| 0 <= i < hs.len() ==> wf_header_line(#[trigger] hs[i]),
    ensures
        split_lf(spec_head_lines(hs) + seq![0x0du8, 0x0au8]) =~~= hs.map_values(
            |h: Seq<u8>| h + seq![0x0du8],
        ) + seq![seq![0x0du8], Seq::<u8>::empty()],
    decreases hs.len(),
{
    if hs.len() == 0 {
        assert(spec_head_lines(hs) + seq![0x0du8, 0x0au8] =~= seq![0x0du8] + seq![0x0au8]
            + Seq::<u8>::empty());
        lemma_split_lf_line(seq![0x0du8], Seq::<u8>::empty());
        assert(idx_of(Seq::<u8>::empty(), 0x0a) == 0);
        assert(split_lf(Seq::<u8>::empty()) =~~= seq![Seq::<u8>::empty()]);
        assert(hs.map_values(|h: Seq<u8>| h + seq![0x0du8]) =~~= Seq::<Seq<u8>>::empty());
    } else {
        let h = hs.first();
        let rest = hs.drop_first();
        lemma_split_head_lines(rest);
        let l = h + seq![0x0du8];
        assert forall|i: int| 0 <= i < l.len() implies l[i] != 0x0a by {
            if i < h.len() {
                assert(l[i] == h[i]);
            }
        }
        let tail = spec_head_lines(rest) + seq![0x0du8, 0x0au8];
        lemma_split_lf_line(l, tail);
        assert(spec_head_lines(hs) + seq![0x0du8, 0x0au8] =~= l + seq![0x0au8] + tail);
        assert(hs.map_values(|hh: Seq<u8>| hh + seq![0x0du8]) =~~= seq![l] + rest.map_values(
            |hh: Seq<u8>| hh + seq![0x0du8],
        ));
    }
}

/// Unfolding well-formed (never folded) header segments emits the
/// gathered header, then each line in order.
proof fn lemma_unfold_wf(hs: Seq<Seq<u8>>, acc: Seq<u8>)
    requires
        forall|i: int| 0 <= i < hs.len() ==> wf_header_line(#[trigger] hs[i]),
        trim_spec(acc) == acc,
    ensures
        spec_unfold(
            hs.map_values(|h: Seq<u8>| h + seq![0x0du8]) + seq![seq![0x0du8], Seq::<u8>::empty()],
            acc,
        ) =~~= (if acc.len() > 0 {
            seq![acc]
        } else {
            Seq::<Seq<u8>>::empty()
        }) + hs,
    decreases hs.len(),
{
    reveal_with_fuel(spec_unfold, 4);
    // a bare CR trims to nothing, and is no folded continuation
    assert(trim_left(seq![0x0du8]).len() == 0) by {
        assert(seq![0x0du8].drop_first() =~= Seq::<u8>::empty());
    }
    assert(trim_spec(seq![0x0du8]).len() == 0);
    assert(trim_spec(Seq::<u8>::empty()).len() == 0);
    if hs.len() == 0 {
        let segs = hs.map_values(|h: Seq<u8>| h + seq![0x0du8]) + seq![
            seq![0x0du8],
            Seq::<u8>::empty(),
        ];
        assert(segs =~~= seq![seq![0x0du8], Seq::<u8>::empty()]);
        assert(segs.first() =~= seq![0x0du8]);
        assert(!is_fold_start(segs.first()));
        let segs1 = segs.drop_first();
        assert(segs1 =~~= seq![Seq::<u8>::empty()]);
        assert(segs1.first() =~= Seq::<u8>::empty());
        assert(segs1.drop_first() =~~= Seq::<Seq<u8>>::empty());
        if acc.len() > 0 {
            // the gathered header is emitted on the bare-CR segment
            assert(spec_unfold(segs, acc) =~~= seq![acc] + spec_unfold(
                segs1,
                trim_spec(seq![0x0du8]),
            ));
            assert(trim_spec(seq![0x0du8]) =~= Seq::<u8>::empty());
            assert(spec_unfold(segs1, Seq::<u8>::empty()) =~~= Seq::<Seq<u8>>::empty());
        } else {
            assert(acc =~= Seq::<u8>::empty());
            assert(acc + trim_spec(seq![0x0du8]) =~= Seq::<u8>::empty());
            assert(spec_unfold(segs, acc) =~~= spec_unfold(segs1, Seq::<u8>::empty()));
            assert(Seq::<u8>::empty() + trim_spec(Seq::<u8>::empty()) =~= Seq::<u8>::empty());
            assert(spec_unfold(segs1, Seq::<u8>::empty()) =~~= Seq::<Seq<u8>>::empty());
        }
    } else {
        let h = hs.first();
        let rest = hs.drop_first();
        let segs = hs.map_values(|hh: Seq<u8>| hh + seq![0x0du8]) + seq![
            seq![0x0du8],
            Seq::<u8>::empty(),
        ];
        let segs1 = rest.map_values(|hh: Seq<u8>| hh + seq![0x0du8]) + seq![
            seq![0x0du8],
            Seq::<u8>::empty(),
        ];
        assert(segs.first() =~= h + seq![0x0du8]);
        assert(segs.drop_first() =~~= segs1);
        lemma_trim_fixed_ends(h);
        assert(!is_fold_start(segs.first()));
        assert(forall|j: int|
            0 <= j < seq![0x0du8].len() ==> is_ws_byte(#[trigger] seq![0x0du8][j]));
        lemma_trim_clean_ws_suffix(h, seq![0x0du8]);
        assert(trim_spec(h + seq![0x0du8]) == h);
        lemma_unfold_wf(rest, h);
        if acc.len() > 0 {
            assert(spec_unfold(segs, acc) =~~= seq![acc] + spec_unfold(segs1, h));
            assert(seq![acc] + (seq![h] + rest) =~~= seq![acc] + hs);
        } else {
            assert(acc =~= Seq::<u8>::empty());
            assert(acc + trim_spec(h + seq![0x0du8]) =~= h);
            assert(spec_unfold(segs, acc) =~~= spec_unfold(segs1, h));
            assert(seq![h] + rest =~~= hs);
        }
    }
}

/// Law (response round trip, header block): a head block serialized
/// from a status line (nonempty, free of CR and LF, already trimmed at
/// the end) and well-formed header lines splits back into exactly that
/// status line and exactly those header lines. Together with the
/// status-line law this pins the response round trip for unfolded
/// headers; a folded serialization is not injective, so only the
/// unfolded form can round-trip.
pub proof fn lemma_head_block_round_trip(status: Seq<u8>, hs: Seq<Seq<u8>>)
    requires
        status.len() > 0,
        trim_right(status) == status,
        forall|i: int| 0 <= i < status.len() ==> status[i] != 0x0a && status[i] != 0x0d,
        forall|i: int| 0 <= i < hs.len() ==> wf_header_line(#[trigger] hs[i]),
    ensures
        spec_status_of(spec_head_block(status, hs)) == status,
        spec_unfolded_headers(spec_head_block(status, hs)) =~~= hs,
{
    let block = spec_head_block(status, hs);
    let l = status + seq![0x0du8];
    let tail = spec_head_lines(hs) + seq![0x0du8, 0x0au8];
    assert forall|i: int| 0 <= i < l.len() implies l[i] != 0x0a by {
        if i < status.len() {
            assert(l[i] == status[i]);
        }
    }
    lemma_split_lf_line(l, tail);
    assert(block =~= l + seq![0x0au8] + tail);
    assert(split_lf(block) =~~= seq![l] + split_lf(tail));
    lemma_split_head_lines(hs);
    // the status line: the trailing CR trims away
    assert(split_lf(block).first() =~= l);
    assert(trim_right(l) =~= status) by {
        assert(l.drop_last() =~= status);
    }
    // the headers unfold to themselves
    assert(split_lf(block).drop_first() =~~= split_lf(tail));
    lemma_unfold_wf(hs, Seq::<u8>::empty());
    assert(spec_unfolded_headers(block) =~~= spec_unfold(
        hs.map_values(|h: Seq<u8>| h + seq![0x0du8]) + seq![seq![0x0du8], Seq::<u8>::empty()],
        Seq::<u8>::empty(),
    ));
}

/// Law (response round trip): a head block serialized from a status
/// line `version SP code SP reason` and well-formed header lines
/// splits back into exactly that status line and exactly those
/// headers, and the status line parses back to exactly the version,
/// the code, and the text after the first space. Handing such a block
/// to [`CabotLibWrite::write`], then the body bytes, then
/// [`CabotLibWrite::flush`], therefore yields through
/// [`CabotLibWrite::response`] a [`Response`] carrying exactly these
/// fields and exactly the body handed in — each step's contract
/// carries the conclusions below through. The inputs left out: a
/// version not starting `HTTP/` or holding a space, a reason phrase
/// ending in whitespace or holding CR or LF, and folded serializations
/// (folding is normalized away, so only the unfolded form can
/// round-trip).
pub proof fn lemma_response_round_trip(
    version: Seq<u8>,
    code: usize,
    reason: Seq<u8>,
    hs: Seq<Seq<u8>>,
)
    requires
        version.len() >= encode_utf8("HTTP/"@).len(),
        version.subrange(0, encode_utf8("HTTP/"@).len() as int) == encode_utf8("HTTP/"@),
        forall|i: int|
            0 <= i < version.len() ==> version[i] != 0x20 && version[i] != 0x0a && version[i]
                != 0x0d,
        reason.len() > 0,
        !is_ws_byte(reason.last()),
        forall|i: int| 0 <= i < reason.len() ==> reason[i] != 0x0a && reason[i] != 0x0d,
        forall|i: int| 0 <= i < hs.len() ==> wf_header_line(#[trigger] hs[i]),
    ensures
        ({
            let status = version + seq![0x20u8] + crate::ascii::dec_digits(code as nat)
                + seq![0x20u8] + reason;
            let block = spec_head_block(status, hs);
            &&& spec_status_of(block) == status
            &&& spec_unfolded_headers(block) =~~= hs
            &&& crate::response::spec_status_line_ok(status)
            &&& crate::response::status_version(status) == version
            &&& crate::ascii::dec_value(crate::response::status_code_bytes(status)) == code
            &&& crate::response::status_rest(status) == crate::ascii::dec_digits(code as nat)
                + seq![0x20u8] + reason
        }),
{
    let d = crate::ascii::dec_digits(code as nat);
    crate::ascii::lemma_dec_digits_value(code as nat);
    let status = version + seq![0x20u8] + d + seq![0x20u8] + reason;
    crate::response::lemma_status_line_round_trip(version, code, reason);
    assert(status.len() > 0);
    assert(status.last() == reason.last());
    assert(trim_right(status) == status);
    assert forall|i: int| 0 <= i < status.len() implies status[i] != 0x0a && status[i]
        != 0x0d by {
        if i < version.len() {
            assert(status[i] == version[i]);
        } else if i == version.len() {
            assert(status[i] == 0x20);
        } else if i < version.len() + 1 + d.len() {
            assert(status[i] == d[i - version.len() - 1]);
            assert(crate::ascii::is_digit_byte(d[i - version.len() - 1]));
        } else if i == version.len() + 1 + d.len() {
            assert(status[i] == 0x20);
        } else {
            assert(status[i] == reason[i - version.len() - d.len() - 2]);
        }
    }
    lemma_head_block_round_trip(status, hs);
}

/// In-memory sink: gathers the response head and body and parses them
/// into a [`Response`].
pub struct CabotLibWrite {
    pub header_read: bool,
    pub body_buffer: Vec<u8>,
    pub response_builder: ResponseBuilder,
}

impl CabotLibWrite {
    pub fn new() -> (r: Self)
        ensures
            r.header_read == false,
            r.body_buffer@.len() == 0,
            r.response_builder.status_line is None,
            r.response_builder.headers@.len() == 0,
            r.response_builder.body is None,
    {
        CabotLibWrite {
            response_builder: ResponseBuilder::new(),
            body_buffer: Vec::new(),
            header_read: false,
        }
    }

    /// Split the raw header block into the status line and unfolded
    /// header lines, and start a fresh builder from them.
    pub fn split_headers(&mut self, buf: &[u8])
        ensures
            spec_split_headers_post(
                old(self).response_builder,
                final(self).response_builder,
                buf@,
            ),
            final(self).header_read == old(self).header_read,
            final(self).body_buffer == old(self).body_buffer,
    {
        let n = buf.len();
        let first_lf = match find_byte(buf, 0x0a, 0) {
            Some(i) => i,
            None => {
                proof {
                    lemma_no_occurrence_idx_of(buf@, 0x0a);
                }
                return ;
            },
        };
        proof {
            lemma_first_occurrence_is_idx_of(buf@, 0x0a, first_lf as int);
        }
        let status_raw = bytes_subrange(buf, 0, first_lf);
        let status_trimmed = trim_end_bytes(status_raw.as_slice());
        proof {
            assert(split_lf(buf@).first() =~= buf@.take(first_lf as int));
            assert(status_trimmed@ == spec_status_of(buf@));
            broadcast use vstd::utf8::decode_utf8_encode_utf8;

        }
        let status_str = string_from_utf8_lossy(status_trimmed.as_slice());
        let mut builder = ResponseBuilder::new().set_status_line(status_str.as_str());
        let ghost segs_all = split_lf(buf@).drop_first();
        let ghost total = spec_unfolded_headers(buf@);
        let mut acc: Vec<u8> = Vec::new();
        let mut p: usize = first_lf + 1;
        let ghost mut out: Seq<Seq<u8>> = Seq::empty();
        proof {
            assert(split_lf(buf@) =~~= seq![buf@.take(first_lf as int)] + split_lf(
                buf@.subrange(first_lf as int + 1, n as int),
            ));
            assert(segs_all =~~= split_lf(buf@.subrange(p as int, n as int)));
            assert(total == out + spec_unfold(split_lf(buf@.subrange(p as int, n as int)), acc@));
        }
        loop
            invariant_except_break
                n == buf@.len(),
                first_lf < p <= n,
                total == out + spec_unfold(split_lf(buf@.subrange(p as int, n as int)), acc@),
                out_matches(builder.headers@, out),
                builder.status_line matches Some(s) && (valid_utf8(spec_status_of(buf@))
                    ==> encode_utf8(s@) == spec_status_of(buf@)),
                builder.body is None,
            ensures
                total == out + spec_unfold(Seq::<Seq<u8>>::empty(), acc@),
                out_matches(builder.headers@, out),
                builder.status_line matches Some(s) && (valid_utf8(spec_status_of(buf@))
                    ==> encode_utf8(s@) == spec_status_of(buf@)),
                builder.body is None,
            decreases n - p,
        {
            let ghost rem = buf@.subrange(p as int, n as int);
            let ghost segs = split_lf(rem);
            let seg_end: usize;
            let mut last = false;
            match find_byte(buf, 0x0a, p) {
                Some(q) => {
                    seg_end = q;
                },
                None => {
                    seg_end = n;
                    last = true;
                },
            }
            let seg = bytes_subrange(buf, p, seg_end);
            proof {
                assert(forall|m: int| 0 <= m < rem.len() ==> rem[m] == #[trigger] buf@[p + m]);
                if !last {
                    assert(rem[seg_end - p] == 0x0a);
                    lemma_first_occurrence_is_idx_of(rem, 0x0a, seg_end - p);
                    assert(segs =~~= seq![rem.take(seg_end - p)] + split_lf(
                        rem.subrange(seg_end - p + 1, rem.len() as int),
                    ));
                    assert(rem.subrange(seg_end - p + 1, rem.len() as int) =~= buf@.subrange(
                        seg_end as int + 1,
                        n as int,
                    ));
                } else {
                    lemma_no_occurrence_idx_of(rem, 0x0a);
                    assert(segs =~~= seq![rem]);
                }
                assert(segs.first() =~= seg@);
            }
            let ghost acc0 = acc@;
            let ghost out0 = out;
            if seg.len() > 0 && (seg[0] == 0x20 || seg[0] == 0x09) {
                acc.push(0x20);
                let t = trim_bytes(seg.as_slice());
                extend_bytes(&mut acc, t.as_slice());
                proof {
                    assert(acc@ =~= acc0 + seq![0x20u8] + trim_spec(seg@));
                    assert(spec_unfold(segs, acc0) == spec_unfold(segs.drop_first(), acc@));
                }
            } else {
                let ta = trim_bytes(acc.as_slice());
                if ta.len() > 0 {
                    let line = string_from_utf8_lossy(ta.as_slice());
                    builder = builder.add_header(line.as_str());
                    proof {
                        broadcast use vstd::utf8::decode_utf8_encode_utf8;

                        out = out.push(ta@);
                        assert(out_matches(builder.headers@, out));
                    }
                    let t = trim_bytes(seg.as_slice());
                    acc = t;
                    proof {
                        assert(spec_unfold(segs, acc0) == seq![trim_spec(acc0)] + spec_unfold(
                            segs.drop_first(),
                            acc@,
                        ));
                        assert(out0 + spec_unfold(segs, acc0) =~~= out + spec_unfold(
                            segs.drop_first(),
                            acc@,
                        ));
                    }
                } else {
                    let t = trim_bytes(seg.as_slice());
                    extend_bytes(&mut acc, t.as_slice());
                    proof {
                        assert(acc@ =~= acc0 + trim_spec(seg@));
                        assert(spec_unfold(segs, acc0) == spec_unfold(segs.drop_first(), acc@));
                    }
                }
            }
            if last {
                proof {
                    assert(segs.drop_first() =~~= Seq::<Seq<u8>>::empty());
                }
                break ;
            }
            p = seg_end + 1;
            proof {
                assert(segs.drop_first() =~~= split_lf(buf@.subrange(p as int, n as int)));
            }
        }
        // final flush of the gathered header
        let ta = trim_bytes(acc.as_slice());
        if ta.len() > 0 {
            let line = string_from_utf8_lossy(ta.as_slice());
            builder = builder.add_header(line.as_str());
            proof {
                broadcast use vstd::utf8::decode_utf8_encode_utf8;

                out = out.push(ta@);
                assert(total =~~= out);
            }
        } else {
            proof {
                assert(total =~~= out);
            }
        }
        self.response_builder = builder;
    }

    /// One write from the decoder: the first delivers the header block,
    /// every later one appends body bytes. Returns the count of bytes
    /// consumed as a body write, 0 for the header write.
    pub fn write(&mut self, buf: &[u8]) -> (r: usize)
        ensures
            old(self).header_read == false ==> {
                &&& spec_split_headers_post(
                    old(self).response_builder,
                    final(self).response_builder,
                    buf@,
                )
                &&& final(self).header_read == true
                &&& final(self).body_buffer == old(self).body_buffer
                &&& r == 0
            },
            old(self).header_read == true ==> {
                &&& final(self).body_buffer@ == old(self).body_buffer@ + buf@
                &&& final(self).header_read == true
                &&& final(self).response_builder == old(self).response_builder
                &&& r == buf@.len()
            },
    {
        if !self.header_read {
            self.split_headers(buf);
            self.header_read = true;
            0
        } else {
            let mut body = bytes_to_vec(self.body_buffer.as_slice());
            extend_bytes(&mut body, buf);
            self.body_buffer = body;
            buf.len()
        }
    }

    /// The final flush: record the gathered body bytes in the builder.
    /// An exchange that delivered no body byte leaves the body absent,
    /// not empty.
    pub fn flush(&mut self)
        ensures
            old(self).body_buffer@.len() == 0 ==> final(self).response_builder.body is None,
            old(self).body_buffer@.len() > 0 ==> (final(self).response_builder.body matches Some(
                b,
            ) && b@ == old(self).body_buffer@),
            final(self).response_builder.status_line == old(self).response_builder.status_line,
            final(self).response_builder.headers == old(self).response_builder.headers,
            final(self).body_buffer == old(self).body_buffer,
            final(self).header_read == old(self).header_read,
    {
        if self.body_buffer.len() == 0 {
            self.response_builder.body = None;
        } else {
            let b = bytes_to_vec(self.body_buffer.as_slice());
            self.response_builder.body = Some(b);
        }
    }

    /// Build the [`Response`] from everything received so far.
    pub fn response(&self) -> (r: CabotResult<Response>)
        ensures
            match &self.response_builder.status_line {
                None => r matches Err(e) && e is HttpResponseParseError,
                Some(sl) => {
                    if crate::response::spec_status_line_ok(encode_utf8(sl@)) {
                        r matches Ok(resp) && crate::response::spec_built_response(
                            resp,
                            self.response_builder,
                            encode_utf8(sl@),
                        )
                    } else {
                        r matches Err(e) && e is HttpResponseParseError
                    }
                },
            },
    {
        self.response_builder.build()
    }
}

// --- the client configuration ---

/// Performs HTTP queries. The configuration lives here, in plain
/// values: timeouts in milliseconds, address-family switches, the
/// redirect cap, and the authority overrides (`host:port` mapped to a
/// socket address in text form) that bypass DNS.
pub struct Client {
    pub verbose: bool,
    pub ipv4: bool,
    pub ipv6: bool,
    pub authorities: Vec<(String, String)>,
    pub read_timeout: u64,
    pub connect_timeout: u64,
    pub dns_timeout: u64,
    pub request_timeout: u64,
    pub max_redir: u8,
}

impl Client {
    /// A client with the library defaults.
    pub fn new() -> (r: Self)
        ensures
            r.verbose == false,
            r.ipv4 == true,
            r.ipv6 == true,
            r.authorities@.len() == 0,
            r.dns_timeout == 5000,
            r.connect_timeout == 15000,
            r.read_timeout == 10000,
            r.request_timeout == 0,
            r.max_redir == 16,
    {
        Client {
            verbose: false,
            ipv4: true,
            ipv6: true,
            authorities: Vec::new(),
            dns_timeout: 5 * 1000,
            connect_timeout: 15 * 1000,
            read_timeout: 10 * 1000,
            request_timeout: 0,
            max_redir: 16,
        }
    }

    /// Restrict DNS resolution to the given address families. With both
    /// set to false every resolution fails.
    pub fn set_ip_version(&mut self, ipv4: bool, ipv6: bool)
        ensures
            final(self).ipv4 == ipv4,
            final(self).ipv6 == ipv6,
            final(self).authorities == old(self).authorities,
            final(self).verbose == old(self).verbose,
            final(self).dns_timeout == old(self).dns_timeout,
            final(self).connect_timeout == old(self).connect_timeout,
            final(self).read_timeout == old(self).read_timeout,
            final(self).request_timeout == old(self).request_timeout,
            final(self).max_redir == old(self).max_redir,
    {
        self.ipv4 = ipv4;
        self.ipv6 = ipv6;
    }

    /// Force an authority (`host:port`) to resolve to the given socket
    /// address, bypassing DNS.
    pub fn add_authority(&mut self, authority: &str, sock_addr: &str)
        ensures
            final(self).authorities@.len() == old(self).authorities@.len() + 1,
            forall|i: int|
                0 <= i < old(self).authorities@.len() ==> final(self).authorities@[i] == old(
                    self,
                ).authorities@[i],
            final(self).authorities@.last().0@ == authority@,
            final(self).authorities@.last().1@ == sock_addr@,
            final(self).verbose == old(self).verbose,
            final(self).ipv4 == old(self).ipv4,
            final(self).ipv6 == old(self).ipv6,
            final(self).dns_timeout == old(self).dns_timeout,
            final(self).connect_timeout == old(self).connect_timeout,
            final(self).read_timeout == old(self).read_timeout,
            final(self).request_timeout == old(self).request_timeout,
            final(self).max_redir == old(self).max_redir,
    {
        self.authorities.push((authority.to_owned(), sock_addr.to_owned()));
    }

    /// The socket address this client forces for an authority: the
    /// first matching override, if any.
    pub fn find_authority(&self, authority: &str) -> (r: Option<&String>)
        ensures
            match r {
                Some(a) => exists|i: int|
                    0 <= i < self.authorities@.len() && (#[trigger] self.authorities@[i]).0@
                        == authority@ && a@ == self.authorities@[i].1@ && (forall|j: int|
                        0 <= j < i ==> (#[trigger] self.authorities@[j]).0@ != authority@),
                None => forall|i: int|
                    0 <= i < self.authorities@.len() ==> (#[trigger] self.authorities@[i]).0@
                        != authority@,
            },
    {
        let mut i: usize = 0;
        while i < self.authorities.len()
            invariant
                0 <= i <= self.authorities@.len(),
                forall|j: int| 0 <= j < i ==> (#[trigger] self.authorities@[j]).0@ != authority@,
            decreases self.authorities@.len() - i,
        {
            if str_eq(self.authorities[i].0.as_str(), authority) {
                return Some(&self.authorities[i].1);
            }
            i = i + 1;
        }
        None
    }

    /// Set the DNS lookup timeout, in seconds.
    pub fn set_dns_timeout(&mut self, timeout: u64)
        requires
            timeout <= u64::MAX / 1000,
        ensures
            *final(self) == (Client { dns_timeout: (timeout * 1000) as u64, ..*old(self) }),
    {
        self.dns_timeout = timeout * 1000;
    }

    /// Set the TCP connect timeout, in seconds.
    pub fn set_connect_timeout(&mut self, timeout: u64)
        requires
            timeout <= u64::MAX / 1000,
        ensures
            *final(self) == (Client { connect_timeout: (timeout * 1000) as u64, ..*old(self) }),
    {
        self.connect_timeout = timeout * 1000;
    }

    /// Set the transport read timeout, in seconds.
    pub fn set_read_timeout(&mut self, timeout: u64)
        requires
            timeout <= u64::MAX / 1000,
        ensures
            *final(self) == (Client { read_timeout: (timeout * 1000) as u64, ..*old(self) }),
    {
        self.read_timeout = timeout * 1000;
    }

    /// Set the overall request timeout, in seconds; 0 disables it.
    pub fn set_request_timeout(&mut self, timeout: u64)
        requires
            timeout <= u64::MAX / 1000,
        ensures
            *final(self) == (Client { request_timeout: (timeout * 1000) as u64, ..*old(self) }),
    {
        self.request_timeout = timeout * 1000;
    }

    /// Set the DNS lookup timeout, in milliseconds.
    pub fn set_dns_timeout_ms(&mut self, timeout: u64)
        ensures
            *final(self) == (Client { dns_timeout: timeout, ..*old(self) }),
    {
        self.dns_timeout = timeout;
    }

    /// Set the TCP connect timeout, in milliseconds.
    pub fn set_connect_timeout_ms(&mut self, timeout: u64)
        ensures
            *final(self) == (Client { connect_timeout: timeout, ..*old(self) }),
    {
        self.connect_timeout = timeout;
    }

    /// Set the transport read timeout, in milliseconds.
    pub fn set_read_timeout_ms(&mut self, timeout: u64)
        ensures
            *final(self) == (Client { read_timeout: timeout, ..*old(self) }),
    {
        self.read_timeout = timeout;
    }

    /// Set the overall request timeout, in milliseconds; 0 disables it.
    pub fn set_request_timeout_ms(&mut self, timeout: u64)
        ensures
            *final(self) == (Client { request_timeout: timeout, ..*old(self) }),
    {
        self.request_timeout = timeout;
    }

    /// Set how many redirections are followed before giving up.
    pub fn set_max_redir(&mut self, max_redir: u8)
        ensures
            *final(self) == (Client { max_redir: max_redir, ..*old(self) }),
    {
        self.max_redir = max_redir;
    }
}

} // verus!
