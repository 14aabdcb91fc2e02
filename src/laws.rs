//! Properties of tokenization as a whole.
use vstd::prelude::*;
use vstd::string::StringSliceAdditionalSpecFns;
use vstd::utf8::*;
use crate::lexer::{
    digit_run, is_digit, is_white_space, lemma_digit_run, lemma_number_len, lemma_runs_bounded,
    lemma_scan_token_len, lex, lex_from, lex_parses, number_has_dot, number_len, token_parses, scan_token, white_run,
    FaultSpec, KindSpec, TokenSpec,
};
use crate::text::{byte_len, lemma_byte_len_concat, lemma_encode_concat};

verus! {

broadcast use vstd::utf8::group_utf8_lib;

/// Input made of whitespace alone, the empty input included, may be
/// tokenized, tokenizes to no tokens and never fails.
pub proof fn lemma_whitespace_only(s: Seq<char>)
    requires
        forall|i: int| 0 <= i < s.len() ==> is_white_space(s[i]),
    ensures
        lex_parses(s),
        lex(s) matches Ok(ts) && ts.len() == 0,
{
    lemma_white_run_all(s);
}

proof fn lemma_white_run_all(s: Seq<char>)
    requires
        forall|i: int| 0 <= i < s.len() ==> is_white_space(s[i]),
    ensures
        white_run(s) == s.len(),
    decreases s.len(),
{
    if s.len() > 0 {
        let t = s.drop_first();
        assert forall|i: int| 0 <= i < t.len() implies is_white_space(t[i]) by {
            assert(t[i] == s[i + 1]);
        }
        lemma_white_run_all(t);
    }
}

proof fn lemma_digit_run_take(s: Seq<char>, m: int)
    requires
        digit_run(s) <= m <= s.len(),
    ensures
        digit_run(s.take(m)) == digit_run(s),
{
    lemma_runs_bounded(s);
    let d = digit_run(s) as int;
    assert forall|i: int| 0 <= i < d implies is_digit(s.take(m)[i]) by {}
    lemma_digit_run(s.take(m), d);
}

/// The text of a scanned token, scanned alone, is that one token again.
proof fn lemma_token_rescans(r: Seq<char>)
    requires
        scan_token(r) is Ok,
    ensures
        ({
            let (kind, n) = scan_token(r)->Ok_0;
            &&& lex(r.take(n as int)) == Ok::<Seq<TokenSpec>, FaultSpec>(
                seq![TokenSpec { kind, start: 0, end: byte_len(r.take(n as int)) }],
            )
            &&& token_parses(r) ==> lex_parses(r.take(n as int))
        }),
{
    lemma_scan_token_len(r);
    let (kind, n) = scan_token(r)->Ok_0;
    let u = r.take(n as int);
    assert(u[0] == r[0]);
    assert(white_run(u) == 0);
    assert(u.skip(0) =~= u);
    assert(u.take(0) =~= Seq::<char>::empty());
    assert(encode_utf8(Seq::<char>::empty()) =~= Seq::<u8>::empty());
    if is_digit(r[0]) {
        lemma_number_len(r);
        lemma_runs_bounded(r);
        let d = digit_run(r) as int;
        lemma_digit_run_take(r, n as int);
        if number_has_dot(r) {
            let e = digit_run(r.skip(d + 1)) as int;
            lemma_runs_bounded(r.skip(d + 1));
            assert(u.skip(d + 1) =~= r.skip(d + 1).take(e));
            lemma_digit_run_take(r.skip(d + 1), e);
        }
        assert(u.take(n as int) =~= u);
        assert(scan_token(u) == scan_token(r));
        assert(number_has_dot(u) == number_has_dot(r));
        assert(number_len(u) == number_len(r));
        assert(token_parses(r) ==> token_parses(u));
    } else {
        assert(scan_token(u) == scan_token(r));
    }
    let rest = u.skip(n as int);
    assert(rest.len() == 0);
    assert(white_run(rest) == 0);
    assert(rest.skip(0).len() == 0);
    assert(lex_from(rest, byte_len(u.take(n as int))) == Ok::<Seq<TokenSpec>, FaultSpec>(Seq::empty()));
    assert(u.take(n as int) =~= u);
    assert(seq![TokenSpec { kind, start: 0, end: byte_len(u) }] + Seq::<TokenSpec>::empty() =~= seq![
        TokenSpec { kind, start: 0, end: byte_len(u) },
    ]);
    assert(lex_parses(rest));
}

/// The bytes `b` encode whitespace characters and nothing else.
#[verifier::opaque]
pub open spec fn is_white_text(b: Seq<u8>) -> bool {
    &&& valid_utf8(b)
    &&& forall|i: int| 0 <= i < decode_utf8(b).len() ==> is_white_space(#[trigger] decode_utf8(b)[i])
}

/// Where the gap before token `i` of `ts` begins: at `lo` before the first
/// token, else where the token before it ends.
pub open spec fn gap_start(lo: nat, ts: Seq<TokenSpec>, i: int) -> nat {
    if i == 0 {
        lo
    } else {
        ts[i - 1].end
    }
}

/// The spans of `ts` lay out `bytes`, which begin at offset `lo`: each span
/// is non-empty and starts at or after the end of the one before, and what
/// lies between two spans, before the first and after the last is whitespace.
/// Gaps and spans, in order, thus make up `bytes` exactly.
pub open spec fn spans_lay_out(bytes: Seq<u8>, lo: nat, ts: Seq<TokenSpec>) -> bool {
    &&& spans_ordered(lo, lo + bytes.len(), ts)
    &&& gaps_white(bytes, lo, ts)
    &&& lo <= gap_start(lo, ts, ts.len() as int) <= lo + bytes.len()
    &&& is_white_text(bytes.subrange(gap_start(lo, ts, ts.len() as int) - lo, bytes.len() as int))
}

/// Each span of `ts` is non-empty, lies within `[lo, hi]`, and starts at or
/// after the end of the one before.
#[verifier::opaque]
pub open spec fn spans_ordered(lo: nat, hi: nat, ts: Seq<TokenSpec>) -> bool {
    forall|i: int|
        #![trigger ts[i]]
        0 <= i < ts.len() ==> {
            &&& lo <= gap_start(lo, ts, i)
            &&& gap_start(lo, ts, i) <= ts[i].start
            &&& ts[i].start < ts[i].end
            &&& ts[i].end <= hi
        }
}

/// What lies before each span of `ts` in `bytes`, which begin at offset
/// `lo`, back to the end of the span before, is whitespace.
#[verifier::opaque]
pub open spec fn gaps_white(bytes: Seq<u8>, lo: nat, ts: Seq<TokenSpec>) -> bool {
    forall|i: int|
        0 <= i < ts.len() ==> is_white_text(
            #[trigger] bytes.subrange(gap_start(lo, ts, i) - lo, ts[i].start - lo),
        )
}

/// The text of each span of `ts` in `bytes`, which begin at offset `lo`,
/// tokenizes to that one token, of the same kind.
pub open spec fn spans_rescan(bytes: Seq<u8>, lo: nat, ts: Seq<TokenSpec>) -> bool {
    forall|i: int|
        0 <= i < ts.len() ==> rescans_to(
            decode_utf8(bytes.subrange(#[trigger] ts[i].start - lo, ts[i].end - lo)),
            ts[i].kind,
        )
}

/// `text` may be tokenized, and tokenizes to one token of kind `kind` that
/// spans all of it.
#[verifier::opaque]
pub open spec fn rescans_to(text: Seq<char>, kind: KindSpec) -> bool {
    &&& lex_parses(text)
    &&& lex(text) == Ok::<Seq<TokenSpec>, FaultSpec>(
        seq![TokenSpec { kind, start: 0, end: byte_len(text) }],
    )
}

proof fn lemma_white_text(ws: Seq<char>)
    requires
        forall|i: int| 0 <= i < ws.len() ==> is_white_space(ws[i]),
    ensures
        is_white_text(encode_utf8(ws)),
{
    reveal(is_white_text);
}

proof fn lemma_lex_layout(s: Seq<char>, off: nat)
    requires
        lex_from(s, off) is Ok,
    ensures
        spans_lay_out(encode_utf8(s), off, lex_from(s, off)->Ok_0),
        lex_parses(s) ==> spans_rescan(encode_utf8(s), off, lex_from(s, off)->Ok_0),
    decreases s.len(),
{
    lemma_runs_bounded(s);
    let w = white_run(s) as int;
    let g = s.take(w);
    let rest = s.skip(w);
    let bytes = encode_utf8(s);
    let ts = lex_from(s, off)->Ok_0;
    assert(s =~= g + rest);
    lemma_encode_concat(g, rest);
    assert forall|i: int| 0 <= i < g.len() implies is_white_space(g[i]) by {}
    lemma_white_text(g);
    if rest.len() == 0 {
        reveal(spans_ordered);
        reveal(gaps_white);
        assert(rest =~= Seq::<char>::empty());
        assert(encode_utf8(rest) =~= Seq::<u8>::empty());
        assert(bytes.subrange(0, bytes.len() as int) =~= encode_utf8(g));
    } else {
        lemma_scan_token_len(rest);
        let (kind, n) = scan_token(rest)->Ok_0;
        let t = rest.take(n as int);
        let tail = rest.skip(n as int);
        assert(rest =~= t + tail);
        lemma_encode_concat(t, tail);
        let eg = encode_utf8(g);
        let et = encode_utf8(t);
        let er = encode_utf8(tail);
        assert(bytes =~= eg + et + er);
        let start = off + byte_len(g);
        let end = start + byte_len(t);
        lemma_lex_layout(tail, end);
        let us = lex_from(tail, end)->Ok_0;
        assert(ts =~= seq![TokenSpec { kind, start, end }] + us);
        lemma_token_rescans(rest);
        assert(et.len() > 0) by {
            lemma_byte_len_concat(t.take(1), t.skip(1));
            assert(t =~= t.take(1) + t.skip(1));
            assert(t.take(1) =~= seq![t[0]]);
            assert(t.take(1).drop_first() =~= Seq::<char>::empty());
        }
        assert(decode_utf8(et) == t);
        lemma_layout_step(bytes, eg, et, er, off, kind, us);
        if lex_parses(s) {
            assert(rescans_to(t, kind)) by {
                reveal(rescans_to);
            }
            lemma_rescan_step(bytes, eg, et, er, off, kind, us);
        }
    }
}

proof fn lemma_ordered_step(lo: nat, start: nat, end: nat, hi: nat, kind: KindSpec, us: Seq<TokenSpec>)
    requires
        lo <= start < end <= hi,
        spans_ordered(end, hi, us),
    ensures
        spans_ordered(lo, hi, seq![TokenSpec { kind, start, end }] + us),
        lo <= gap_start(lo, seq![TokenSpec { kind, start, end }] + us, us.len() + 1 as int),
        gap_start(lo, seq![TokenSpec { kind, start, end }] + us, us.len() + 1 as int) == gap_start(
            end,
            us,
            us.len() as int,
        ),
{
    reveal(spans_ordered);
    let ts = seq![TokenSpec { kind, start, end }] + us;
    assert forall|i: int|
        #![trigger ts[i]]
        0 <= i < ts.len() implies {
            &&& lo <= gap_start(lo, ts, i)
            &&& gap_start(lo, ts, i) <= ts[i].start
            &&& ts[i].start < ts[i].end
            &&& ts[i].end <= hi
        } by {
        if i > 0 {
            assert(ts[i] == us[i - 1]);
            if i > 1 {
                assert(ts[i - 1] == us[i - 2]);
            }
            assert(gap_start(lo, ts, i) == gap_start(end, us, i - 1));
        }
    }
    if us.len() > 0 {
        assert(ts[ts.len() - 1] == us[us.len() - 1]);
        assert(us[us.len() - 1] == us[us.len() - 1]);
    }
}

proof fn lemma_gaps_step(
    bytes: Seq<u8>,
    eg: Seq<u8>,
    et: Seq<u8>,
    er: Seq<u8>,
    off: nat,
    kind: KindSpec,
    us: Seq<TokenSpec>,
)
    requires
        bytes == eg + et + er,
        is_white_text(eg),
        spans_ordered(off + eg.len() + et.len(), off + bytes.len(), us),
        gaps_white(er, off + eg.len() + et.len(), us),
    ensures
        gaps_white(
            bytes,
            off,
            seq![TokenSpec { kind, start: off + eg.len(), end: off + eg.len() + et.len() }] + us,
        ),
{
    reveal(gaps_white);
    let start = off + eg.len();
    let end = start + et.len();
    let ts = seq![TokenSpec { kind, start, end }] + us;
    assert(bytes.subrange(0, start - off) =~= eg);
    assert forall|i: int| 0 <= i < ts.len() implies is_white_text(
        #[trigger] bytes.subrange(gap_start(off, ts, i) - off, ts[i].start - off),
    ) by {
        if i > 0 {
            reveal(spans_ordered);
            assert(ts[i] == us[i - 1]);
            if i > 1 {
                assert(ts[i - 1] == us[i - 2]);
            }
            assert(gap_start(off, ts, i) == gap_start(end, us, i - 1));
            assert(end <= gap_start(end, us, i - 1) <= us[i - 1].start <= off + bytes.len());
            assert(bytes.subrange(gap_start(off, ts, i) - off, ts[i].start - off) =~= er.subrange(
                gap_start(end, us, i - 1) - end,
                us[i - 1].start - end,
            ));
        } else {
            assert(ts[0] == TokenSpec { kind, start, end });
        }
    }
}

proof fn lemma_layout_step(
    bytes: Seq<u8>,
    eg: Seq<u8>,
    et: Seq<u8>,
    er: Seq<u8>,
    off: nat,
    kind: KindSpec,
    us: Seq<TokenSpec>,
)
    requires
        bytes == eg + et + er,
        et.len() > 0,
        is_white_text(eg),
        spans_lay_out(er, off + eg.len() + et.len(), us),
    ensures
        spans_lay_out(
            bytes,
            off,
            seq![TokenSpec { kind, start: off + eg.len(), end: off + eg.len() + et.len() }] + us,
        ),
{
    let start = off + eg.len();
    let end = start + et.len();
    let ts = seq![TokenSpec { kind, start, end }] + us;
    assert(bytes.len() == eg.len() + et.len() + er.len());
    lemma_ordered_step(off, start, end, off + bytes.len(), kind, us);
    lemma_gaps_step(bytes, eg, et, er, off, kind, us);
    let g = gap_start(end, us, us.len() as int);
    assert(bytes.subrange(g - off, bytes.len() as int) =~= er.subrange(g - end, er.len() as int));
}

proof fn lemma_rescan_step(
    bytes: Seq<u8>,
    eg: Seq<u8>,
    et: Seq<u8>,
    er: Seq<u8>,
    off: nat,
    kind: KindSpec,
    us: Seq<TokenSpec>,
)
    requires
        bytes == eg + et + er,
        rescans_to(decode_utf8(et), kind),
        spans_lay_out(er, off + eg.len() + et.len(), us),
        spans_rescan(er, off + eg.len() + et.len(), us),
    ensures
        spans_rescan(
            bytes,
            off,
            seq![TokenSpec { kind, start: off + eg.len(), end: off + eg.len() + et.len() }] + us,
        ),
{
    let start = off + eg.len();
    let end = start + et.len();
    let ts = seq![TokenSpec { kind, start, end }] + us;
    reveal(spans_ordered);
    assert(bytes.subrange(start - off, end - off) =~= et);
    assert forall|i: int| 0 <= i < ts.len() implies rescans_to(
        decode_utf8(bytes.subrange(#[trigger] ts[i].start - off, ts[i].end - off)),
        ts[i].kind,
    ) by {
        if i > 0 {
            assert(ts[i] == us[i - 1]);
            assert(bytes.subrange(ts[i].start - off, ts[i].end - off) =~= er.subrange(
                us[i - 1].start - end,
                us[i - 1].end - end,
            ));
        }
    }
}

/// For input that tokenizes, the spans are non-empty, ordered and do not
/// overlap, and the bytes outside them are whitespace: the gaps and the
/// spans' texts, in order, rebuild the input exactly.
pub proof fn lemma_spans_rebuild_input(s: Seq<char>)
    requires
        lex(s) is Ok,
    ensures
        spans_lay_out(encode_utf8(s), 0, lex(s)->Ok_0),
{
    lemma_lex_layout(s, 0);
}

/// For input that may be tokenized and tokenizes, the text of each token's
/// span, taken as a string of its own (`&src[start..end]`), may itself be
/// tokenized, and tokenizes to a single token of the same kind that spans all
/// of it.
pub proof fn lemma_token_text_rescans(src: &str, i: int, piece: &str)
    requires
        lex_parses(src@),
        lex(src@) is Ok,
        0 <= i < lex(src@)->Ok_0.len(),
        piece.spec_bytes() == src.spec_bytes().subrange(
            lex(src@)->Ok_0[i].start as int,
            lex(src@)->Ok_0[i].end as int,
        ),
    ensures
        ({
            let t = lex(src@)->Ok_0[i];
            &&& lex_parses(piece@)
            &&& lex(piece@) == Ok::<Seq<TokenSpec>, FaultSpec>(
                seq![TokenSpec { kind: t.kind, start: 0, end: (t.end - t.start) as nat }],
            )
        }),
{
    lemma_lex_layout(src@, 0);
    reveal(spans_ordered);
    let ts = lex(src@)->Ok_0;
    assert(ts[i].start == ts[i].start);
    assert(decode_utf8(encode_utf8(piece@)) == piece@);
    reveal(rescans_to);
}

} // verus!
