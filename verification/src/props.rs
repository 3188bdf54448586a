//! The codec's guarantees as theorems: decoding an encoding returns the
//! original frame and consumes exactly its length; cutting any suffix off
//! an encoding makes decoding fail with `Incomplete`; maps holding the
//! same entries encode to identical bytes; and the three null markers
//! stay distinct.

use vstd::prelude::*;
use crate::decode::{
    dec_elems_at, dec_pairs_at, line_break, spec_decode_at, LineStep,
    ParseError,
};
use crate::encode::{enc_elems, enc_key, enc_pairs, spec_encode};
use crate::frame::{
    all_wf, entries_wf, keys_sorted, sorted_insert, text_ok, FrameView,
};
use crate::numbers::{
    all_digits, digits_val, int_line_ok, int_line_val, int_text,
    lemma_double_text_clean, lemma_int_text,
};
use crate::order::{
    lemma_lex_lt_asym, lemma_lex_lt_connex, lemma_lex_lt_irrefl, lex_lt,
};

verus! {

/// Every length in the frame fits the wire's signed 64-bit length
/// fields; every frame a machine can hold satisfies this.
pub open spec fn sized(v: FrameView) -> bool
    decreases v,
{
    match v {
        FrameView::BulkString(b) => b.len() <= i64::MAX,
        FrameView::Array(es) => es.len() <= i64::MAX && all_sized(es),
        FrameView::SetFrame(es) => es.len() <= i64::MAX && all_sized(es),
        FrameView::MapFrame(ps) => ps.len() <= i64::MAX && pairs_sized(ps),
        _ => true,
    }
}

/// Every frame of the sequence is sized.
pub open spec fn all_sized(es: Seq<FrameView>) -> bool
    decreases es,
{
    if es.len() == 0 {
        true
    } else {
        sized(es.first()) && all_sized(es.drop_first())
    }
}

/// Every entry has a sized key and a sized value.
pub open spec fn pairs_sized(ps: Seq<(Seq<u8>, FrameView)>) -> bool
    decreases ps,
{
    if ps.len() == 0 {
        true
    } else {
        ps.first().0.len() <= i64::MAX && sized(ps.first().1) && pairs_sized(
            ps.drop_first(),
        )
    }
}

/// Indexwise bytes of an embedded subrange.
proof fn lemma_sub_index(b: Seq<u8>, pos: int, s: Seq<u8>)
    requires
        0 <= pos,
        pos + s.len() <= b.len(),
        b.subrange(pos, pos + s.len()) == s,
    ensures
        forall|i: int| 0 <= i < s.len() ==> b[pos + i] == #[trigger] s[i],
{
    assert forall|i: int| 0 <= i < s.len() implies b[pos + i]
        == #[trigger] s[i] by {
        assert(b.subrange(pos, pos + s.len())[i] == b[pos + i]);
    }
}

/// A subrange seen through an embedding into a larger buffer.
proof fn lemma_embed(b: Seq<u8>, pos: int, s: Seq<u8>, off: int, len: int)
    requires
        0 <= pos,
        pos + s.len() <= b.len(),
        b.subrange(pos, pos + s.len()) == s,
        0 <= off,
        off <= off + len <= s.len(),
    ensures
        b.subrange(pos + off, pos + off + len) == s.subrange(off, off + len),
{
    assert(b.subrange(pos + off, pos + off + len) =~= s.subrange(
        off,
        off + len,
    )) by {
        assert forall|i: int| 0 <= i < len implies #[trigger] b.subrange(
            pos + off,
            pos + off + len,
        )[i] == s.subrange(off, off + len)[i] by {
            assert(b.subrange(pos, pos + s.len())[off + i] == b[pos + off
                + i]);
        }
    }
}

/// A clean payload followed by CRLF is exactly what the line scan finds.
proof fn lemma_line_at(b: Seq<u8>, pos: int, payload: Seq<u8>)
    requires
        0 <= pos,
        text_ok(payload),
        pos + payload.len() + 2 <= b.len(),
        b.subrange(pos, pos + payload.len()) == payload,
        b[pos + payload.len()] == 13,
        b[pos + payload.len() + 1] == 10,
    ensures
        line_break(b, pos) == (LineStep::Found {
            cut: pos + payload.len(),
            end: pos + payload.len() + 2,
        }),
    decreases payload.len(),
{
    lemma_sub_index(b, pos, payload);
    if payload.len() == 0 {
        assert(b[pos] == 13 && b[pos + 1] == 10);
    } else {
        assert(b[pos] == payload[0]);
        assert(payload[0] != 13 && payload[0] != 10);
        let tail = payload.skip(1);
        assert(text_ok(tail)) by {
            assert forall|i: int| 0 <= i < tail.len() implies #[trigger] tail[i]
                != 13 && tail[i] != 10 by {
                assert(tail[i] == payload[i + 1]);
            }
        }
        lemma_embed(b, pos, payload, 1, payload.len() - 1);
        assert(payload.subrange(1, payload.len() as int) =~= tail);
        lemma_line_at(b, pos + 1, tail);
    }
}

/// The wire text of an integer is clean line text.
proof fn lemma_int_text_clean(v: int)
    ensures
        text_ok(int_text(v)),
{
    lemma_int_text(v);
    let t = int_text(v);
    assert forall|i: int| 0 <= i < t.len() implies #[trigger] t[i] != 13
        && t[i] != 10 by {
        if t[0] == 45 && all_digits(t.skip(1)) {
            if i > 0 {
                assert(crate::numbers::is_digit(t.skip(1)[i - 1]));
                assert(t.skip(1)[i - 1] == t[i]);
            }
        } else {
            assert(crate::numbers::is_digit(t[i]));
        }
    }
}

/// Inserting a key greater than every present key appends the entry.
proof fn lemma_sorted_insert_append(
    ps: Seq<(Seq<u8>, FrameView)>,
    k: Seq<u8>,
    v: FrameView,
)
    requires
        forall|j: int| 0 <= j < ps.len() ==> lex_lt(#[trigger] ps[j].0, k),
    ensures
        sorted_insert(ps, k, v) == ps.push((k, v)),
    decreases ps.len(),
{
    if ps.len() == 0 {
        assert(sorted_insert(ps, k, v) =~= ps.push((k, v)));
    } else {
        assert(lex_lt(ps[0].0, k));
        lemma_lex_lt_asym(ps[0].0, k);
        let tail = ps.drop_first();
        assert forall|j: int| 0 <= j < tail.len() implies lex_lt(
            #[trigger] tail[j].0,
            k,
        ) by {
            assert(tail[j] == ps[j + 1]);
        }
        lemma_sorted_insert_append(tail, k, v);
        assert(seq![ps[0]] + tail.push((k, v)) =~= ps.push((k, v)));
    }
}

/// Every encoding is at least three bytes: prefix plus terminator.
proof fn lemma_enc_len(v: FrameView)
    ensures
        spec_encode(v).len() >= 3,
{
    match v {
        FrameView::Integer(i) => {
            lemma_int_text(i);
        },
        FrameView::BulkString(b) => {
            lemma_int_text(b.len() as int);
        },
        FrameView::Array(es) => {
            lemma_int_text(es.len() as int);
        },
        FrameView::MapFrame(ps) => {
            lemma_int_text(ps.len() as int);
        },
        FrameView::SetFrame(es) => {
            lemma_int_text(es.len() as int);
        },
        _ => {},
    }
}

/// Round trip at a position: decoding a buffer that carries the encoding
/// of `v` at `pos` yields `v` and stops right after it.
#[verifier::rlimit(100)]
pub proof fn lemma_round_trip_at(v: FrameView, b: Seq<u8>, pos: int)
    requires
        v.wf(),
        sized(v),
        0 <= pos,
        pos + spec_encode(v).len() <= b.len(),
        b.subrange(pos, pos + spec_encode(v).len()) == spec_encode(v),
    ensures
        spec_decode_at(b, pos) == Ok::<(FrameView, int), ParseError>(
            (v, pos + spec_encode(v).len()),
        ),
    decreases v, 1int,
{
    let enc = spec_encode(v);
    lemma_sub_index(b, pos, enc);
    lemma_enc_len(v);
    match v {
        FrameView::SimpleString(s) => {
            assert(b[pos] == 43) by {
                assert(enc[0] == 43);
            }
            line_frame_setup(b, pos, s, enc);
            lemma_line_at(b, pos + 1, s);
        },
        FrameView::Error(s) => {
            assert(b[pos] == 45) by {
                assert(enc[0] == 45);
            }
            line_frame_setup(b, pos, s, enc);
            lemma_line_at(b, pos + 1, s);
        },
        FrameView::Integer(i) => {
            let t = int_text(i);
            lemma_int_text(i);
            lemma_int_text_clean(i);
            assert(b[pos] == 58) by {
                assert(enc[0] == 58);
            }
            line_frame_setup(b, pos, t, enc);
            lemma_line_at(b, pos + 1, t);
        },
        FrameView::Double(d) => {
            assert(b[pos] == 44) by {
                assert(enc[0] == 44);
            }
            assert(text_ok(d)) by {
                lemma_double_text_clean(d);
            }
            line_frame_setup(b, pos, d, enc);
            lemma_line_at(b, pos + 1, d);
        },
        FrameView::Boolean(t) => {
            assert(b[pos] == 35 && b[pos + 1] == (if t {
                116u8
            } else {
                102u8
            }) && b[pos + 2] == 13 && b[pos + 3] == 10) by {
                assert(enc[0] == 35 && enc[2] == 13 && enc[3] == 10);
                assert(enc[1] == (if t {
                    116u8
                } else {
                    102u8
                }));
            }
        },
        FrameView::Null => {
            assert(b[pos] == 95 && b[pos + 1] == 13 && b[pos + 2] == 10) by {
                assert(enc[0] == 95 && enc[1] == 13 && enc[2] == 10);
            }
        },
        FrameView::NullBulkString => {
            assert(b[pos] == 36 && b[pos + 1] == 45 && b[pos + 2] == 49
                && b[pos + 3] == 13 && b[pos + 4] == 10) by {
                assert(enc[0] == 36 && enc[1] == 45 && enc[2] == 49 && enc[3]
                    == 13 && enc[4] == 10);
            }
            null_marker_line(b, pos);
        },
        FrameView::NullArray => {
            assert(b[pos] == 42 && b[pos + 1] == 45 && b[pos + 2] == 49
                && b[pos + 3] == 13 && b[pos + 4] == 10) by {
                assert(enc[0] == 42 && enc[1] == 45 && enc[2] == 49 && enc[3]
                    == 13 && enc[4] == 10);
            }
            null_marker_line(b, pos);
        },
        FrameView::BulkString(body) => {
            let t = int_text(body.len() as int);
            lemma_int_text(body.len() as int);
            lemma_int_text_clean(body.len() as int);
            assert(b[pos] == 36) by {
                assert(enc[0] == 36);
            }
            assert(enc =~= seq![36u8] + t + crate::crlf() + body
                + crate::crlf());
            lemma_embed(b, pos, enc, 1, t.len() as int);
            assert(enc.subrange(1, 1 + t.len() as int) =~= t);
            assert(b[pos + 1 + t.len()] == 13 && b[pos + 2 + t.len()] == 10)
                by {
                assert(enc[1 + t.len() as int] == 13 && enc[2 + t.len() as int] == 10);
            }
            lemma_line_at(b, pos + 1, t);
            let bodystart = pos + 3 + t.len();
            lemma_embed(b, pos, enc, 3 + t.len() as int, body.len() as int);
            assert(enc.subrange(
                3 + t.len() as int,
                3 + t.len() + body.len() as int,
            ) =~= body);
            assert(b[bodystart + body.len()] == 13 && b[bodystart + body.len()
                + 1] == 10) by {
                assert(enc[3 + t.len() + body.len() as int] == 13 && enc[4 + t.len()
                    + body.len() as int] == 10);
            }
            assert(int_line_val(t) != -1 && int_line_val(t) >= 0);
        },
        FrameView::Array(es) => {
            container_round_trip(v, b, pos, 42, es);
        },
        FrameView::SetFrame(es) => {
            container_round_trip(v, b, pos, 126, es);
        },
        FrameView::MapFrame(ps) => {
            let t = int_text(ps.len() as int);
            lemma_int_text(ps.len() as int);
            lemma_int_text_clean(ps.len() as int);
            assert(b[pos] == 37) by {
                assert(enc[0] == 37);
            }
            assert(enc =~= seq![37u8] + t + crate::crlf() + enc_pairs(ps));
            lemma_embed(b, pos, enc, 1, t.len() as int);
            assert(enc.subrange(1, 1 + t.len() as int) =~= t);
            assert(b[pos + 1 + t.len()] == 13 && b[pos + 2 + t.len()] == 10)
                by {
                assert(enc[1 + t.len() as int] == 13 && enc[2 + t.len() as int] == 10);
            }
            lemma_line_at(b, pos + 1, t);
            let start = pos + 3 + t.len();
            lemma_embed(
                b,
                pos,
                enc,
                3 + t.len() as int,
                enc_pairs(ps).len() as int,
            );
            assert(enc.subrange(
                3 + t.len() as int,
                3 + t.len() + enc_pairs(ps).len() as int,
            ) =~= enc_pairs(ps));
            assert(Seq::<(Seq<u8>, FrameView)>::empty() + ps =~= ps);
            assert(keys_sorted(Seq::<(Seq<u8>, FrameView)>::empty() + ps));
            lemma_round_trip_pairs(ps, b, start,
                Seq::<(Seq<u8>, FrameView)>::empty());
            assert(int_line_val(t) >= 0);
        },
    }
}

/// Shared setup for the line-payload variants: the payload sits at
/// `pos + 1` with its terminator.
proof fn line_frame_setup(b: Seq<u8>, pos: int, payload: Seq<u8>, enc: Seq<
    u8,
>)
    requires
        0 <= pos,
        enc.len() == payload.len() + 3,
        pos + enc.len() <= b.len(),
        forall|i: int| 0 <= i < enc.len() ==> b[pos + i] == #[trigger] enc[i],
        forall|i: int|
            0 <= i < payload.len() ==> #[trigger] enc[1 + i] == payload[i],
        enc[1 + payload.len() as int] == 13,
        enc[2 + payload.len() as int] == 10,
    ensures
        b.subrange(pos + 1, pos + 1 + payload.len()) == payload,
        b[pos + 1 + payload.len()] == 13,
        b[pos + 2 + payload.len()] == 10,
{
    assert(b.subrange(pos + 1, pos + 1 + payload.len()) =~= payload) by {
        assert forall|i: int| 0 <= i < payload.len() implies #[trigger] b.subrange(
            pos + 1,
            pos + 1 + payload.len(),
        )[i] == payload[i] by {
            assert(b[pos + 1 + i] == enc[1 + i]);
        }
    }
}

/// The `-1` length line of the two legacy null markers.
proof fn null_marker_line(b: Seq<u8>, pos: int)
    requires
        0 <= pos,
        pos + 5 <= b.len(),
        b[pos + 1] == 45,
        b[pos + 2] == 49,
        b[pos + 3] == 13,
        b[pos + 4] == 10,
    ensures
        line_break(b, pos + 1) == (LineStep::Found {
            cut: pos + 3,
            end: pos + 5,
        }),
        b.subrange(pos + 1, pos + 3) =~= seq![45u8, 49u8],
        int_line_ok(seq![45u8, 49u8]),
        int_line_val(seq![45u8, 49u8]) == -1,
{
    let t = seq![45u8, 49u8];
    assert(text_ok(t));
    assert(b.subrange(pos + 1, pos + 3) =~= t);
    lemma_line_at(b, pos + 1, t);
    assert(t.skip(1) =~= seq![49u8]);
    assert(seq![49u8].drop_last() =~= Seq::<u8>::empty());
    assert(digits_val(Seq::<u8>::empty()) == 0);
    assert(digits_val(seq![49u8]) == 1);
}

/// Round trip for the two sequence containers.
proof fn container_round_trip(
    v: FrameView,
    b: Seq<u8>,
    pos: int,
    prefix: u8,
    es: Seq<FrameView>,
)
    requires
        v.wf(),
        sized(v),
        v == FrameView::Array(es) || v == FrameView::SetFrame(es),
        prefix == 42 <==> v == FrameView::Array(es),
        prefix == 126 <==> v == FrameView::SetFrame(es),
        0 <= pos,
        pos + spec_encode(v).len() <= b.len(),
        b.subrange(pos, pos + spec_encode(v).len()) == spec_encode(v),
    ensures
        spec_decode_at(b, pos) == Ok::<(FrameView, int), ParseError>(
            (v, pos + spec_encode(v).len()),
        ),
    decreases v, 0int,
{
    let enc = spec_encode(v);
    lemma_sub_index(b, pos, enc);
    let t = int_text(es.len() as int);
    lemma_int_text(es.len() as int);
    lemma_int_text_clean(es.len() as int);
    assert(b[pos] == prefix) by {
        assert(enc[0] == prefix);
    }
    assert(enc =~= seq![prefix] + t + crate::crlf() + enc_elems(es));
    lemma_embed(b, pos, enc, 1, t.len() as int);
    assert(enc.subrange(1, 1 + t.len() as int) =~= t);
    assert(b[pos + 1 + t.len()] == 13 && b[pos + 2 + t.len()] == 10) by {
        assert(enc[1 + t.len() as int] == 13 && enc[2 + t.len() as int] == 10);
    }
    lemma_line_at(b, pos + 1, t);
    let start = pos + 3 + t.len();
    lemma_embed(b, pos, enc, 3 + t.len() as int, enc_elems(es).len() as int);
    assert(enc.subrange(
        3 + t.len() as int,
        3 + t.len() + enc_elems(es).len() as int,
    ) =~= enc_elems(es));
    lemma_round_trip_elems(es, b, start, Seq::<FrameView>::empty());
    assert(Seq::<FrameView>::empty() + es =~= es);
    assert(int_line_val(t) >= 0 && int_line_val(t) != -1);
}

/// Round trip for a run of encoded frames: they decode in order.
proof fn lemma_round_trip_elems(
    es: Seq<FrameView>,
    b: Seq<u8>,
    pos: int,
    acc: Seq<FrameView>,
)
    requires
        all_wf(es),
        all_sized(es),
        0 <= pos,
        pos + enc_elems(es).len() <= b.len(),
        b.subrange(pos, pos + enc_elems(es).len()) == enc_elems(es),
    ensures
        dec_elems_at(b, pos, es.len() as int, acc) == Ok::<
            (Seq<FrameView>, int),
            ParseError,
        >((acc + es, pos + enc_elems(es).len())),
    decreases es, 0int,
{
    if es.len() == 0 {
        assert(acc + es =~= acc);
    } else {
        let head = es.first();
        let e0 = spec_encode(head);
        let rest = enc_elems(es.drop_first());
        assert(enc_elems(es) == e0 + rest);
        lemma_sub_index(b, pos, enc_elems(es));
        lemma_enc_len(head);
        lemma_embed(b, pos, enc_elems(es), 0, e0.len() as int);
        assert(enc_elems(es).subrange(0, e0.len() as int) =~= e0);
        lemma_round_trip_at(head, b, pos);
        let mid = pos + e0.len();
        lemma_embed(b, pos, enc_elems(es), e0.len() as int, rest.len() as int);
        assert(enc_elems(es).subrange(
            e0.len() as int,
            e0.len() + rest.len() as int,
        ) =~= rest);
        lemma_round_trip_elems(es.drop_first(), b, mid, acc.push(head));
        assert(acc.push(head) + es.drop_first() =~= acc + es);
    }
}

/// Round trip for a run of encoded map entries: keys arrive in ascending
/// order, so each insertion appends, and the entries decode in order.
proof fn lemma_round_trip_pairs(
    ps: Seq<(Seq<u8>, FrameView)>,
    b: Seq<u8>,
    pos: int,
    acc: Seq<(Seq<u8>, FrameView)>,
)
    requires
        entries_wf(ps),
        pairs_sized(ps),
        keys_sorted(acc + ps),
        0 <= pos,
        pos + enc_pairs(ps).len() <= b.len(),
        b.subrange(pos, pos + enc_pairs(ps).len()) == enc_pairs(ps),
    ensures
        dec_pairs_at(b, pos, ps.len() as int, acc) == Ok::<
            (Seq<(Seq<u8>, FrameView)>, int),
            ParseError,
        >((acc + ps, pos + enc_pairs(ps).len())),
    decreases ps, 0int,
{
    if ps.len() == 0 {
        assert(acc + ps =~= acc);
    } else {
        let k = ps.first().0;
        let v = ps.first().1;
        let ek = enc_key(k);
        let ev = spec_encode(v);
        let rest = enc_pairs(ps.drop_first());
        assert(enc_pairs(ps) == ek + ev + rest);
        lemma_sub_index(b, pos, enc_pairs(ps));
        lemma_enc_len(v);
        let t = int_text(k.len() as int);
        lemma_int_text(k.len() as int);
        lemma_int_text_clean(k.len() as int);
        assert(ek =~= seq![36u8] + t + crate::crlf() + k + crate::crlf());
        assert(ek.len() == t.len() + k.len() + 5);
        assert(b[pos] == 36) by {
            assert(enc_pairs(ps)[0] == ek[0] && ek[0] == 36);
        }
        lemma_embed(b, pos, enc_pairs(ps), 1, t.len() as int);
        assert(enc_pairs(ps).subrange(1, 1 + t.len() as int) =~= t);
        assert(b[pos + 1 + t.len()] == 13 && b[pos + 2 + t.len()] == 10) by {
            assert(enc_pairs(ps)[1 + t.len() as int] == ek[1 + t.len() as int] && ek[1
                + t.len() as int] == 13);
            assert(enc_pairs(ps)[2 + t.len() as int] == ek[2 + t.len() as int] && ek[2
                + t.len() as int] == 10);
        }
        lemma_line_at(b, pos + 1, t);
        let kstart = pos + 3 + t.len();
        lemma_embed(b, pos, enc_pairs(ps), 3 + t.len() as int, k.len() as int);
        assert(enc_pairs(ps).subrange(
            3 + t.len() as int,
            3 + t.len() + k.len() as int,
        ) =~= k);
        assert(b[kstart + k.len()] == 13 && b[kstart + k.len() + 1] == 10) by {
            assert(enc_pairs(ps)[3 + t.len() + k.len() as int] == ek[3 + t.len()
                + k.len() as int] && ek[3 + t.len() + k.len() as int] == 13);
            assert(enc_pairs(ps)[4 + t.len() + k.len() as int] == ek[4 + t.len()
                + k.len() as int] && ek[4 + t.len() + k.len() as int] == 10);
        }
        let vstart = kstart + k.len() + 2;
        lemma_embed(
            b,
            pos,
            enc_pairs(ps),
            ek.len() as int,
            ev.len() as int,
        );
        assert(enc_pairs(ps).subrange(
            ek.len() as int,
            ek.len() + ev.len() as int,
        ) =~= ev);
        lemma_round_trip_at(v, b, vstart);
        let vend = vstart + ev.len();
        lemma_embed(
            b,
            pos,
            enc_pairs(ps),
            ek.len() + ev.len() as int,
            rest.len() as int,
        );
        assert(enc_pairs(ps).subrange(
            ek.len() + ev.len() as int,
            ek.len() + ev.len() + rest.len() as int,
        ) =~= rest);
        assert forall|j: int| 0 <= j < acc.len() implies lex_lt(
            #[trigger] acc[j].0,
            k,
        ) by {
            assert((acc + ps)[j] == acc[j]);
            assert((acc + ps)[acc.len() as int] == ps.first());
            assert(lex_lt((acc + ps)[j].0, (acc + ps)[acc.len() as int].0));
        }
        lemma_sorted_insert_append(acc, k, v);
        let acc2 = acc.push((k, v));
        assert(acc2 + ps.drop_first() =~= acc + ps);
        assert(keys_sorted(acc2 + ps.drop_first()));
        lemma_round_trip_pairs(ps.drop_first(), b, vend, acc2);
        assert(int_line_val(t) >= 0);
    }
}

/// Round trip: for every constructible frame, decoding its encoding
/// returns the frame itself and consumes the whole encoding.
pub proof fn lemma_round_trip(v: FrameView)
    requires
        v.wf(),
        sized(v),
    ensures
        spec_decode_at(spec_encode(v), 0) == Ok::<
            (FrameView, int),
            ParseError,
        >((v, spec_encode(v).len() as int)),
{
    let enc = spec_encode(v);
    assert(enc.subrange(0, enc.len() as int) =~= enc);
    lemma_round_trip_at(v, enc, 0);
}

/// A region with no line feed and a carriage return at most as its very
/// last byte has no terminator: the scan reports an incomplete line.
proof fn lemma_line_incomplete(b: Seq<u8>, pos: int)
    requires
        0 <= pos,
        forall|j: int|
            pos <= j < b.len() ==> #[trigger] b[j] != 10 && (b[j] == 13 ==> j
                == b.len() - 1),
    ensures
        line_break(b, pos) is NoBreak,
    decreases b.len() - pos,
{
    if pos < b.len() && b[pos] != 13 && b[pos] != 10 {
        lemma_line_incomplete(b, pos + 1);
    }
}

/// A truncated line region: the payload prefix, possibly followed by the
/// lone carriage return of its cut-off terminator.
proof fn lemma_line_trunc(b: Seq<u8>, pos: int, payload: Seq<u8>)
    requires
        0 <= pos <= b.len(),
        text_ok(payload),
        b.len() - pos <= payload.len() + 1,
        forall|j: int|
            0 <= j < b.len() - pos ==> #[trigger] b[pos + j] == (if j
                < payload.len() {
                payload[j]
            } else {
                13u8
            }),
    ensures
        line_break(b, pos) is NoBreak,
{
    assert forall|j: int| pos <= j < b.len() implies #[trigger] b[j] != 10
        && (b[j] == 13 ==> j == b.len() - 1) by {
        assert(b[pos + (j - pos)] == (if j - pos < payload.len() {
            payload[j - pos]
        } else {
            13u8
        }));
        if j - pos < payload.len() {
            assert(payload[j - pos] != 13 && payload[j - pos] != 10);
        } else {
            assert(j - pos == payload.len());
            assert(j == b.len() - 1 || pos + payload.len() < b.len() - 1);
        }
    }
    lemma_line_incomplete(b, pos);
}

/// Truncation safety at a position: a buffer that ends strictly inside
/// the encoding of `v` fails to decode with `Incomplete`.
#[verifier::rlimit(100)]
pub proof fn lemma_truncation_at(v: FrameView, b: Seq<u8>, pos: int)
    requires
        v.wf(),
        sized(v),
        0 <= pos <= b.len(),
        b.len() - pos < spec_encode(v).len(),
        b.subrange(pos, b.len() as int) == spec_encode(v).take(
            b.len() - pos,
        ),
    ensures
        spec_decode_at(b, pos) == Err::<(FrameView, int), ParseError>(
            ParseError::Incomplete,
        ),
    decreases v, 1int,
{
    let enc = spec_encode(v);
    let m = b.len() - pos;
    lemma_enc_len(v);
    assert forall|i: int| 0 <= i < m implies b[pos + i] == #[trigger] enc[i]
        by {
        assert(b.subrange(pos, b.len() as int)[i] == b[pos + i]);
        assert(enc.take(m)[i] == enc[i]);
    }
    if m == 0 {
    } else {
        assert(b[pos] == enc[0]) by {
            assert(b[pos + 0] == enc[0]);
        }
        match v {
            FrameView::SimpleString(s) => {
                assert(enc[0] == 43);
                trunc_line_variant(b, pos, s, enc);
            },
            FrameView::Error(s) => {
                assert(enc[0] == 45);
                trunc_line_variant(b, pos, s, enc);
            },
            FrameView::Integer(i) => {
                lemma_int_text_clean(i);
                lemma_int_text(i);
                assert(enc[0] == 58);
                trunc_line_variant(b, pos, int_text(i), enc);
            },
            FrameView::Double(d) => {
                lemma_double_text_clean(d);
                assert(enc[0] == 44);
                trunc_line_variant(b, pos, d, enc);
            },
            FrameView::Boolean(t) => {
                assert(enc[0] == 35);
                if m >= 2 {
                    assert(b[pos + 1] == enc[1]);
                }
                if m >= 3 {
                    assert(b[pos + 2] == enc[2] && enc[2] == 13);
                }
            },
            FrameView::Null => {
                assert(enc[0] == 95);
                if m >= 2 {
                    assert(b[pos + 1] == enc[1] && enc[1] == 13);
                }
            },
            FrameView::NullBulkString => {
                assert(enc[0] == 36);
                null_marker_trunc(b, pos, enc);
            },
            FrameView::NullArray => {
                assert(enc[0] == 42);
                null_marker_trunc(b, pos, enc);
            },
            FrameView::BulkString(body) => {
                let t = int_text(body.len() as int);
                lemma_int_text(body.len() as int);
                lemma_int_text_clean(body.len() as int);
                assert(enc[0] == 36);
                assert(enc =~= seq![36u8] + t + crate::crlf() + body
                    + crate::crlf());
                if m <= t.len() + 2 {
                    header_trunc(b, pos, t, enc);
                } else {
                    header_found(b, pos, t, enc);
                    assert(pos + 3 + t.len() + body.len() + 2 > b.len());
                    assert(int_line_val(t) >= 0 && int_line_val(t) != -1);
                }
            },
            FrameView::Array(es) => {
                container_trunc(v, b, pos, es);
            },
            FrameView::SetFrame(es) => {
                container_trunc(v, b, pos, es);
            },
            FrameView::MapFrame(ps) => {
                let t = int_text(ps.len() as int);
                lemma_int_text(ps.len() as int);
                lemma_int_text_clean(ps.len() as int);
                assert(enc[0] == 37);
                assert(enc =~= seq![37u8] + t + crate::crlf() + enc_pairs(ps));
                if m <= t.len() + 2 {
                    header_trunc(b, pos, t, enc);
                } else {
                    header_found(b, pos, t, enc);
                    let start = pos + 3 + t.len();
                    assert forall|i: int| 0 <= i < b.len() - start
                        implies b[start + i] == #[trigger] enc_pairs(ps)[i]
                        by {
                        assert(b[pos + (3 + t.len() + i)] == enc[3 + t.len()
                            + i]);
                    }
                    assert(b.subrange(start, b.len() as int) =~= enc_pairs(
                        ps,
                    ).take(b.len() - start));
                    assert(int_line_val(t) >= 0);
                    lemma_truncation_pairs(ps, b, start,
                        Seq::<(Seq<u8>, FrameView)>::empty());
                }
            },
        }
    }
}

/// The truncated header or payload line of a line-framed variant.
proof fn trunc_line_variant(b: Seq<u8>, pos: int, payload: Seq<u8>, enc: Seq<
    u8,
>)
    requires
        0 <= pos < b.len(),
        text_ok(payload),
        enc.len() == payload.len() + 3,
        b.len() - pos < enc.len(),
        forall|i: int|
            0 <= i < b.len() - pos ==> b[pos + i] == #[trigger] enc[i],
        forall|i: int|
            0 <= i < payload.len() ==> #[trigger] enc[1 + i] == payload[i],
        enc[1 + payload.len() as int] == 13,
    ensures
        line_break(b, pos + 1) is NoBreak,
{
    assert forall|j: int| 0 <= j < b.len() - (pos + 1) implies #[trigger] b[
        pos + 1 + j] == (if j < payload.len() {
        payload[j]
    } else {
        13u8
    }) by {
        assert(b[pos + (1 + j)] == enc[1 + j]);
    }
    lemma_line_trunc(b, pos + 1, payload);
}

/// The truncated `-1` line of the two legacy null markers.
proof fn null_marker_trunc(b: Seq<u8>, pos: int, enc: Seq<u8>)
    requires
        0 <= pos < b.len(),
        enc.len() == 5,
        enc[1] == 45,
        enc[2] == 49,
        enc[3] == 13,
        enc[4] == 10,
        b.len() - pos < 5,
        forall|i: int|
            0 <= i < b.len() - pos ==> b[pos + i] == #[trigger] enc[i],
    ensures
        line_break(b, pos + 1) is NoBreak,
{
    let t = seq![45u8, 49u8];
    assert(text_ok(t));
    assert forall|j: int| 0 <= j < b.len() - (pos + 1) implies #[trigger] b[
        pos + 1 + j] == (if j < t.len() {
        t[j]
    } else {
        13u8
    }) by {
        assert(b[pos + (1 + j)] == enc[1 + j]);
    }
    lemma_line_trunc(b, pos + 1, t);
}

/// A complete count or length line inside a truncated container frame.
proof fn header_trunc(b: Seq<u8>, pos: int, t: Seq<u8>, enc: Seq<u8>)
    requires
        0 <= pos < b.len(),
        text_ok(t),
        enc.len() >= t.len() + 3,
        b.len() - pos <= t.len() + 2,
        forall|i: int|
            0 <= i < b.len() - pos ==> b[pos + i] == #[trigger] enc[i],
        forall|i: int| 0 <= i < t.len() ==> #[trigger] enc[1 + i] == t[i],
        enc[1 + t.len() as int] == 13,
    ensures
        line_break(b, pos + 1) is NoBreak,
{
    assert forall|j: int| 0 <= j < b.len() - (pos + 1) implies #[trigger] b[
        pos + 1 + j] == (if j < t.len() {
        t[j]
    } else {
        13u8
    }) by {
        assert(b[pos + (1 + j)] == enc[1 + j]);
    }
    lemma_line_trunc(b, pos + 1, t);
}

/// The complete header line of a partially present length-framed body.
proof fn header_found(b: Seq<u8>, pos: int, t: Seq<u8>, enc: Seq<u8>)
    requires
        0 <= pos < b.len(),
        text_ok(t),
        enc.len() >= t.len() + 3,
        t.len() + 3 <= b.len() - pos,
        forall|i: int|
            0 <= i < t.len() + 3 ==> b[pos + i] == #[trigger] enc[i],
        forall|i: int| 0 <= i < t.len() ==> #[trigger] enc[1 + i] == t[i],
        enc[1 + t.len() as int] == 13,
        enc[2 + t.len() as int] == 10,
    ensures
        line_break(b, pos + 1) == (LineStep::Found {
            cut: pos + 1 + t.len(),
            end: pos + 3 + t.len(),
        }),
        b.subrange(pos + 1, pos + 1 + t.len()) == t,
{
    assert(b.subrange(pos + 1, pos + 1 + t.len()) =~= t) by {
        assert forall|i: int| 0 <= i < t.len() implies #[trigger] b.subrange(
            pos + 1,
            pos + 1 + t.len(),
        )[i] == t[i] by {
            assert(b[pos + (1 + i)] == enc[1 + i]);
        }
    }
    assert(b[pos + 1 + t.len()] == 13) by {
        assert(b[pos + (1 + t.len() as int)] == enc[1 + t.len() as int]);
    }
    assert(b[pos + 2 + t.len()] == 10) by {
        assert(b[pos + (2 + t.len() as int)] == enc[2 + t.len() as int]);
    }
    lemma_line_at(b, pos + 1, t);
}

/// Truncation inside the two sequence containers.
proof fn container_trunc(v: FrameView, b: Seq<u8>, pos: int, es: Seq<
    FrameView,
>)
    requires
        v.wf(),
        sized(v),
        v == FrameView::Array(es) || v == FrameView::SetFrame(es),
        0 <= pos < b.len(),
        b.len() - pos < spec_encode(v).len(),
        forall|i: int|
            0 <= i < b.len() - pos ==> b[pos + i] == #[trigger] spec_encode(
                v,
            )[i],
    ensures
        spec_decode_at(b, pos) == Err::<(FrameView, int), ParseError>(
            ParseError::Incomplete,
        ),
    decreases v, 0int,
{
    let enc = spec_encode(v);
    let m = b.len() - pos;
    let t = int_text(es.len() as int);
    lemma_int_text(es.len() as int);
    lemma_int_text_clean(es.len() as int);
    assert(b[pos] == enc[0]) by {
        assert(b[pos + 0] == enc[0]);
    }
    assert(enc =~= seq![enc[0]] + t + crate::crlf() + enc_elems(es));
    if m <= t.len() + 2 {
        header_trunc(b, pos, t, enc);
    } else {
        header_found(b, pos, t, enc);
        let start = pos + 3 + t.len();
        assert forall|i: int| 0 <= i < b.len() - start implies b[start + i]
            == #[trigger] enc_elems(es)[i] by {
            assert(b[pos + (3 + t.len() + i)] == enc[3 + t.len() + i]);
        }
        assert(int_line_val(t) >= 0 && int_line_val(t) != -1);
        lemma_truncation_elems(es, b, start, Seq::<FrameView>::empty());
    }
}

/// Truncation inside a run of encoded frames.
proof fn lemma_truncation_elems(
    es: Seq<FrameView>,
    b: Seq<u8>,
    pos: int,
    acc: Seq<FrameView>,
)
    requires
        all_wf(es),
        all_sized(es),
        0 <= pos <= b.len(),
        b.len() - pos < enc_elems(es).len(),
        forall|i: int|
            0 <= i < b.len() - pos ==> b[pos + i] == #[trigger] enc_elems(
                es,
            )[i],
    ensures
        dec_elems_at(b, pos, es.len() as int, acc) == Err::<
            (Seq<FrameView>, int),
            ParseError,
        >(ParseError::Incomplete),
    decreases es, 0int,
{
    let head = es.first();
    let e0 = spec_encode(head);
    let rest = enc_elems(es.drop_first());
    assert(enc_elems(es) == e0 + rest);
    lemma_enc_len(head);
    let m = b.len() - pos;
    if m < e0.len() {
        assert(b.subrange(pos, b.len() as int) =~= e0.take(m)) by {
            assert forall|i: int| 0 <= i < m implies #[trigger] b.subrange(
                pos,
                b.len() as int,
            )[i] == e0.take(m)[i] by {
                assert(b[pos + i] == enc_elems(es)[i]);
            }
        }
        lemma_truncation_at(head, b, pos);
    } else {
        assert(b.subrange(pos, pos + e0.len()) =~= e0) by {
            assert forall|i: int| 0 <= i < e0.len() implies #[trigger] b.subrange(
                pos,
                pos + e0.len(),
            )[i] == e0[i] by {
                assert(b[pos + i] == enc_elems(es)[i]);
            }
        }
        lemma_round_trip_at(head, b, pos);
        let mid = pos + e0.len();
        assert forall|i: int| 0 <= i < b.len() - mid implies b[mid + i]
            == #[trigger] rest[i] by {
            assert(b[pos + (e0.len() + i)] == enc_elems(es)[e0.len() + i]);
        }
        lemma_truncation_elems(es.drop_first(), b, mid, acc.push(head));
    }
}

/// Truncation inside a run of encoded map entries.
#[verifier::rlimit(100)]
proof fn lemma_truncation_pairs(
    ps: Seq<(Seq<u8>, FrameView)>,
    b: Seq<u8>,
    pos: int,
    acc: Seq<(Seq<u8>, FrameView)>,
)
    requires
        entries_wf(ps),
        pairs_sized(ps),
        0 <= pos <= b.len(),
        b.len() - pos < enc_pairs(ps).len(),
        forall|i: int|
            0 <= i < b.len() - pos ==> b[pos + i] == #[trigger] enc_pairs(
                ps,
            )[i],
    ensures
        dec_pairs_at(b, pos, ps.len() as int, acc) == Err::<
            (Seq<(Seq<u8>, FrameView)>, int),
            ParseError,
        >(ParseError::Incomplete),
    decreases ps, 0int,
{
    let k = ps.first().0;
    let v = ps.first().1;
    let ek = enc_key(k);
    let ev = spec_encode(v);
    let rest = enc_pairs(ps.drop_first());
    assert(enc_pairs(ps) == ek + ev + rest);
    lemma_enc_len(v);
    let m = b.len() - pos;
    let t = int_text(k.len() as int);
    lemma_int_text(k.len() as int);
    lemma_int_text_clean(k.len() as int);
    assert(ek =~= seq![36u8] + t + crate::crlf() + k + crate::crlf());
    assert(ek.len() == t.len() + k.len() + 5);
    if m == 0 {
    } else {
        assert(b[pos] == enc_pairs(ps)[0] && enc_pairs(ps)[0] == ek[0]
            && ek[0] == 36);
        assert forall|i: int| 0 <= i < (if m < ek.len() {
            m
        } else {
            ek.len() as int
        }) implies b[pos + i] == #[trigger] ek[i] by {
            assert(b[pos + i] == enc_pairs(ps)[i]);
        }
        if m <= t.len() + 2 {
            header_trunc(b, pos, t, ek);
        } else {
            header_found(b, pos, t, ek);
            assert(int_line_val(t) >= 0);
            let lend = pos + 3 + t.len();
            if m < t.len() + 3 + k.len() + 2 {
                assert(lend + k.len() + 2 > b.len());
            } else {
                assert(b.subrange(lend, lend + k.len()) =~= k) by {
                    assert forall|i: int| 0 <= i < k.len()
                        implies #[trigger] b.subrange(
                        lend,
                        lend + k.len(),
                    )[i] == k[i] by {
                        assert(b[pos + (3 + t.len() + i)] == enc_pairs(ps)[3
                            + t.len() + i]);
                        assert(ek[3 + t.len() + i] == k[i]);
                    }
                }
                assert(b[lend + k.len()] == 13 && b[lend + k.len() + 1] == 10)
                    by {
                    assert(b[pos + (3 + t.len() + k.len() as int)]
                        == enc_pairs(ps)[3 + t.len() + k.len() as int]);
                    assert(ek[3 + t.len() + k.len() as int] == 13);
                    assert(b[pos + (4 + t.len() + k.len() as int)]
                        == enc_pairs(ps)[4 + t.len() + k.len() as int]);
                    assert(ek[4 + t.len() + k.len() as int] == 10);
                }
                let vstart = lend + k.len() + 2;
                if b.len() - vstart < ev.len() {
                    assert(b.subrange(vstart, b.len() as int) =~= ev.take(
                        b.len() - vstart,
                    )) by {
                        assert forall|i: int| 0 <= i < b.len() - vstart
                            implies #[trigger] b.subrange(
                            vstart,
                            b.len() as int,
                        )[i] == ev.take(b.len() - vstart)[i] by {
                            assert(b[pos + (ek.len() + i)] == enc_pairs(ps)[
                                ek.len() + i]);
                        }
                    }
                    lemma_truncation_at(v, b, vstart);
                } else {
                    assert(b.subrange(vstart, vstart + ev.len()) =~= ev) by {
                        assert forall|i: int| 0 <= i < ev.len()
                            implies #[trigger] b.subrange(
                            vstart,
                            vstart + ev.len(),
                        )[i] == ev[i] by {
                            assert(b[pos + (ek.len() + i)] == enc_pairs(ps)[
                                ek.len() + i]);
                        }
                    }
                    lemma_round_trip_at(v, b, vstart);
                    let vend = vstart + ev.len();
                    assert forall|i: int| 0 <= i < b.len() - vend implies b[
                        vend + i] == #[trigger] rest[i] by {
                        assert(b[pos + (ek.len() + ev.len() + i)]
                            == enc_pairs(ps)[ek.len() + ev.len() + i]);
                    }
                    lemma_truncation_pairs(
                        ps.drop_first(),
                        b,
                        vend,
                        sorted_insert(acc, k, v),
                    );
                }
            }
        }
    }
}

/// Truncation safety: cutting any suffix off a valid encoding makes
/// decoding fail with `Incomplete`, never succeed or report another
/// error.
pub proof fn lemma_truncation(v: FrameView, n: int)
    requires
        v.wf(),
        sized(v),
        0 <= n < spec_encode(v).len(),
    ensures
        spec_decode_at(spec_encode(v).take(n), 0) == Err::<
            (FrameView, int),
            ParseError,
        >(ParseError::Incomplete),
{
    let b = spec_encode(v).take(n);
    assert(b.subrange(0, b.len() as int) =~= spec_encode(v).take(
        b.len() as int,
    ));
    lemma_truncation_at(v, b, 0);
}

/// What insertion does to the entries: the new entry is present, an
/// entry with the inserted key is gone, and everything else stays.
pub proof fn lemma_sorted_insert_contains(
    ps: Seq<(Seq<u8>, FrameView)>,
    k: Seq<u8>,
    v: FrameView,
    x: (Seq<u8>, FrameView),
)
    requires
        keys_sorted(ps),
    ensures
        sorted_insert(ps, k, v).contains(x) <==> (x == (k, v) || (ps.contains(
            x,
        ) && x.0 != k)),
    decreases ps.len(),
{
    let r = sorted_insert(ps, k, v);
    if ps.len() == 0 {
        assert(r =~= seq![(k, v)]);
        if r.contains(x) {
            let i = choose|i: int| 0 <= i < r.len() && r[i] == x;
            assert(x == (k, v));
        }
        if x == (k, v) {
            assert(r[0] == x);
        }
        assert(!ps.contains(x)) by {
            if ps.contains(x) {
                let i = choose|i: int| 0 <= i < ps.len() && ps[i] == x;
            }
        }
    } else if lex_lt(k, ps[0].0) {
        assert(r == seq![(k, v)] + ps);
        if r.contains(x) {
            let i = choose|i: int| 0 <= i < r.len() && r[i] == x;
            if i == 0 {
                assert(x == (k, v));
            } else {
                assert(ps[i - 1] == x);
                assert(ps.contains(x));
                assert(x.0 != k) by {
                    if i - 1 > 0 {
                        crate::order::lemma_lex_lt_trans(
                            k,
                            ps[0].0,
                            ps[i - 1].0,
                        );
                    }
                    lemma_lex_lt_irrefl(x.0);
                }
            }
        }
        if x == (k, v) {
            assert(r[0] == x);
            assert(r.contains(x));
        }
        if ps.contains(x) && x.0 != k {
            let i = choose|i: int| 0 <= i < ps.len() && ps[i] == x;
            assert(r[i + 1] == x);
            assert(r.contains(x));
        }
    } else if k == ps[0].0 {
        assert(r == seq![(k, v)] + ps.drop_first());
        if r.contains(x) {
            let i = choose|i: int| 0 <= i < r.len() && r[i] == x;
            if i == 0 {
                assert(x == (k, v));
            } else {
                assert(ps.drop_first()[i - 1] == x);
                assert(ps[i] == x);
                assert(ps.contains(x));
                assert(lex_lt(ps[0].0, ps[i].0));
                lemma_lex_lt_irrefl(ps[i].0);
                assert(x.0 != k);
            }
        }
        if x == (k, v) {
            assert(r[0] == x);
            assert(r.contains(x));
        }
        if ps.contains(x) && x.0 != k {
            let i = choose|i: int| 0 <= i < ps.len() && ps[i] == x;
            assert(i != 0);
            assert(r[i] == ps[i]);
            assert(r.contains(x));
        }
    } else {
        lemma_lex_lt_connex(k, ps[0].0);
        assert(lex_lt(ps[0].0, k));
        let tail = ps.drop_first();
        assert(keys_sorted(tail)) by {
            assert forall|a: int, b: int| 0 <= a < b < tail.len()
                implies lex_lt(#[trigger] tail[a].0, #[trigger] tail[b].0) by {
                assert(tail[a] == ps[a + 1] && tail[b] == ps[b + 1]);
            }
        }
        lemma_sorted_insert_contains(tail, k, v, x);
        let rt = sorted_insert(tail, k, v);
        assert(r == seq![ps[0]] + rt);
        if r.contains(x) {
            let i = choose|i: int| 0 <= i < r.len() && r[i] == x;
            if i == 0 {
                assert(x == ps[0]);
                assert(ps.contains(x));
                lemma_lex_lt_irrefl(k);
                assert(x.0 != k);
            } else {
                assert(rt[i - 1] == x);
                assert(rt.contains(x));
                if x != (k, v) {
                    assert(tail.contains(x) && x.0 != k);
                    let l = choose|l: int|
                        0 <= l < tail.len() && tail[l] == x;
                    assert(ps[l + 1] == x);
                    assert(ps.contains(x));
                }
            }
        }
        if x == (k, v) {
            assert(rt.contains(x));
            let l = choose|l: int| 0 <= l < rt.len() && rt[l] == x;
            assert(r[l + 1] == x);
            assert(r.contains(x));
        }
        if ps.contains(x) && x.0 != k {
            let i = choose|i: int| 0 <= i < ps.len() && ps[i] == x;
            if i == 0 {
                assert(r[0] == x);
                assert(r.contains(x));
            } else {
                assert(tail[i - 1] == x);
                assert(tail.contains(x));
                assert(rt.contains(x));
                let l = choose|l: int| 0 <= l < rt.len() && rt[l] == x;
                assert(r[l + 1] == x);
                assert(r.contains(x));
            }
        }
    }
}

/// Ascending key order makes the entry sequence canonical: two maps
/// holding the same key/value entries, in whatever order they were
/// inserted, are the same sequence.
pub proof fn lemma_map_canonical(
    p1: Seq<(Seq<u8>, FrameView)>,
    p2: Seq<(Seq<u8>, FrameView)>,
)
    requires
        keys_sorted(p1),
        keys_sorted(p2),
        forall|x: (Seq<u8>, FrameView)|
            #[trigger] p1.contains(x) <==> #[trigger] p2.contains(x),
    ensures
        p1 == p2,
    decreases p1.len(),
{
    if p1.len() == 0 {
        if p2.len() > 0 {
            assert(p2.contains(p2[0]));
            assert(p1.contains(p2[0]));
        }
        assert(p1 =~= p2);
    } else if p2.len() == 0 {
        assert(p1.contains(p1[0]));
        assert(p2.contains(p1[0]));
        assert(false);
    } else {
        assert(p1.contains(p1[0]));
        assert(p2.contains(p2[0]));
        assert(p2.contains(p1[0]));
        assert(p1.contains(p2[0]));
        let j = choose|j: int| 0 <= j < p2.len() && p2[j] == p1[0];
        let i = choose|i: int| 0 <= i < p1.len() && p1[i] == p2[0];
        if i > 0 && j > 0 {
            assert(lex_lt(p1[0].0, p1[i].0));
            assert(lex_lt(p2[0].0, p2[j].0));
            crate::order::lemma_lex_lt_trans(p1[0].0, p2[0].0, p1[0].0);
            lemma_lex_lt_irrefl(p1[0].0);
            assert(false);
        }
        assert(p1[0] == p2[0]);
        let t1 = p1.drop_first();
        let t2 = p2.drop_first();
        assert(keys_sorted(t1)) by {
            assert forall|a: int, b: int| 0 <= a < b < t1.len() implies lex_lt(
                #[trigger] t1[a].0,
                #[trigger] t1[b].0,
            ) by {
                assert(t1[a] == p1[a + 1] && t1[b] == p1[b + 1]);
            }
        }
        assert(keys_sorted(t2)) by {
            assert forall|a: int, b: int| 0 <= a < b < t2.len() implies lex_lt(
                #[trigger] t2[a].0,
                #[trigger] t2[b].0,
            ) by {
                assert(t2[a] == p2[a + 1] && t2[b] == p2[b + 1]);
            }
        }
        assert forall|x: (Seq<u8>, FrameView)| #[trigger] t1.contains(x)
            <==> #[trigger] t2.contains(x) by {
            tail_member(p1, p2, x);
            tail_member(p2, p1, x);
        }
        lemma_map_canonical(t1, t2);
        assert(p1 =~= p2) by {
            assert(forall|l: int|
                1 <= l < p1.len() ==> #[trigger] p1[l] == t1[l - 1] && t1[l
                    - 1] == t2[l - 1] && t2[l - 1] == p2[l]);
        }
    }
}

/// Membership in a sorted sequence's tail carries over to the tail of an
/// equal-membership sorted sequence with the same head.
proof fn tail_member(
    p1: Seq<(Seq<u8>, FrameView)>,
    p2: Seq<(Seq<u8>, FrameView)>,
    x: (Seq<u8>, FrameView),
)
    requires
        keys_sorted(p1),
        keys_sorted(p2),
        p1.len() > 0,
        p2.len() > 0,
        p1[0] == p2[0],
        forall|y: (Seq<u8>, FrameView)|
            #[trigger] p1.contains(y) <==> #[trigger] p2.contains(y),
    ensures
        p1.drop_first().contains(x) ==> p2.drop_first().contains(x),
{
    if p1.drop_first().contains(x) {
        let l = choose|l: int|
            0 <= l < p1.drop_first().len() && p1.drop_first()[l] == x;
        assert(p1[l + 1] == x);
        assert(p1.contains(x)) by {
            assert(p1[l + 1] == x);
        }
        assert(p2.contains(x));
        let m = choose|m: int| 0 <= m < p2.len() && p2[m] == x;
        if m == 0 {
            assert(x == p1[0]);
            assert(lex_lt(p1[0].0, p1[l + 1].0));
            lemma_lex_lt_irrefl(p1[0].0);
            assert(false);
        }
        assert(p2.drop_first()[m - 1] == x);
        assert(p2.drop_first().contains(x));
    }
}

/// Map canonical order: two well-formed maps holding the same entries
/// produce identical wire bytes.
pub proof fn lemma_map_encoding_canonical(
    p1: Seq<(Seq<u8>, FrameView)>,
    p2: Seq<(Seq<u8>, FrameView)>,
)
    requires
        FrameView::MapFrame(p1).wf(),
        FrameView::MapFrame(p2).wf(),
        forall|x: (Seq<u8>, FrameView)|
            #[trigger] p1.contains(x) <==> #[trigger] p2.contains(x),
    ensures
        p1 == p2,
        spec_encode(FrameView::MapFrame(p1)) == spec_encode(
            FrameView::MapFrame(p2),
        ),
{
    lemma_map_canonical(p1, p2);
}

/// The three null markers decode from their own distinct byte strings
/// and never into one another.
pub proof fn lemma_null_distinct()
    ensures
        spec_decode_at(seq![95u8, 13u8, 10u8], 0) == Ok::<
            (FrameView, int),
            ParseError,
        >((FrameView::Null, 3)),
        spec_decode_at(seq![42u8, 45u8, 49u8, 13u8, 10u8], 0) == Ok::<
            (FrameView, int),
            ParseError,
        >((FrameView::NullArray, 5)),
        spec_decode_at(seq![36u8, 45u8, 49u8, 13u8, 10u8], 0) == Ok::<
            (FrameView, int),
            ParseError,
        >((FrameView::NullBulkString, 5)),
        FrameView::Null != FrameView::NullArray,
        FrameView::Null != FrameView::NullBulkString,
        FrameView::NullArray != FrameView::NullBulkString,
{
    assert(spec_encode(FrameView::Null) =~= seq![95u8, 13u8, 10u8]);
    assert(spec_encode(FrameView::NullArray) =~= seq![
        42u8,
        45u8,
        49u8,
        13u8,
        10u8,
    ]);
    assert(spec_encode(FrameView::NullBulkString) =~= seq![
        36u8,
        45u8,
        49u8,
        13u8,
        10u8,
    ]);
    lemma_round_trip(FrameView::Null);
    lemma_round_trip(FrameView::NullArray);
    lemma_round_trip(FrameView::NullBulkString);
}

} // verus!
