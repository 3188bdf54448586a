//! The encoder: a total, panic-free mapping from well-formed frames to
//! their exact wire bytes, specified by [`spec_encode`].

use vstd::prelude::*;
use crate::crlf;
use crate::frame::{
    frame_view, lemma_pair_views_of, lemma_views_of, pair_views_of, views_of,
    BlukString, FrameView, RespArray, RespDouble, RespFrame, RespMap,
    RespNull, RespNullArray, RespNullBlukString, RespSet, SimpleError,
    SimpleString,
};
use crate::numbers::{dec_digits, digits_of, format_int, int_text};
use vstd::utf8::{encode_utf8, valid_utf8};

verus! {

/// The wire bytes of a frame: a one-byte type prefix, a payload, and CRLF
/// terminators as the grammar prescribes.
pub open spec fn spec_encode(v: FrameView) -> Seq<u8>
    decreases v,
{
    match v {
        FrameView::SimpleString(s) => seq![43u8] + s + crlf(),
        FrameView::Error(s) => seq![45u8] + s + crlf(),
        FrameView::Integer(i) => seq![58u8] + int_text(i) + crlf(),
        FrameView::BulkString(b) => seq![36u8] + int_text(b.len() as int)
            + crlf() + b + crlf(),
        FrameView::NullBulkString => seq![36u8, 45u8, 49u8, 13u8, 10u8],
        FrameView::Null => seq![95u8, 13u8, 10u8],
        FrameView::Array(es) => seq![42u8] + int_text(es.len() as int)
            + crlf() + enc_elems(es),
        FrameView::NullArray => seq![42u8, 45u8, 49u8, 13u8, 10u8],
        FrameView::Boolean(b) => seq![
            35u8,
            if b {
                116u8
            } else {
                102u8
            },
            13u8,
            10u8,
        ],
        FrameView::Double(d) => seq![44u8] + d + crlf(),
        FrameView::MapFrame(ps) => seq![37u8] + int_text(ps.len() as int)
            + crlf() + enc_pairs(ps),
        FrameView::SetFrame(es) => seq![126u8] + int_text(es.len() as int)
            + crlf() + enc_elems(es),
    }
}

/// The concatenated encodings of a sequence of frames.
pub open spec fn enc_elems(es: Seq<FrameView>) -> Seq<u8>
    decreases es,
{
    if es.len() == 0 {
        Seq::empty()
    } else {
        spec_encode(es.first()) + enc_elems(es.drop_first())
    }
}

/// A map key on the wire: encoded exactly like a bulk string.
pub open spec fn enc_key(k: Seq<u8>) -> Seq<u8> {
    seq![36u8] + int_text(k.len() as int) + crlf() + k + crlf()
}

/// The concatenated encodings of a sequence of map entries, key then
/// value.
pub open spec fn enc_pairs(ps: Seq<(Seq<u8>, FrameView)>) -> Seq<u8>
    decreases ps,
{
    if ps.len() == 0 {
        Seq::empty()
    } else {
        enc_key(ps.first().0) + spec_encode(ps.first().1) + enc_pairs(
            ps.drop_first(),
        )
    }
}

/// Appending one frame appends its encoding.
pub proof fn lemma_enc_elems_push(es: Seq<FrameView>, x: FrameView)
    ensures
        enc_elems(es.push(x)) == enc_elems(es) + spec_encode(x),
    decreases es,
{
    if es.len() == 0 {
        assert(es.push(x).first() == x);
        assert(es.push(x).drop_first() =~= Seq::<FrameView>::empty());
        assert(enc_elems(Seq::<FrameView>::empty()) =~= Seq::<u8>::empty());
        assert(es =~= Seq::<FrameView>::empty());
        assert(enc_elems(es.push(x)) =~= enc_elems(es) + spec_encode(x));
    } else {
        assert(es.push(x).drop_first() =~= es.drop_first().push(x));
        lemma_enc_elems_push(es.drop_first(), x);
        assert(enc_elems(es.push(x)) =~= enc_elems(es) + spec_encode(x));
    }
}

/// Appending one entry appends its key and value encodings.
pub proof fn lemma_enc_pairs_push(
    ps: Seq<(Seq<u8>, FrameView)>,
    x: (Seq<u8>, FrameView),
)
    ensures
        enc_pairs(ps.push(x)) == enc_pairs(ps) + enc_key(x.0) + spec_encode(
            x.1,
        ),
    decreases ps,
{
    if ps.len() == 0 {
        assert(ps.push(x).first() == x);
        assert(ps.push(x).drop_first() =~= Seq::<(Seq<u8>, FrameView)>::empty());
        assert(enc_pairs(Seq::<(Seq<u8>, FrameView)>::empty())
            =~= Seq::<u8>::empty());
        assert(ps =~= Seq::<(Seq<u8>, FrameView)>::empty());
        assert(enc_pairs(ps.push(x)) =~= enc_pairs(ps) + enc_key(x.0)
            + spec_encode(x.1));
    } else {
        assert(ps.push(x).drop_first() =~= ps.drop_first().push(x));
        lemma_enc_pairs_push(ps.drop_first(), x);
        assert(enc_pairs(ps.push(x)) =~= enc_pairs(ps) + enc_key(x.0)
            + spec_encode(x.1));
    }
}

/// Appends a CRLF terminator.
fn push_crlf(out: &mut Vec<u8>)
    ensures
        final(out)@ == old(out)@ + crlf(),
{
    out.push(13);
    out.push(10);
    proof {
        assert(out@ =~= old(out)@ + crlf());
    }
}

/// Appends the encodings of the frames of `v`, in order.
#[verifier::loop_isolation(false)]
fn encode_elems_into(v: &Vec<RespFrame>, out: &mut Vec<u8>)
    requires
        forall|j: int|
            0 <= j < v@.len() ==> (#[trigger] frame_view(v@[j])).wf(),
    ensures
        final(out)@ == old(out)@ + enc_elems(views_of(v@)),
    decreases v@,
{
    proof {
        lemma_views_of(v@);
    }
    let ghost base = out@;
    let n = v.len();
    for i in 0..n
        invariant
            n == v@.len(),
            out@ == base + enc_elems(views_of(v@).take(i as int)),
    {
        encode_into(&v[i], out);
        proof {
            assert(views_of(v@).take(i + 1) =~= views_of(v@).take(
                i as int,
            ).push(frame_view(v@[i as int])));
            lemma_enc_elems_push(
                views_of(v@).take(i as int),
                frame_view(v@[i as int]),
            );
            assert(out@ =~= base + enc_elems(views_of(v@).take(i + 1)));
        }
    }
    proof {
        assert(views_of(v@).take(n as int) =~= views_of(v@));
    }
}

/// Appends the encodings of the entries of `v`: each key as a bulk
/// string, then its value.
#[verifier::loop_isolation(false)]
fn encode_pairs_into(v: &Vec<(String, RespFrame)>, out: &mut Vec<u8>)
    requires
        forall|j: int|
            0 <= j < v@.len() ==> (#[trigger] frame_view(v@[j].1)).wf(),
    ensures
        final(out)@ == old(out)@ + enc_pairs(pair_views_of(v@)),
    decreases v@,
{
    proof {
        lemma_pair_views_of(v@);
    }
    let ghost base = out@;
    let n = v.len();
    for i in 0..n
        invariant
            n == v@.len(),
            out@ == base + enc_pairs(pair_views_of(v@).take(i as int)),
    {
        let kb = v[i].0.as_str().as_bytes();
        out.push(36);
        let mut kd = digits_of(kb.len() as u64);
        out.append(&mut kd);
        push_crlf(out);
        out.extend_from_slice(kb);
        push_crlf(out);
        proof {
            assert(int_text(kb@.len() as int) == dec_digits(
                kb@.len() as nat,
            ));
            assert(out@ =~= base + enc_pairs(
                pair_views_of(v@).take(i as int),
            ) + enc_key(pair_views_of(v@)[i as int].0));
        }
        let ghost mid = out@;
        encode_into(&v[i].1, out);
        proof {
            assert(pair_views_of(v@).take(i + 1) =~= pair_views_of(v@).take(
                i as int,
            ).push(pair_views_of(v@)[i as int]));
            lemma_enc_pairs_push(
                pair_views_of(v@).take(i as int),
                pair_views_of(v@)[i as int],
            );
            assert(out@ =~= base + enc_pairs(
                pair_views_of(v@).take(i + 1),
            ));
        }
    }
    proof {
        assert(pair_views_of(v@).take(n as int) =~= pair_views_of(v@));
    }
}

/// Appends the encoding of `f` to `out`.
#[verifier::loop_isolation(false)]
#[verifier::rlimit(50)]
fn encode_into(f: &RespFrame, out: &mut Vec<u8>)
    requires
        frame_view(*f).wf(),
    ensures
        final(out)@ == old(out)@ + spec_encode(frame_view(*f)),
    decreases *f,
{
    match f {
        RespFrame::SimpleString(s) => {
            out.push(43);
            out.extend_from_slice(s.0.as_str().as_bytes());
            push_crlf(out);
            proof {
                assert(out@ =~= old(out)@ + spec_encode(frame_view(*f)));
            }
        },
        RespFrame::Error(s) => {
            out.push(45);
            out.extend_from_slice(s.0.as_str().as_bytes());
            push_crlf(out);
            proof {
                assert(out@ =~= old(out)@ + spec_encode(frame_view(*f)));
            }
        },
        RespFrame::Integer(v) => {
            out.push(58);
            let mut d = format_int(*v);
            out.append(&mut d);
            push_crlf(out);
            proof {
                assert(out@ =~= old(out)@ + spec_encode(frame_view(*f)));
            }
        },
        RespFrame::BlukString(b) => {
            out.push(36);
            let mut d = digits_of(b.0.len() as u64);
            out.append(&mut d);
            push_crlf(out);
            out.extend_from_slice(b.0.as_slice());
            push_crlf(out);
            proof {
                assert(int_text(b.0@.len() as int) == dec_digits(
                    b.0@.len() as nat,
                ));
                assert(out@ =~= old(out)@ + spec_encode(frame_view(*f)));
            }
        },
        RespFrame::NullBlukString(_) => {
            out.push(36);
            out.push(45);
            out.push(49);
            out.push(13);
            out.push(10);
            proof {
                assert(out@ =~= old(out)@ + spec_encode(frame_view(*f)));
            }
        },
        RespFrame::Null(_) => {
            out.push(95);
            out.push(13);
            out.push(10);
            proof {
                assert(out@ =~= old(out)@ + spec_encode(frame_view(*f)));
            }
        },
        RespFrame::Array(a) => {
            out.push(42);
            let mut d = digits_of(a.0.len() as u64);
            out.append(&mut d);
            push_crlf(out);
            proof {
                lemma_views_of(a.0@);
                assert(frame_view(*f) == FrameView::Array(views_of(a.0@)));
                assert(FrameView::Array(views_of(a.0@)).wf());
                assert forall|j: int| 0 <= j < a.0@.len() implies (
                #[trigger] frame_view(a.0@[j])).wf() by {
                    crate::frame::lemma_elem_wf(views_of(a.0@), j);
                }
            }
            encode_elems_into(&a.0, out);
            proof {
                assert(int_text(a.0@.len() as int) == dec_digits(
                    a.0@.len() as nat,
                ));
                assert(out@ =~= old(out)@ + spec_encode(frame_view(*f)));
            }
        },
        RespFrame::NullArray(_) => {
            out.push(42);
            out.push(45);
            out.push(49);
            out.push(13);
            out.push(10);
            proof {
                assert(out@ =~= old(out)@ + spec_encode(frame_view(*f)));
            }
        },
        RespFrame::Boolean(b) => {
            out.push(35);
            if *b {
                out.push(116);
            } else {
                out.push(102);
            }
            out.push(13);
            out.push(10);
            proof {
                assert(out@ =~= old(out)@ + spec_encode(frame_view(*f)));
            }
        },
        RespFrame::Double(d) => {
            out.push(44);
            out.extend_from_slice(d.0.as_slice());
            push_crlf(out);
            proof {
                assert(out@ =~= old(out)@ + spec_encode(frame_view(*f)));
            }
        },
        RespFrame::MapFrame(m) => {
            out.push(37);
            let mut d = digits_of(m.0.len() as u64);
            out.append(&mut d);
            push_crlf(out);
            proof {
                lemma_pair_views_of(m.0@);
                assert(frame_view(*f) == FrameView::MapFrame(
                    pair_views_of(m.0@),
                ));
                assert(FrameView::MapFrame(pair_views_of(m.0@)).wf());
                assert forall|j: int| 0 <= j < m.0@.len() implies (
                #[trigger] frame_view(m.0@[j].1)).wf() by {
                    crate::frame::lemma_entry_wf(pair_views_of(m.0@), j);
                }
            }
            encode_pairs_into(&m.0, out);
            proof {
                assert(int_text(m.0@.len() as int) == dec_digits(
                    m.0@.len() as nat,
                ));
                assert(out@ =~= old(out)@ + spec_encode(frame_view(*f)));
            }
        },
        RespFrame::SetFrame(s) => {
            out.push(126);
            let mut d = digits_of(s.0.len() as u64);
            out.append(&mut d);
            push_crlf(out);
            proof {
                lemma_views_of(s.0@);
                assert(frame_view(*f) == FrameView::SetFrame(views_of(s.0@)));
                assert(FrameView::SetFrame(views_of(s.0@)).wf());
                assert forall|j: int| 0 <= j < s.0@.len() implies (
                #[trigger] frame_view(s.0@[j])).wf() by {
                    crate::frame::lemma_elem_wf(views_of(s.0@), j);
                }
            }
            encode_elems_into(&s.0, out);
            proof {
                assert(int_text(s.0@.len() as int) == dec_digits(
                    s.0@.len() as nat,
                ));
                assert(out@ =~= old(out)@ + spec_encode(frame_view(*f)));
            }
        },
    }
}

/// A value with a wire encoding. Each implementing type stands for one
/// frame; `encode` produces exactly that frame's wire bytes.
pub trait RespEncode: Sized {
    /// The frame this value stands for.
    spec fn frame(&self) -> FrameView;

    /// The wire bytes of this value.
    fn encode(self) -> (r: Vec<u8>)
        requires
            self.frame().wf(),
        ensures
            r@ == spec_encode(self.frame()),
    ;
}

impl RespEncode for RespFrame {
    open spec fn frame(&self) -> FrameView {
        frame_view(*self)
    }

    fn encode(self) -> (r: Vec<u8>) {
        let mut out: Vec<u8> = Vec::new();
        encode_into(&self, &mut out);
        proof {
            assert(out@ =~= spec_encode(frame_view(self)));
        }
        out
    }
}

impl RespEncode for SimpleString {
    open spec fn frame(&self) -> FrameView {
        FrameView::SimpleString(self@)
    }

    fn encode(self) -> (r: Vec<u8>) {
        RespFrame::SimpleString(self).encode()
    }
}

impl RespEncode for SimpleError {
    open spec fn frame(&self) -> FrameView {
        FrameView::Error(self@)
    }

    fn encode(self) -> (r: Vec<u8>) {
        RespFrame::Error(self).encode()
    }
}

impl RespEncode for BlukString {
    open spec fn frame(&self) -> FrameView {
        FrameView::BulkString(self@)
    }

    fn encode(self) -> (r: Vec<u8>) {
        RespFrame::BlukString(self).encode()
    }
}

impl RespEncode for RespNull {
    open spec fn frame(&self) -> FrameView {
        FrameView::Null
    }

    fn encode(self) -> (r: Vec<u8>) {
        RespFrame::Null(self).encode()
    }
}

impl RespEncode for RespNullArray {
    open spec fn frame(&self) -> FrameView {
        FrameView::NullArray
    }

    fn encode(self) -> (r: Vec<u8>) {
        RespFrame::NullArray(self).encode()
    }
}

impl RespEncode for RespNullBlukString {
    open spec fn frame(&self) -> FrameView {
        FrameView::NullBulkString
    }

    fn encode(self) -> (r: Vec<u8>) {
        RespFrame::NullBlukString(self).encode()
    }
}

impl RespEncode for RespDouble {
    open spec fn frame(&self) -> FrameView {
        FrameView::Double(self@)
    }

    fn encode(self) -> (r: Vec<u8>) {
        RespFrame::Double(self).encode()
    }
}

impl RespEncode for RespArray {
    open spec fn frame(&self) -> FrameView {
        FrameView::Array(self@)
    }

    fn encode(self) -> (r: Vec<u8>) {
        RespFrame::Array(self).encode()
    }
}

impl RespEncode for RespMap {
    open spec fn frame(&self) -> FrameView {
        FrameView::MapFrame(self@)
    }

    fn encode(self) -> (r: Vec<u8>) {
        RespFrame::MapFrame(self).encode()
    }
}

impl RespEncode for RespSet {
    open spec fn frame(&self) -> FrameView {
        FrameView::SetFrame(self@)
    }

    fn encode(self) -> (r: Vec<u8>) {
        RespFrame::SetFrame(self).encode()
    }
}

impl RespEncode for i64 {
    open spec fn frame(&self) -> FrameView {
        FrameView::Integer(*self as int)
    }

    fn encode(self) -> (r: Vec<u8>) {
        RespFrame::Integer(self).encode()
    }
}

impl RespEncode for bool {
    open spec fn frame(&self) -> FrameView {
        FrameView::Boolean(*self)
    }

    fn encode(self) -> (r: Vec<u8>) {
        RespFrame::Boolean(self).encode()
    }
}

} // verus!
