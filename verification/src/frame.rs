//! The protocol value model: a closed, tagged union of every protocol
//! value variant, together with its mathematical view and the
//! well-formedness conditions that encoding relies on.

use vstd::prelude::*;
use vstd::string::StringSliceAdditionalSpecFns;
use vstd::utf8::{encode_utf8, valid_utf8};
use crate::order::lex_lt;
use crate::numbers::double_text_ok;

verus! {

/// Mathematical view of a frame: text and blob payloads as byte
/// sequences, containers as sequences of child views, map entries as
/// key/value pairs in ascending key order.
pub enum FrameView {
    SimpleString(Seq<u8>),
    Error(Seq<u8>),
    Integer(int),
    BulkString(Seq<u8>),
    NullBulkString,
    Null,
    Array(Seq<FrameView>),
    NullArray,
    Boolean(bool),
    Double(Seq<u8>),
    MapFrame(Seq<(Seq<u8>, FrameView)>),
    SetFrame(Seq<FrameView>),
}

/// Text that may stand on a protocol line: no carriage return, no line
/// feed.
pub open spec fn text_ok(s: Seq<u8>) -> bool {
    forall|i: int| 0 <= i < s.len() ==> #[trigger] s[i] != 13 && s[i] != 10
}

/// Map entries carry unique keys in strictly ascending byte order.
pub open spec fn keys_sorted(ps: Seq<(Seq<u8>, FrameView)>) -> bool {
    forall|i: int, j: int|
        0 <= i < j < ps.len() ==> #[trigger] lex_lt(ps[i].0, ps[j].0)
}

impl FrameView {
    /// Well-formedness: every payload obeys its variant's construction
    /// rules, recursively.
    pub open spec fn wf(self) -> bool
        decreases self,
    {
        match self {
            FrameView::SimpleString(s) => valid_utf8(s) && text_ok(s),
            FrameView::Error(s) => valid_utf8(s) && text_ok(s),
            FrameView::Integer(v) => i64::MIN <= v <= i64::MAX,
            FrameView::BulkString(_) => true,
            FrameView::NullBulkString => true,
            FrameView::Null => true,
            FrameView::Array(es) => all_wf(es),
            FrameView::NullArray => true,
            FrameView::Boolean(_) => true,
            FrameView::Double(d) => double_text_ok(d),
            FrameView::MapFrame(ps) => keys_sorted(ps) && entries_wf(ps),
            FrameView::SetFrame(es) => all_wf(es),
        }
    }
}

/// Every frame of the sequence is well formed.
pub open spec fn all_wf(es: Seq<FrameView>) -> bool
    decreases es,
{
    if es.len() == 0 {
        true
    } else {
        es.first().wf() && all_wf(es.drop_first())
    }
}

/// Every entry carries a UTF-8 key and a well-formed value.
pub open spec fn entries_wf(ps: Seq<(Seq<u8>, FrameView)>) -> bool
    decreases ps,
{
    if ps.len() == 0 {
        true
    } else {
        valid_utf8(ps.first().0) && ps.first().1.wf() && entries_wf(
            ps.drop_first(),
        )
    }
}

/// [`all_wf`] says exactly that each frame is well formed.
pub proof fn lemma_all_wf(es: Seq<FrameView>)
    ensures
        all_wf(es) == (forall|i: int|
            0 <= i < es.len() ==> (#[trigger] es[i]).wf()),
    decreases es,
{
    if es.len() > 0 {
        lemma_all_wf(es.drop_first());
        if es.first().wf() && all_wf(es.drop_first()) {
            assert forall|i: int| 0 <= i < es.len() implies (
            #[trigger] es[i]).wf() by {
                if i > 0 {
                    assert(es[i] == es.drop_first()[i - 1]);
                }
            }
        }
        if forall|i: int| 0 <= i < es.len() ==> (#[trigger] es[i]).wf() {
            assert forall|i: int| 0 <= i < es.drop_first().len() implies (
            #[trigger] es.drop_first()[i]).wf() by {
                assert(es.drop_first()[i] == es[i + 1]);
            }
        }
    }
}

/// [`entries_wf`] says exactly that each entry is well formed.
pub proof fn lemma_entries_wf(ps: Seq<(Seq<u8>, FrameView)>)
    ensures
        entries_wf(ps) == (forall|i: int|
            0 <= i < ps.len() ==> valid_utf8(#[trigger] ps[i].0)
                && ps[i].1.wf()),
    decreases ps,
{
    if ps.len() > 0 {
        lemma_entries_wf(ps.drop_first());
        if valid_utf8(ps.first().0) && ps.first().1.wf() && entries_wf(
            ps.drop_first(),
        ) {
            assert forall|i: int| 0 <= i < ps.len() implies valid_utf8(
                #[trigger] ps[i].0,
            ) && ps[i].1.wf() by {
                if i > 0 {
                    assert(ps[i] == ps.drop_first()[i - 1]);
                }
            }
        }
        if forall|i: int|
            0 <= i < ps.len() ==> valid_utf8(#[trigger] ps[i].0)
                && ps[i].1.wf() {
            assert forall|i: int| 0 <= i < ps.drop_first().len()
                implies valid_utf8(#[trigger] ps.drop_first()[i].0)
                && ps.drop_first()[i].1.wf() by {
                assert(ps.drop_first()[i] == ps[i + 1]);
            }
        }
    }
}

/// A well-formed container's children are well formed.
pub proof fn lemma_elem_wf(es: Seq<FrameView>, i: int)
    requires
        FrameView::Array(es).wf() || FrameView::SetFrame(es).wf(),
        0 <= i < es.len(),
    ensures
        es[i].wf(),
{
    lemma_all_wf(es);
}

/// A well-formed map's keys are UTF-8 and its values well formed.
pub proof fn lemma_entry_wf(ps: Seq<(Seq<u8>, FrameView)>, i: int)
    requires
        FrameView::MapFrame(ps).wf(),
        0 <= i < ps.len(),
    ensures
        valid_utf8(ps[i].0),
        ps[i].1.wf(),
{
    lemma_entries_wf(ps);
    assert(valid_utf8(ps[i].0) && ps[i].1.wf());
}

/// A line-terminated text payload: UTF-8 text without CR or LF.
#[derive(Debug, Clone, PartialEq)]
pub struct SimpleString(pub String);

/// An error report on the wire; same payload rules as a simple string.
#[derive(Debug, Clone, PartialEq)]
pub struct SimpleError(pub String);

/// A length-prefixed blob; may contain any byte.
#[derive(Debug, Clone, PartialEq)]
pub struct BlukString(pub Vec<u8>);

/// The canonical null marker.
#[derive(Debug, Clone, PartialEq, Eq, Structural)]
pub struct RespNull;

/// The legacy-shaped null marker for arrays.
#[derive(Debug, Clone, PartialEq, Eq, Structural)]
pub struct RespNullArray;

/// The legacy-shaped null marker for bulk strings.
#[derive(Debug, Clone, PartialEq, Eq, Structural)]
pub struct RespNullBlukString;

/// A textual double: `inf`, `-inf`, `nan`, or a finite decimal, kept
/// exactly as it stands on the wire.
#[derive(Debug, Clone, PartialEq)]
pub struct RespDouble(pub Vec<u8>);

/// An ordered sequence of frames.
#[derive(Debug, PartialEq)]
pub struct RespArray(pub Vec<RespFrame>);

/// A mapping from text keys to frames, kept in ascending key order;
/// inserting an existing key overwrites its value.
#[derive(Debug, PartialEq)]
pub struct RespMap(pub Vec<(String, RespFrame)>);

/// An ordered sequence of frames; de-duplication is the caller's
/// responsibility.
#[derive(Debug, PartialEq)]
pub struct RespSet(pub Vec<RespFrame>);

/// One protocol value.
#[derive(Debug, PartialEq)]
pub enum RespFrame {
    SimpleString(SimpleString),
    Error(SimpleError),
    Integer(i64),
    BlukString(BlukString),
    NullBlukString(RespNullBlukString),
    Null(RespNull),
    Array(RespArray),
    NullArray(RespNullArray),
    Boolean(bool),
    Double(RespDouble),
    MapFrame(RespMap),
    SetFrame(RespSet),
}

/// The view of a frame.
pub open spec fn frame_view(f: RespFrame) -> FrameView
    decreases f,
{
    match f {
        RespFrame::SimpleString(s) => FrameView::SimpleString(
            encode_utf8(s.0@),
        ),
        RespFrame::Error(s) => FrameView::Error(encode_utf8(s.0@)),
        RespFrame::Integer(v) => FrameView::Integer(v as int),
        RespFrame::BlukString(b) => FrameView::BulkString(b.0@),
        RespFrame::NullBlukString(_) => FrameView::NullBulkString,
        RespFrame::Null(_) => FrameView::Null,
        RespFrame::Array(a) => FrameView::Array(views_of(a.0@)),
        RespFrame::NullArray(_) => FrameView::NullArray,
        RespFrame::Boolean(b) => FrameView::Boolean(b),
        RespFrame::Double(d) => FrameView::Double(d.0@),
        RespFrame::MapFrame(m) => FrameView::MapFrame(pair_views_of(m.0@)),
        RespFrame::SetFrame(s) => FrameView::SetFrame(views_of(s.0@)),
    }
}

/// The views of a sequence of frames, in order.
pub open spec fn views_of(s: Seq<RespFrame>) -> Seq<FrameView>
    decreases s,
{
    if s.len() == 0 {
        Seq::empty()
    } else {
        seq![frame_view(s.first())] + views_of(s.drop_first())
    }
}

/// The views of a sequence of map entries, in order.
pub open spec fn pair_views_of(s: Seq<(String, RespFrame)>) -> Seq<
    (Seq<u8>, FrameView),
>
    decreases s,
{
    if s.len() == 0 {
        Seq::empty()
    } else {
        seq![(encode_utf8(s.first().0@), frame_view(s.first().1))]
            + pair_views_of(s.drop_first())
    }
}

/// Inserting a key into an ascending entry sequence: before the first
/// key that is not smaller; an equal key is overwritten in place.
pub open spec fn sorted_insert(
    ps: Seq<(Seq<u8>, FrameView)>,
    k: Seq<u8>,
    v: FrameView,
) -> Seq<(Seq<u8>, FrameView)>
    decreases ps.len(),
{
    if ps.len() == 0 {
        seq![(k, v)]
    } else if lex_lt(k, ps[0].0) {
        seq![(k, v)] + ps
    } else if k == ps[0].0 {
        seq![(k, v)] + ps.drop_first()
    } else {
        seq![ps[0]] + sorted_insert(ps.drop_first(), k, v)
    }
}

/// The view of a frame sequence extended by one frame.
pub proof fn lemma_views_push(s: Seq<RespFrame>, x: RespFrame)
    ensures
        views_of(s.push(x)) == views_of(s).push(frame_view(x)),
    decreases s,
{
    if s.len() == 0 {
        assert(s.push(x).drop_first() =~= Seq::<RespFrame>::empty());
        assert(views_of(Seq::<RespFrame>::empty())
            =~= Seq::<FrameView>::empty());
        assert(s =~= Seq::<RespFrame>::empty());
        assert(views_of(s.push(x)) =~= views_of(s).push(frame_view(x)));
    } else {
        assert(s.push(x).drop_first() =~= s.drop_first().push(x));
        lemma_views_push(s.drop_first(), x);
        assert(views_of(s.push(x)) =~= views_of(s).push(frame_view(x)));
    }
}

/// Indexing facts for the views of a frame sequence.
pub proof fn lemma_views_of(s: Seq<RespFrame>)
    ensures
        views_of(s).len() == s.len(),
        forall|i: int|
            0 <= i < s.len() ==> #[trigger] views_of(s)[i] == frame_view(s[i]),
    decreases s,
{
    if s.len() > 0 {
        lemma_views_of(s.drop_first());
    }
}

/// Indexing facts for the views of a map entry sequence.
pub proof fn lemma_pair_views_of(s: Seq<(String, RespFrame)>)
    ensures
        pair_views_of(s).len() == s.len(),
        forall|i: int|
            0 <= i < s.len() ==> #[trigger] pair_views_of(s)[i] == (
                encode_utf8(s[i].0@),
                frame_view(s[i].1),
            ),
    decreases s,
{
    if s.len() > 0 {
        lemma_pair_views_of(s.drop_first());
    }
}

impl View for RespFrame {
    type V = FrameView;

    open spec fn view(&self) -> FrameView {
        frame_view(*self)
    }
}

impl View for SimpleString {
    type V = Seq<u8>;

    open spec fn view(&self) -> Seq<u8> {
        encode_utf8(self.0@)
    }
}

impl View for SimpleError {
    type V = Seq<u8>;

    open spec fn view(&self) -> Seq<u8> {
        encode_utf8(self.0@)
    }
}

impl View for BlukString {
    type V = Seq<u8>;

    open spec fn view(&self) -> Seq<u8> {
        self.0@
    }
}

impl View for RespDouble {
    type V = Seq<u8>;

    open spec fn view(&self) -> Seq<u8> {
        self.0@
    }
}

impl View for RespArray {
    type V = Seq<FrameView>;

    open spec fn view(&self) -> Seq<FrameView> {
        views_of(self.0@)
    }
}

impl View for RespSet {
    type V = Seq<FrameView>;

    open spec fn view(&self) -> Seq<FrameView> {
        views_of(self.0@)
    }
}

impl View for RespMap {
    type V = Seq<(Seq<u8>, FrameView)>;

    open spec fn view(&self) -> Seq<(Seq<u8>, FrameView)> {
        pair_views_of(self.0@)
    }
}

impl SimpleString {
    /// Wraps line-safe text: the caller guarantees it holds no CR or LF.
    pub fn new(s: String) -> (r: SimpleString)
        requires
            text_ok(encode_utf8(s@)),
        ensures
            r@ == encode_utf8(s@),
    {
        SimpleString(s)
    }

    /// The text carried.
    pub fn as_str(&self) -> (r: &str)
        ensures
            r@ == self.0@,
            encode_utf8(r@) == self@,
    {
        self.0.as_str()
    }
}

impl SimpleError {
    /// Wraps line-safe text: the caller guarantees it holds no CR or LF.
    pub fn new(s: String) -> (r: SimpleError)
        requires
            text_ok(encode_utf8(s@)),
        ensures
            r@ == encode_utf8(s@),
    {
        SimpleError(s)
    }

    /// The text carried.
    pub fn as_str(&self) -> (r: &str)
        ensures
            r@ == self.0@,
            encode_utf8(r@) == self@,
    {
        self.0.as_str()
    }
}

impl BlukString {
    /// Wraps a blob of bytes; any content is allowed.
    pub fn new(s: Vec<u8>) -> (r: BlukString)
        ensures
            r@ == s@,
    {
        BlukString(s)
    }

    /// The bytes carried.
    pub fn as_bytes(&self) -> (r: &Vec<u8>)
        ensures
            r@ == self@,
    {
        &self.0
    }
}

impl RespDouble {
    /// Accepts exactly the valid textual doubles: `inf`, `-inf`, `nan`,
    /// or a finite decimal with optional sign, fraction and exponent.
    pub fn try_new(s: &str) -> (r: Option<RespDouble>)
        ensures
            r is Some <==> double_text_ok(s.spec_bytes()),
            r matches Some(d) ==> d@ == s.spec_bytes(),
    {
        let b = s.as_bytes();
        if crate::numbers::check_double_text(b, 0, b.len()) {
            proof {
                assert(b@.subrange(0, b@.len() as int) =~= b@);
            }
            Some(RespDouble(vstd::slice::slice_to_vec(b)))
        } else {
            proof {
                assert(b@.subrange(0, b@.len() as int) =~= b@);
            }
            None
        }
    }

    /// The wire text carried.
    pub fn as_bytes(&self) -> (r: &Vec<u8>)
        ensures
            r@ == self@,
    {
        &self.0
    }
}

impl RespArray {
    /// Wraps an ordered sequence of frames.
    pub fn new(s: Vec<RespFrame>) -> (r: RespArray)
        ensures
            r@ == views_of(s@),
    {
        RespArray(s)
    }

    /// The frames carried, in order.
    pub fn elems(&self) -> (r: &Vec<RespFrame>)
        ensures
            self@ == views_of(r@),
    {
        &self.0
    }
}

impl RespSet {
    /// Wraps an ordered sequence of frames; duplicates are kept.
    pub fn new(s: Vec<RespFrame>) -> (r: RespSet)
        ensures
            r@ == views_of(s@),
    {
        RespSet(s)
    }

    /// The frames carried, in order.
    pub fn elems(&self) -> (r: &Vec<RespFrame>)
        ensures
            self@ == views_of(r@),
    {
        &self.0
    }
}

} // verus!
