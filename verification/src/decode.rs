//! The decoder: a total, panic-free mapping from a byte buffer to a frame
//! and the number of bytes consumed, or a typed parse error. The exec
//! decoder implements [`spec_decode_at`] exactly, errors included.

use vstd::prelude::*;
use vstd::slice::{slice_subrange, slice_to_vec};
use vstd::utf8::{decode_utf8, encode_utf8, valid_utf8};
use crate::frame::{
    frame_view, pair_views_of, sorted_insert, views_of, lemma_views_push,
    BlukString, FrameView, RespArray, RespDouble, RespFrame, RespMap,
    RespNull, RespNullArray, RespNullBlukString, RespSet, SimpleError,
    SimpleString,
};
use crate::map::{insert_pair, lemma_sorted_insert_wf};
use crate::numbers::{double_text_ok, int_line_ok, int_line_val,
    parse_int_line};

verus! {

/// Why a buffer failed to decode.
#[derive(Debug, Clone, Copy, PartialEq, Eq, Structural)]
pub enum ParseError {
    /// The buffer ends before a required terminator or byte count.
    Incomplete,
    /// A text payload is not valid protocol text: not UTF-8, or a stray
    /// CR or LF inside a line.
    InvalidUtf8,
    /// An integer, length or count field is not a well-formed decimal, or
    /// overflows the target width.
    InvalidNumber,
    /// A byte where a type prefix or a fixed payload byte was expected
    /// does not match anything recognized.
    UnknownType { byte: u8, offset: usize },
    /// A declared bulk length does not match the terminated body.
    LengthMismatch,
}

/// Outcome of scanning for the next line terminator.
pub enum LineStep {
    /// A CRLF pair: the line's payload ends at `cut`, the next position
    /// is `end`.
    Found { cut: int, end: int },
    /// No CR or LF before the buffer ends (or a CR cut off at the very
    /// end): the line is incomplete.
    NoBreak,
    /// A lone LF, or a CR not followed by LF: the line is malformed.
    Broken,
}

/// Scans forward from `pos` for the first CR or LF.
pub open spec fn line_break(b: Seq<u8>, pos: int) -> LineStep
    decreases b.len() - pos,
{
    if pos < 0 || pos >= b.len() {
        LineStep::NoBreak
    } else if b[pos] == 13 {
        if pos + 1 >= b.len() {
            LineStep::NoBreak
        } else if b[pos + 1] == 10 {
            LineStep::Found { cut: pos, end: pos + 2 }
        } else {
            LineStep::Broken
        }
    } else if b[pos] == 10 {
        LineStep::Broken
    } else {
        line_break(b, pos + 1)
    }
}

/// The positions a found line break can take.
pub proof fn lemma_line_break_bounds(b: Seq<u8>, pos: int)
    requires
        0 <= pos,
    ensures
        line_break(b, pos) matches LineStep::Found { cut, end } ==> pos <= cut
            && end == cut + 2 && end <= b.len() && b[cut] == 13 && b[cut + 1]
            == 10 && forall|j: int|
            pos <= j < cut ==> #[trigger] b[j] != 13 && b[j] != 10,
    decreases b.len() - pos,
{
    if 0 <= pos < b.len() && b[pos] != 13 && b[pos] != 10 {
        lemma_line_break_bounds(b, pos + 1);
    }
}

/// The payload of a found line holds no CR and no LF.
pub proof fn lemma_line_payload_clean(b: Seq<u8>, pos: int)
    requires
        0 <= pos,
        line_break(b, pos) is Found,
    ensures
        line_break(b, pos) matches LineStep::Found { cut, end }
            ==> crate::frame::text_ok(b.subrange(pos, cut)),
{
    lemma_line_break_bounds(b, pos);
    if let LineStep::Found { cut, end } = line_break(b, pos) {
        let s = b.subrange(pos, cut);
        assert forall|i: int| 0 <= i < s.len() implies #[trigger] s[i] != 13
            && s[i] != 10 by {
            assert(s[i] == b[pos + i]);
        }
    }
}

/// An integer line value that fits a signed 64-bit integer.
pub open spec fn int_line_fits(s: Seq<u8>) -> bool {
    int_line_ok(s) && i64::MIN <= int_line_val(s) <= i64::MAX
}

/// Decodes one frame at `pos`: the exact mapping the decoder implements.
pub open spec fn spec_decode_at(b: Seq<u8>, pos: int) -> Result<
    (FrameView, int),
    ParseError,
>
    decreases b.len() - pos, 0int,
{
    if pos < 0 || pos >= b.len() {
        Err(ParseError::Incomplete)
    } else {
        let p = b[pos];
        if p == 43 {  // '+'
            match line_break(b, pos + 1) {
                LineStep::Found { cut, end } => {
                    let s = b.subrange(pos + 1, cut);
                    if valid_utf8(s) {
                        Ok((FrameView::SimpleString(s), end))
                    } else {
                        Err(ParseError::InvalidUtf8)
                    }
                },
                LineStep::NoBreak => Err(ParseError::Incomplete),
                LineStep::Broken => Err(ParseError::InvalidUtf8),
            }
        } else if p == 45 {  // '-'
            match line_break(b, pos + 1) {
                LineStep::Found { cut, end } => {
                    let s = b.subrange(pos + 1, cut);
                    if valid_utf8(s) {
                        Ok((FrameView::Error(s), end))
                    } else {
                        Err(ParseError::InvalidUtf8)
                    }
                },
                LineStep::NoBreak => Err(ParseError::Incomplete),
                LineStep::Broken => Err(ParseError::InvalidUtf8),
            }
        } else if p == 58 {  // ':'
            match line_break(b, pos + 1) {
                LineStep::Found { cut, end } => {
                    let s = b.subrange(pos + 1, cut);
                    if int_line_fits(s) {
                        Ok((FrameView::Integer(int_line_val(s)), end))
                    } else {
                        Err(ParseError::InvalidNumber)
                    }
                },
                LineStep::NoBreak => Err(ParseError::Incomplete),
                LineStep::Broken => Err(ParseError::InvalidNumber),
            }
        } else if p == 36 {  // '$'
            match line_break(b, pos + 1) {
                LineStep::Found { cut, end } => {
                    let s = b.subrange(pos + 1, cut);
                    if int_line_fits(s) {
                        let l = int_line_val(s);
                        if l == -1 {
                            Ok((FrameView::NullBulkString, end))
                        } else if l < 0 {
                            Err(ParseError::InvalidNumber)
                        } else if end + l + 2 > b.len() {
                            Err(ParseError::Incomplete)
                        } else if b[end + l] == 13 && b[end + l + 1] == 10 {
                            Ok(
                                (
                                    FrameView::BulkString(
                                        b.subrange(end, end + l),
                                    ),
                                    end + l + 2,
                                ),
                            )
                        } else {
                            Err(ParseError::LengthMismatch)
                        }
                    } else {
                        Err(ParseError::InvalidNumber)
                    }
                },
                LineStep::NoBreak => Err(ParseError::Incomplete),
                LineStep::Broken => Err(ParseError::InvalidNumber),
            }
        } else if p == 95 {  // '_'
            if pos + 1 < b.len() && b[pos + 1] != 13 {
                Err(
                    ParseError::UnknownType {
                        byte: b[pos + 1],
                        offset: (pos + 1) as usize,
                    },
                )
            } else if pos + 1 >= b.len() {
                Err(ParseError::Incomplete)
            } else if pos + 2 < b.len() && b[pos + 2] != 10 {
                Err(
                    ParseError::UnknownType {
                        byte: b[pos + 2],
                        offset: (pos + 2) as usize,
                    },
                )
            } else if pos + 2 >= b.len() {
                Err(ParseError::Incomplete)
            } else {
                Ok((FrameView::Null, pos + 3))
            }
        } else if p == 35 {  // '#'
            if pos + 1 < b.len() && b[pos + 1] != 116 && b[pos + 1] != 102 {
                Err(
                    ParseError::UnknownType {
                        byte: b[pos + 1],
                        offset: (pos + 1) as usize,
                    },
                )
            } else if pos + 1 >= b.len() {
                Err(ParseError::Incomplete)
            } else if pos + 2 < b.len() && b[pos + 2] != 13 {
                Err(
                    ParseError::UnknownType {
                        byte: b[pos + 2],
                        offset: (pos + 2) as usize,
                    },
                )
            } else if pos + 2 >= b.len() {
                Err(ParseError::Incomplete)
            } else if pos + 3 < b.len() && b[pos + 3] != 10 {
                Err(
                    ParseError::UnknownType {
                        byte: b[pos + 3],
                        offset: (pos + 3) as usize,
                    },
                )
            } else if pos + 3 >= b.len() {
                Err(ParseError::Incomplete)
            } else {
                Ok((FrameView::Boolean(b[pos + 1] == 116), pos + 4))
            }
        } else if p == 44 {  // ','
            match line_break(b, pos + 1) {
                LineStep::Found { cut, end } => {
                    let s = b.subrange(pos + 1, cut);
                    if double_text_ok(s) {
                        Ok((FrameView::Double(s), end))
                    } else {
                        Err(ParseError::InvalidNumber)
                    }
                },
                LineStep::NoBreak => Err(ParseError::Incomplete),
                LineStep::Broken => Err(ParseError::InvalidNumber),
            }
        } else if p == 42 {  // '*'
            match line_break(b, pos + 1) {
                LineStep::Found { cut, end } => {
                    let s = b.subrange(pos + 1, cut);
                    if int_line_fits(s) {
                        let n = int_line_val(s);
                        if n == -1 {
                            Ok((FrameView::NullArray, end))
                        } else if n < 0 {
                            Err(ParseError::InvalidNumber)
                        } else {
                            let start = if pos < end && end <= b.len() {
                                end
                            } else {
                                pos + 1
                            };
                            match dec_elems_at(b, start, n, Seq::empty()) {
                                Ok((fs, e2)) => Ok((FrameView::Array(fs), e2)),
                                Err(e) => Err(e),
                            }
                        }
                    } else {
                        Err(ParseError::InvalidNumber)
                    }
                },
                LineStep::NoBreak => Err(ParseError::Incomplete),
                LineStep::Broken => Err(ParseError::InvalidNumber),
            }
        } else if p == 37 {  // '%'
            match line_break(b, pos + 1) {
                LineStep::Found { cut, end } => {
                    let s = b.subrange(pos + 1, cut);
                    if int_line_fits(s) {
                        let n = int_line_val(s);
                        if n < 0 {
                            Err(ParseError::InvalidNumber)
                        } else {
                            let start = if pos < end && end <= b.len() {
                                end
                            } else {
                                pos + 1
                            };
                            match dec_pairs_at(b, start, n, Seq::empty()) {
                                Ok((ps, e2)) => Ok(
                                    (FrameView::MapFrame(ps), e2),
                                ),
                                Err(e) => Err(e),
                            }
                        }
                    } else {
                        Err(ParseError::InvalidNumber)
                    }
                },
                LineStep::NoBreak => Err(ParseError::Incomplete),
                LineStep::Broken => Err(ParseError::InvalidNumber),
            }
        } else if p == 126 {  // '~'
            match line_break(b, pos + 1) {
                LineStep::Found { cut, end } => {
                    let s = b.subrange(pos + 1, cut);
                    if int_line_fits(s) {
                        let n = int_line_val(s);
                        if n < 0 {
                            Err(ParseError::InvalidNumber)
                        } else {
                            let start = if pos < end && end <= b.len() {
                                end
                            } else {
                                pos + 1
                            };
                            match dec_elems_at(b, start, n, Seq::empty()) {
                                Ok((fs, e2)) => Ok(
                                    (FrameView::SetFrame(fs), e2),
                                ),
                                Err(e) => Err(e),
                            }
                        }
                    } else {
                        Err(ParseError::InvalidNumber)
                    }
                },
                LineStep::NoBreak => Err(ParseError::Incomplete),
                LineStep::Broken => Err(ParseError::InvalidNumber),
            }
        } else {
            Err(ParseError::UnknownType { byte: p, offset: pos as usize })
        }
    }
}

/// Decodes `n` more frames from `pos`, appending to `acc`.
pub open spec fn dec_elems_at(
    b: Seq<u8>,
    pos: int,
    n: int,
    acc: Seq<FrameView>,
) -> Result<(Seq<FrameView>, int), ParseError>
    decreases b.len() - pos, n,
{
    if n <= 0 {
        Ok((acc, pos))
    } else if pos < 0 || pos >= b.len() {
        Err(ParseError::Incomplete)
    } else {
        match spec_decode_at(b, pos) {
            Ok((f, end)) => {
                let next = if pos < end && end <= b.len() {
                    end
                } else {
                    pos + 1
                };
                dec_elems_at(b, next, n - 1, acc.push(f))
            },
            Err(e) => Err(e),
        }
    }
}

/// Decodes `n` more key/value entries from `pos`, inserting into `acc` in
/// ascending key order; a repeated key overwrites the earlier entry. Each
/// key is a bulk string holding UTF-8 text.
pub open spec fn dec_pairs_at(
    b: Seq<u8>,
    pos: int,
    n: int,
    acc: Seq<(Seq<u8>, FrameView)>,
) -> Result<(Seq<(Seq<u8>, FrameView)>, int), ParseError>
    decreases b.len() - pos, n,
{
    if n <= 0 {
        Ok((acc, pos))
    } else if pos < 0 || pos >= b.len() {
        Err(ParseError::Incomplete)
    } else if b[pos] != 36 {
        Err(ParseError::UnknownType { byte: b[pos], offset: pos as usize })
    } else {
        match line_break(b, pos + 1) {
            LineStep::Found { cut, end } => {
                let s = b.subrange(pos + 1, cut);
                if int_line_fits(s) && int_line_val(s) >= 0 {
                    let l = int_line_val(s);
                    let lend = if pos < end && end <= b.len() {
                        end
                    } else {
                        pos + 1
                    };
                    if lend + l + 2 > b.len() {
                        Err(ParseError::Incomplete)
                    } else if b[lend + l] == 13 && b[lend + l + 1] == 10 {
                        let k = b.subrange(lend, lend + l);
                        if valid_utf8(k) {
                            match spec_decode_at(b, lend + l + 2) {
                                Ok((v, vend)) => {
                                    let next = if lend + l + 2 < vend && vend
                                        <= b.len() {
                                        vend
                                    } else if lend + l + 3 <= b.len() {
                                        lend + l + 3
                                    } else {
                                        b.len() as int
                                    };
                                    dec_pairs_at(
                                        b,
                                        next,
                                        n - 1,
                                        sorted_insert(acc, k, v),
                                    )
                                },
                                Err(e) => Err(e),
                            }
                        } else {
                            Err(ParseError::InvalidUtf8)
                        }
                    } else {
                        Err(ParseError::LengthMismatch)
                    }
                } else {
                    Err(ParseError::InvalidNumber)
                }
            },
            LineStep::NoBreak => Err(ParseError::Incomplete),
            LineStep::Broken => Err(ParseError::InvalidNumber),
        }
    }
}

/// Outcome of scanning for the next line terminator, with positions.
pub enum ScanLine {
    Found { cut: usize, end: usize },
    NoBreak,
    Broken,
}

/// Scans for the line terminator, mirroring [`line_break`].
#[verifier::loop_isolation(false)]
fn scan_line(buf: &[u8], pos: usize) -> (r: ScanLine)
    requires
        pos <= buf@.len(),
    ensures
        r matches ScanLine::Found { cut, end } ==> line_break(
            buf@,
            pos as int,
        ) == (LineStep::Found { cut: cut as int, end: end as int }) && pos
            <= cut && end == cut + 2 && end <= buf@.len(),
        r is NoBreak ==> line_break(buf@, pos as int) is NoBreak,
        r is Broken ==> line_break(buf@, pos as int) is Broken,
{
    let n = buf.len();
    let mut i: usize = pos;
    while i < n
        invariant
            pos <= i <= n == buf@.len(),
            line_break(buf@, pos as int) == line_break(buf@, i as int),
        decreases n - i,
    {
        let c = buf[i];
        if c == 13 {
            if i + 1 >= n {
                return ScanLine::NoBreak;
            }
            if buf[i + 1] == 10 {
                return ScanLine::Found { cut: i, end: i + 2 };
            }
            return ScanLine::Broken;
        }
        if c == 10 {
            return ScanLine::Broken;
        }
        i = i + 1;
    }
    ScanLine::NoBreak
}

/// Relies on `String::from_utf8`: returns the string of the given bytes
/// exactly when they are valid UTF-8, and nothing otherwise.
#[verifier::external_body]
fn string_from_utf8(v: Vec<u8>) -> (r: Option<String>)
    ensures
        r is Some <==> valid_utf8(v@),
        r matches Some(s) ==> s@ == decode_utf8(v@),
{
    String::from_utf8(v).ok()
}

/// Decodes one frame at `pos`, exactly as [`spec_decode_at`] says.
#[verifier::loop_isolation(false)]
#[verifier::rlimit(100)]
fn decode_at(buf: &[u8], pos: usize) -> (r: Result<
    (RespFrame, usize),
    ParseError,
>)
    requires
        pos <= buf@.len(),
    ensures
        r matches Ok((f, end)) ==> spec_decode_at(buf@, pos as int) == Ok::<
            (FrameView, int),
            ParseError,
        >((frame_view(f), end as int)) && pos < end <= buf@.len()
            && frame_view(f).wf(),
        r matches Err(e) ==> spec_decode_at(buf@, pos as int) == Err::<
            (FrameView, int),
            ParseError,
        >(e),
    decreases buf@.len() - pos, 0int,
{
    let blen = buf.len();
    if pos >= blen {
        return Err(ParseError::Incomplete);
    }
    let p = buf[pos];
    if p == 43 || p == 45 {
        // '+' simple string, '-' error
        match scan_line(buf, pos + 1) {
            ScanLine::Found { cut, end } => {
                proof {
                    lemma_line_payload_clean(buf@, pos + 1);
                }
                let bytes = slice_to_vec(slice_subrange(buf, pos + 1, cut));
                match string_from_utf8(bytes) {
                    Some(s) => {
                        proof {
                            vstd::utf8::decode_utf8_encode_utf8(
                                buf@.subrange(pos + 1, cut as int),
                            );
                        }
                        if p == 43 {
                            Ok((
                                RespFrame::SimpleString(SimpleString(s)),
                                end,
                            ))
                        } else {
                            Ok((RespFrame::Error(SimpleError(s)), end))
                        }
                    },
                    None => Err(ParseError::InvalidUtf8),
                }
            },
            ScanLine::NoBreak => Err(ParseError::Incomplete),
            ScanLine::Broken => Err(ParseError::InvalidUtf8),
        }
    } else if p == 58 {
        // ':' integer
        match scan_line(buf, pos + 1) {
            ScanLine::Found { cut, end } => {
                match parse_int_line(buf, pos + 1, cut) {
                    Ok(v) => Ok((RespFrame::Integer(v), end)),
                    Err(_) => Err(ParseError::InvalidNumber),
                }
            },
            ScanLine::NoBreak => Err(ParseError::Incomplete),
            ScanLine::Broken => Err(ParseError::InvalidNumber),
        }
    } else if p == 36 {
        // '$' bulk string or the bulk null marker
        match scan_line(buf, pos + 1) {
            ScanLine::Found { cut, end } => {
                match parse_int_line(buf, pos + 1, cut) {
                    Ok(l) => {
                        if l == -1 {
                            Ok((
                                RespFrame::NullBlukString(RespNullBlukString),
                                end,
                            ))
                        } else if l < 0 {
                            Err(ParseError::InvalidNumber)
                        } else {
                            let rem = blen - end;
                            if rem < 2 || (l as u64) > ((rem - 2) as u64) {
                                return Err(ParseError::Incomplete);
                            }
                            let lu = l as usize;
                            if buf[end + lu] == 13 && buf[end + lu + 1] == 10 {
                                let body = slice_to_vec(
                                    slice_subrange(buf, end, end + lu),
                                );
                                Ok((
                                    RespFrame::BlukString(BlukString(body)),
                                    end + lu + 2,
                                ))
                            } else {
                                Err(ParseError::LengthMismatch)
                            }
                        }
                    },
                    Err(_) => Err(ParseError::InvalidNumber),
                }
            },
            ScanLine::NoBreak => Err(ParseError::Incomplete),
            ScanLine::Broken => Err(ParseError::InvalidNumber),
        }
    } else if p == 95 {
        // '_' null
        if pos + 1 < blen && buf[pos + 1] != 13 {
            Err(ParseError::UnknownType { byte: buf[pos + 1], offset: pos + 1 })
        } else if pos + 1 >= blen {
            Err(ParseError::Incomplete)
        } else if pos + 2 < blen && buf[pos + 2] != 10 {
            Err(ParseError::UnknownType { byte: buf[pos + 2], offset: pos + 2 })
        } else if pos + 2 >= blen {
            Err(ParseError::Incomplete)
        } else {
            Ok((RespFrame::Null(RespNull), pos + 3))
        }
    } else if p == 35 {
        // '#' boolean
        if pos + 1 < blen && buf[pos + 1] != 116 && buf[pos + 1] != 102 {
            Err(ParseError::UnknownType { byte: buf[pos + 1], offset: pos + 1 })
        } else if pos + 1 >= blen {
            Err(ParseError::Incomplete)
        } else if pos + 2 < blen && buf[pos + 2] != 13 {
            Err(ParseError::UnknownType { byte: buf[pos + 2], offset: pos + 2 })
        } else if pos + 2 >= blen {
            Err(ParseError::Incomplete)
        } else if pos + 3 < blen && buf[pos + 3] != 10 {
            Err(ParseError::UnknownType { byte: buf[pos + 3], offset: pos + 3 })
        } else if pos + 3 >= blen {
            Err(ParseError::Incomplete)
        } else {
            Ok((RespFrame::Boolean(buf[pos + 1] == 116), pos + 4))
        }
    } else if p == 44 {
        // ',' double
        match scan_line(buf, pos + 1) {
            ScanLine::Found { cut, end } => {
                if crate::numbers::check_double_text(buf, pos + 1, cut) {
                    let body = slice_to_vec(slice_subrange(buf, pos + 1, cut));
                    Ok((RespFrame::Double(RespDouble(body)), end))
                } else {
                    Err(ParseError::InvalidNumber)
                }
            },
            ScanLine::NoBreak => Err(ParseError::Incomplete),
            ScanLine::Broken => Err(ParseError::InvalidNumber),
        }
    } else if p == 42 || p == 126 {
        // '*' array (or the array null marker), '~' set
        match scan_line(buf, pos + 1) {
            ScanLine::Found { cut, end } => {
                match parse_int_line(buf, pos + 1, cut) {
                    Ok(n) => {
                        if p == 42 && n == -1 {
                            return Ok((
                                RespFrame::NullArray(RespNullArray),
                                end,
                            ));
                        }
                        if n < 0 {
                            return Err(ParseError::InvalidNumber);
                        }
                        match decode_elems(buf, end, n as u64, Vec::new()) {
                            Ok((elems, e2)) => {
                                proof {
                                    assert(views_of(Seq::<RespFrame>::empty())
                                        =~= Seq::<FrameView>::empty());
                                    crate::frame::lemma_views_of(elems@);
                                    assert forall|j: int|
                                        0 <= j < views_of(elems@).len()
                                        implies (#[trigger] views_of(
                                        elems@,
                                    )[j]).wf() by {
                                        assert(views_of(elems@)[j]
                                            == frame_view(elems@[j]));
                                    }
                                    crate::frame::lemma_all_wf(
                                        views_of(elems@),
                                    );
                                }
                                if p == 42 {
                                    Ok((
                                        RespFrame::Array(RespArray(elems)),
                                        e2,
                                    ))
                                } else {
                                    Ok((
                                        RespFrame::SetFrame(RespSet(elems)),
                                        e2,
                                    ))
                                }
                            },
                            Err(e) => Err(e),
                        }
                    },
                    Err(_) => Err(ParseError::InvalidNumber),
                }
            },
            ScanLine::NoBreak => Err(ParseError::Incomplete),
            ScanLine::Broken => Err(ParseError::InvalidNumber),
        }
    } else if p == 37 {
        // '%' map
        match scan_line(buf, pos + 1) {
            ScanLine::Found { cut, end } => {
                match parse_int_line(buf, pos + 1, cut) {
                    Ok(n) => {
                        if n < 0 {
                            return Err(ParseError::InvalidNumber);
                        }
                        match decode_pairs(buf, end, n as u64, Vec::new()) {
                            Ok((entries, e2)) => {
                                proof {
                                    assert(pair_views_of(
                                        Seq::<(String, RespFrame)>::empty(),
                                    ) =~= Seq::<(Seq<u8>, FrameView)>::empty());
                                }
                                Ok((RespFrame::MapFrame(RespMap(entries)), e2))
                            },
                            Err(e) => Err(e),
                        }
                    },
                    Err(_) => Err(ParseError::InvalidNumber),
                }
            },
            ScanLine::NoBreak => Err(ParseError::Incomplete),
            ScanLine::Broken => Err(ParseError::InvalidNumber),
        }
    } else {
        Err(ParseError::UnknownType { byte: p, offset: pos })
    }
}

/// Decodes `n` more frames, appending to `acc`, as [`dec_elems_at`] says.
fn decode_elems(buf: &[u8], pos: usize, n: u64, acc: Vec<RespFrame>) -> (r:
    Result<(Vec<RespFrame>, usize), ParseError>)
    requires
        pos <= buf@.len(),
        forall|j: int|
            0 <= j < acc@.len() ==> (#[trigger] frame_view(acc@[j])).wf(),
    ensures
        r matches Ok((out, end)) ==> dec_elems_at(
            buf@,
            pos as int,
            n as int,
            views_of(acc@),
        ) == Ok::<(Seq<FrameView>, int), ParseError>((
            views_of(out@),
            end as int,
        )) && pos <= end <= buf@.len() && forall|j: int|
            0 <= j < out@.len() ==> (#[trigger] frame_view(out@[j])).wf(),
        r matches Err(e) ==> dec_elems_at(
            buf@,
            pos as int,
            n as int,
            views_of(acc@),
        ) == Err::<(Seq<FrameView>, int), ParseError>(e),
    decreases buf@.len() - pos, n as int,
{
    if n == 0 {
        return Ok((acc, pos));
    }
    if pos >= buf.len() {
        return Err(ParseError::Incomplete);
    }
    match decode_at(buf, pos) {
        Ok((f, end)) => {
            let mut acc2 = acc;
            proof {
                lemma_views_push(acc2@, f);
            }
            acc2.push(f);
            decode_elems(buf, end, n - 1, acc2)
        },
        Err(e) => Err(e),
    }
}

/// Decodes `n` more key/value entries, inserting into `acc` in ascending
/// key order, as [`dec_pairs_at`] says.
#[verifier::rlimit(100)]
fn decode_pairs(
    buf: &[u8],
    pos: usize,
    n: u64,
    acc: Vec<(String, RespFrame)>,
) -> (r: Result<(Vec<(String, RespFrame)>, usize), ParseError>)
    requires
        pos <= buf@.len(),
        FrameView::MapFrame(pair_views_of(acc@)).wf(),
    ensures
        r matches Ok((out, end)) ==> dec_pairs_at(
            buf@,
            pos as int,
            n as int,
            pair_views_of(acc@),
        ) == Ok::<(Seq<(Seq<u8>, FrameView)>, int), ParseError>((
            pair_views_of(out@),
            end as int,
        )) && pos <= end <= buf@.len() && FrameView::MapFrame(
            pair_views_of(out@),
        ).wf(),
        r matches Err(e) ==> dec_pairs_at(
            buf@,
            pos as int,
            n as int,
            pair_views_of(acc@),
        ) == Err::<(Seq<(Seq<u8>, FrameView)>, int), ParseError>(e),
    decreases buf@.len() - pos, n as int,
{
    let blen = buf.len();
    if n == 0 {
        return Ok((acc, pos));
    }
    if pos >= blen {
        return Err(ParseError::Incomplete);
    }
    if buf[pos] != 36 {
        return Err(ParseError::UnknownType { byte: buf[pos], offset: pos });
    }
    match scan_line(buf, pos + 1) {
        ScanLine::Found { cut, end } => {
            match parse_int_line(buf, pos + 1, cut) {
                Ok(l) => {
                    if l < 0 {
                        return Err(ParseError::InvalidNumber);
                    }
                    let rem = blen - end;
                    if rem < 2 || (l as u64) > ((rem - 2) as u64) {
                        return Err(ParseError::Incomplete);
                    }
                    let lu = l as usize;
                    if !(buf[end + lu] == 13 && buf[end + lu + 1] == 10) {
                        return Err(ParseError::LengthMismatch);
                    }
                    let kbytes = slice_to_vec(
                        slice_subrange(buf, end, end + lu),
                    );
                    match string_from_utf8(kbytes) {
                        Some(key) => {
                            proof {
                                vstd::utf8::decode_utf8_encode_utf8(
                                    buf@.subrange(end as int, end + lu),
                                );
                            }
                            match decode_at(buf, end + lu + 2) {
                                Ok((v, vend)) => {
                                    let mut acc2 = acc;
                                    proof {
                                        lemma_sorted_insert_wf(
                                            pair_views_of(acc2@),
                                            encode_utf8(key@),
                                            frame_view(v),
                                        );
                                    }
                                    insert_pair(&mut acc2, key, v);
                                    decode_pairs(buf, vend, n - 1, acc2)
                                },
                                Err(e) => Err(e),
                            }
                        },
                        None => Err(ParseError::InvalidUtf8),
                    }
                },
                Err(_) => Err(ParseError::InvalidNumber),
            }
        },
        ScanLine::NoBreak => Err(ParseError::Incomplete),
        ScanLine::Broken => Err(ParseError::InvalidNumber),
    }
}

/// Decodes one frame from the start of `buf`: the frame and the number of
/// bytes consumed, or the error [`spec_decode_at`] prescribes. Trailing
/// bytes after the frame are left unread.
pub fn decode(buf: &[u8]) -> (r: Result<(RespFrame, usize), ParseError>)
    ensures
        r matches Ok((f, n)) ==> spec_decode_at(buf@, 0) == Ok::<
            (FrameView, int),
            ParseError,
        >((f@, n as int)) && 0 < n <= buf@.len() && f@.wf(),
        r matches Err(e) ==> spec_decode_at(buf@, 0) == Err::<
            (FrameView, int),
            ParseError,
        >(e),
{
    decode_at(buf, 0)
}

/// A buffer that frames can be decoded from.
pub trait RespDecode: Sized + View<V = Seq<u8>> {
    /// Decodes one frame from the start of the buffer.
    fn decode(buf: Self) -> (r: Result<(RespFrame, usize), ParseError>)
        ensures
            r matches Ok((f, n)) ==> spec_decode_at(buf@, 0) == Ok::<
                (FrameView, int),
                ParseError,
            >((f@, n as int)) && f@.wf(),
            r matches Err(e) ==> spec_decode_at(buf@, 0) == Err::<
                (FrameView, int),
                ParseError,
            >(e),
    ;
}

impl RespDecode for Vec<u8> {
    fn decode(buf: Self) -> (r: Result<(RespFrame, usize), ParseError>) {
        decode(buf.as_slice())
    }
}

} // verus!
