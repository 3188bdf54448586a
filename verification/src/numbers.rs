//! Decimal text for integers, lengths and counts, and the grammar of
//! textual doubles. All of it is plain byte logic, verified end to end.

use vstd::prelude::*;

verus! {

/// An ASCII decimal digit.
pub open spec fn is_digit(b: u8) -> bool {
    48 <= b && b <= 57
}

/// Every byte of `s` is a decimal digit.
pub open spec fn all_digits(s: Seq<u8>) -> bool {
    forall|i: int| 0 <= i < s.len() ==> is_digit(#[trigger] s[i])
}

/// Value of a digit string, most significant digit first.
pub open spec fn digits_val(s: Seq<u8>) -> int
    decreases s.len(),
{
    if s.len() == 0 {
        0
    } else {
        digits_val(s.drop_last()) * 10 + (s.last() - 48)
    }
}

/// Canonical digit string: non-empty, digits only, no leading zero
/// (except for the single digit `0` itself).
pub open spec fn digits_ok(s: Seq<u8>) -> bool {
    s.len() >= 1 && all_digits(s) && (s.len() == 1 || s[0] != 48)
}

/// A canonical signed decimal line: optional minus sign, canonical digits,
/// and no `-0`.
pub open spec fn int_line_ok(s: Seq<u8>) -> bool {
    if s.len() >= 1 && s[0] == 45 {
        digits_ok(s.skip(1)) && digits_val(s.skip(1)) != 0
    } else {
        digits_ok(s)
    }
}

/// Value of a canonical signed decimal line.
pub open spec fn int_line_val(s: Seq<u8>) -> int {
    if s.len() >= 1 && s[0] == 45 {
        -digits_val(s.skip(1))
    } else {
        digits_val(s)
    }
}

/// The canonical digit string of a non-negative value.
pub open spec fn dec_digits(n: nat) -> Seq<u8>
    decreases n,
{
    if n < 10 {
        seq![(48 + n) as u8]
    } else {
        dec_digits(n / 10).push((48 + n % 10) as u8)
    }
}

/// The wire text of a signed value: decimal digits with a minus sign for
/// negative values.
pub open spec fn int_text(v: int) -> Seq<u8> {
    if v < 0 {
        seq![45u8] + dec_digits((-v) as nat)
    } else {
        dec_digits(v as nat)
    }
}

/// The canonical digit string is made of digits, has no leading zero, and
/// denotes the value it was built from.
pub proof fn lemma_dec_digits(n: nat)
    ensures
        dec_digits(n).len() >= 1,
        all_digits(dec_digits(n)),
        digits_val(dec_digits(n)) == n,
        n >= 1 ==> dec_digits(n)[0] != 48,
        n == 0 ==> dec_digits(n) =~= seq![48u8],
        n >= 10 ==> dec_digits(n).len() >= 2,
    decreases n,
{
    if n < 10 {
        assert((48 + n) as u8 as int == 48 + n);
        assert(dec_digits(n) =~= seq![(48 + n) as u8]);
        assert(dec_digits(n).drop_last() =~= Seq::<u8>::empty());
        assert(digits_val(Seq::<u8>::empty()) == 0);
        assert(dec_digits(n).last() == (48 + n) as u8);
    } else {
        lemma_dec_digits(n / 10);
        let d = dec_digits(n / 10);
        let whole = d.push((48 + n % 10) as u8);
        assert((48 + n % 10) as u8 as int == 48 + n % 10);
        assert(whole.drop_last() =~= d);
        assert(whole.last() == (48 + n % 10) as u8);
        assert(digits_val(whole) == digits_val(d) * 10 + (n % 10));
        assert(n / 10 * 10 + n % 10 == n) by (nonlinear_arith);
        assert(whole[0] == d[0]);
        assert forall|i: int| 0 <= i < whole.len() implies is_digit(
            #[trigger] whole[i],
        ) by {
            if i < d.len() {
                assert(whole[i] == d[i]);
                assert(is_digit(d[i]));
            } else {
                assert(whole[i] == (48 + n % 10) as u8);
            }
        }
        assert(dec_digits(n) == whole);
    }
}

/// The wire text of a value is a canonical decimal line denoting the value.
pub proof fn lemma_int_text(v: int)
    ensures
        int_line_ok(int_text(v)),
        int_line_val(int_text(v)) == v,
        int_text(v).len() >= 1,
        all_digits(int_text(v)) || (int_text(v)[0] == 45 && all_digits(
            int_text(v).skip(1),
        )),
{
    if v < 0 {
        lemma_dec_digits((-v) as nat);
        let t = seq![45u8] + dec_digits((-v) as nat);
        assert(t.skip(1) =~= dec_digits((-v) as nat));
        assert(t[0] == 45);
    } else {
        lemma_dec_digits(v as nat);
        assert(int_text(v)[0] != 45) by {
            lemma_dec_digits(v as nat);
        }
    }
}

/// Digit strings denote non-negative values, and the value grows (weakly)
/// with each appended digit.
pub proof fn lemma_digits_val_nonneg(s: Seq<u8>)
    requires
        all_digits(s),
    ensures
        digits_val(s) >= 0,
    decreases s.len(),
{
    if s.len() > 0 {
        assert(all_digits(s.drop_last())) by {
            assert(forall|i: int|
                0 <= i < s.len() - 1 ==> is_digit(#[trigger] s.drop_last()[i]));
        }
        lemma_digits_val_nonneg(s.drop_last());
    }
}

/// Extending a digit string by one digit multiplies its value by ten and
/// adds the digit.
pub proof fn lemma_digits_val_step(s: Seq<u8>, i: int)
    requires
        0 <= i < s.len(),
    ensures
        digits_val(s.take(i + 1)) == digits_val(s.take(i)) * 10 + (s[i] - 48),
{
    assert(s.take(i + 1).drop_last() =~= s.take(i));
    assert(s.take(i + 1).last() == s[i]);
}

/// A longer digit string never denotes a smaller value.
pub proof fn lemma_digits_val_extend(s: Seq<u8>, i: int)
    requires
        all_digits(s),
        0 <= i <= s.len(),
    ensures
        digits_val(s) >= digits_val(s.take(i)),
    decreases s.len() - i,
{
    if i < s.len() {
        lemma_digits_val_step(s, i);
        assert(all_digits(s.take(i))) by {
            assert(forall|j: int|
                0 <= j < i ==> is_digit(#[trigger] s.take(i)[j]));
        }
        lemma_digits_val_nonneg(s.take(i));
        assert(digits_val(s.take(i + 1)) >= digits_val(s.take(i))) by {
            assert(digits_val(s.take(i)) * 10 >= digits_val(s.take(i)))
                by (nonlinear_arith)
                requires digits_val(s.take(i)) >= 0;
        }
        lemma_digits_val_extend(s, i + 1);
    } else {
        assert(s.take(i) =~= s);
    }
}

/// Produces the canonical digit string of `m`.
pub fn digits_of(m: u64) -> (out: Vec<u8>)
    ensures
        out@ == dec_digits(m as nat),
    decreases m,
{
    if m < 10 {
        let mut out: Vec<u8> = Vec::new();
        out.push(48 + m as u8);
        proof {
            assert(out@ =~= dec_digits(m as nat));
        }
        out
    } else {
        let mut out = digits_of(m / 10);
        out.push(48 + (m % 10) as u8);
        out
    }
}

/// Produces the wire text of a signed value.
pub fn format_int(v: i64) -> (out: Vec<u8>)
    ensures
        out@ == int_text(v as int),
{
    if v >= 0 {
        digits_of(v as u64)
    } else {
        let m: u64 = ((-(v + 1)) as u64) + 1;
        assert(m as int == -(v as int));
        let mut out: Vec<u8> = Vec::new();
        out.push(45);
        let mut d = digits_of(m);
        out.append(&mut d);
        proof {
            assert(out@ =~= seq![45u8] + dec_digits((-(v as int)) as nat));
        }
        out
    }
}

/// Parses the bytes `buf[start..end]` as a canonical signed decimal line.
/// Returns the value exactly when the line is canonical and fits an `i64`.
#[verifier::loop_isolation(false)]
pub fn parse_int_line(buf: &[u8], start: usize, end: usize) -> (r: Result<
    i64,
    (),
>)
    requires
        start <= end <= buf@.len(),
    ensures
        r is Ok <==> int_line_ok(buf@.subrange(start as int, end as int))
            && i64::MIN <= int_line_val(
            buf@.subrange(start as int, end as int),
        ) <= i64::MAX,
        r matches Ok(v) ==> v as int == int_line_val(
            buf@.subrange(start as int, end as int),
        ),
{
    let ghost line = buf@.subrange(start as int, end as int);
    let neg: bool = start < end && buf[start] == 45;
    let d0: usize = if neg {
        start + 1
    } else {
        start
    };
    let ghost digits = line.skip(if neg { 1int } else { 0int });
    proof {
        assert(digits =~= buf@.subrange(d0 as int, end as int));
        if neg {
            assert(digits == line.skip(1));
        } else {
            assert(digits =~= line);
        }
        assert(digits.take(0) =~= Seq::<u8>::empty());
        assert(digits_val(Seq::<u8>::empty()) == 0);
        if start < end {
            assert(line[0] == buf@[start as int]);
        }
    }
    if d0 == end {
        // no digits at all
        assert(digits.len() == 0);
        return Err(());
    }
    if buf[d0] == 48 && end - d0 > 1 {
        // leading zero
        assert(digits[0] == 48 && digits.len() > 1);
        assert(!digits_ok(digits));
        return Err(());
    }
    // The largest magnitude that fits: 2^63 for negative values,
    // 2^63 - 1 for positive ones.
    let limit: u64 = if neg {
        9223372036854775808
    } else {
        9223372036854775807
    };
    let mut acc: u64 = 0;
    let mut i: usize = d0;
    while i < end
        invariant
            d0 <= i <= end <= buf@.len(),
            d0 < end,
            digits =~= buf@.subrange(d0 as int, end as int),
            all_digits(digits.take(i - d0)),
            acc as int == digits_val(digits.take(i - d0)),
            acc <= limit,
            limit >= 9223372036854775807,
        decreases end - i,
    {
        let b = buf[i];
        if b < 48 || b > 57 {
            assert(!all_digits(digits)) by {
                assert(digits[i - d0] == b);
            }
            return Err(());
        }
        let d: u64 = (b - 48) as u64;
        proof {
            assert(digits[i - d0] == b);
            lemma_digits_val_step(digits, i - d0);
        }
        if acc > (limit - d) / 10 {
            // the value no longer fits the target width
            assert(acc * 10 + d > limit) by (nonlinear_arith)
                requires
                    acc > (limit - d) / 10,
                    d <= 9,
                    limit >= 9223372036854775807,
                    acc >= 0,
            ;
            assert(digits_val(digits.take(i - d0 + 1)) > limit);
            proof {
                if all_digits(digits) {
                    lemma_digits_val_extend(digits, i - d0 + 1);
                    assert(digits_val(digits) > limit);
                }
            }
            return Err(());
        }
        assert(acc * 10 + d <= limit) by (nonlinear_arith)
            requires
                acc <= (limit - d) / 10,
                d <= 9,
                acc >= 0,
                limit >= 1,
        ;
        acc = acc * 10 + d;
        assert(all_digits(digits.take(i + 1 - d0))) by {
            assert(forall|j: int|
                0 <= j < i + 1 - d0 ==> is_digit(
                    #[trigger] digits.take(i + 1 - d0)[j],
                ));
        }
        i = i + 1;
    }
    proof {
        assert(digits =~= digits.take(end - d0));
    }
    if neg {
        if acc == 0 {
            // the line "-0" is not canonical
            return Err(());
        }
        let v: i64 = if acc == 9223372036854775808 {
            i64::MIN
        } else {
            -(acc as i64)
        };
        assert(v as int == -(acc as int));
        assert(line[0] == 45);
        Ok(v)
    } else {
        assert(line =~= digits);
        assert(line.len() >= 1 && line[0] != 45) by {
            assert(is_digit(digits[0]));
        }
        Ok(acc as i64)
    }
}

/// States of the finite-state recognizer for textual doubles. State 7 is
/// the start, 9 rejects; 1, 3 and 6 accept at the end of the input.
pub open spec fn double_step(st: int, b: u8) -> int {
    if st == 7 {
        if is_digit(b) {
            1
        } else if b == 45 {
            0
        } else {
            9
        }
    } else if st == 0 {
        if is_digit(b) {
            1
        } else {
            9
        }
    } else if st == 1 {
        if is_digit(b) {
            1
        } else if b == 46 {
            2
        } else if b == 101 || b == 69 {
            4
        } else {
            9
        }
    } else if st == 2 {
        if is_digit(b) {
            3
        } else {
            9
        }
    } else if st == 3 {
        if is_digit(b) {
            3
        } else if b == 101 || b == 69 {
            4
        } else {
            9
        }
    } else if st == 4 {
        if is_digit(b) {
            6
        } else if b == 43 || b == 45 {
            5
        } else {
            9
        }
    } else if st == 5 {
        if is_digit(b) {
            6
        } else {
            9
        }
    } else if st == 6 {
        if is_digit(b) {
            6
        } else {
            9
        }
    } else {
        9
    }
}

/// Runs the recognizer over `s` from position `i` in state `st`.
pub open spec fn double_run(s: Seq<u8>, i: int, st: int) -> bool
    decreases s.len() - i,
{
    if i < 0 || i >= s.len() {
        st == 1 || st == 3 || st == 6
    } else {
        double_run(s, i + 1, double_step(st, s[i]))
    }
}

/// The bytes of the special token `inf`.
pub open spec fn inf_text() -> Seq<u8> {
    seq![105u8, 110u8, 102u8]
}

/// The bytes of the special token `-inf`.
pub open spec fn neg_inf_text() -> Seq<u8> {
    seq![45u8, 105u8, 110u8, 102u8]
}

/// The bytes of the special token `nan`.
pub open spec fn nan_text() -> Seq<u8> {
    seq![110u8, 97u8, 110u8]
}

/// A valid textual double: one of the special tokens, or a finite decimal
/// with optional sign, fraction and exponent.
pub open spec fn double_text_ok(s: Seq<u8>) -> bool {
    s == inf_text() || s == neg_inf_text() || s == nan_text() || double_run(
        s,
        0,
        7,
    )
}

/// Checks whether `buf[start..end]` is a valid textual double.
#[verifier::loop_isolation(false)]
pub fn check_double_text(buf: &[u8], start: usize, end: usize) -> (r: bool)
    requires
        start <= end <= buf@.len(),
    ensures
        r == double_text_ok(buf@.subrange(start as int, end as int)),
{
    let ghost line = buf@.subrange(start as int, end as int);
    let n: usize = end - start;
    if n == 3 && buf[start] == 105 && buf[start + 1] == 110 && buf[start + 2]
        == 102 {
        proof {
            assert(line =~= inf_text());
        }
        return true;
    }
    if n == 4 && buf[start] == 45 && buf[start + 1] == 105 && buf[start + 2]
        == 110 && buf[start + 3] == 102 {
        proof {
            assert(line =~= neg_inf_text());
        }
        return true;
    }
    if n == 3 && buf[start] == 110 && buf[start + 1] == 97 && buf[start + 2]
        == 110 {
        proof {
            assert(line =~= nan_text());
        }
        return true;
    }
    proof {
        if line == inf_text() {
            assert(line.len() == 3);
            assert(line[0] == 105 && line[1] == 110 && line[2] == 102);
            assert(buf@[start as int] == line[0]);
            assert(buf@[start as int + 1] == line[1]);
            assert(buf@[start as int + 2] == line[2]);
        }
        if line == neg_inf_text() {
            assert(line.len() == 4);
            assert(line[0] == 45 && line[1] == 105 && line[2] == 110 && line[3]
                == 102);
            assert(buf@[start as int] == line[0]);
            assert(buf@[start as int + 1] == line[1]);
            assert(buf@[start as int + 2] == line[2]);
            assert(buf@[start as int + 3] == line[3]);
        }
        if line == nan_text() {
            assert(line.len() == 3);
            assert(line[0] == 110 && line[1] == 97 && line[2] == 110);
            assert(buf@[start as int] == line[0]);
            assert(buf@[start as int + 1] == line[1]);
            assert(buf@[start as int + 2] == line[2]);
        }
        assert(line != inf_text() && line != neg_inf_text() && line
            != nan_text());
    }
    let mut st: u8 = 7;
    let mut i: usize = start;
    while i < end
        invariant
            start <= i <= end <= buf@.len(),
            line =~= buf@.subrange(start as int, end as int),
            st <= 9,
            double_run(line, 0, 7) == double_run(line, i - start, st as int),
        decreases end - i,
    {
        let b = buf[i];
        proof {
            assert(line[i - start] == b);
        }
        let next: u8 = if st == 7 {
            if 48 <= b && b <= 57 {
                1
            } else if b == 45 {
                0
            } else {
                9
            }
        } else if st == 0 {
            if 48 <= b && b <= 57 {
                1
            } else {
                9
            }
        } else if st == 1 {
            if 48 <= b && b <= 57 {
                1
            } else if b == 46 {
                2
            } else if b == 101 || b == 69 {
                4
            } else {
                9
            }
        } else if st == 2 {
            if 48 <= b && b <= 57 {
                3
            } else {
                9
            }
        } else if st == 3 {
            if 48 <= b && b <= 57 {
                3
            } else if b == 101 || b == 69 {
                4
            } else {
                9
            }
        } else if st == 4 {
            if 48 <= b && b <= 57 {
                6
            } else if b == 43 || b == 45 {
                5
            } else {
                9
            }
        } else if st == 5 {
            if 48 <= b && b <= 57 {
                6
            } else {
                9
            }
        } else if st == 6 {
            if 48 <= b && b <= 57 {
                6
            } else {
                9
            }
        } else {
            9
        };
        assert(next as int == double_step(st as int, b));
        st = next;
        i = i + 1;
    }
    st == 1 || st == 3 || st == 6
}

/// A valid textual double contains no carriage return and no line feed.
pub proof fn lemma_double_text_clean(s: Seq<u8>)
    requires
        double_text_ok(s),
    ensures
        forall|i: int| 0 <= i < s.len() ==> s[i] != 13 && s[i] != 10,
{
    if s == inf_text() || s == neg_inf_text() || s == nan_text() {
    } else {
        assert forall|i: int| 0 <= i < s.len() implies s[i] != 13 && s[i]
            != 10 by {
            if s[i] == 13 || s[i] == 10 {
                lemma_double_run_rejects(s, i, 0, 7);
            }
        }
    }
}

/// If any byte at or after the current position steps every state to the
/// rejecting state, the run fails.
proof fn lemma_double_run_rejects(s: Seq<u8>, i: int, j: int, st: int)
    requires
        0 <= j <= i < s.len(),
        s[i] == 13 || s[i] == 10,
    ensures
        !double_run(s, j, st),
    decreases s.len() - j,
{
    if j == i {
        assert(double_step(st, s[i]) == 9);
        lemma_double_run_dead(s, j + 1);
    } else {
        lemma_double_run_rejects(s, i, j + 1, double_step(st, s[j]));
    }
}

/// The rejecting state never accepts.
proof fn lemma_double_run_dead(s: Seq<u8>, j: int)
    ensures
        !double_run(s, j, 9),
    decreases s.len() - j,
{
    if 0 <= j < s.len() {
        lemma_double_run_dead(s, j + 1);
    }
}

} // verus!
