//! The JSON text of a sync payload: `{"v":..,"kind":..,"hash":..,"body":..,"ts":..}`
//! with the fields in that order, no white space, strings escaped the way
//! serde_json escapes them. Decoding accepts exactly this form.

use vstd::prelude::*;

verus! {

pub open spec fn is_digit(c: u8) -> bool {
    48 <= c <= 57
}

pub open spec fn digit(d: int) -> u8 {
    (48 + d) as u8
}

/// Decimal digits of `n`, most significant first, no leading zero.
pub open spec fn decimal(n: nat) -> Seq<u8>
    decreases n,
{
    if n < 10 {
        seq![digit(n as int)]
    } else {
        decimal(n / 10).push(digit((n % 10) as int))
    }
}

/// Decimal text of an integer, with `-` before a negative one.
pub open spec fn int_text(n: int) -> Seq<u8> {
    if n < 0 {
        seq![45u8] + decimal((-n) as nat)
    } else {
        decimal(n as nat)
    }
}

/// Lower-case hexadecimal digit of `d < 16`.
pub open spec fn hex_digit(d: int) -> u8 {
    if d < 10 {
        (48 + d) as u8
    } else {
        (87 + d) as u8
    }
}

/// How one byte of a string is written inside JSON quotes.
pub open spec fn escape_byte(c: u8) -> Seq<u8> {
    if c == 34 {
        seq![92u8, 34u8]
    } else if c == 92 {
        seq![92u8, 92u8]
    } else if c == 8 {
        seq![92u8, 98u8]
    } else if c == 12 {
        seq![92u8, 102u8]
    } else if c == 10 {
        seq![92u8, 110u8]
    } else if c == 13 {
        seq![92u8, 114u8]
    } else if c == 9 {
        seq![92u8, 116u8]
    } else if c < 32 {
        seq![92u8, 117u8, 48u8, 48u8, hex_digit(c as int / 16), hex_digit(c as int % 16)]
    } else {
        seq![c]
    }
}

pub open spec fn escape(s: Seq<u8>) -> Seq<u8>
    decreases s.len(),
{
    if s.len() == 0 {
        Seq::empty()
    } else {
        escape_byte(s[0]) + escape(s.drop_first())
    }
}

/// A JSON string holding the bytes `s`.
pub open spec fn quoted(s: Seq<u8>) -> Seq<u8> {
    seq![34u8] + escape(s) + seq![34u8]
}

/// `{"v":`
pub open spec fn lit_v() -> Seq<u8> {
    seq![123u8, 34u8, 118u8, 34u8, 58u8]
}

/// `,"kind":`
pub open spec fn lit_kind() -> Seq<u8> {
    seq![44u8, 34u8, 107u8, 105u8, 110u8, 100u8, 34u8, 58u8]
}

/// `,"hash":`
pub open spec fn lit_hash() -> Seq<u8> {
    seq![44u8, 34u8, 104u8, 97u8, 115u8, 104u8, 34u8, 58u8]
}

/// `,"body":`
pub open spec fn lit_body() -> Seq<u8> {
    seq![44u8, 34u8, 98u8, 111u8, 100u8, 121u8, 34u8, 58u8]
}

/// `,"ts":`
pub open spec fn lit_ts() -> Seq<u8> {
    seq![44u8, 34u8, 116u8, 115u8, 34u8, 58u8]
}

/// `}`
pub open spec fn lit_close() -> Seq<u8> {
    seq![125u8]
}

/// The JSON text of a payload whose string fields hold the given bytes.
pub open spec fn payload_json(v: u32, kind: Seq<u8>, hash: Seq<u8>, body: Seq<u8>, ts: i64) -> Seq<u8> {
    lit_v() + decimal(v as nat) + lit_kind() + quoted(kind) + lit_hash() + quoted(hash) + lit_body() + quoted(
        body,
    ) + lit_ts() + int_text(ts as int) + lit_close()
}

// ---------------------------------------------------------------------------
// Writing

fn push_all(out: &mut Vec<u8>, s: &[u8])
    ensures
        final(out)@ == old(out)@ + s@,
{
    let mut i: usize = 0;
    while i < s.len()
        invariant
            i <= s@.len(),
            out@ == old(out)@ + s@.take(i as int),
        decreases s@.len() - i,
    {
        out.push(s[i]);
        i += 1;
        assert(s@.take(i as int) =~= s@.take(i - 1).push(s@[i - 1]));
    }
    assert(s@.take(s@.len() as int) =~= s@);
}

/// Appends the decimal digits of `n`.
fn push_decimal(out: &mut Vec<u8>, n: u64)
    ensures
        final(out)@ == old(out)@ + decimal(n as nat),
    decreases n,
{
    if n >= 10 {
        push_decimal(out, n / 10);
        out.push(((n % 10) as u8) + 48);
        assert(decimal(n as nat) == decimal((n / 10) as nat).push(digit((n % 10) as int)));
        assert(final(out)@ =~= old(out)@ + decimal(n as nat));
    } else {
        out.push((n as u8) + 48);
        assert(final(out)@ =~= old(out)@ + decimal(n as nat));
    }
}

/// Appends the decimal text of `n`.
fn push_int(out: &mut Vec<u8>, n: i64)
    ensures
        final(out)@ == old(out)@ + int_text(n as int),
{
    if n < 0 {
        out.push(45u8);
        let m: u64 = if n == i64::MIN {
            9223372036854775808u64
        } else {
            (-n) as u64
        };
        push_decimal(out, m);
        assert(final(out)@ =~= old(out)@ + int_text(n as int));
    } else {
        push_decimal(out, n as u64);
    }
}

proof fn lemma_escape_concat(a: Seq<u8>, b: Seq<u8>)
    ensures
        escape(a + b) == escape(a) + escape(b),
    decreases a.len(),
{
    if a.len() == 0 {
        assert(a + b =~= b);
        assert(escape(a) + escape(b) =~= escape(b));
    } else {
        lemma_escape_concat(a.drop_first(), b);
        assert((a + b).drop_first() =~= a.drop_first() + b);
        assert((a + b)[0] == a[0]);
        assert(escape(a + b) =~= escape(a) + escape(b));
    }
}

proof fn lemma_escape_one(c: u8)
    ensures
        escape(seq![c]) == escape_byte(c),
{
    assert(seq![c].drop_first() =~= Seq::<u8>::empty());
    assert(seq![c][0] == c);
    assert(escape(Seq::<u8>::empty()) == Seq::<u8>::empty());
    assert(escape(seq![c]) == escape_byte(c) + escape(seq![c].drop_first()));
    assert(escape_byte(c) + Seq::<u8>::empty() =~= escape_byte(c));
}

fn hex_char(d: u8) -> (r: u8)
    requires
        d < 16,
    ensures
        r == hex_digit(d as int),
{
    if d < 10 {
        d + 48
    } else {
        d + 87
    }
}

/// Appends `s` as a JSON string, quotes included.
fn push_quoted(out: &mut Vec<u8>, s: &[u8])
    ensures
        final(out)@ == old(out)@ + quoted(s@),
{
    out.push(34u8);
    let ghost start = out@;
    let mut i: usize = 0;
    while i < s.len()
        invariant
            i <= s@.len(),
            out@ == start + escape(s@.take(i as int)),
        decreases s@.len() - i,
    {
        let c = s[i];
        let ghost before = out@;
        if c == 34 {
            out.push(92u8);
            out.push(34u8);
        } else if c == 92 {
            out.push(92u8);
            out.push(92u8);
        } else if c == 8 {
            out.push(92u8);
            out.push(98u8);
        } else if c == 12 {
            out.push(92u8);
            out.push(102u8);
        } else if c == 10 {
            out.push(92u8);
            out.push(110u8);
        } else if c == 13 {
            out.push(92u8);
            out.push(114u8);
        } else if c == 9 {
            out.push(92u8);
            out.push(116u8);
        } else if c < 32 {
            out.push(92u8);
            out.push(117u8);
            out.push(48u8);
            out.push(48u8);
            out.push(hex_char(c / 16));
            out.push(hex_char(c % 16));
        } else {
            out.push(c);
        }
        proof {
            assert(out@ =~= before + escape_byte(c));
            assert(s@.take(i + 1) =~= s@.take(i as int) + seq![c]);
            lemma_escape_concat(s@.take(i as int), seq![c]);
            lemma_escape_one(c);
        }
        i += 1;
    }
    out.push(34u8);
    assert(s@.take(s@.len() as int) =~= s@);
    assert(out@ =~= old(out)@ + quoted(s@));
}

/// The JSON text of a payload.
pub fn write_payload(v: u32, kind: &[u8], hash: &[u8], body: &[u8], ts: i64) -> (r: Vec<u8>)
    ensures
        r@ == payload_json(v, kind@, hash@, body@, ts),
{
    let mut out: Vec<u8> = Vec::new();
    push_all(&mut out, &[123u8, 34u8, 118u8, 34u8, 58u8]);
    push_decimal(&mut out, v as u64);
    push_all(&mut out, &[44u8, 34u8, 107u8, 105u8, 110u8, 100u8, 34u8, 58u8]);
    push_quoted(&mut out, kind);
    push_all(&mut out, &[44u8, 34u8, 104u8, 97u8, 115u8, 104u8, 34u8, 58u8]);
    push_quoted(&mut out, hash);
    push_all(&mut out, &[44u8, 34u8, 98u8, 111u8, 100u8, 121u8, 34u8, 58u8]);
    push_quoted(&mut out, body);
    push_all(&mut out, &[44u8, 34u8, 116u8, 115u8, 34u8, 58u8]);
    push_int(&mut out, ts);
    push_all(&mut out, &[125u8]);
    assert(out@ =~= payload_json(v, kind@, hash@, body@, ts));
    out
}

// ---------------------------------------------------------------------------
// Reading

/// Value of a hexadecimal digit byte (either case); 0 for other bytes.
pub open spec fn hex_value(c: u8) -> int {
    if 48 <= c <= 57 {
        c - 48
    } else if 97 <= c <= 102 {
        c - 87
    } else if 65 <= c <= 70 {
        c - 55
    } else {
        0
    }
}

pub open spec fn is_hex(c: u8) -> bool {
    (48 <= c <= 57) || (97 <= c <= 102) || (65 <= c <= 70)
}

/// Reads the run of digits starting at `i` onto `acc`: the value and where
/// the run ends.
pub open spec fn scan_digits(b: Seq<u8>, i: int, acc: int) -> (int, int)
    decreases b.len() - i,
{
    if 0 <= i < b.len() && is_digit(b[i]) {
        scan_digits(b, i + 1, acc * 10 + (b[i] - 48))
    } else {
        (acc, i)
    }
}

/// An unsigned number at `i`: at least one digit.
pub open spec fn scan_uint(b: Seq<u8>, i: int) -> Option<(int, int)> {
    if scan_digits(b, i, 0).1 > i {
        Some(scan_digits(b, i, 0))
    } else {
        None
    }
}

/// A number at `i`, with an optional leading `-`.
pub open spec fn scan_int(b: Seq<u8>, i: int) -> Option<(int, int)> {
    if 0 <= i < b.len() && b[i] == 45 {
        match scan_uint(b, i + 1) {
            Some((m, j)) => Some((-m, j)),
            None => None,
        }
    } else {
        scan_uint(b, i)
    }
}

/// Reads the inside of a JSON string from `i` up to and past its closing
/// quote, appending the bytes it stands for to `acc`.
pub open spec fn scan_str(b: Seq<u8>, i: int, acc: Seq<u8>) -> Option<(Seq<u8>, int)>
    decreases b.len() - i,
{
    if i < 0 || i >= b.len() {
        None
    } else if b[i] == 34 {
        Some((acc, i + 1))
    } else if b[i] == 92 {
        if i + 1 >= b.len() {
            None
        } else {
            let c = b[i + 1];
            if c == 34 {
                scan_str(b, i + 2, acc.push(34u8))
            } else if c == 92 {
                scan_str(b, i + 2, acc.push(92u8))
            } else if c == 98 {
                scan_str(b, i + 2, acc.push(8u8))
            } else if c == 102 {
                scan_str(b, i + 2, acc.push(12u8))
            } else if c == 110 {
                scan_str(b, i + 2, acc.push(10u8))
            } else if c == 114 {
                scan_str(b, i + 2, acc.push(13u8))
            } else if c == 116 {
                scan_str(b, i + 2, acc.push(9u8))
            } else if c == 117 && i + 5 < b.len() && b[i + 2] == 48 && b[i + 3] == 48 && is_hex(b[i + 4])
                && is_hex(b[i + 5]) {
                scan_str(b, i + 6, acc.push((hex_value(b[i + 4]) * 16 + hex_value(b[i + 5])) as u8))
            } else {
                None
            }
        }
    } else {
        scan_str(b, i + 1, acc.push(b[i]))
    }
}

/// A JSON string at `i`.
pub open spec fn scan_quoted(b: Seq<u8>, i: int) -> Option<(Seq<u8>, int)> {
    if 0 <= i < b.len() && b[i] == 34 {
        scan_str(b, i + 1, Seq::empty())
    } else {
        None
    }
}

/// `lit` stands in `b` at `i`.
pub open spec fn has_lit(b: Seq<u8>, i: int, lit: Seq<u8>) -> bool {
    0 <= i && i + lit.len() <= b.len() && b.subrange(i, i + lit.len()) == lit
}

/// The fields read from a payload text, before any range check.
pub struct Fields {
    pub v: int,
    pub kind: Seq<u8>,
    pub hash: Seq<u8>,
    pub body: Seq<u8>,
    pub ts: int,
}

/// A string field: its name literal at `i`, then a JSON string.
pub open spec fn scan_field(b: Seq<u8>, i: int, lit: Seq<u8>) -> Option<(Seq<u8>, int)> {
    if has_lit(b, i, lit) {
        scan_quoted(b, i + lit.len())
    } else {
        None
    }
}

/// Reads a payload text field by field.
#[verifier::opaque]
pub open spec fn scan_payload(b: Seq<u8>) -> Option<Fields> {
    if !has_lit(b, 0, lit_v()) {
        None
    } else {
        match scan_uint(b, 5) {
            None => None,
            Some((v, i1)) => match scan_field(b, i1, lit_kind()) {
                None => None,
                Some((kind, i2)) => match scan_field(b, i2, lit_hash()) {
                    None => None,
                    Some((hash, i3)) => match scan_field(b, i3, lit_body()) {
                        None => None,
                        Some((body, i4)) => if !has_lit(b, i4, lit_ts()) {
                            None
                        } else {
                            match scan_int(b, i4 + 6) {
                                None => None,
                                Some((ts, i5)) => if has_lit(b, i5, lit_close()) && i5 + 1 == b.len() {
                                    Some(Fields { v, kind, hash, body, ts })
                                } else {
                                    None
                                },
                            }
                        },
                    },
                },
            },
        }
    }
}

/// `b` is the text of some payload.
pub open spec fn is_payload_text(b: Seq<u8>) -> bool {
    exists|v: u32, kind: Seq<u8>, hash: Seq<u8>, body: Seq<u8>, ts: i64|
        #[trigger] payload_json(v, kind, hash, body, ts) == b
}

/// Left-to-right value of a digit string on top of `acc`.
pub open spec fn fold_digits(acc: int, ds: Seq<u8>) -> int
    decreases ds.len(),
{
    if ds.len() == 0 {
        acc
    } else {
        fold_digits(acc * 10 + (ds[0] - 48), ds.drop_first())
    }
}

proof fn lemma_fold_push(acc: int, ds: Seq<u8>, d: u8)
    ensures
        fold_digits(acc, ds.push(d)) == fold_digits(acc, ds) * 10 + (d - 48),
    decreases ds.len(),
{
    let e = ds.push(d);
    assert(e.len() > 0);
    assert(fold_digits(acc, e) == fold_digits(acc * 10 + (e[0] - 48), e.drop_first()));
    if ds.len() == 0 {
        assert(e.drop_first() =~= Seq::<u8>::empty());
        assert(e[0] == d);
        assert(fold_digits(acc * 10 + (d - 48), Seq::<u8>::empty()) == acc * 10 + (d - 48));
        assert(fold_digits(acc, ds) == acc);
    } else {
        assert(e.drop_first() =~= ds.drop_first().push(d));
        assert(e[0] == ds[0]);
        assert(fold_digits(acc, ds) == fold_digits(acc * 10 + (ds[0] - 48), ds.drop_first()));
        lemma_fold_push(acc * 10 + (ds[0] - 48), ds.drop_first(), d);
    }
}

/// Splits a known stretch of `b` into its two parts.
proof fn lemma_split(b: Seq<u8>, i: int, x: Seq<u8>, y: Seq<u8>)
    requires
        0 <= i,
        i + x.len() + y.len() <= b.len(),
        b.subrange(i, i + x.len() + y.len()) == x + y,
    ensures
        b.subrange(i, i + x.len()) == x,
        b.subrange(i + x.len(), i + x.len() + y.len()) == y,
{
    assert forall|k: int| 0 <= k < x.len() implies b.subrange(i, i + x.len())[k] == x[k] by {
        assert(b.subrange(i, i + x.len() + y.len())[k] == (x + y)[k]);
    }
    assert forall|k: int| 0 <= k < y.len() implies b.subrange(i + x.len(), i + x.len() + y.len())[k] == y[k] by {
        assert(b.subrange(i, i + x.len() + y.len())[x.len() + k] == (x + y)[x.len() + k]);
        assert(b.subrange(i, i + x.len() + y.len())[x.len() + k] == b[i + x.len() + k]);
        assert(b.subrange(i + x.len(), i + x.len() + y.len())[k] == b[i + x.len() + k]);
    }
    assert(b.subrange(i, i + x.len()) =~= x);
    assert(b.subrange(i + x.len(), i + x.len() + y.len()) =~= y);
}

/// A byte inside a known stretch of `b`.
proof fn lemma_at(b: Seq<u8>, i: int, x: Seq<u8>, m: int)
    requires
        0 <= i,
        i + x.len() <= b.len(),
        b.subrange(i, i + x.len()) == x,
        0 <= m < x.len(),
    ensures
        b[i + m] == x[m],
{
    assert(b.subrange(i, i + x.len())[m] == b[i + m]);
}

proof fn lemma_decimal(n: nat)
    ensures
        fold_digits(0, decimal(n)) == n,
        decimal(n).len() >= 1,
        forall|k: int| 0 <= k < decimal(n).len() ==> is_digit(#[trigger] decimal(n)[k]),
    decreases n,
{
    if n < 10 {
        let d = digit(n as int);
        assert(d == 48 + n);
        assert(decimal(n) == seq![d]);
        assert(seq![d].drop_first() =~= Seq::<u8>::empty());
        assert(seq![d][0] == d);
        assert(fold_digits(0, seq![d]) == fold_digits(0 * 10 + (d - 48), seq![d].drop_first()));
        assert(fold_digits(n as int, Seq::<u8>::empty()) == n);
    } else {
        let q = n / 10;
        let r = n % 10;
        assert(n == q * 10 + r);
        lemma_decimal(q);
        let d = digit(r as int);
        assert(d == 48 + r);
        lemma_fold_push(0, decimal(q), d);
        assert(decimal(n) == decimal(q).push(d));
        assert forall|k: int| 0 <= k < decimal(n).len() implies is_digit(#[trigger] decimal(n)[k]) by {
            if k < decimal(q).len() {
                assert(decimal(n)[k] == decimal(q)[k]);
            }
        }
    }
}

proof fn lemma_scan_digits_run(b: Seq<u8>, i: int, acc: int, ds: Seq<u8>)
    requires
        0 <= i,
        i + ds.len() <= b.len(),
        b.subrange(i, i + ds.len()) == ds,
        forall|k: int| 0 <= k < ds.len() ==> is_digit(#[trigger] ds[k]),
    ensures
        scan_digits(b, i, acc) == scan_digits(b, i + ds.len(), fold_digits(acc, ds)),
    decreases ds.len(),
{
    if ds.len() > 0 {
        lemma_at(b, i, ds, 0);
        assert(is_digit(ds[0]));
        assert(ds =~= seq![ds[0]] + ds.drop_first());
        lemma_split(b, i, seq![ds[0]], ds.drop_first());
        assert forall|k: int| 0 <= k < ds.drop_first().len() implies is_digit(#[trigger] ds.drop_first()[k]) by {
            assert(ds.drop_first()[k] == ds[k + 1]);
        }
        lemma_scan_digits_run(b, i + 1, acc * 10 + (ds[0] - 48), ds.drop_first());
    }
}

/// The decimal text of `n` at `i`, not followed by a digit, reads as `n`.
proof fn lemma_scan_decimal(b: Seq<u8>, i: int, n: nat)
    requires
        0 <= i,
        i + decimal(n).len() <= b.len(),
        b.subrange(i, i + decimal(n).len()) == decimal(n),
        i + decimal(n).len() == b.len() || !is_digit(b[i + decimal(n).len()]),
    ensures
        scan_uint(b, i) == Some((n as int, i + decimal(n).len())),
{
    lemma_decimal(n);
    lemma_scan_digits_run(b, i, 0, decimal(n));
    assert(scan_digits(b, i + decimal(n).len(), n as int) == (n as int, i + decimal(n).len()));
}

proof fn lemma_scan_int_text(b: Seq<u8>, i: int, n: int)
    requires
        0 <= i,
        i + int_text(n).len() <= b.len(),
        b.subrange(i, i + int_text(n).len()) == int_text(n),
        i + int_text(n).len() == b.len() || !is_digit(b[i + int_text(n).len()]),
    ensures
        scan_int(b, i) == Some((n, i + int_text(n).len())),
{
    if n < 0 {
        let d = decimal((-n) as nat);
        lemma_decimal((-n) as nat);
        lemma_split(b, i, seq![45u8], d);
        lemma_at(b, i, seq![45u8], 0);
        lemma_scan_decimal(b, i + 1, (-n) as nat);
    } else {
        lemma_decimal(n as nat);
        lemma_at(b, i, decimal(n as nat), 0);
        assert(is_digit(decimal(n as nat)[0]));
        lemma_scan_decimal(b, i, n as nat);
    }
}

/// An escaped string followed by a quote reads back as the string.
proof fn lemma_scan_escaped(b: Seq<u8>, i: int, s: Seq<u8>, acc: Seq<u8>)
    requires
        0 <= i,
        i + escape(s).len() + 1 <= b.len(),
        b.subrange(i, i + escape(s).len() + 1) == escape(s).push(34u8),
    ensures
        scan_str(b, i, acc) == Some((acc + s, i + escape(s).len() + 1)),
    decreases s.len(),
{
    if s.len() == 0 {
        assert(escape(s) =~= Seq::<u8>::empty());
        lemma_at(b, i, escape(s).push(34u8), 0);
        assert(acc + s =~= acc);
    } else {
        let c = s[0];
        let e = escape_byte(c);
        let rest = s.drop_first();
        assert(escape(s) == e + escape(rest));
        assert(escape(s).push(34u8) =~= e + escape(rest).push(34u8));
        lemma_split(b, i, e, escape(rest).push(34u8));
        let j = i + e.len();
        assert forall|k: int| 0 <= k < e.len() implies b[i + k] == e[k] by {
            lemma_at(b, i, e, k);
        }
        assert(acc.push(c) + rest =~= acc + s);
        if c == 34 || c == 92 || c == 8 || c == 12 || c == 10 || c == 13 || c == 9 {
            assert(b[i] == 92 && b[i + 1] == e[1]);
            lemma_scan_escaped(b, j, rest, acc.push(c));
        } else if c < 32 {
            let hi = c as int / 16;
            let lo = c as int % 16;
            assert(c as int == hi * 16 + lo);
            assert(hex_value(hex_digit(hi)) == hi);
            assert(hex_value(hex_digit(lo)) == lo);
            assert(is_hex(hex_digit(hi)) && is_hex(hex_digit(lo)));
            assert(b[i] == 92 && b[i + 1] == 117 && b[i + 2] == 48 && b[i + 3] == 48);
            assert(b[i + 4] == hex_digit(hi) && b[i + 5] == hex_digit(lo));
            assert((hi * 16 + lo) as u8 == c);
            lemma_scan_escaped(b, j, rest, acc.push(c));
        } else {
            assert(e == seq![c]);
            lemma_at(b, i, e, 0);
            lemma_scan_escaped(b, j, rest, acc.push(c));
        }
    }
}

proof fn lemma_scan_quoted(b: Seq<u8>, i: int, s: Seq<u8>)
    requires
        0 <= i,
        i + quoted(s).len() <= b.len(),
        b.subrange(i, i + quoted(s).len()) == quoted(s),
    ensures
        scan_quoted(b, i) == Some((s, i + quoted(s).len())),
{
    assert(quoted(s) =~= seq![34u8] + escape(s).push(34u8));
    lemma_split(b, i, seq![34u8], escape(s).push(34u8));
    lemma_at(b, i, seq![34u8], 0);
    lemma_scan_escaped(b, i + 1, s, Seq::empty());
    assert(Seq::<u8>::empty() + s =~= s);
}

/// Where each part of a payload text starts and ends.
proof fn lemma_payload_layout(v: u32, kind: Seq<u8>, hash: Seq<u8>, body: Seq<u8>, ts: i64)
    ensures
        ({
            let b = payload_json(v, kind, hash, body, ts);
            let i1: int = 5 + decimal(v as nat).len() as int;
            let i2: int = i1 + 8 + quoted(kind).len();
            let i3: int = i2 + 8 + quoted(hash).len();
            let i4: int = i3 + 8 + quoted(body).len();
            let i5: int = i4 + 6 + int_text(ts as int).len();
            &&& b.len() == i5 + 1
            &&& b.subrange(0, 5) == lit_v()
            &&& b.subrange(5, i1) == decimal(v as nat)
            &&& b.subrange(i1, i1 + 8) == lit_kind()
            &&& b.subrange(i1 + 8, i2) == quoted(kind)
            &&& b.subrange(i2, i2 + 8) == lit_hash()
            &&& b.subrange(i2 + 8, i3) == quoted(hash)
            &&& b.subrange(i3, i3 + 8) == lit_body()
            &&& b.subrange(i3 + 8, i4) == quoted(body)
            &&& b.subrange(i4, i4 + 6) == lit_ts()
            &&& b.subrange(i4 + 6, i5) == int_text(ts as int)
            &&& b.subrange(i5, i5 + 1) == lit_close()
        }),
{
    let b = payload_json(v, kind, hash, body, ts);
    let d = decimal(v as nat);
    let qk = quoted(kind);
    let qh = quoted(hash);
    let qb = quoted(body);
    let t = int_text(ts as int);
    let p1 = lit_v() + d;
    let p2 = p1 + lit_kind();
    let p3 = p2 + qk;
    let p4 = p3 + lit_hash();
    let p5 = p4 + qh;
    let p6 = p5 + lit_body();
    let p7 = p6 + qb;
    let p8 = p7 + lit_ts();
    let p9 = p8 + t;
    assert(b == p9 + lit_close());
    assert(b.subrange(0, b.len() as int) =~= b);
    lemma_split(b, 0, p9, lit_close());
    lemma_split(b, 0, p8, t);
    lemma_split(b, 0, p7, lit_ts());
    lemma_split(b, 0, p6, qb);
    lemma_split(b, 0, p5, lit_body());
    lemma_split(b, 0, p4, qh);
    lemma_split(b, 0, p3, lit_hash());
    lemma_split(b, 0, p2, qk);
    lemma_split(b, 0, p1, lit_kind());
    lemma_split(b, 0, lit_v(), d);
}

/// Reading the text of a payload gives back its fields.
#[verifier::spinoff_prover]
pub proof fn lemma_payload_roundtrip(v: u32, kind: Seq<u8>, hash: Seq<u8>, body: Seq<u8>, ts: i64)
    ensures
        scan_payload(payload_json(v, kind, hash, body, ts)) == Some(
            Fields { v: v as int, kind, hash, body, ts: ts as int },
        ),
{
    let b = payload_json(v, kind, hash, body, ts);
    lemma_payload_layout(v, kind, hash, body, ts);
    let i1: int = 5 + decimal(v as nat).len() as int;
    let i2: int = i1 + 8 + quoted(kind).len();
    let i3: int = i2 + 8 + quoted(hash).len();
    let i4: int = i3 + 8 + quoted(body).len();
    let i5: int = i4 + 6 + int_text(ts as int).len();
    lemma_at(b, i1, lit_kind(), 0);
    lemma_scan_decimal(b, 5, v as nat);
    lemma_scan_quoted(b, i1 + 8, kind);
    lemma_scan_quoted(b, i2 + 8, hash);
    lemma_scan_quoted(b, i3 + 8, body);
    lemma_at(b, i5, lit_close(), 0);
    lemma_scan_int_text(b, i4 + 6, ts as int);
    assert(has_lit(b, 0, lit_v()));
    assert(scan_field(b, i1, lit_kind()) == Some((kind, i2)));
    assert(scan_field(b, i2, lit_hash()) == Some((hash, i3)));
    assert(scan_field(b, i3, lit_body()) == Some((body, i4)));
    assert(has_lit(b, i4, lit_ts()));
    assert(has_lit(b, i5, lit_close()));
    reveal(scan_payload);
}

proof fn lemma_digits_grow(b: Seq<u8>, i: int, acc: int)
    requires
        acc >= 0,
    ensures
        scan_digits(b, i, acc).0 >= acc,
    decreases b.len() - i,
{
    if 0 <= i < b.len() && is_digit(b[i]) {
        lemma_digits_grow(b, i + 1, acc * 10 + (b[i] - 48));
    }
}

/// A text that is some payload's reads back as that payload's fields.
pub proof fn lemma_text_fields(b: Seq<u8>)
    requires
        is_payload_text(b),
    ensures
        scan_payload(b) matches Some(f) && 0 <= f.v <= u32::MAX && i64::MIN <= f.ts <= i64::MAX
            && payload_json(f.v as u32, f.kind, f.hash, f.body, f.ts as i64) == b,
{
    let (v, kind, hash, body, ts) = choose|v: u32, kind: Seq<u8>, hash: Seq<u8>, body: Seq<u8>, ts: i64|
        #[trigger] payload_json(v, kind, hash, body, ts) == b;
    lemma_payload_roundtrip(v, kind, hash, body, ts);
}

/// Whether `lit` stands in `b` at `i`.
fn lit_at(b: &[u8], i: usize, lit: &[u8]) -> (r: bool)
    ensures
        r == has_lit(b@, i as int, lit@),
{
    if lit.len() > b.len() || i > b.len() - lit.len() {
        return false;
    }
    let mut k: usize = 0;
    while k < lit.len()
        invariant
            k <= lit@.len(),
            i + lit@.len() <= b@.len(),
            i + lit.len() <= b.len(),
            forall|t: int| 0 <= t < k ==> b@[i + t] == lit@[t],
        decreases lit@.len() - k,
    {
        if b[i + k] != lit[k] {
            assert(b@.subrange(i as int, i + lit@.len())[k as int] != lit@[k as int]);
            return false;
        }
        k += 1;
    }
    assert(b@.subrange(i as int, i + lit@.len()) =~= lit@);
    true
}

/// An unsigned number at `i` no larger than `limit`.
fn read_uint(b: &[u8], i: usize, limit: u64) -> (r: Option<(u64, usize)>)
    ensures
        match r {
            Some((v, j)) => scan_uint(b@, i as int) == Some((v as int, j as int)) && v <= limit,
            None => match scan_uint(b@, i as int) {
                Some((v, _)) => v > limit,
                None => true,
            },
        },
{
    let mut j = i;
    let mut acc: u64 = 0;
    if j > b.len() {
        return None;
    }
    while j < b.len() && b[j] >= 48 && b[j] <= 57
        invariant
            i <= j <= b@.len(),
            acc <= limit,
            scan_digits(b@, i as int, 0) == scan_digits(b@, j as int, acc as int),
        decreases b@.len() - j,
    {
        let next: u128 = (acc as u128) * 10 + ((b[j] - 48) as u128);
        if next > limit as u128 {
            proof {
                lemma_digits_grow(b@, j + 1, next as int);
            }
            return None;
        }
        acc = next as u64;
        j += 1;
    }
    if j == i {
        return None;
    }
    Some((acc, j))
}

/// A number at `i` that fits an `i64`.
fn read_int(b: &[u8], i: usize) -> (r: Option<(i64, usize)>)
    ensures
        match r {
            Some((x, j)) => scan_int(b@, i as int) == Some((x as int, j as int)),
            None => match scan_int(b@, i as int) {
                Some((x, _)) => x < i64::MIN || x > i64::MAX,
                None => true,
            },
        },
{
    if i < b.len() && b[i] == 45 {
        match read_uint(b, i + 1, 9223372036854775808u64) {
            None => None,
            Some((m, j)) => {
                if m == 9223372036854775808u64 {
                    Some((i64::MIN, j))
                } else {
                    Some((-(m as i64), j))
                }
            },
        }
    } else {
        match read_uint(b, i, 9223372036854775807u64) {
            None => None,
            Some((m, j)) => Some((m as i64, j)),
        }
    }
}

/// A JSON string at `i`: the bytes it stands for and where it ends.
fn read_quoted(b: &[u8], i: usize) -> (r: Option<(Vec<u8>, usize)>)
    ensures
        match r {
            Some((s, j)) => scan_quoted(b@, i as int) == Some((s@, j as int)),
            None => scan_quoted(b@, i as int) is None,
        },
{
    if i >= b.len() || b[i] != 34 {
        return None;
    }
    let mut acc: Vec<u8> = Vec::new();
    let mut j = i + 1;
    while j < b.len()
        invariant
            i < j <= b@.len(),
            scan_quoted(b@, i as int) == scan_str(b@, j as int, acc@),
        decreases b@.len() - j,
    {
        let c = b[j];
        if c == 34 {
            return Some((acc, j + 1));
        } else if c == 92 {
            if j + 1 >= b.len() {
                return None;
            }
            let e = b[j + 1];
            if e == 34 {
                acc.push(34u8);
            } else if e == 92 {
                acc.push(92u8);
            } else if e == 98 {
                acc.push(8u8);
            } else if e == 102 {
                acc.push(12u8);
            } else if e == 110 {
                acc.push(10u8);
            } else if e == 114 {
                acc.push(13u8);
            } else if e == 116 {
                acc.push(9u8);
            } else if e == 117 && b.len() - j > 5 && b[j + 2] == 48 && b[j + 3] == 48 && hex_ok(b[j + 4])
                && hex_ok(b[j + 5]) {
                let v = hex_val(b[j + 4]) * 16 + hex_val(b[j + 5]);
                acc.push(v);
                j += 4;
            } else {
                return None;
            }
            j += 2;
        } else {
            acc.push(c);
            j += 1;
        }
    }
    None
}

fn hex_ok(c: u8) -> (r: bool)
    ensures
        r == is_hex(c),
{
    (48 <= c && c <= 57) || (97 <= c && c <= 102) || (65 <= c && c <= 70)
}

fn hex_val(c: u8) -> (r: u8)
    ensures
        r == hex_value(c),
        r < 16,
{
    if 48 <= c && c <= 57 {
        c - 48
    } else if 97 <= c && c <= 102 {
        c - 87
    } else if 65 <= c && c <= 70 {
        c - 55
    } else {
        0
    }
}

fn bytes_equal(a: &[u8], b: &[u8]) -> (r: bool)
    ensures
        r == (a@ == b@),
{
    if a.len() != b.len() {
        return false;
    }
    let mut k: usize = 0;
    while k < a.len()
        invariant
            k <= a@.len(),
            a@.len() == b@.len(),
            forall|t: int| 0 <= t < k ==> a@[t] == b@[t],
        decreases a@.len() - k,
    {
        if a[k] != b[k] {
            return false;
        }
        k += 1;
    }
    assert(a@ =~= b@);
    true
}

/// The fields as `scan_payload` reads them, when they fit their types.
fn scan_fields(b: &[u8]) -> (r: Option<(u32, Vec<u8>, Vec<u8>, Vec<u8>, i64)>)
    ensures
        match r {
            Some((v, kind, hash, body, ts)) => scan_payload(b@) == Some(
                Fields { v: v as int, kind: kind@, hash: hash@, body: body@, ts: ts as int },
            ),
            None => match scan_payload(b@) {
                Some(f) => f.v > u32::MAX || f.ts < i64::MIN || f.ts > i64::MAX,
                None => true,
            },
        },
{
    proof {
        reveal(scan_payload);
    }
    if !lit_at(b, 0, &[123u8, 34u8, 118u8, 34u8, 58u8]) {
        return None;
    }
    let (v, i1) = match read_uint(b, 5, 4294967295u64) {
        None => return None,
        Some(p) => p,
    };
    if !lit_at(b, i1, &[44u8, 34u8, 107u8, 105u8, 110u8, 100u8, 34u8, 58u8]) {
        return None;
    }
    assert(i1 + 8 <= b@.len());
    assert(b@.len() == b.len());
    let (kind, i2) = match read_quoted(b, i1 + 8) {
        None => return None,
        Some(p) => p,
    };
    if !lit_at(b, i2, &[44u8, 34u8, 104u8, 97u8, 115u8, 104u8, 34u8, 58u8]) {
        return None;
    }
    assert(i2 + 8 <= b@.len());
    assert(b@.len() == b.len());
    let (hash, i3) = match read_quoted(b, i2 + 8) {
        None => return None,
        Some(p) => p,
    };
    if !lit_at(b, i3, &[44u8, 34u8, 98u8, 111u8, 100u8, 121u8, 34u8, 58u8]) {
        return None;
    }
    let (body, i4) = match read_quoted(b, i3 + 8) {
        None => return None,
        Some(p) => p,
    };
    if !lit_at(b, i4, &[44u8, 34u8, 116u8, 115u8, 34u8, 58u8]) {
        return None;
    }
    let (ts, i5) = match read_int(b, i4 + 6) {
        None => return None,
        Some(p) => p,
    };
    assert(scan_uint(b@, 5) == Some((v as int, i1 as int)));
    assert(scan_field(b@, i1 as int, lit_kind()) == Some((kind@, i2 as int)));
    assert(scan_field(b@, i2 as int, lit_hash()) == Some((hash@, i3 as int)));
    assert(scan_field(b@, i3 as int, lit_body()) == Some((body@, i4 as int)));
    assert(has_lit(b@, i4 as int, lit_ts()));
    assert(scan_int(b@, i4 + 6) == Some((ts as int, i5 as int)));
    if i5 >= b.len() || i5 + 1 != b.len() {
        return None;
    }
    if b[i5] != 125 {
        assert(b@.subrange(i5 as int, i5 + 1)[0] == b@[i5 as int]);
        return None;
    }
    assert(b@.subrange(i5 as int, i5 + 1) =~= lit_close());
    assert(has_lit(b@, i5 as int, lit_close()));
    Some((v as u32, kind, hash, body, ts))
}

/// The fields of a payload text: the version, the bytes of `kind`, `hash`
/// and `body`, and the time stamp. `None` when `b` is not the text of any
/// payload.
pub fn read_payload(b: &[u8]) -> (r: Option<(u32, Vec<u8>, Vec<u8>, Vec<u8>, i64)>)
    ensures
        match r {
            Some((v, kind, hash, body, ts)) => payload_json(v, kind@, hash@, body@, ts) == b@,
            None => !is_payload_text(b@),
        },
{
    proof {
        if is_payload_text(b@) {
            lemma_text_fields(b@);
        }
    }
    let (v, kind, hash, body, ts) = match scan_fields(b) {
        None => return None,
        Some(f) => f,
    };
    let again = write_payload(v, kind.as_slice(), hash.as_slice(), body.as_slice(), ts);
    if !bytes_equal(again.as_slice(), b) {
        return None;
    }
    Some((v, kind, hash, body, ts))
}

/// Decimal digits of `n` as characters.
pub open spec fn decimal_chars(n: nat) -> Seq<char>
    decreases n,
{
    if n < 10 {
        seq![digit(n as int) as char]
    } else {
        decimal_chars(n / 10).push(digit((n % 10) as int) as char)
    }
}

fn digit_str(d: u64) -> (r: &'static str)
    requires
        d < 10,
    ensures
        r@ == seq![digit(d as int) as char],
{
    let r = if d == 0 {
        "0"
    } else if d == 1 {
        "1"
    } else if d == 2 {
        "2"
    } else if d == 3 {
        "3"
    } else if d == 4 {
        "4"
    } else if d == 5 {
        "5"
    } else if d == 6 {
        "6"
    } else if d == 7 {
        "7"
    } else if d == 8 {
        "8"
    } else {
        "9"
    };
    proof {
        reveal_strlit("0");
        reveal_strlit("1");
        reveal_strlit("2");
        reveal_strlit("3");
        reveal_strlit("4");
        reveal_strlit("5");
        reveal_strlit("6");
        reveal_strlit("7");
        reveal_strlit("8");
        reveal_strlit("9");
    }
    assert(r@ =~= seq![digit(d as int) as char]);
    r
}

/// Appends the decimal digits of `n` to `s`.
pub fn append_decimal(s: &mut String, n: u64)
    ensures
        final(s)@ == old(s)@ + decimal_chars(n as nat),
    decreases n,
{
    if n >= 10 {
        append_decimal(s, n / 10);
    }
    s.append(digit_str(n % 10));
    assert(final(s)@ =~= old(s)@ + decimal_chars(n as nat));
}

} // verus!
