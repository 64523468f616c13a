//! Content fingerprint and the remote descriptor codec.
//!
//! A remote attachment is described by a small markup record holding its last
//! modification time (millisecond epoch) and a lowercase hex content hash:
//!
//! `<properties version="1"><mtime>123</mtime><hash>abc123</hash></properties>`
//!
//! `get_new_prop` renders that record and `parse_properties` is its exact
//! inverse: it accepts precisely the canonical renderings and nothing else.

use md5::Digest;
use vstd::prelude::*;

verus! {

// ---------------------------------------------------------------------------
// Characters and digits
// ---------------------------------------------------------------------------

/// The numeric value of a decimal digit character, `-1` for any other
/// character.
pub open spec fn digit_val(c: char) -> int {
    if c == '0' { 0 }
    else if c == '1' { 1 }
    else if c == '2' { 2 }
    else if c == '3' { 3 }
    else if c == '4' { 4 }
    else if c == '5' { 5 }
    else if c == '6' { 6 }
    else if c == '7' { 7 }
    else if c == '8' { 8 }
    else if c == '9' { 9 }
    else { -1 }
}

/// A decimal digit `'0'..='9'`.
pub open spec fn is_digit(c: char) -> bool {
    digit_val(c) >= 0
}

/// A lowercase hexadecimal digit `'0'..='9' | 'a'..='f'`.
pub open spec fn is_lower_hex(c: char) -> bool {
    is_digit(c) || c == 'a' || c == 'b' || c == 'c' || c == 'd' || c == 'e' || c == 'f'
}

/// The character for a value in `0..16`, lowercase.
pub open spec fn hex_digit(n: int) -> char {
    if n == 0 { '0' }
    else if n == 1 { '1' }
    else if n == 2 { '2' }
    else if n == 3 { '3' }
    else if n == 4 { '4' }
    else if n == 5 { '5' }
    else if n == 6 { '6' }
    else if n == 7 { '7' }
    else if n == 8 { '8' }
    else if n == 9 { '9' }
    else if n == 10 { 'a' }
    else if n == 11 { 'b' }
    else if n == 12 { 'c' }
    else if n == 13 { 'd' }
    else if n == 14 { 'e' }
    else { 'f' }
}

// ---------------------------------------------------------------------------
// Content fingerprint: lowercase hex of the MD5 digest
// ---------------------------------------------------------------------------

/// Lowercase hex rendering of a byte string, high nibble first.
pub open spec fn hex_of(bytes: Seq<u8>) -> Seq<char> {
    Seq::new(bytes.len() * 2, |i: int|
        if i % 2 == 0 {
            hex_digit((bytes[i / 2] >> 4u8) as int)
        } else {
            hex_digit((bytes[i / 2] & 0xfu8) as int)
        })
}

/// The MD5 digest of a byte string; a pure function of the bytes alone.
pub uninterp spec fn md5_digest(bytes: Seq<u8>) -> Seq<u8>;

/// Relies on the `md5` crate (RustCrypto `Md5`): the digest depends on the
/// input bytes alone and is always 16 bytes long.
#[verifier::external_body]
fn md5_bytes(data: &[u8]) -> (r: Vec<u8>)
    ensures
        r@ == md5_digest(data@),
        r@.len() == 16,
{
    md5::Md5::digest(data).to_vec()
}

/// Relies on `hex::encode`: two lowercase hex digits per input byte, high
/// nibble first, in input order.
#[verifier::external_body]
fn hex_encode(data: &Vec<u8>) -> (r: String)
    ensures
        r@ == hex_of(data@),
{
    hex::encode(data)
}

/// The fingerprint used as a cheap content-equality oracle.
pub open spec fn fingerprint_of(bytes: Seq<u8>) -> Seq<char> {
    hex_of(md5_digest(bytes))
}

/// Hashes a payload's bytes into the lowercase hex fingerprint that remote
/// descriptors carry.
pub fn fingerprint(data: &[u8]) -> (r: String)
    ensures
        r@ == fingerprint_of(data@),
        r@.len() == 32,
{
    let digest = md5_bytes(data);
    hex_encode(&digest)
}

// ---------------------------------------------------------------------------
// Decimal renderings
// ---------------------------------------------------------------------------

/// Canonical decimal rendering of a non-negative integer (no leading zeros).
pub open spec fn dec_nat(n: int) -> Seq<char>
    recommends
        n >= 0,
    decreases n,
{
    if n < 10 {
        seq![hex_digit(n)]
    } else {
        dec_nat(n / 10).push(hex_digit(n % 10))
    }
}

/// Canonical decimal rendering of an integer, `'-'`-prefixed when negative.
pub open spec fn dec_int(m: int) -> Seq<char> {
    if m < 0 {
        seq!['-'] + dec_nat(-m)
    } else {
        dec_nat(m)
    }
}

/// The value of a non-empty run of decimal digit characters.
pub open spec fn digits_val(s: Seq<char>) -> int
    decreases s.len(),
{
    if s.len() <= 1 {
        digit_val(s[0])
    } else {
        digits_val(s.drop_last()) * 10 + digit_val(s.last())
    }
}

/// A digit run is canonical when it is non-empty, all digits, and has no
/// leading zero (except the single digit `"0"` itself).
pub open spec fn canonical_digits(s: Seq<char>) -> bool {
    &&& s.len() >= 1
    &&& (forall|i: int| 0 <= i < s.len() ==> is_digit(#[trigger] s[i]))
    &&& (s.len() > 1 ==> s[0] != '0')
}

pub proof fn lemma_dec_nat_shape(n: int)
    requires
        n >= 0,
    ensures
        canonical_digits(dec_nat(n)),
        n < 10 <==> dec_nat(n).len() == 1,
    decreases n,
{
    if n >= 10 {
        lemma_dec_nat_shape(n / 10);
    }
}

pub proof fn lemma_dec_nat_val(n: int)
    requires
        n >= 0,
    ensures
        digits_val(dec_nat(n)) == n,
    decreases n,
{
    if n >= 10 {
        lemma_dec_nat_val(n / 10);
        assert(dec_nat(n / 10).push(hex_digit(n % 10)).drop_last() =~= dec_nat(n / 10));
    }
}

/// A canonical digit run is the rendering of its own value: renderings and
/// canonical runs are in one-to-one correspondence.
pub proof fn lemma_canonical_digits_render(s: Seq<char>)
    requires
        canonical_digits(s),
    ensures
        digits_val(s) >= 0,
        dec_nat(digits_val(s)) == s,
    decreases s.len(),
{
    if s.len() == 1 {
        assert(is_digit(s[0]));
        assert(digits_val(s) == digit_val(s[0]));
        assert(dec_nat(digits_val(s)) =~= s);
    } else {
        let pre = s.drop_last();
        assert(canonical_digits(pre)) by {
            assert(forall|i: int| 0 <= i < pre.len() ==> pre[i] == s[i]);
        }
        lemma_canonical_digits_render(pre);
        let v = digits_val(s);
        let pv = digits_val(pre);
        assert(pv >= 1) by {
            if pv == 0 {
                lemma_digits_val_zero(pre);
            }
        }
        assert(v == pv * 10 + digit_val(s.last()));
        assert(0 <= digit_val(s.last()) < 10);
        assert(v >= 10) by (nonlinear_arith)
            requires
                pv >= 1,
                v == pv * 10 + digit_val(s.last()),
                digit_val(s.last()) >= 0,
        ;
        assert(v / 10 == pv && v % 10 == digit_val(s.last())) by (nonlinear_arith)
            requires
                v == pv * 10 + digit_val(s.last()),
                0 <= digit_val(s.last()) < 10,
                pv >= 0,
        ;
        assert(dec_nat(v) == dec_nat(pv).push(hex_digit(digit_val(s.last()))));
        assert(is_digit(s.last()));
        assert(hex_digit(digit_val(s.last())) == s.last());
        assert(dec_nat(v) =~= s);
    }
}

/// A digit run of value zero starts with `'0'`.
proof fn lemma_digits_val_zero(s: Seq<char>)
    requires
        s.len() >= 1,
        forall|i: int| 0 <= i < s.len() ==> is_digit(#[trigger] s[i]),
        digits_val(s) == 0,
    ensures
        s[0] == '0',
    decreases s.len(),
{
    if s.len() == 1 {
        assert(is_digit(s[0]));
        assert(digit_val(s[0]) == 0);
    } else {
        let pre = s.drop_last();
        assert(forall|i: int| 0 <= i < pre.len() ==> is_digit(#[trigger] pre[i]));
        assert(digits_val(pre) * 10 + digit_val(s.last()) == 0);
        lemma_digits_val_nonneg(pre);
        assert(digits_val(pre) == 0) by (nonlinear_arith)
            requires
                digits_val(pre) >= 0,
                digit_val(s.last()) >= 0,
                digits_val(pre) * 10 + digit_val(s.last()) == 0,
        ;
        lemma_digits_val_zero(pre);
        assert(pre[0] == s[0]);
    }
}

proof fn lemma_digits_val_nonneg(s: Seq<char>)
    requires
        s.len() >= 1,
        forall|i: int| 0 <= i < s.len() ==> is_digit(#[trigger] s[i]),
    ensures
        digits_val(s) >= 0,
    decreases s.len(),
{
    if s.len() > 1 {
        let pre = s.drop_last();
        assert(forall|i: int| 0 <= i < pre.len() ==> is_digit(#[trigger] pre[i]));
        lemma_digits_val_nonneg(pre);
        assert(digits_val(pre) * 10 >= 0) by (nonlinear_arith)
            requires
                digits_val(pre) >= 0,
        ;
    }
}

// ---------------------------------------------------------------------------
// Rendering integers into a string
// ---------------------------------------------------------------------------

/// A one-character string for a digit value.
fn digit_str(d: u64) -> (r: &'static str)
    requires
        d < 10,
    ensures
        r@ =~= seq![hex_digit(d as int)],
{
    proof {
        reveal_strlit("0");
        reveal_strlit("1");
        reveal_strlit("2");
        reveal_strlit("3");
        reveal_strlit("4");
        reveal_strlit("5");
        reveal_strlit("6");
        reveal_strlit("7");
        reveal_strlit("8");
        reveal_strlit("9");
    }
    match d {
        0 => "0",
        1 => "1",
        2 => "2",
        3 => "3",
        4 => "4",
        5 => "5",
        6 => "6",
        7 => "7",
        8 => "8",
        _ => "9",
    }
}

/// Appends the canonical decimal rendering of `n`.
fn append_u64_dec(s: &mut String, n: u64)
    ensures
        final(s)@ == old(s)@ + dec_nat(n as int),
    decreases n,
{
    if n < 10 {
        s.append(digit_str(n));
    } else {
        append_u64_dec(s, n / 10);
        s.append(digit_str(n % 10));
        assert(s@ =~= old(s)@ + dec_nat(n as int));
    }
}

/// Appends the canonical decimal rendering of `m`, sign included.
fn append_i64_dec(s: &mut String, m: i64)
    ensures
        final(s)@ == old(s)@ + dec_int(m as int),
{
    if m < 0 {
        let mag: u64 = (-(m as i128)) as u64;
        s.append("-");
        proof {
            reveal_strlit("-");
        }
        append_u64_dec(s, mag);
        assert(s@ =~= old(s)@ + dec_int(m as int));
    } else {
        append_u64_dec(s, m as u64);
    }
}

} // verus!

verus! {

// ---------------------------------------------------------------------------
// The remote descriptor and its markup
// ---------------------------------------------------------------------------

/// Mathematical model of a remote descriptor: a millisecond epoch and the
/// lowercase hex content hash.
pub ghost struct DescriptorModel {
    pub mtime: int,
    pub hash: Seq<char>,
}

/// Every character of the hash is a lowercase hex digit.
pub open spec fn valid_hash(h: Seq<char>) -> bool {
    forall|i: int| 0 <= i < h.len() ==> is_lower_hex(#[trigger] h[i])
}

/// A descriptor the markup can carry: an `i64` epoch and a hex hash.
pub open spec fn valid_descriptor(d: DescriptorModel) -> bool {
    &&& i64::MIN <= d.mtime <= i64::MAX
    &&& valid_hash(d.hash)
}

pub open spec fn markup_prefix() -> Seq<char> {
    "<properties version=\"1\"><mtime>"@
}

pub open spec fn markup_mid() -> Seq<char> {
    "</mtime><hash>"@
}

pub open spec fn markup_suffix() -> Seq<char> {
    "</hash></properties>"@
}

/// The canonical markup rendering of a descriptor.
pub open spec fn desc_markup(d: DescriptorModel) -> Seq<char> {
    markup_prefix() + dec_int(d.mtime) + markup_mid() + d.hash + markup_suffix()
}

/// The last known state of a remote attachment: modification time in
/// millisecond epoch and content hash in lowercase hex.
#[derive(Debug)]
pub struct Properties {
    pub mtime: i64,
    pub hash: String,
}

impl View for Properties {
    type V = DescriptorModel;

    open spec fn view(&self) -> DescriptorModel {
        DescriptorModel { mtime: self.mtime as int, hash: self.hash@ }
    }
}

/// Rejection of text that is not the canonical markup of any descriptor.
#[derive(Debug, PartialEq, Eq, Structural)]
pub enum ParseError {
    Malformed,
}

/// Renders the descriptor to publish after a local edit.
pub fn get_new_prop(prop: Properties) -> (r: String)
    ensures
        r@ == desc_markup(prop@),
{
    let mut s = String::new();
    s.append("<properties version=\"1\"><mtime>");
    append_i64_dec(&mut s, prop.mtime);
    s.append("</mtime><hash>");
    s.append(prop.hash.as_str());
    s.append("</hash></properties>");
    proof {
        assert(s@ =~= desc_markup(prop@));
    }
    s
}

} // verus!

verus! {

// ---------------------------------------------------------------------------
// Parsing helpers
// ---------------------------------------------------------------------------

fn digit_of(c: char) -> (r: Option<u8>)
    ensures
        match r {
            Some(d) => is_digit(c) && d as int == digit_val(c),
            None => !is_digit(c),
        },
{
    if c == '0' { Some(0) }
    else if c == '1' { Some(1) }
    else if c == '2' { Some(2) }
    else if c == '3' { Some(3) }
    else if c == '4' { Some(4) }
    else if c == '5' { Some(5) }
    else if c == '6' { Some(6) }
    else if c == '7' { Some(7) }
    else if c == '8' { Some(8) }
    else if c == '9' { Some(9) }
    else { None }
}

fn is_lower_hex_char(c: char) -> (r: bool)
    ensures
        r == is_lower_hex(c),
{
    match digit_of(c) {
        Some(_) => true,
        None => c == 'a' || c == 'b' || c == 'c' || c == 'd' || c == 'e' || c == 'f',
    }
}

/// Does `pat` occur in `text` exactly at position `start`?
fn match_at(text: &str, start: usize, pat: &str) -> (r: bool)
    ensures
        r <==> (start + pat@.len() <= text@.len() && text@.subrange(
            start as int,
            start as int + pat@.len() as int,
        ) =~= pat@),
{
    let tlen = text.unicode_len();
    let plen = pat.unicode_len();
    if plen > tlen || start > tlen - plen {
        return false;
    }
    let mut i: usize = 0;
    while i < plen
        invariant
            i <= plen,
            start + plen <= tlen,
            tlen == text@.len(),
            plen == pat@.len(),
            forall|j: int| 0 <= j < i ==> text@[start + j] == pat@[j],
        decreases plen - i,
    {
        if text.get_char(start + i) != pat.get_char(i) {
            return false;
        }
        i += 1;
    }
    proof {
        assert(text@.subrange(start as int, start as int + pat@.len() as int) =~= pat@);
    }
    true
}

/// The first occurrence of `target` at or after `from`.
fn scan_until(text: &str, from: usize, target: char) -> (r: Option<usize>)
    requires
        from <= text@.len(),
    ensures
        match r {
            Some(p) => from <= p < text@.len() && text@[p as int] == target && (forall|j: int|
                from <= j < p ==> text@[j] != target),
            None => forall|j: int| from <= j < text@.len() ==> text@[j] != target,
        },
{
    let tlen = text.unicode_len();
    let mut i: usize = from;
    while i < tlen
        invariant
            from <= i <= tlen,
            tlen == text@.len(),
            forall|j: int| from <= j < i ==> text@[j] != target,
        decreases tlen - i,
    {
        if text.get_char(i) == target {
            return Some(i);
        }
        i += 1;
    }
    None
}

// ---------------------------------------------------------------------------
// Canonical decimal parsing
// ---------------------------------------------------------------------------

proof fn lemma_digits_val_prefix(s: Seq<char>, k: int)
    requires
        1 <= k <= s.len(),
        forall|i: int| 0 <= i < s.len() ==> is_digit(#[trigger] s[i]),
    ensures
        digits_val(s) >= digits_val(s.subrange(0, k)) >= 0,
    decreases s.len() - k,
{
    if k == s.len() {
        assert(s.subrange(0, k) =~= s);
        lemma_digits_val_nonneg(s);
    } else {
        lemma_digits_val_prefix(s, k + 1);
        let a = s.subrange(0, k);
        let b = s.subrange(0, k + 1);
        assert(b.drop_last() =~= a);
        assert(forall|i: int| 0 <= i < a.len() ==> is_digit(#[trigger] a[i]));
        lemma_digits_val_nonneg(a);
        assert(digits_val(b) == digits_val(a) * 10 + digit_val(b.last()));
        assert(digits_val(a) * 10 >= digits_val(a)) by (nonlinear_arith)
            requires
                digits_val(a) >= 0,
        ;
        assert(is_digit(b.last()));
    }
}

/// Shape of a canonical integer rendering: an optional leading `'-'` (exactly
/// when the value is negative) followed by a canonical digit run.
pub proof fn lemma_dec_int_shape(m: int)
    ensures
        dec_int(m).len() >= 1,
        m >= 0 ==> dec_int(m) == dec_nat(m) && canonical_digits(dec_int(m)),
        m < 0 ==> dec_int(m)[0] == '-' && dec_int(m).len() == 1 + dec_nat(-m).len() && dec_int(
            m,
        ).subrange(1, dec_int(m).len() as int) =~= dec_nat(-m) && canonical_digits(dec_nat(-m)),
{
    if m < 0 {
        lemma_dec_nat_shape(-m);
        assert(dec_int(m).subrange(1, dec_int(m).len() as int) =~= dec_nat(-m));
    } else {
        lemma_dec_nat_shape(m);
    }
}

/// Parses exactly the canonical decimal renderings of `i64` values.
fn parse_dec_i64(tok: &str) -> (r: Option<i64>)
    ensures
        match r {
            Some(m) => tok@ == dec_int(m as int),
            None => forall|m: int| i64::MIN <= m <= i64::MAX ==> tok@ != dec_int(m),
        },
{
    let n = tok.unicode_len();
    if n == 0 {
        proof {
            assert forall|m: int| i64::MIN <= m <= i64::MAX implies tok@ != dec_int(m) by {
                lemma_dec_int_shape(m);
            }
        }
        return None;
    }
    let neg = tok.get_char(0) == '-';
    let dstart: usize = if neg {
        1
    } else {
        0
    };
    if n == dstart {
        proof {
            assert forall|m: int| i64::MIN <= m <= i64::MAX implies tok@ != dec_int(m) by {
                lemma_dec_int_shape(m);
                if tok@ == dec_int(m) {
                    if m >= 0 {
                        assert(is_digit(tok@[0]));
                    }
                }
            }
        }
        return None;
    }
    let lead_zero = n > dstart + 1 && tok.get_char(dstart) == '0';
    if lead_zero {
        proof {
            assert forall|m: int| i64::MIN <= m <= i64::MAX implies tok@ != dec_int(m) by {
                lemma_dec_int_shape(m);
                if tok@ == dec_int(m) {
                    if m >= 0 {
                        if neg {
                            assert(is_digit(tok@[0]));
                        } else {
                            assert(canonical_digits(tok@));
                        }
                    } else {
                        if neg {
                            let digits = dec_nat(-m);
                            assert(tok@.subrange(1, n as int) =~= digits);
                            assert(digits[0] == tok@[dstart as int]);
                            assert(digits.len() > 1);
                        } else {
                            assert(tok@[0] == '-');
                        }
                    }
                }
            }
        }
        return None;
    }
    let limit: u64 = if neg {
        9223372036854775808
    } else {
        9223372036854775807
    };
    let mut acc: u64 = 0;
    let mut i: usize = dstart;
    while i < n
        invariant
            dstart <= i <= n,
            n == tok@.len(),
            n > dstart,
            dstart == if neg { 1int } else { 0int },
            neg ==> tok@[0] == '-',
            !neg ==> tok@[0] != '-',
            !(n > dstart + 1 && tok@[dstart as int] == '0'),
            limit == if neg { 9223372036854775808u64 } else { 9223372036854775807u64 },
            forall|j: int| dstart <= j < i ==> is_digit(#[trigger] tok@[j]),
            i > dstart ==> acc == digits_val(tok@.subrange(dstart as int, i as int)),
            i == dstart ==> acc == 0,
            acc <= limit,
        decreases n - i,
    {
        let c = tok.get_char(i);
        match digit_of(c) {
            None => {
                proof {
                    assert forall|m: int| i64::MIN <= m <= i64::MAX implies tok@ != dec_int(m) by {
                        lemma_dec_int_shape(m);
                        if tok@ == dec_int(m) {
                            if m >= 0 {
                                if neg {
                                    assert(is_digit(tok@[0]));
                                } else {
                                    assert(canonical_digits(tok@));
                                    assert(is_digit(tok@[i as int]));
                                }
                            } else {
                                if neg {
                                    let digits = dec_nat(-m);
                                    assert(tok@.subrange(1, n as int) =~= digits);
                                    assert(digits[i - 1] == tok@[i as int]);
                                    assert(is_digit(digits[i - 1]));
                                } else {
                                    assert(tok@[0] == '-');
                                }
                            }
                        }
                    }
                }
                return None;
            },
            Some(d) => {
                if acc > (limit - d as u64) / 10 {
                    proof {
                        assert(acc * 10 + d > limit) by (nonlinear_arith)
                            requires
                                acc > (limit - d as u64) / 10,
                                0 <= d < 10,
                                d <= limit,
                        ;
                        assert forall|m: int| i64::MIN <= m <= i64::MAX implies tok@ != dec_int(
                            m,
                        ) by {
                            lemma_dec_int_shape(m);
                            if tok@ == dec_int(m) {
                                let mag = if m < 0 { -m } else { m };
                                let digits = dec_nat(mag);
                                lemma_dec_nat_val(mag);
                                if m >= 0 && neg {
                                    assert(is_digit(tok@[0]));
                                } else if m < 0 && !neg {
                                    assert(tok@[0] == '-');
                                } else {
                                    assert(tok@.subrange(dstart as int, n as int) =~= digits);
                                    assert(mag <= limit);
                                    let p = tok@.subrange(dstart as int, i + 1);
                                    assert(p =~= digits.subrange(0, i + 1 - dstart));
                                    lemma_digits_val_prefix(digits, i + 1 - dstart);
                                    if i == dstart {
                                        assert(p =~= seq![tok@[i as int]]);
                                        assert(digits_val(p) == digit_val(tok@[i as int]));
                                    } else {
                                        assert(p.drop_last() =~= tok@.subrange(
                                            dstart as int,
                                            i as int,
                                        ));
                                        assert(digits_val(p) == acc * 10 + digit_val(
                                            tok@[i as int],
                                        ));
                                    }
                                }
                            }
                        }
                    }
                    return None;
                }
                proof {
                    assert(acc * 10 + d <= limit) by (nonlinear_arith)
                        requires
                            acc <= (limit - d as u64) / 10,
                            0 <= d < 10,
                            d <= limit,
                    ;
                }
                let ghost old_acc = acc;
                acc = acc * 10 + d as u64;
                proof {
                    let sub1 = tok@.subrange(dstart as int, i + 1);
                    if i == dstart {
                        assert(sub1 =~= seq![tok@[i as int]]);
                        assert(digits_val(sub1) == digit_val(tok@[i as int]));
                    } else {
                        assert(sub1.drop_last() =~= tok@.subrange(dstart as int, i as int));
                        assert(digits_val(sub1) == old_acc * 10 + digit_val(tok@[i as int]));
                    }
                }
                i += 1;
            },
        }
    }
    if neg && acc == 0 {
        proof {
            assert forall|m: int| i64::MIN <= m <= i64::MAX implies tok@ != dec_int(m) by {
                lemma_dec_int_shape(m);
                if tok@ == dec_int(m) {
                    if m >= 0 {
                        assert(is_digit(tok@[0]));
                    } else {
                        let digits = dec_nat(-m);
                        lemma_dec_nat_val(-m);
                        assert(tok@.subrange(1, n as int) =~= digits);
                        assert(digits_val(digits) == -m);
                    }
                }
            }
        }
        return None;
    }
    proof {
        let digits = tok@.subrange(dstart as int, n as int);
        assert(canonical_digits(digits)) by {
            assert(digits.len() >= 1);
            assert(forall|j: int| 0 <= j < digits.len() ==> digits[j] == tok@[dstart + j]);
            if digits.len() > 1 {
                assert(tok@[dstart as int] != '0');
            }
        }
        lemma_canonical_digits_render(digits);
        assert(digits_val(digits) == acc);
        assert(dec_nat(acc as int) == digits);
    }
    if neg {
        let m: i64 = (-(acc as i128)) as i64;
        proof {
            assert(m as int == -(acc as int));
            assert(tok@ =~= seq!['-'] + tok@.subrange(1, n as int));
            assert(tok@ =~= dec_int(m as int));
        }
        Some(m)
    } else {
        let m: i64 = acc as i64;
        proof {
            assert(tok@ =~= tok@.subrange(0, n as int));
            assert(tok@ =~= dec_int(m as int));
        }
        Some(m)
    }
}

} // verus!

verus! {

// ---------------------------------------------------------------------------
// Decoding the descriptor markup
// ---------------------------------------------------------------------------

/// Positional facts that follow from `text` being a canonical markup: where
/// each region lies, that the number region holds no `'<'`, and that the hash
/// region holds lowercase hex only.
proof fn lemma_markup_parts(text: Seq<char>, d: DescriptorModel)
    requires
        valid_descriptor(d),
        text == desc_markup(d),
    ensures
        ({
            let pl = markup_prefix().len() as int;
            let dl = dec_int(d.mtime).len() as int;
            let ml = markup_mid().len() as int;
            let hl = d.hash.len() as int;
            let sl = markup_suffix().len() as int;
            &&& pl > 0 && ml > 0 && sl > 0
            &&& text.len() == pl + dl + ml + hl + sl
            &&& text.subrange(0, pl) =~= markup_prefix()
            &&& text.subrange(pl, pl + dl) =~= dec_int(d.mtime)
            &&& (forall|j: int| pl <= j < pl + dl ==> text[j] != '<')
            &&& text[pl + dl] == '<'
            &&& text.subrange(pl + dl, pl + dl + ml) =~= markup_mid()
            &&& text.subrange(pl + dl + ml, pl + dl + ml + hl) =~= d.hash
            &&& (forall|j: int|
                pl + dl + ml <= j < pl + dl + ml + hl ==> is_lower_hex(text[j]) && text[j] != '<')
            &&& text[pl + dl + ml + hl] == '<'
            &&& text.subrange(pl + dl + ml + hl, text.len() as int) =~= markup_suffix()
        }),
{
    reveal_strlit("<properties version=\"1\"><mtime>");
    reveal_strlit("</mtime><hash>");
    reveal_strlit("</hash></properties>");
    lemma_dec_int_shape(d.mtime);
    let pl = markup_prefix().len() as int;
    let dl = dec_int(d.mtime).len() as int;
    let ml = markup_mid().len() as int;
    let hl = d.hash.len() as int;
    let sl = markup_suffix().len() as int;
    assert(text.subrange(0, pl) =~= markup_prefix());
    assert(text.subrange(pl, pl + dl) =~= dec_int(d.mtime));
    assert(text.subrange(pl + dl, pl + dl + ml) =~= markup_mid());
    assert(text.subrange(pl + dl + ml, pl + dl + ml + hl) =~= d.hash);
    assert(text.subrange(pl + dl + ml + hl, text.len() as int) =~= markup_suffix());
    assert(text[pl + dl] == markup_mid()[0]);
    assert(text[pl + dl + ml + hl] == markup_suffix()[0]);
    assert forall|j: int| pl <= j < pl + dl implies text[j] != '<' by {
        let k = j - pl;
        assert(text[j] == dec_int(d.mtime)[k]);
        if d.mtime < 0 {
            if k > 0 {
                assert(dec_int(d.mtime)[k] == dec_nat(-d.mtime)[k - 1]);
                assert(is_digit(dec_nat(-d.mtime)[k - 1]));
            }
        } else {
            assert(is_digit(dec_int(d.mtime)[k]));
        }
    }
    assert forall|j: int|
        pl + dl + ml <= j < pl + dl + ml + hl implies is_lower_hex(text[j]) && text[j] != '<' by {
        let k = j - (pl + dl + ml);
        assert(text[j] == d.hash[k]);
        assert(is_lower_hex(d.hash[k]));
    }
}

/// Decodes a remote descriptor from its markup. Accepts exactly the canonical
/// renderings of valid descriptors — the inverse of `get_new_prop` — and
/// reports `ParseError` for every other text.
pub fn parse_properties(text: &str) -> (r: Result<Properties, ParseError>)
    ensures
        match r {
            Ok(p) => valid_hash(p.hash@) && text@ == desc_markup(p@),
            Err(_) => forall|d: DescriptorModel| valid_descriptor(d) ==> text@ != desc_markup(d),
        },
{
    let tlen = text.unicode_len();
    let pre = "<properties version=\"1\"><mtime>";
    let mid = "</mtime><hash>";
    let suf = "</hash></properties>";
    let plen = pre.unicode_len();
    if !match_at(text, 0, pre) {
        proof {
            assert forall|d: DescriptorModel| valid_descriptor(d) implies text@ != desc_markup(
                d,
            ) by {
                if text@ == desc_markup(d) {
                    lemma_markup_parts(text@, d);
                }
            }
        }
        return Err(ParseError::Malformed);
    }
    let p1: usize = match scan_until(text, plen, '<') {
        Some(p) => p,
        None => {
            proof {
                assert forall|d: DescriptorModel| valid_descriptor(d) implies text@ != desc_markup(
                    d,
                ) by {
                    if text@ == desc_markup(d) {
                        lemma_markup_parts(text@, d);
                        let pl = markup_prefix().len() as int;
                        let dl = dec_int(d.mtime).len() as int;
                        assert(text@[pl + dl] == '<');
                    }
                }
            }
            return Err(ParseError::Malformed);
        },
    };
    let tok = text.substring_char(plen, p1);
    let mtime: i64 = match parse_dec_i64(tok) {
        Some(m) => m,
        None => {
            proof {
                assert forall|d: DescriptorModel| valid_descriptor(d) implies text@ != desc_markup(
                    d,
                ) by {
                    if text@ == desc_markup(d) {
                        lemma_markup_parts(text@, d);
                        let pl = markup_prefix().len() as int;
                        let dl = dec_int(d.mtime).len() as int;
                        assert(text@[pl + dl] == '<');
                        assert(p1 == pl + dl);
                        assert(tok@ =~= dec_int(d.mtime));
                        assert(i64::MIN <= d.mtime <= i64::MAX);
                    }
                }
            }
            return Err(ParseError::Malformed);
        },
    };
    if !match_at(text, p1, mid) {
        proof {
            assert forall|d: DescriptorModel| valid_descriptor(d) implies text@ != desc_markup(
                d,
            ) by {
                if text@ == desc_markup(d) {
                    lemma_markup_parts(text@, d);
                    let pl = markup_prefix().len() as int;
                    let dl = dec_int(d.mtime).len() as int;
                    let ml = markup_mid().len() as int;
                    assert(text@[pl + dl] == '<');
                    assert(p1 == pl + dl);
                    assert(text@.subrange(p1 as int, p1 + ml) =~= mid@);
                }
            }
        }
        return Err(ParseError::Malformed);
    }
    let mlen = mid.unicode_len();
    let p2 = p1 + mlen;
    let p3: usize = match scan_until(text, p2, '<') {
        Some(p) => p,
        None => {
            proof {
                assert forall|d: DescriptorModel| valid_descriptor(d) implies text@ != desc_markup(
                    d,
                ) by {
                    if text@ == desc_markup(d) {
                        lemma_markup_parts(text@, d);
                        let pl = markup_prefix().len() as int;
                        let dl = dec_int(d.mtime).len() as int;
                        let ml = markup_mid().len() as int;
                        let hl = d.hash.len() as int;
                        assert(text@[pl + dl] == '<');
                        assert(p1 == pl + dl);
                        assert(text@[pl + dl + ml + hl] == '<');
                    }
                }
            }
            return Err(ParseError::Malformed);
        },
    };
    let mut k: usize = p2;
    #[verifier::loop_isolation(false)]
    while k < p3
        invariant
            p2 <= k <= p3 < tlen,
            forall|j: int| p2 <= j < k ==> is_lower_hex(#[trigger] text@[j]),
        decreases p3 - k,
    {
        if !is_lower_hex_char(text.get_char(k)) {
            proof {
                assert forall|d: DescriptorModel| valid_descriptor(d) implies text@ != desc_markup(
                    d,
                ) by {
                    if text@ == desc_markup(d) {
                        lemma_markup_parts(text@, d);
                        let pl = markup_prefix().len() as int;
                        let dl = dec_int(d.mtime).len() as int;
                        let ml = markup_mid().len() as int;
                        let hl = d.hash.len() as int;
                        assert(text@[pl + dl] == '<');
                        assert(p1 == pl + dl);
                        assert(p2 == pl + dl + ml);
                        assert(text@[pl + dl + ml + hl] == '<');
                        assert(p3 == pl + dl + ml + hl);
                        assert(is_lower_hex(text@[k as int]));
                    }
                }
            }
            return Err(ParseError::Malformed);
        }
        k += 1;
    }
    if !match_at(text, p3, suf) {
        proof {
            assert forall|d: DescriptorModel| valid_descriptor(d) implies text@ != desc_markup(
                d,
            ) by {
                if text@ == desc_markup(d) {
                    lemma_markup_parts(text@, d);
                    let pl = markup_prefix().len() as int;
                    let dl = dec_int(d.mtime).len() as int;
                    let ml = markup_mid().len() as int;
                    let hl = d.hash.len() as int;
                    assert(text@[pl + dl] == '<');
                    assert(p1 == pl + dl);
                    assert(p2 == pl + dl + ml);
                    assert(text@[pl + dl + ml + hl] == '<');
                    assert(p3 == pl + dl + ml + hl);
                    assert(text@.subrange(p3 as int, p3 + markup_suffix().len()) =~= suf@);
                }
            }
        }
        return Err(ParseError::Malformed);
    }
    let slen = suf.unicode_len();
    if p3 + slen != tlen {
        proof {
            assert forall|d: DescriptorModel| valid_descriptor(d) implies text@ != desc_markup(
                d,
            ) by {
                if text@ == desc_markup(d) {
                    lemma_markup_parts(text@, d);
                    let pl = markup_prefix().len() as int;
                    let dl = dec_int(d.mtime).len() as int;
                    let ml = markup_mid().len() as int;
                    let hl = d.hash.len() as int;
                    assert(text@[pl + dl] == '<');
                    assert(p1 == pl + dl);
                    assert(p2 == pl + dl + ml);
                    assert(text@[pl + dl + ml + hl] == '<');
                    assert(p3 == pl + dl + ml + hl);
                }
            }
        }
        return Err(ParseError::Malformed);
    }
    let hash_str = text.substring_char(p2, p3);
    let hash = hash_str.to_owned();
    let p = Properties { mtime, hash };
    proof {
        assert(valid_hash(p.hash@));
        assert(text@ =~= desc_markup(p@));
    }
    Ok(p)
}

} // verus!
