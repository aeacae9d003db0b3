//! Base-36 codec: rendering unsigned integers as lowercase base-36 text,
//! parsing such text back, and reducing an arbitrary string to a fixed-width
//! base-36 checksum field.

use vstd::prelude::*;
use vstd::arithmetic::div_mod::lemma_fundamental_div_mod;
use vstd::string::StrSliceExecFns;
use vstd::string::StringExecFns;
use vstd::string::StringSliceAdditionalSpecFns;
use vstd::utf8::encode_utf8;
use crate::base36_alphabet;
use crate::errors::Error;

verus! {

/// True of the 36 characters `0-9a-z` that base-36 text is made of.
pub open spec fn is_base36_char(c: char) -> bool {
    ('0' <= c && c <= '9') || ('a' <= c && c <= 'z')
}

/// True when every character of `s` is a base-36 digit.
pub open spec fn all_base36(s: Seq<char>) -> bool {
    forall|i: int| 0 <= i < s.len() ==> is_base36_char(#[trigger] s[i])
}

/// The digit character for a value in `0..36`.
pub open spec fn digit_char(d: int) -> char {
    base36_alphabet()[d]
}

/// The numeric value of a base-36 digit character.
pub open spec fn char_val(c: char) -> int {
    if '0' <= c && c <= '9' {
        c as int - 48
    } else {
        c as int - 87
    }
}

/// Every digit character is a base-36 character, and `char_val` inverts `digit_char`.
pub proof fn lemma_digit_char_val(d: int)
    requires
        0 <= d < 36,
    ensures
        is_base36_char(digit_char(d)),
        char_val(digit_char(d)) == d,
{
}

/// The base-36 positional representation of `v`: most significant digit first,
/// with no leading zero except for the single digit `0` itself.
pub open spec fn base36_rep(v: nat) -> Seq<char>
    decreases v,
{
    if v < 36 {
        seq![digit_char(v as int)]
    } else {
        base36_rep(v / 36) + seq![digit_char((v % 36) as int)]
    }
}

/// The numeric value of a sequence of base-36 digit characters.
pub open spec fn base36_val(s: Seq<char>) -> nat
    decreases s.len(),
{
    if s.len() == 0 {
        0
    } else {
        (base36_val(s.drop_last()) * 36 + char_val(s.last())) as nat
    }
}

/// `36^k`.
pub open spec fn pow36(k: nat) -> nat
    decreases k,
{
    if k == 0 {
        1
    } else {
        36 * pow36((k - 1) as nat)
    }
}

/// `s` left-padded with `'0'` to width `w`; `s` itself when it is already that wide.
pub open spec fn zero_pad(s: Seq<char>, w: int) -> Seq<char> {
    if s.len() >= w {
        s
    } else {
        Seq::new((w - s.len()) as nat, |i: int| '0') + s
    }
}

/// A base-36 representation is never empty and holds base-36 digits only.
pub proof fn lemma_base36_rep_chars(v: nat)
    ensures
        base36_rep(v).len() >= 1,
        all_base36(base36_rep(v)),
    decreases v,
{
    if v < 36 {
        lemma_digit_char_val(v as int);
    } else {
        lemma_base36_rep_chars(v / 36);
        lemma_digit_char_val((v % 36) as int);
    }
}

/// Parsing inverts rendering: the value of the representation of `v` is `v`.
pub proof fn lemma_base36_rep_val(v: nat)
    ensures
        base36_val(base36_rep(v)) == v,
    decreases v,
{
    if v < 36 {
        lemma_digit_char_val(v as int);
        let r = base36_rep(v);
        assert(r.drop_last() =~= Seq::<char>::empty());
        assert(base36_val(Seq::<char>::empty()) == 0);
        assert(r.last() == digit_char(v as int));
        assert(base36_val(r) == (0 * 36 + char_val(digit_char(v as int))) as nat);
    } else {
        lemma_base36_rep_val(v / 36);
        lemma_digit_char_val((v % 36) as int);
        lemma_fundamental_div_mod(v as int, 36);
        let r = base36_rep(v);
        assert(r.len() == base36_rep(v / 36).len() + 1);
        assert(r.drop_last() =~= base36_rep(v / 36));
        assert(r.last() == digit_char((v % 36) as int));
        assert(base36_val(r) == (base36_val(base36_rep(v / 36)) * 36 + char_val(
            digit_char((v % 36) as int),
        )) as nat);
        assert(base36_val(r) == ((v / 36) * 36 + (v % 36)) as nat);
    }
}

/// The representation of `v` fits in `k` digits exactly when `v < 36^k`.
pub proof fn lemma_base36_rep_len(v: nat, k: nat)
    requires
        k >= 1,
    ensures
        (v < pow36(k)) <==> (base36_rep(v).len() <= k),
    decreases k,
{
    if v < 36 {
        assert(pow36(k) >= 36) by {
            lemma_pow36_monotonic(1, k);
        }
    } else {
        if k == 1 {
            assert(pow36(0) == 1);
            assert(pow36(1) == 36);
        } else {
            lemma_base36_rep_len(v / 36, (k - 1) as nat);
            lemma_fundamental_div_mod(v as int, 36);
            let p = pow36((k - 1) as nat);
            assert(v / 36 < p ==> v < 36 * p) by (nonlinear_arith)
                requires
                    v == 36 * (v / 36) + v % 36,
                    0 <= v % 36 < 36,
            ;
            assert(v < 36 * p ==> v / 36 < p) by (nonlinear_arith)
                requires
                    v == 36 * (v / 36) + v % 36,
                    0 <= v % 36 < 36,
            ;
        }
    }
}

/// `pow36` is monotonic in its exponent.
pub proof fn lemma_pow36_monotonic(j: nat, k: nat)
    requires
        j <= k,
    ensures
        pow36(j) <= pow36(k),
        pow36(k) >= 1,
    decreases k,
{
    if k > 0 {
        if j == k {
            lemma_pow36_monotonic(0, (k - 1) as nat);
        } else {
            lemma_pow36_monotonic(j, (k - 1) as nat);
        }
        assert(pow36(k) == 36 * pow36((k - 1) as nat));
    }
}

/// A run of `'0'` characters contributes nothing to the value.
proof fn lemma_base36_val_zeros(n: nat)
    ensures
        base36_val(Seq::new(n, |i: int| '0')) == 0,
    decreases n,
{
    let z = Seq::new(n, |i: int| '0');
    if n > 0 {
        assert(z.drop_last() =~= Seq::new((n - 1) as nat, |i: int| '0'));
        lemma_base36_val_zeros((n - 1) as nat);
        assert(char_val('0') == 0);
    }
}

/// Left-padding with zeros does not change the parsed value.
pub proof fn lemma_base36_val_zero_pad(s: Seq<char>, w: int)
    ensures
        base36_val(zero_pad(s, w)) == base36_val(s),
{
    if s.len() < w {
        lemma_base36_val_zeros_prefix((w - s.len()) as nat, s);
    }
}

/// Prepending a run of `'0'` characters does not change the parsed value.
proof fn lemma_base36_val_zeros_prefix(n: nat, s: Seq<char>)
    ensures
        base36_val(Seq::new(n, |i: int| '0') + s) == base36_val(s),
    decreases s.len(),
{
    let z = Seq::new(n, |i: int| '0');
    if s.len() == 0 {
        assert(z + s =~= z);
        lemma_base36_val_zeros(n);
    } else {
        assert((z + s).drop_last() =~= z + s.drop_last());
        assert((z + s).last() == s.last());
        lemma_base36_val_zeros_prefix(n, s.drop_last());
    }
}

/// The base-36 digit for `d`, as a one-character string slice.
pub fn digit_str(d: u8) -> (r: &'static str)
    requires
        d < 36,
    ensures
        r@ == seq![digit_char(d as int)],
{
    let a = "0123456789abcdefghijklmnopqrstuvwxyz";
    proof {
        reveal_strlit("0123456789abcdefghijklmnopqrstuvwxyz");
        assert(a@ =~= base36_alphabet());
        assert forall|i: int| 0 <= i < 36 implies '\0' <= #[trigger] a@[i] <= '\u{7f}' by {
            lemma_digit_char_val(i);
        }
        assert(a.is_ascii());
    }
    let r = a.substring_ascii(d as usize, d as usize + 1);
    proof {
        assert(r@ =~= seq![digit_char(d as int)]);
    }
    r
}

/// The digit values of `ds`, read as characters in reverse order
/// (`ds` holds the least significant digit first).
pub open spec fn rev_digit_chars(ds: Seq<u8>) -> Seq<char>
    decreases ds.len(),
{
    if ds.len() == 0 {
        Seq::empty()
    } else {
        seq![digit_char(ds.last() as int)] + rev_digit_chars(ds.drop_last())
    }
}

proof fn lemma_rev_digit_chars_prepend(x: u8, s: Seq<u8>)
    ensures
        rev_digit_chars(seq![x] + s) == rev_digit_chars(s) + seq![digit_char(x as int)],
    decreases s.len(),
{
    let e = seq![x] + s;
    if s.len() == 0 {
        assert(e.drop_last() =~= s);
        assert(e.last() == x);
        assert(rev_digit_chars(e) == seq![digit_char(x as int)] + rev_digit_chars(s));
        assert(rev_digit_chars(s) =~= Seq::<char>::empty());
        assert(rev_digit_chars(e) =~= rev_digit_chars(s) + seq![digit_char(x as int)]);
    } else {
        assert(e.drop_last() =~= seq![x] + s.drop_last());
        assert(e.last() == s.last());
        lemma_rev_digit_chars_prepend(x, s.drop_last());
        assert(rev_digit_chars(e) == seq![digit_char(s.last() as int)] + rev_digit_chars(
            seq![x] + s.drop_last(),
        ));
        assert(rev_digit_chars(e) == seq![digit_char(s.last() as int)] + (rev_digit_chars(
            s.drop_last(),
        ) + seq![digit_char(x as int)]));
        assert(rev_digit_chars(s) == seq![digit_char(s.last() as int)] + rev_digit_chars(
            s.drop_last(),
        ));
        assert(rev_digit_chars(e) =~= rev_digit_chars(s) + seq![digit_char(x as int)]);
    }
}

/// Renders `value` in base 36 with lowercase digits `0-9a-z`, no sign and no
/// padding beyond the natural representation.
pub fn render_integer_base36(value: u64) -> (r: String)
    ensures
        r@ == base36_rep(value as nat),
{
    if value == 0 {
        let r = String::from_str("0");
        proof {
            reveal_strlit("0");
            assert(r@ =~= base36_rep(0));
        }
        return r;
    }
    let mut digits_rev: Vec<u8> = Vec::new();
    let mut v = value;
    while v > 0
        invariant
            base36_rep(value as nat) == (if v > 0 {
                base36_rep(v as nat)
            } else {
                Seq::<char>::empty()
            }) + rev_digit_chars(digits_rev@),
            v > 0 || digits_rev@.len() > 0,
            forall|j: int| 0 <= j < digits_rev@.len() ==> digits_rev@[j] < 36,
        decreases v,
    {
        let d: u8 = (v % 36) as u8;
        let ghost old_digits = digits_rev@;
        let ghost old_v = v as nat;
        digits_rev.push(d);
        v = v / 36;
        proof {
            assert(digits_rev@.last() == d);
            assert(digits_rev@.drop_last() =~= old_digits);
            if old_v >= 36 {
                assert(base36_rep(old_v) == base36_rep(old_v / 36) + seq![
                    digit_char((old_v % 36) as int),
                ]);
            } else {
                assert(base36_rep(old_v) == seq![digit_char(old_v as int)]);
            }
            assert(base36_rep(value as nat) == (if v > 0 {
                base36_rep(v as nat)
            } else {
                Seq::<char>::empty()
            }) + rev_digit_chars(digits_rev@));
        }
    }
    let mut r = String::new();
    let mut i: usize = digits_rev.len();
    while i > 0
        invariant
            i <= digits_rev@.len(),
            r@ == rev_digit_chars(digits_rev@.skip(i as int)),
            base36_rep(value as nat) == rev_digit_chars(digits_rev@),
            forall|j: int| 0 <= j < digits_rev@.len() ==> digits_rev@[j] < 36,
        decreases i,
    {
        i = i - 1;
        let d = digits_rev[i];
        r.append(digit_str(d));
        proof {
            assert(digits_rev@.skip(i as int) =~= seq![d] + digits_rev@.skip(i as int + 1));
            lemma_rev_digit_chars_prepend(d, digits_rev@.skip(i as int + 1));
        }
    }
    proof {
        assert(digits_rev@.skip(0) =~= digits_rev@);
    }
    r
}

/// A base-36 digit character has a value in `0..36`.
pub proof fn lemma_char_val_range(c: char)
    requires
        is_base36_char(c),
    ensures
        0 <= char_val(c) < 36,
{
}

/// The value of a prefix never exceeds the value of the whole, as long as the
/// text is made of base-36 digits.
pub proof fn lemma_base36_val_take_le(s: Seq<char>, i: int)
    requires
        0 <= i <= s.len(),
        all_base36(s),
    ensures
        base36_val(s.take(i)) <= base36_val(s),
    decreases s.len(),
{
    if i < s.len() {
        let d = s.drop_last();
        assert(all_base36(d)) by {
            assert(forall|j: int| 0 <= j < d.len() ==> d[j] == s[j]);
        }
        assert(d.take(i) =~= s.take(i));
        lemma_base36_val_take_le(d, i);
        lemma_char_val_range(s.last());
        assert(base36_val(d) * 36 + char_val(s.last()) >= 0);
        assert(base36_val(s) == base36_val(d) * 36 + char_val(s.last()));
        assert(base36_val(d) * 36 >= base36_val(d));
    } else {
        assert(s.take(i) =~= s);
    }
}

/// True when `s` parses as base-36: non-empty, digits only, and in range for
/// an unsigned 128-bit result.
pub open spec fn parse_ok(s: Seq<char>) -> bool {
    s.len() > 0 && all_base36(s) && base36_val(s) <= u128::MAX
}

/// Parses lowercase base-36 text as an unsigned 128-bit integer: the inverse
/// of `render_integer_base36`. Empty text, any character outside `0-9a-z`
/// (uppercase included) and values beyond the 128-bit range are rejected.
pub fn parse_integer_base36(text: &str) -> (r: Result<u128, Error>)
    ensures
        parse_ok(text@) ==> r == Ok::<u128, Error>(base36_val(text@) as u128),
        !parse_ok(text@) ==> r == Err::<u128, Error>(Error::InvalidTimestampEncoding),
{
    let n = text.unicode_len();
    if n == 0 {
        return Err(Error::InvalidTimestampEncoding);
    }
    let mut acc: u128 = 0;
    let mut i: usize = 0;
    while i < n
        invariant
            n == text@.len(),
            0 <= i <= n,
            all_base36(text@.take(i as int)),
            acc == base36_val(text@.take(i as int)),
        decreases n - i,
    {
        let c = text.get_char(i);
        let d: u32 = if '0' <= c && c <= '9' {
            (c as u32) - 48
        } else if 'a' <= c && c <= 'z' {
            (c as u32) - 87
        } else {
            proof {
                assert(!is_base36_char(text@[i as int]));
                assert(!all_base36(text@));
            }
            return Err(Error::InvalidTimestampEncoding);
        };
        let ghost prev = text@.take(i as int);
        let ghost cur = text@.take(i as int + 1);
        proof {
            assert(cur.drop_last() =~= prev);
            assert(cur.last() == text@[i as int]);
            assert(all_base36(cur)) by {
                assert(forall|j: int| 0 <= j < cur.len() ==> cur[j] == text@[j]);
            }
            assert(base36_val(cur) == (base36_val(prev) * 36 + char_val(text@[i as int])) as nat);
        }
        let next = match acc.checked_mul(36) {
            Some(m) => m.checked_add(d as u128),
            None => None,
        };
        match next {
            Some(a) => {
                acc = a;
            },
            None => {
                proof {
                    if all_base36(text@) && base36_val(text@) <= u128::MAX {
                        lemma_base36_val_take_le(text@, i as int + 1);
                        assert(base36_val(cur) > u128::MAX);
                        assert(false);
                    }
                }
                return Err(Error::InvalidTimestampEncoding);
            },
        }
        i = i + 1;
    }
    proof {
        assert(text@.take(n as int) =~= text@);
    }
    Ok(acc)
}

/// The checksum of a byte sequence: the sum of the byte values as an unsigned
/// 16-bit quantity, wrapping on overflow.
pub open spec fn checksum_of(bytes: Seq<u8>) -> u16
    decreases bytes.len(),
{
    if bytes.len() == 0 {
        0
    } else {
        ((checksum_of(bytes.drop_last()) + bytes.last()) % 0x10000) as u16
    }
}

/// The fixed-width base-36 field for a string: the checksum of its UTF-8
/// bytes, rendered in base 36 and left-padded with `'0'` to `width`.
pub open spec fn fixed_field(s: Seq<char>, width: int) -> Seq<char> {
    zero_pad(base36_rep(checksum_of(encode_utf8(s)) as nat), width)
}

/// Reduces `value` deterministically to a base-36 checksum field of at least
/// `width` characters: the numeric values of the UTF-8 bytes of `value` are
/// summed as an unsigned 16-bit quantity, rendered in base 36 and left-padded
/// with `'0'` to `width`. The reduction is lossy by design: distinct strings
/// with equal byte sums share a field. Should the checksum ever render to
/// more than `width` digits, the field keeps every digit and simply exceeds
/// `width`; it is never truncated. (A 16-bit checksum always fits in four
/// base-36 digits, so the fields of the canonical identifier are exactly four
/// characters wide.)
pub fn string_to_fixed_field(value: &str, width: usize) -> (r: String)
    ensures
        r@ == fixed_field(value@, width as int),
{
    let bytes = value.as_bytes_vec();
    let n = bytes.len();
    let mut sum: u16 = 0;
    let mut i: usize = 0;
    while i < n
        invariant
            n == bytes@.len(),
            0 <= i <= n,
            sum == checksum_of(bytes@.take(i as int)),
        decreases n - i,
    {
        let b = bytes[i];
        proof {
            let cur = bytes@.take(i as int + 1);
            assert(cur.drop_last() =~= bytes@.take(i as int));
            assert(cur.last() == bytes@[i as int]);
        }
        sum = (((sum as u32) + (b as u32)) % 0x10000) as u16;
        i = i + 1;
    }
    proof {
        assert(bytes@.take(n as int) =~= bytes@);
    }
    let rendered = render_integer_base36(sum as u64);
    let rn = rendered.as_str().unicode_len();
    let mut r = String::new();
    let mut k = rn;
    while k < width
        invariant
            k >= rn,
            rn == rendered@.len(),
            r@ == Seq::new((k - rn) as nat, |j: int| '0'),
            k <= width || k == rn,
        decreases width - k,
    {
        r.append("0");
        k = k + 1;
        proof {
            reveal_strlit("0");
            assert(r@ =~= Seq::new((k - rn) as nat, |j: int| '0'));
        }
    }
    r.append(rendered.as_str());
    proof {
        if rn >= width {
            assert(r@ =~= rendered@);
        }
    }
    r
}

/// A width-4 checksum field is exactly 4 base-36 characters: a 16-bit
/// checksum is below `36^4`, so its representation never overflows the width.
pub proof fn lemma_fixed_field_4(s: Seq<char>)
    ensures
        fixed_field(s, 4).len() == 4,
        all_base36(fixed_field(s, 4)),
{
    let c = checksum_of(encode_utf8(s)) as nat;
    assert(pow36(4) == 1679616) by {
        assert(pow36(0) == 1);
        assert(pow36(1) == 36);
        assert(pow36(2) == 1296);
        assert(pow36(3) == 46656);
    }
    lemma_base36_rep_len(c, 4);
    lemma_base36_rep_chars(c);
    let rep = base36_rep(c);
    let f = zero_pad(rep, 4);
    assert(all_base36(f)) by {
        if rep.len() < 4 {
            assert(forall|i: int| 4 - rep.len() <= i < 4 ==> f[i] == rep[i - (4 - rep.len())]);
            assert(forall|i: int| 0 <= i < 4 - rep.len() ==> f[i] == '0');
        }
    }
}

/// The exactly-12-character base-36 timestamp text for `t`: the natural
/// base-36 representation, zero-padded on the left to 12 characters, and cut
/// to its first 12 characters when it is naturally wider.
pub open spec fn ts12(t: u64) -> Seq<char> {
    zero_pad(base36_rep(t as nat), 12).take(12)
}

/// The timestamp text is 12 base-36 characters.
pub proof fn lemma_ts12_chars(t: u64)
    ensures
        ts12(t).len() == 12,
        all_base36(ts12(t)),
{
    lemma_base36_rep_chars(t as nat);
    let rep = base36_rep(t as nat);
    let padded = zero_pad(rep, 12);
    assert(all_base36(padded)) by {
        assert(forall|i: int|
            0 <= i < padded.len() && padded[i] == '0' ==> is_base36_char(#[trigger] padded[i]));
        if rep.len() < 12 {
            assert(forall|i: int|
                12 - rep.len() <= i < 12 ==> padded[i] == rep[i - (12 - rep.len())]);
            assert(forall|i: int| 0 <= i < 12 - rep.len() ==> padded[i] == '0');
        }
    }
    assert(all_base36(ts12(t))) by {
        assert(forall|i: int| 0 <= i < 12 ==> ts12(t)[i] == padded[i]);
    }
}

/// For values that fit the 12-digit field, the timestamp text parses back to
/// the value itself.
pub proof fn lemma_ts12_val(t: u64)
    requires
        t < pow36(12),
    ensures
        base36_val(ts12(t)) == t,
{
    let rep = base36_rep(t as nat);
    lemma_base36_rep_len(t as nat, 12);
    lemma_base36_val_zero_pad(rep, 12);
    lemma_base36_rep_val(t as nat);
    assert(zero_pad(rep, 12).len() == 12);
    assert(ts12(t) =~= zero_pad(rep, 12));
}

/// Renders the low 64 bits of `timestamp` as 12 base-36 characters and splits
/// them 8 + 4: the two fixed-width timestamp segments of the canonical form.
pub fn timestamp_base36_parts(timestamp: u128) -> (r: (String, String))
    ensures
        r.0@ == ts12(timestamp as u64).take(8),
        r.1@ == ts12(timestamp as u64).skip(8),
{
    let t = timestamp as u64;
    let rendered = render_integer_base36(t);
    let rn = rendered.as_str().unicode_len();
    let mut padded = String::new();
    let mut k = rn;
    while k < 12
        invariant
            k >= rn,
            rn == rendered@.len(),
            padded@ == Seq::new((k - rn) as nat, |j: int| '0'),
            k <= 12 || k == rn,
        decreases 12 - k,
    {
        padded.append("0");
        k = k + 1;
        proof {
            reveal_strlit("0");
            assert(padded@ =~= Seq::new((k - rn) as nat, |j: int| '0'));
        }
    }
    padded.append(rendered.as_str());
    proof {
        if rn >= 12 {
            assert(padded@ =~= rendered@);
        }
        assert(padded@ == zero_pad(base36_rep(t as nat), 12));
        lemma_base36_rep_chars(t as nat);
        let pv = padded@;
        assert(forall|i: int| 0 <= i < pv.len() ==> pv[i] == '0' || is_base36_char(#[trigger] pv[i]))
            by {
            let rep = base36_rep(t as nat);
            if rep.len() < 12 {
                assert(forall|i: int|
                    12 - rep.len() <= i < pv.len() ==> pv[i] == rep[i - (12 - rep.len())]);
            }
        }
        assert forall|i: int| 0 <= i < pv.len() implies '\0' <= #[trigger] pv[i] <= '\u{7f}' by {
            assert(pv[i] == '0' || is_base36_char(pv[i]));
            assert('\0' <= '0' <= '\u{7f}');
        }
    }
    let p = padded.as_str();
    let p1 = p.substring_ascii(0, 8);
    let p2 = p.substring_ascii(8, 12);
    let r = (String::from_str(p1), String::from_str(p2));
    proof {
        let tt = ts12(t);
        assert(tt =~= padded@.take(12));
        assert(r.0@ =~= tt.take(8));
        assert(r.1@ =~= tt.skip(8));
    }
    r
}

} // verus!
