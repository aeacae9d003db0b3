//! The laws of the codec: the canonical string always has the fixed
//! 8-4-4-4-12 layout, decoding recovers the encoded timestamp, and canonical
//! strings sort lexicographically in timestamp order.

use vstd::prelude::*;
use crate::codec::{
    all_base36, base36_val, char_val, fixed_field, is_base36_char, lemma_char_val_range,
    lemma_fixed_field_4, lemma_pow36_monotonic, lemma_ts12_chars, lemma_ts12_val, pow36, ts12,
};
use crate::decode::{extract_spec, lemma_split_no_sep, lemma_split_prefix_seg, split_on};
use crate::errors::Error;
use crate::identifier::{canonical_chars, wf, UuidtData};

verus! {

/// `a` strictly precedes `b` in lexicographic (code-point) order.
pub open spec fn lex_lt(a: Seq<char>, b: Seq<char>) -> bool
    decreases a.len(),
{
    if b.len() == 0 {
        false
    } else if a.len() == 0 {
        true
    } else if a[0] != b[0] {
        a[0] < b[0]
    } else {
        lex_lt(a.drop_first(), b.drop_first())
    }
}

/// Distinct base-36 digit characters are ordered like their values.
proof fn lemma_char_val_order(c1: char, c2: char)
    requires
        is_base36_char(c1),
        is_base36_char(c2),
        char_val(c1) < char_val(c2),
    ensures
        c1 < c2,
{
}

/// `char_val` is injective on base-36 digit characters.
proof fn lemma_char_val_injective(c1: char, c2: char)
    requires
        is_base36_char(c1),
        is_base36_char(c2),
        char_val(c1) == char_val(c2),
    ensures
        c1 == c2,
{
}

/// The value of base-36 text is bounded by `36` to the power of its length.
proof fn lemma_val_bound(s: Seq<char>)
    requires
        all_base36(s),
    ensures
        base36_val(s) < pow36(s.len()),
    decreases s.len(),
{
    if s.len() == 0 {
        assert(pow36(0) == 1);
    } else {
        let dl = s.drop_last();
        assert(all_base36(dl)) by {
            assert(forall|j: int| 0 <= j < dl.len() ==> dl[j] == s[j]);
        }
        lemma_val_bound(dl);
        lemma_char_val_range(s.last());
        assert(base36_val(s) == base36_val(dl) * 36 + char_val(s.last()));
        assert(base36_val(dl) * 36 <= (pow36(dl.len()) - 1) * 36);
        assert(pow36(s.len()) == 36 * pow36(dl.len()));
    }
}

/// The leading digit carries `36^(len-1)`: the front decomposition of the
/// value of base-36 text.
proof fn lemma_val_front(s: Seq<char>)
    requires
        s.len() > 0,
        all_base36(s),
    ensures
        base36_val(s) == char_val(s[0]) * pow36((s.len() - 1) as nat) + base36_val(
            s.drop_first(),
        ),
    decreases s.len(),
{
    lemma_char_val_range(s[0]);
    lemma_char_val_range(s.last());
    if s.len() == 1 {
        assert(s.drop_last() =~= Seq::<char>::empty());
        assert(s.drop_first() =~= Seq::<char>::empty());
        assert(pow36(0) == 1);
        assert(s.last() == s[0]);
        assert(base36_val(s) == (base36_val(Seq::<char>::empty()) * 36 + char_val(s.last())) as nat);
        assert(base36_val(Seq::<char>::empty()) == 0);
        assert(base36_val(s.drop_first()) == 0);
        assert(base36_val(s) == char_val(s[0]));
        assert(char_val(s[0]) * pow36(0) == char_val(s[0]) * 1);
    } else {
        let dl = s.drop_last();
        assert(all_base36(dl)) by {
            assert(forall|j: int| 0 <= j < dl.len() ==> dl[j] == s[j]);
        }
        lemma_val_front(dl);
        let df = s.drop_first();
        assert(all_base36(df)) by {
            assert(forall|j: int| 0 <= j < df.len() ==> df[j] == s[j + 1]);
        }
        assert(df.drop_last() =~= dl.drop_first());
        assert(df.last() == s.last());
        assert(base36_val(df) == base36_val(dl.drop_first()) * 36 + char_val(s.last())) by {
            lemma_char_val_range(df.last());
            assert(base36_val(df) == (base36_val(df.drop_last()) * 36 + char_val(df.last())) as nat);
        }
        let cv0 = char_val(s[0]);
        let p2 = pow36((s.len() - 2) as nat);
        let p1 = pow36((s.len() - 1) as nat);
        assert(p1 == 36 * p2);
        assert(dl[0] == s[0]);
        assert(base36_val(s) == base36_val(dl) * 36 + char_val(s.last()));
        assert(base36_val(dl) == cv0 * p2 + base36_val(dl.drop_first()));
        assert((cv0 * p2 + base36_val(dl.drop_first())) * 36 == cv0 * p2 * 36 + base36_val(
            dl.drop_first(),
        ) * 36) by (nonlinear_arith);
        assert(cv0 * p2 * 36 == cv0 * p1) by (nonlinear_arith)
            requires
                p1 == 36 * p2,
        ;
        assert(base36_val(s) == (cv0 * p2 + base36_val(dl.drop_first())) * 36 + char_val(s.last()));
        assert(base36_val(s) == cv0 * p1 + base36_val(df));
    }
}

/// Equal-length base-36 texts with different values differ at some position,
/// and at the first such position the digits are ordered like the values.
proof fn lemma_base36_val_diff(a: Seq<char>, b: Seq<char>)
    requires
        a.len() == b.len(),
        all_base36(a),
        all_base36(b),
        base36_val(a) < base36_val(b),
    ensures
        exists|k: int|
            0 <= k < a.len() && #[trigger] a.take(k) == b.take(k) && a[k] < b[k],
    decreases a.len(),
{
    assert(a.len() > 0);
    lemma_val_front(a);
    lemma_val_front(b);
    lemma_char_val_range(a[0]);
    lemma_char_val_range(b[0]);
    let p = pow36((a.len() - 1) as nat);
    lemma_pow36_monotonic(0, (a.len() - 1) as nat);
    if char_val(a[0]) == char_val(b[0]) {
        lemma_char_val_injective(a[0], b[0]);
        let da = a.drop_first();
        let db = b.drop_first();
        assert(all_base36(da)) by {
            assert(forall|j: int| 0 <= j < da.len() ==> da[j] == a[j + 1]);
        }
        assert(all_base36(db)) by {
            assert(forall|j: int| 0 <= j < db.len() ==> db[j] == b[j + 1]);
        }
        assert(char_val(a[0]) * p == char_val(b[0]) * p);
        assert(base36_val(da) < base36_val(db));
        lemma_base36_val_diff(da, db);
        let k0 = choose|k: int| 0 <= k < da.len() && #[trigger] da.take(k) == db.take(k)
            && da[k] < db[k];
        let k = k0 + 1;
        assert(a.take(k) =~= b.take(k)) by {
            assert(forall|j: int| 0 <= j < k0 ==> da.take(k0)[j] == da[j] && db.take(k0)[j] == db[j]);
            assert(forall|j: int| 1 <= j < k ==> a[j] == da[j - 1] && b[j] == db[j - 1]);
        }
        assert(a[k] == da[k0] && b[k] == db[k0]);
        assert(0 <= k < a.len() && a.take(k) == b.take(k) && a[k] < b[k]);
    } else if char_val(a[0]) < char_val(b[0]) {
        lemma_char_val_order(a[0], b[0]);
        let k = 0int;
        assert(a.take(0) =~= b.take(0));
        assert(0 <= k < a.len() && a.take(k) == b.take(k) && a[k] < b[k]);
    } else {
        let da = a.drop_first();
        let db = b.drop_first();
        assert(all_base36(da)) by {
            assert(forall|j: int| 0 <= j < da.len() ==> da[j] == a[j + 1]);
        }
        assert(all_base36(db)) by {
            assert(forall|j: int| 0 <= j < db.len() ==> db[j] == b[j + 1]);
        }
        lemma_val_bound(da);
        lemma_val_bound(db);
        assert(char_val(a[0]) * p >= (char_val(b[0]) + 1) * p) by (nonlinear_arith)
            requires
                char_val(a[0]) >= char_val(b[0]) + 1,
                p >= 1,
        ;
        assert((char_val(b[0]) + 1) * p == char_val(b[0]) * p + p) by (nonlinear_arith);
        assert(base36_val(db) < p);
        assert(false);
    }
}

/// A shared prefix followed by an ordered pair of characters decides the
/// lexicographic comparison, whatever follows.
proof fn lemma_lex_from_diff(x: Seq<char>, y: Seq<char>, k: int)
    requires
        0 <= k < x.len(),
        k < y.len(),
        x.take(k) == y.take(k),
        x[k] < y[k],
    ensures
        lex_lt(x, y),
    decreases k,
{
    if k == 0 {
        assert(x[0] != y[0]);
    } else {
        assert(x.take(k)[0] == x[0] && y.take(k)[0] == y[0]);
        let dx = x.drop_first();
        let dy = y.drop_first();
        assert(dx.take(k - 1) =~= dy.take(k - 1)) by {
            assert(forall|j: int|
                0 <= j < k - 1 ==> dx[j] == x.take(k)[j + 1] && dy[j] == y.take(k)[j + 1]);
        }
        assert(dx[k - 1] == x[k] && dy[k - 1] == y[k]);
        lemma_lex_from_diff(dx, dy, k - 1);
    }
}

/// The canonical string splits on hyphens into exactly its five fields.
pub proof fn lemma_canonical_split(d: UuidtData)
    requires
        wf(d),
    ensures
        split_on(canonical_chars(d), '-') == seq![
            ts12(d.timestamp as u64).take(8),
            ts12(d.timestamp as u64).skip(8),
            fixed_field(d.namespace, 4),
            fixed_field(d.hostname, 4),
            d.random_chars,
        ],
{
    let t = ts12(d.timestamp as u64);
    lemma_ts12_chars(d.timestamp as u64);
    lemma_fixed_field_4(d.namespace);
    lemma_fixed_field_4(d.hostname);
    let a = t.take(8);
    let b = t.skip(8);
    let c = fixed_field(d.namespace, 4);
    let e = fixed_field(d.hostname, 4);
    let f = d.random_chars;
    assert(!is_base36_char('-'));
    assert forall|j: int| 0 <= j < a.len() implies a[j] != '-' by {
        assert(a[j] == t[j]);
        assert(is_base36_char(t[j]));
    }
    assert forall|j: int| 0 <= j < b.len() implies b[j] != '-' by {
        assert(b[j] == t[j + 8]);
        assert(is_base36_char(t[j + 8]));
    }
    assert forall|j: int| 0 <= j < c.len() implies c[j] != '-' by {
        assert(is_base36_char(c[j]));
    }
    assert forall|j: int| 0 <= j < e.len() implies e[j] != '-' by {
        assert(is_base36_char(e[j]));
    }
    assert forall|j: int| 0 <= j < f.len() implies f[j] != '-' by {
        assert(is_base36_char(f[j]));
    }
    let rest3 = e + seq!['-'] + f;
    let rest2 = c + seq!['-'] + rest3;
    let rest1 = b + seq!['-'] + rest2;
    assert(canonical_chars(d) =~= a + seq!['-'] + rest1);
    lemma_split_prefix_seg(a, rest1, '-');
    lemma_split_prefix_seg(b, rest2, '-');
    lemma_split_prefix_seg(c, rest3, '-');
    lemma_split_prefix_seg(e, f, '-');
    lemma_split_no_sep(f, '-');
    assert(split_on(canonical_chars(d), '-') =~~= seq![a, b, c, e, f]);
}

/// Law: the canonical string of any identifier is exactly 36 characters and
/// splits on hyphens into five segments of widths 8, 4, 4, 4 and 12.
pub proof fn lemma_canonical_layout(d: UuidtData)
    requires
        wf(d),
    ensures
        canonical_chars(d).len() == 36,
        split_on(canonical_chars(d), '-').len() == 5,
        split_on(canonical_chars(d), '-')[0].len() == 8,
        split_on(canonical_chars(d), '-')[1].len() == 4,
        split_on(canonical_chars(d), '-')[2].len() == 4,
        split_on(canonical_chars(d), '-')[3].len() == 4,
        split_on(canonical_chars(d), '-')[4].len() == 12,
{
    lemma_canonical_split(d);
    lemma_ts12_chars(d.timestamp as u64);
    lemma_fixed_field_4(d.namespace);
    lemma_fixed_field_4(d.hostname);
}

/// Law: decoding the canonical string of any identifier recovers the
/// identifier's timestamp truncated to 64 bits, whenever that truncated value
/// fits the 12 base-36 digits of the timestamp field.
pub proof fn lemma_timestamp_round_trip(d: UuidtData)
    requires
        wf(d),
        (d.timestamp as u64) < pow36(12),
    ensures
        extract_spec(canonical_chars(d)) == Ok::<u128, Error>((d.timestamp as u64) as u128),
{
    lemma_canonical_split(d);
    lemma_canonical_layout(d);
    let t64 = d.timestamp as u64;
    let t = ts12(t64);
    lemma_ts12_chars(t64);
    lemma_ts12_val(t64);
    let segs = split_on(canonical_chars(d), '-');
    assert(segs[0] + segs[1] =~= t);
    assert(base36_val(t) <= u128::MAX);
}

/// Law: canonical strings sort lexicographically in timestamp order: when
/// the 64-bit timestamps differ and both fit the 12-digit field, the
/// identifier with the smaller timestamp has the smaller string.
pub proof fn lemma_sorted_by_timestamp(a: UuidtData, b: UuidtData)
    requires
        wf(a),
        wf(b),
        (a.timestamp as u64) < (b.timestamp as u64),
        (b.timestamp as u64) < pow36(12),
    ensures
        lex_lt(canonical_chars(a), canonical_chars(b)),
{
    let ta = ts12(a.timestamp as u64);
    let tb = ts12(b.timestamp as u64);
    lemma_ts12_chars(a.timestamp as u64);
    lemma_ts12_chars(b.timestamp as u64);
    lemma_ts12_val(a.timestamp as u64);
    lemma_ts12_val(b.timestamp as u64);
    lemma_base36_val_diff(ta, tb);
    let k = choose|k: int| 0 <= k < ta.len() && #[trigger] ta.take(k) == tb.take(k) && ta[k]
        < tb[k];
    let ca = canonical_chars(a);
    let cb = canonical_chars(b);
    assert(forall|j: int| 0 <= j < 8 ==> ca[j] == ta[j] && cb[j] == tb[j]);
    assert(ca[8] == '-' && cb[8] == '-');
    assert(forall|j: int| 9 <= j < 13 ==> ca[j] == ta[j - 1] && cb[j] == tb[j - 1]);
    let k2 = if k < 8 {
        k
    } else {
        k + 1
    };
    assert(ca.take(k2) =~= cb.take(k2)) by {
        assert(forall|j: int| 0 <= j < k ==> ta[j] == ta.take(k)[j] && tb[j] == tb.take(k)[j]);
    }
    assert(ca[k2] == ta[k] && cb[k2] == tb[k]);
    lemma_lex_from_diff(ca, cb, k2);
}

} // verus!
