//! The decoder: splitting a canonical identifier string on hyphens and
//! recovering the 64-bit timestamp from its first two segments.

use vstd::prelude::*;
use vstd::string::StrSliceExecFns;
use vstd::string::StringExecFns;
use crate::codec::{all_base36, base36_val, parse_integer_base36, parse_ok};
use crate::errors::Error;

verus! {

/// How many times `sep` occurs in `s`.
pub open spec fn count_sep(s: Seq<char>, sep: char) -> nat
    decreases s.len(),
{
    if s.len() == 0 {
        0
    } else if s[0] == sep {
        count_sep(s.drop_first(), sep) + 1
    } else {
        count_sep(s.drop_first(), sep)
    }
}

/// `s` split on `sep`, as the segments between occurrences of `sep`: one more
/// segment than there are separators, in order, separators not included.
pub open spec fn split_on(s: Seq<char>, sep: char) -> Seq<Seq<char>>
    decreases s.len(),
{
    if s.len() == 0 {
        seq![Seq::<char>::empty()]
    } else if s[0] == sep {
        seq![Seq::<char>::empty()] + split_on(s.drop_first(), sep)
    } else {
        let rest = split_on(s.drop_first(), sep);
        seq![seq![s[0]] + rest[0]] + rest.drop_first()
    }
}

/// Splitting yields one segment more than there are separators.
pub proof fn lemma_split_len(s: Seq<char>, sep: char)
    ensures
        split_on(s, sep).len() == count_sep(s, sep) + 1,
    decreases s.len(),
{
    if s.len() > 0 {
        lemma_split_len(s.drop_first(), sep);
    }
}

/// Counting separators one character at a time: extending a prefix by one
/// character adds one occurrence exactly when that character is `sep`.
pub proof fn lemma_count_sep_take_step(s: Seq<char>, sep: char, i: int)
    requires
        0 <= i < s.len(),
    ensures
        count_sep(s.take(i + 1), sep) == count_sep(s.take(i), sep) + (if s[i] == sep {
            1nat
        } else {
            0nat
        }),
    decreases i,
{
    let a = s.take(i + 1);
    let b = s.take(i);
    if i == 0 {
        assert(a.drop_first() =~= b);
    } else {
        assert(a.drop_first() =~= s.drop_first().take(i));
        assert(b.drop_first() =~= s.drop_first().take(i - 1));
        lemma_count_sep_take_step(s.drop_first(), sep, i - 1);
        assert(s.drop_first()[i - 1] == s[i]);
    }
}

/// Splitting at the first separator: everything before it is the first
/// segment, and the rest of the string splits on its own.
pub proof fn lemma_split_at_first(s: Seq<char>, sep: char, p: int)
    requires
        0 <= p < s.len(),
        s[p] == sep,
        forall|j: int| 0 <= j < p ==> s[j] != sep,
    ensures
        split_on(s, sep) == seq![s.take(p)] + split_on(s.skip(p + 1), sep),
    decreases p,
{
    if p == 0 {
        assert(s.take(0) =~= Seq::<char>::empty());
        assert(s.skip(1) =~= s.drop_first());
        assert(split_on(s, sep) =~~= seq![s.take(0)] + split_on(s.skip(1), sep));
    } else {
        let d = s.drop_first();
        assert(d[p - 1] == s[p]);
        assert(forall|j: int| 0 <= j < p - 1 ==> d[j] == s[j + 1]);
        lemma_split_at_first(d, sep, p - 1);
        let rest = split_on(d, sep);
        assert(rest == seq![d.take(p - 1)] + split_on(d.skip(p), sep));
        assert(rest[0] == d.take(p - 1));
        assert(seq![s[0]] + rest[0] =~= s.take(p));
        assert(rest.drop_first() =~= split_on(d.skip(p), sep));
        assert(d.skip(p) =~= s.skip(p + 1));
        assert(split_on(s, sep) =~~= seq![s.take(p)] + split_on(s.skip(p + 1), sep));
    }
}

/// A string without separators splits into itself alone.
pub proof fn lemma_split_no_sep(s: Seq<char>, sep: char)
    requires
        forall|j: int| 0 <= j < s.len() ==> s[j] != sep,
    ensures
        split_on(s, sep) == seq![s],
    decreases s.len(),
{
    if s.len() == 0 {
        assert(s =~= Seq::<char>::empty());
        assert(split_on(s, sep) =~~= seq![s]);
    } else {
        let d = s.drop_first();
        assert(forall|j: int| 0 <= j < d.len() ==> d[j] == s[j + 1]);
        lemma_split_no_sep(d, sep);
        let rest = split_on(d, sep);
        assert(rest[0] == d);
        assert(seq![s[0]] + d =~= s);
        assert(rest.drop_first() =~= Seq::<Seq<char>>::empty());
        assert(split_on(s, sep) =~~= seq![s]);
    }
}

/// A segment free of separators, a separator, and the rest: the segment is
/// split off whole.
pub proof fn lemma_split_prefix_seg(a: Seq<char>, rest: Seq<char>, sep: char)
    requires
        forall|j: int| 0 <= j < a.len() ==> a[j] != sep,
    ensures
        split_on(a + seq![sep] + rest, sep) == seq![a] + split_on(rest, sep),
{
    let s = a + seq![sep] + rest;
    let p = a.len() as int;
    assert(s[p] == sep);
    assert(forall|j: int| 0 <= j < p ==> s[j] == a[j]);
    lemma_split_at_first(s, sep, p);
    assert(s.take(p) =~= a);
    assert(s.skip(p + 1) =~= rest);
}

/// What `extract_timestamp` returns, as a function of the input characters:
/// empty input, a segment count other than five, and first-two-segment text
/// that is not in-range base-36 are the three failures; anything else yields
/// the parsed value of that text.
pub open spec fn extract_spec(s: Seq<char>) -> Result<u128, Error> {
    if s.len() == 0 {
        Err(Error::EmptyInput)
    } else {
        let segs = split_on(s, '-');
        if segs.len() != 5 {
            Err(Error::MalformedIdentifier)
        } else {
            let t = segs[0] + segs[1];
            if parse_ok(t) {
                Ok(base36_val(t) as u128)
            } else {
                Err(Error::InvalidTimestampEncoding)
            }
        }
    }
}

/// Recovers the timestamp encoded in a canonical identifier string: the text
/// of the first two hyphen-separated segments, read as base 36. Only the
/// timestamp is recoverable; the namespace, host and random segments were
/// lossily encoded and are not validated beyond the segment count.
pub fn extract_timestamp(text: &str) -> (r: Result<u128, Error>)
    ensures
        r == extract_spec(text@),
{
    let n = text.unicode_len();
    if n == 0 {
        return Err(Error::EmptyInput);
    }
    let mut cnt: usize = 0;
    let mut p0: usize = 0;
    let mut p1: usize = 0;
    let mut i: usize = 0;
    while i < n
        invariant
            n == text@.len(),
            0 <= i <= n,
            cnt <= i,
            cnt == count_sep(text@.take(i as int), '-'),
            cnt == 0 ==> (forall|j: int| 0 <= j < i ==> text@[j] != '-'),
            cnt == 1 ==> (forall|j: int| p0 < j < i ==> text@[j] != '-'),
            cnt >= 1 ==> 0 <= p0 < i && text@[p0 as int] == '-' && (forall|j: int|
                0 <= j < p0 ==> text@[j] != '-'),
            cnt >= 2 ==> p0 < p1 < i && text@[p1 as int] == '-' && (forall|j: int|
                p0 < j < p1 ==> text@[j] != '-'),
        decreases n - i,
    {
        let c = text.get_char(i);
        proof {
            lemma_count_sep_take_step(text@, '-', i as int);
        }
        if c == '-' {
            if cnt == 0 {
                p0 = i;
            } else if cnt == 1 {
                p1 = i;
            }
            cnt = cnt + 1;
        }
        i = i + 1;
    }
    proof {
        assert(text@.take(n as int) =~= text@);
    }
    if cnt != 4 {
        proof {
            lemma_split_len(text@, '-');
        }
        return Err(Error::MalformedIdentifier);
    }
    let s1 = text.substring_char(0, p0);
    let s2 = text.substring_char(p0 + 1, p1);
    let joined = String::from_str(s1).concat(s2);
    proof {
        lemma_split_len(text@, '-');
        let segs = split_on(text@, '-');
        lemma_split_at_first(text@, '-', p0 as int);
        let tail = text@.skip(p0 as int + 1);
        assert(segs[0] == text@.take(p0 as int));
        assert(tail[p1 - p0 - 1] == text@[p1 as int]);
        assert(forall|j: int| 0 <= j < p1 - p0 - 1 ==> tail[j] == text@[j + p0 + 1]);
        lemma_split_at_first(tail, '-', p1 - p0 - 1);
        assert(segs[1] == split_on(tail, '-')[0]);
        assert(segs[1] == tail.take(p1 - p0 - 1));
        assert(tail.take(p1 - p0 - 1) =~= text@.subrange(p0 as int + 1, p1 as int));
        assert(joined@ =~= segs[0] + segs[1]);
    }
    parse_integer_base36(joined.as_str())
}

} // verus!
