//! The line format of saved benchmark workloads: a key and a value, both
//! decimal `i32`s, separated by a comma.
use vstd::prelude::*;

verus! {

/// `b` is an ASCII digit.
pub open spec fn is_digit(b: u8) -> bool {
    48 <= b <= 57
}

/// The number that the decimal digits `s` write.
pub open spec fn digits_value(s: Seq<u8>) -> int
    decreases s.len(),
{
    if s.len() == 0 {
        0
    } else {
        digits_value(s.drop_last()) * 10 + (s.last() - 48)
    }
}

/// What parsing `s` as an `i32` gives: an optional `+` or `-`, then one
/// digit or more, read as a number within the range of `i32`; nothing
/// otherwise.
pub open spec fn i32_text(s: Seq<u8>) -> Option<int> {
    let body = unsigned_part(s);
    let v = if s.len() > 0 && s[0] == 45 { -digits_value(body) } else { digits_value(body) };
    if body.len() > 0 && all_digits(body) && i32::MIN <= v <= i32::MAX {
        Some(v)
    } else {
        None
    }
}

/// Every byte of `s` is a digit.
pub open spec fn all_digits(s: Seq<u8>) -> bool {
    forall|i: int| 0 <= i < s.len() ==> is_digit(#[trigger] s[i])
}

/// `s` without its leading `+` or `-`, if any.
pub open spec fn unsigned_part(s: Seq<u8>) -> Seq<u8> {
    if s.len() > 0 && (s[0] == 45 || s[0] == 43) {
        s.subrange(1, s.len() as int)
    } else {
        s
    }
}

/// The position of the first comma of `s` at or after `i`, or the length of
/// `s` when there is none.
pub open spec fn comma_from(s: Seq<u8>, i: int) -> int
    decreases s.len() - i,
{
    if i >= s.len() {
        s.len() as int
    } else if s[i] == 44 {
        i
    } else {
        comma_from(s, i + 1)
    }
}

/// What a workload line `s` holds: the text before its first comma and the
/// text after it, up to the next comma or the end, each parsed as an `i32`;
/// nothing when there is no comma or a part does not parse.
pub open spec fn entry_line(s: Seq<u8>) -> Option<(int, int)> {
    let c = comma_from(s, 0);
    if c >= s.len() {
        None
    } else {
        let d = comma_from(s, c + 1);
        match (i32_text(s.subrange(0, c)), i32_text(s.subrange(c + 1, d))) {
            (Some(k), Some(v)) => Some((k, v)),
            _ => None,
        }
    }
}

/// Longer runs of digits write numbers at least as large.
proof fn lemma_digits_mono(s: Seq<u8>, k: int)
    requires
        0 <= k <= s.len(),
        forall|i: int| 0 <= i < s.len() ==> is_digit(#[trigger] s[i]),
    ensures
        digits_value(s.subrange(0, k)) <= digits_value(s),
        0 <= digits_value(s),
    decreases s.len(),
{
    if s.len() > 0 {
        let t = s.drop_last();
        assert forall|i: int| 0 <= i < t.len() implies is_digit(#[trigger] t[i]) by {
            assert(t[i] == s[i]);
        }
        if k < s.len() {
            lemma_digits_mono(t, k);
            assert(t.subrange(0, k) =~= s.subrange(0, k));
        } else {
            lemma_digits_mono(t, 0);
            assert(s.subrange(0, k) =~= s);
        }
    } else {
        assert(s.subrange(0, k) =~= s);
    }
}

/// The position of the first comma of `s` at or after `i`, or the length of
/// `s`.
fn find_comma(s: &[u8], i: usize) -> (r: usize)
    requires
        i <= s@.len(),
    ensures
        r == comma_from(s@, i as int),
        i <= r <= s@.len(),
    decreases s@.len() - i,
{
    let mut j = i;
    while j < s.len() && s[j] != 44
        invariant
            i <= j <= s@.len(),
            comma_from(s@, i as int) == comma_from(s@, j as int),
        decreases s@.len() - j,
    {
        j += 1;
    }
    j
}

/// Parses the bytes `s[lo..hi]` as an `i32`, as `str::parse` does.
pub fn parse_i32(s: &[u8], lo: usize, hi: usize) -> (r: Option<i32>)
    requires
        lo <= hi <= s@.len(),
    ensures
        match r {
            Some(v) => i32_text(s@.subrange(lo as int, hi as int)) == Some(v as int),
            None => i32_text(s@.subrange(lo as int, hi as int)) is None,
        },
{
    let ghost t = s@.subrange(lo as int, hi as int);
    let signed = lo < hi && (s[lo] == 45 || s[lo] == 43);
    let neg = lo < hi && s[lo] == 45;
    let st = if signed { lo + 1 } else { lo };
    let ghost body = if signed { t.subrange(1, t.len() as int) } else { t };
    proof {
        assert(body =~= s@.subrange(st as int, hi as int));
        if lo < hi {
            assert(t[0] == s@[lo as int]);
        }
        assert(signed == (t.len() > 0 && (t[0] == 45 || t[0] == 43)));
        assert(neg == (t.len() > 0 && t[0] == 45));
    }
    if st == hi {
        return None;
    }
    let mut acc: i64 = 0;
    let mut i = st;
    while i < hi
        invariant
            st <= i <= hi <= s@.len(),
            st < hi,
            body == s@.subrange(st as int, hi as int),
            t == s@.subrange(lo as int, hi as int),
            body == (if signed { t.subrange(1, t.len() as int) } else { t }),
            signed == (t.len() > 0 && (t[0] == 45 || t[0] == 43)),
            neg == (t.len() > 0 && t[0] == 45),
            acc == digits_value(body.subrange(0, i - st)),
            0 <= acc <= 2147483648,
            forall|m: int| 0 <= m < i - st ==> is_digit(#[trigger] body[m]),
        decreases hi - i,
    {
        let b = s[i];
        if b < 48 || b > 57 {
            proof {
                assert(!is_digit(body[i - st]));
                assert(!(forall|m: int| 0 <= m < body.len() ==> is_digit(#[trigger] body[m])));
                assert(unsigned_part(t) == body);
                assert(!all_digits(body));
            }
            return None;
        }
        let ghost pre = body.subrange(0, i - st);
        let next = acc * 10 + (b - 48) as i64;
        proof {
            let post = body.subrange(0, i - st + 1);
            assert(post.drop_last() =~= pre);
            assert(post.last() == b);
            assert(digits_value(post) == next);
        }
        if next > 2147483648 {
            proof {
                assert(unsigned_part(t) == body);
                if all_digits(body) {
                    lemma_digits_mono(body, i - st + 1);
                    assert(digits_value(body) > 2147483648);
                }
            }
            return None;
        }
        acc = next;
        i += 1;
    }
    proof {
        assert(body.subrange(0, i - st) =~= body);
        assert(unsigned_part(t) == body);
    }
    if neg {
        Some((-acc) as i32)
    } else if acc <= 2147483647 {
        Some(acc as i32)
    } else {
        None
    }
}

/// Reads a workload line: the key before its first comma, and the value
/// after it, up to the next comma or the end.
pub fn parse_entry_line(line: &[u8]) -> (r: Option<(i32, i32)>)
    ensures
        match r {
            Some((k, v)) => entry_line(line@) == Some((k as int, v as int)),
            None => entry_line(line@) is None,
        },
{
    let c = find_comma(line, 0);
    if c >= line.len() {
        return None;
    }
    let d = find_comma(line, c + 1);
    match (parse_i32(line, 0, c), parse_i32(line, c + 1, d)) {
        (Some(k), Some(v)) => Some((k, v)),
        _ => None,
    }
}

} // verus!
