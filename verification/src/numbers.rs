use vstd::prelude::*;
use vstd::string::*;

use crate::geom::COORD_LIMIT_MILLI;

verus! {

/// Largest integer part a coordinate may carry: together with three
/// fractional digits everything stays below `COORD_LIMIT_MILLI`.
pub const MAX_COORD_INT: u64 = 999_999_999_999;

pub open spec fn is_digit(c: char) -> bool {
    48 <= c as u32 <= 57
}

pub open spec fn digit_val(c: char) -> nat {
    (c as u32 - 48) as nat
}

/// The decimal digit character for a value below ten.
pub open spec fn digit_char(d: nat) -> char {
    if d == 0 {
        '0'
    } else if d == 1 {
        '1'
    } else if d == 2 {
        '2'
    } else if d == 3 {
        '3'
    } else if d == 4 {
        '4'
    } else if d == 5 {
        '5'
    } else if d == 6 {
        '6'
    } else if d == 7 {
        '7'
    } else if d == 8 {
        '8'
    } else {
        '9'
    }
}

pub open spec fn all_digits(s: Seq<char>) -> bool {
    forall|i: int| 0 <= i < s.len() ==> is_digit(#[trigger] s[i])
}

/// The value of a digit string, most significant digit first.
pub open spec fn digits_val(s: Seq<char>) -> nat
    decreases s.len(),
{
    if s.len() == 0 {
        0
    } else {
        digits_val(s.drop_last()) * 10 + digit_val(s.last())
    }
}

/// The canonical decimal form of an unsigned number: no sign, no
/// leading zeros (except for zero itself).
pub open spec fn u64_chars(n: nat) -> Seq<char>
    decreases n,
{
    if n < 10 {
        seq![digit_char(n)]
    } else {
        u64_chars(n / 10).push(digit_char(n % 10))
    }
}

/// What a numeric field must look like to parse as an unsigned number:
/// nonempty, digits only, within range.
pub open spec fn spec_parse_u64(s: Seq<char>) -> Option<u64> {
    if s.len() >= 1 && all_digits(s) && digits_val(s) <= u64::MAX {
        Some(digits_val(s) as u64)
    } else {
        None
    }
}

pub proof fn lemma_u64_chars_digits(n: nat)
    ensures
        u64_chars(n).len() >= 1,
        all_digits(u64_chars(n)),
        digits_val(u64_chars(n)) == n,
    decreases n,
{
    if n < 10 {
        lemma_digit_char_val(n);
        assert(u64_chars(n) =~= seq![digit_char(n)]);
        assert(u64_chars(n).drop_last() =~= Seq::<char>::empty());
        assert(digits_val(u64_chars(n).drop_last()) == 0);
    } else {
        lemma_u64_chars_digits(n / 10);
        lemma_digit_char_val(n % 10);
        let pre = u64_chars(n / 10);
        let whole = pre.push(digit_char(n % 10));
        assert(whole.drop_last() =~= pre);
        assert(digits_val(whole) == digits_val(pre) * 10 + n % 10);
        assert(digits_val(pre) == n / 10);
        assert(n / 10 * 10 + n % 10 == n);
        assert forall|i: int| 0 <= i < whole.len() implies is_digit(#[trigger] whole[i]) by {
            if i < pre.len() {
                assert(whole[i] == pre[i]);
            }
        }
    }
}

/// Printing and parsing an unsigned number are inverse.
pub proof fn lemma_u64_roundtrip(n: u64)
    ensures
        spec_parse_u64(u64_chars(n as nat)) == Some(n),
{
    lemma_u64_chars_digits(n as nat);
}

/// A longer digit prefix never has a smaller value.
proof fn lemma_digits_val_prefix_le(s: Seq<char>, i: int, j: int)
    requires
        0 <= i <= j <= s.len(),
    ensures
        digits_val(s.subrange(0, i)) <= digits_val(s.subrange(0, j)),
    decreases j - i,
{
    if i < j {
        lemma_digits_val_prefix_le(s, i, j - 1);
        let a = s.subrange(0, j - 1);
        let b = s.subrange(0, j);
        assert(b.drop_last() =~= a);
        assert(digits_val(b) == digits_val(a) * 10 + digit_val(b.last()));
    }
}

/// A digit character to append.
fn digit_to_str(d: u64) -> (s: &'static str)
    requires
        d < 10,
    ensures
        s@ =~= seq![digit_char(d as nat)],
{
    proof {
        reveal_strlit("0");
        reveal_strlit("1");
        reveal_strlit("2");
        reveal_strlit("3");
        reveal_strlit("4");
        reveal_strlit("5");
        reveal_strlit("6");
        reveal_strlit("7");
        reveal_strlit("8");
        reveal_strlit("9");
    }
    if d == 0 {
        "0"
    } else if d == 1 {
        "1"
    } else if d == 2 {
        "2"
    } else if d == 3 {
        "3"
    } else if d == 4 {
        "4"
    } else if d == 5 {
        "5"
    } else if d == 6 {
        "6"
    } else if d == 7 {
        "7"
    } else if d == 8 {
        "8"
    } else {
        "9"
    }
}

proof fn lemma_digit_char_val(d: nat)
    requires
        d <= 9,
    ensures
        is_digit(digit_char(d)),
        digit_val(digit_char(d)) == d,
{
}

/// Render an unsigned number in its canonical decimal form.
pub fn u64_to_string(n: u64) -> (s: String)
    ensures
        s@ == u64_chars(n as nat),
    decreases n,
{
    if n < 10 {
        String::from_str(digit_to_str(n))
    } else {
        let mut s = u64_to_string(n / 10);
        s.append(digit_to_str(n % 10));
        proof {
            assert(s@ =~= u64_chars(n as nat));
        }
        s
    }
}

/// Parse the field `s[from..to]` as an unsigned number: digits only,
/// nonempty, no wider than `u64`.
pub fn parse_u64_range(s: &str, from: usize, to: usize) -> (r: Option<u64>)
    requires
        from <= to <= s@.len(),
    ensures
        r == spec_parse_u64(s@.subrange(from as int, to as int)),
{
    let ghost t = s@.subrange(from as int, to as int);
    if from == to {
        return None;
    }
    let mut val: u64 = 0;
    let mut i = from;
    while i < to
        invariant
            from <= i <= to <= s@.len(),
            t == s@.subrange(from as int, to as int),
            t.len() == to - from,
            all_digits(t.subrange(0, i - from)),
            val == digits_val(t.subrange(0, i - from)),
        decreases to - i,
    {
        let c = s.get_char(i);
        let u = c as u32;
        proof {
            assert(t[i - from] == c);
            assert(t.subrange(0, i - from + 1).drop_last() =~= t.subrange(0, i - from));
            assert(t.subrange(0, i - from + 1).last() == c);
        }
        if u < 48 || u > 57 {
            proof {
                assert(!is_digit(t[i - from]));
            }
            return None;
        }
        let d = (u - 48) as u64;
        if val > (u64::MAX - d) / 10 {
            proof {
                assert(val * 10 + d > u64::MAX) by (nonlinear_arith)
                    requires
                        val > (u64::MAX - d) / 10,
                        d <= 9,
                        val <= u64::MAX,
                ;
                assert(digits_val(t.subrange(0, i - from + 1)) == val * 10 + d);
                lemma_digits_val_prefix_le(t, i - from + 1, t.len() as int);
                assert(t.subrange(0, t.len() as int) =~= t);
                assert(digits_val(t) > u64::MAX);
            }
            return None;
        }
        proof {
            assert(val * 10 + d <= u64::MAX) by (nonlinear_arith)
                requires
                    val <= (u64::MAX - d) / 10,
                    d <= 9,
            ;
        }
        val = val * 10 + d;
        i = i + 1;
    }
    proof {
        assert(t.subrange(0, t.len() as int) =~= t);
    }
    Some(val)
}

/// First position of `c` in `s`, or `-1`.
pub open spec fn first_index_of(s: Seq<char>, c: char) -> int
    decreases s.len(),
{
    if s.len() == 0 {
        -1
    } else if s[0] == c {
        0
    } else {
        let r = first_index_of(s.drop_first(), c);
        if r == -1 {
            -1
        } else {
            r + 1
        }
    }
}

pub proof fn lemma_first_index_char(s: Seq<char>, c: char, k: int)
    requires
        0 <= k <= s.len(),
        forall|j: int| 0 <= j < k ==> s[j] != c,
        k == s.len() || s[k] == c,
    ensures
        first_index_of(s, c) == if k == s.len() {
            -1int
        } else {
            k
        },
    decreases s.len(),
{
    if s.len() > 0 {
        if s[0] == c {
            assert(k == 0);
        } else {
            assert(k >= 1);
            let t = s.drop_first();
            assert forall|j: int| 0 <= j < k - 1 implies t[j] != c by {
                assert(t[j] == s[j + 1]);
            }
            if k < s.len() {
                assert(t[k - 1] == s[k]);
            }
            lemma_first_index_char(t, c, k - 1);
        }
    }
}

/// At most three digits stay below a thousand.
proof fn lemma_digits_val_small(s: Seq<char>)
    requires
        s.len() <= 3,
        all_digits(s),
    ensures
        digits_val(s) <= 999,
        s.len() == 1 ==> digits_val(s) <= 9,
        s.len() == 2 ==> digits_val(s) <= 99,
{
    if s.len() == 3 {
        let s2 = s.drop_last();
        let s1 = s2.drop_last();
        let s0 = s1.drop_last();
        assert(s0 =~= Seq::<char>::empty());
        assert(digits_val(s0) == 0);
        assert(digits_val(s1) == digit_val(s1.last()));
        assert(digits_val(s2) == digits_val(s1) * 10 + digit_val(s2.last()));
        assert(digits_val(s) == digits_val(s2) * 10 + digit_val(s.last()));
    } else if s.len() == 2 {
        let s1 = s.drop_last();
        let s0 = s1.drop_last();
        assert(s0 =~= Seq::<char>::empty());
        assert(digits_val(s0) == 0);
        assert(digits_val(s1) == digit_val(s1.last()));
        assert(digits_val(s) == digits_val(s1) * 10 + digit_val(s.last()));
    } else if s.len() == 1 {
        assert(s.drop_last() =~= Seq::<char>::empty());
        assert(digits_val(s.drop_last()) == 0);
        assert(digits_val(s) == digit_val(s.last()));
    }
}

/// The fractional digits of a coordinate, in thousandths, with trailing
/// zeros stripped; empty when the coordinate is whole.
pub open spec fn frac_chars(fr: nat) -> Seq<char> {
    let d1 = fr / 100;
    let d2 = (fr / 10) % 10;
    let d3 = fr % 10;
    if fr == 0 {
        Seq::empty()
    } else if d3 != 0 {
        seq!['.', digit_char(d1), digit_char(d2), digit_char(d3)]
    } else if d2 != 0 {
        seq!['.', digit_char(d1), digit_char(d2)]
    } else {
        seq!['.', digit_char(d1)]
    }
}

/// The canonical text of a coordinate given in thousandths: optional
/// sign, integer part, then up to three fractional digits.
pub open spec fn coord_chars(m: int) -> Seq<char> {
    let mag = (if m < 0 {
        -m
    } else {
        m
    }) as nat;
    let sign: Seq<char> = if m < 0 {
        seq!['-']
    } else {
        Seq::empty()
    };
    sign + u64_chars(mag / 1000) + frac_chars(mag % 1000)
}

/// The value, in thousandths, of up to three fractional digits.
pub open spec fn frac_val(fp: Seq<char>) -> nat {
    if fp.len() == 1 {
        digits_val(fp) * 100
    } else if fp.len() == 2 {
        digits_val(fp) * 10
    } else {
        digits_val(fp)
    }
}

/// What a position field must look like to parse as a coordinate:
/// optional minus sign, a nonempty all-digit integer part no wider than
/// `MAX_COORD_INT`, optionally a dot followed by one to three digits.
pub open spec fn spec_parse_coord(s: Seq<char>) -> Option<i64> {
    let neg = s.len() > 0 && s[0] == '-';
    let t = if neg {
        s.drop_first()
    } else {
        s
    };
    let di = first_index_of(t, '.');
    let ip = if di == -1 {
        t
    } else {
        t.subrange(0, di)
    };
    let fp = if di == -1 {
        Seq::<char>::empty()
    } else {
        t.subrange(di + 1, t.len() as int)
    };
    if ip.len() == 0 || !all_digits(ip) || digits_val(ip) > MAX_COORD_INT {
        None
    } else if di != -1 && (fp.len() == 0 || fp.len() > 3 || !all_digits(fp)) {
        None
    } else {
        let mag = digits_val(ip) * 1000 + frac_val(fp);
        Some(
            (if neg {
                -(mag as int)
            } else {
                mag as int
            }) as i64,
        )
    }
}

/// Render a coordinate (in thousandths) canonically.
pub fn coord_to_string(m: i64) -> (s: String)
    requires
        -COORD_LIMIT_MILLI < m < COORD_LIMIT_MILLI,
    ensures
        s@ == coord_chars(m as int),
{
    let neg = m < 0;
    let mag: u64 = if m < 0 {
        (-m) as u64
    } else {
        m as u64
    };
    let ip = mag / 1000;
    let fr = mag % 1000;
    let mut out = String::new();
    if neg {
        proof {
            reveal_strlit("-");
        }
        out.append("-");
    }
    let ip_str = u64_to_string(ip);
    out.append(ip_str.as_str());
    if fr > 0 {
        proof {
            reveal_strlit(".");
        }
        out.append(".");
        let d1 = fr / 100;
        let d2 = (fr / 10) % 10;
        let d3 = fr % 10;
        out.append(digit_to_str(d1));
        if d3 != 0 {
            out.append(digit_to_str(d2));
            out.append(digit_to_str(d3));
        } else if d2 != 0 {
            out.append(digit_to_str(d2));
        }
    }
    proof {
        assert(out@ =~= coord_chars(m as int));
    }
    out
}

/// Parse the field `s[from..to]` as a coordinate, in thousandths.
pub fn parse_coord_range(s: &str, from: usize, to: usize) -> (r: Option<i64>)
    requires
        from <= to <= s@.len(),
    ensures
        r == spec_parse_coord(s@.subrange(from as int, to as int)),
        r is Some ==> -COORD_LIMIT_MILLI < r.unwrap() < COORD_LIMIT_MILLI,
{
    let ghost whole = s@.subrange(from as int, to as int);
    let mut start = from;
    let mut neg = false;
    if from < to && s.get_char(from) == '-' {
        neg = true;
        start = from + 1;
    }
    let ghost t = s@.subrange(start as int, to as int);
    proof {
        if neg {
            assert(t =~= whole.drop_first());
        } else {
            assert(t =~= whole);
        }
    }
    // first dot, if any
    let mut i = start;
    while i < to
        invariant_except_break
            start <= i <= to <= s@.len(),
            t == s@.subrange(start as int, to as int),
            forall|j: int| 0 <= j < i - start ==> t[j] != '.',
        ensures
            start <= i <= to <= s@.len(),
            t == s@.subrange(start as int, to as int),
            forall|j: int| 0 <= j < i - start ==> t[j] != '.',
            i < to ==> t[i - start] == '.',
        decreases to - i,
    {
        let c = s.get_char(i);
        proof {
            assert(t[i - start] == c);
        }
        if c == '.' {
            break ;
        }
        i = i + 1;
    }
    proof {
        if i < to {
            lemma_first_index_char(t, '.', i - start);
        } else {
            lemma_first_index_char(t, '.', t.len() as int);
        }
    }
    let int_end = if i < to {
        i
    } else {
        to
    };
    let ghost di = first_index_of(t, '.');
    let ghost ip_s = if di == -1 {
        t
    } else {
        t.subrange(0, di)
    };
    let ghost fp_s = if di == -1 {
        Seq::<char>::empty()
    } else {
        t.subrange(di + 1, t.len() as int)
    };
    proof {
        assert(ip_s =~= s@.subrange(start as int, int_end as int));
        if di != -1 {
            assert(fp_s =~= s@.subrange(int_end + 1, to as int));
        }
    }
    let ip_val = match parse_u64_range(s, start, int_end) {
        Some(v) => v,
        None => {
            return None;
        }
    };
    if ip_val > MAX_COORD_INT {
        return None;
    }
    let mut fr: u64 = 0;
    if i < to {
        // a dot: one to three fractional digits
        let flen = to - (i + 1);
        if flen == 0 || flen > 3 {
            return None;
        }
        let fv = match parse_u64_range(s, i + 1, to) {
            Some(v) => v,
            None => {
                proof {
                    if all_digits(fp_s) {
                        lemma_digits_val_small(fp_s);
                    }
                }
                return None;
            }
        };
        proof {
            lemma_digits_val_small(fp_s);
        }
        fr = if flen == 1 {
            fv * 100
        } else if flen == 2 {
            fv * 10
        } else {
            fv
        };
        proof {
            assert(fr == frac_val(fp_s));
        }
    }
    let mag: u64 = ip_val * 1000 + fr;
    let val: i64 = if neg {
        -(mag as i64)
    } else {
        mag as i64
    };
    Some(val)
}

/// Printing and parsing a coordinate are inverse.
pub proof fn lemma_coord_roundtrip(m: int)
    requires
        -COORD_LIMIT_MILLI < m < COORD_LIMIT_MILLI,
    ensures
        spec_parse_coord(coord_chars(m)) == Some(m as i64),
{
    let mag = (if m < 0 {
        -m
    } else {
        m
    }) as nat;
    let ip = mag / 1000;
    let fr = mag % 1000;
    let digits = u64_chars(ip);
    let frac = frac_chars(fr);
    lemma_u64_chars_digits(ip);
    let s = coord_chars(m);
    let t = if m < 0 {
        s.drop_first()
    } else {
        s
    };
    assert(t =~= digits + frac);
    assert(s.len() > 0);
    assert(is_digit(digits[0]));
    assert((s[0] == '-') == (m < 0)) by {
        if m < 0 {
            assert(s[0] == '-');
        } else {
            assert(s[0] == digits[0]);
            assert('-' as u32 == 45);
        }
    }
    // the dot, if present, is right after the integer digits
    assert forall|j: int| 0 <= j < digits.len() implies t[j] != '.' by {
        assert(t[j] == digits[j]);
        assert(is_digit(digits[j]));
        assert('.' as u32 == 46);
    }
    if fr == 0 {
        assert(t =~= digits);
        lemma_first_index_char(t, '.', t.len() as int);
        assert(first_index_of(t, '.') == -1);
        assert(digits_val(digits) == ip <= MAX_COORD_INT);
        assert(ip * 1000 + 0 == mag);
    } else {
        assert(frac[0] == '.');
        assert(t[digits.len() as int] == '.');
        lemma_first_index_char(t, '.', digits.len() as int);
        let di = first_index_of(t, '.');
        assert(di == digits.len() as int);
        assert(t.subrange(0, di) =~= digits);
        let fp = t.subrange(di + 1, t.len() as int);
        assert(fp =~= frac.drop_first());
        let d1 = fr / 100;
        let d2 = (fr / 10) % 10;
        let d3 = fr % 10;
        assert(d1 <= 9 && d2 <= 9 && d3 <= 9);
        lemma_digit_char_val(d1);
        lemma_digit_char_val(d2);
        lemma_digit_char_val(d3);
        let s1 = seq![digit_char(d1)];
        let s2 = seq![digit_char(d1), digit_char(d2)];
        let s3 = seq![digit_char(d1), digit_char(d2), digit_char(d3)];
        assert(s1.drop_last() =~= Seq::<char>::empty());
        assert(digits_val(s1.drop_last()) == 0);
        assert(digits_val(s1) == d1);
        assert(s2.drop_last() =~= s1);
        assert(digits_val(s2) == d1 * 10 + d2);
        assert(s3.drop_last() =~= s2);
        assert(digits_val(s3) == (d1 * 10 + d2) * 10 + d3);
        if d3 != 0 {
            assert(fp =~= s3);
            assert(frac_val(fp) == (d1 * 10 + d2) * 10 + d3);
            assert(d1 * 100 + d2 * 10 + d3 == fr);
        } else if d2 != 0 {
            assert(fp =~= s2);
            assert(frac_val(fp) == (d1 * 10 + d2) * 10);
            assert(d1 * 100 + d2 * 10 == fr);
        } else {
            assert(fp =~= s1);
            assert(frac_val(fp) == d1 * 100);
            assert(d1 * 100 == fr);
        }
        assert(all_digits(fp)) by {
            assert forall|k: int| 0 <= k < fp.len() implies is_digit(#[trigger] fp[k]) by {
                if k == 0 {
                    assert(fp[0] == digit_char(d1));
                } else if k == 1 {
                    assert(fp[1] == digit_char(d2));
                } else {
                    assert(fp[2] == digit_char(d3));
                }
            }
        }
        assert(digits_val(digits) == ip <= MAX_COORD_INT);
    }
    assert(ip * 1000 + fr == mag) by {
        assert(mag == 1000 * (mag / 1000) + mag % 1000);
    }
}

} // verus!
