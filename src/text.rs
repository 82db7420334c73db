use vstd::prelude::*;
use vstd::string::StrSliceExecFns;

verus! {

/// The characters Unicode classes as White_Space, those `char::is_whitespace` accepts.
pub open spec fn is_ws(c: char) -> bool {
    let v = c as u32;
    (9 <= v <= 13) || v == 32 || v == 0x85 || v == 0xA0 || v == 0x1680 || (0x2000 <= v <= 0x200A)
        || v == 0x2028 || v == 0x2029 || v == 0x202F || v == 0x205F || v == 0x3000
}

/// `s` without its leading whitespace.
pub open spec fn trim_start(s: Seq<char>) -> Seq<char>
    decreases s.len(),
{
    if s.len() > 0 && is_ws(s[0]) {
        trim_start(s.drop_first())
    } else {
        s
    }
}

/// `s` without its trailing whitespace.
pub open spec fn trim_end(s: Seq<char>) -> Seq<char>
    decreases s.len(),
{
    if s.len() > 0 && is_ws(s.last()) {
        trim_end(s.drop_last())
    } else {
        s
    }
}

/// `s` without leading or trailing whitespace.
pub open spec fn trim(s: Seq<char>) -> Seq<char> {
    trim_end(trim_start(s))
}

/// The maximal runs of non-whitespace characters of `s`, in order.
pub open spec fn tokens(s: Seq<char>) -> Seq<Seq<char>>
    decreases s.len(),
{
    if s.len() == 0 {
        Seq::empty()
    } else {
        let p = tokens(s.drop_last());
        let c = s.last();
        if is_ws(c) {
            p
        } else if s.len() >= 2 && !is_ws(s[s.len() - 2]) {
            p.update(p.len() - 1, p.last().push(c))
        } else {
            p.push(seq![c])
        }
    }
}

/// The pieces of `s` between newline characters; there is always at least one.
pub open spec fn lines(s: Seq<char>) -> Seq<Seq<char>>
    decreases s.len(),
{
    if s.len() == 0 {
        seq![Seq::empty()]
    } else {
        let p = lines(s.drop_last());
        if s.last() == '\n' {
            p.push(Seq::empty())
        } else {
            p.update(p.len() - 1, p.last().push(s.last()))
        }
    }
}

/// What a sequence of character vectors holds.
pub open spec fn views(v: Seq<Vec<char>>) -> Seq<Seq<char>> {
    v.map_values(|x: Vec<char>| x@)
}

/// An ASCII decimal digit.
pub open spec fn is_digit(c: char) -> bool {
    48 <= (c as u32) <= 57
}

/// Value of a string of decimal digits.
pub open spec fn digits_value(s: Seq<char>) -> nat
    decreases s.len(),
{
    if s.len() == 0 {
        0
    } else {
        digits_value(s.drop_last()) * 10 + ((s.last() as u32) - 48) as nat
    }
}

/// The digits of an unsigned decimal numeral: an optional `+` sign removed.
pub open spec fn numeral_digits(s: Seq<char>) -> Seq<char> {
    if s.len() > 0 && s[0] == '+' {
        s.drop_first()
    } else {
        s
    }
}

/// An optional `+` followed by at least one decimal digit.
pub open spec fn is_numeral(s: Seq<char>) -> bool {
    let d = numeral_digits(s);
    d.len() > 0 && forall|i: int| 0 <= i < d.len() ==> #[trigger] is_digit(d[i])
}

/// The value of `s` read as an unsigned decimal numeral no greater than `max`.
pub open spec fn numeral_value(s: Seq<char>, max: u64) -> Option<u64> {
    if is_numeral(s) && digits_value(numeral_digits(s)) <= max {
        Some(digits_value(numeral_digits(s)) as u64)
    } else {
        None
    }
}

/// Whether `c` is whitespace, as `char::is_whitespace` decides.
pub fn is_whitespace_char(c: char) -> (r: bool)
    ensures
        r == is_ws(c),
{
    let v = c as u32;
    (9 <= v && v <= 13) || v == 32 || v == 0x85 || v == 0xA0 || v == 0x1680 || (0x2000 <= v && v
        <= 0x200A) || v == 0x2028 || v == 0x2029 || v == 0x202F || v == 0x205F || v == 0x3000
}

/// Splits a line into its whitespace-separated tokens.
pub fn split_tokens(line: &Vec<char>) -> (toks: Vec<Vec<char>>)
    ensures
        views(toks@) == tokens(line@),
{
    let mut toks: Vec<Vec<char>> = Vec::new();
    let mut cur: Vec<char> = Vec::new();
    let mut in_tok = false;
    let mut i: usize = 0;
    while i < line.len()
        invariant
            i <= line.len(),
            in_tok == (i > 0 && !is_ws(line@[i - 1])),
            in_tok ==> tokens(line@.subrange(0, i as int)) == views(toks@).push(cur@),
            !in_tok ==> tokens(line@.subrange(0, i as int)) == views(toks@),
            !in_tok ==> cur@.len() == 0,
        decreases line.len() - i,
    {
        let c = line[i];
        let ghost pre = line@.subrange(0, i + 1);
        proof {
            assert(pre.drop_last() =~= line@.subrange(0, i as int));
            assert(pre.last() == c);
            if i > 0 {
                assert(pre[pre.len() - 2] == line@[i - 1]);
            }
        }
        if is_whitespace_char(c) {
            if in_tok {
                let done = cur;
                cur = Vec::new();
                let ghost old_toks = toks@;
                toks.push(done);
                proof {
                    assert(views(toks@) =~= views(old_toks).push(done@));
                }
            }
            in_tok = false;
        } else {
            let ghost old_cur = cur@;
            cur.push(c);
            proof {
                if in_tok {
                    assert(views(toks@).push(cur@) =~= views(toks@).push(old_cur).update(
                        views(toks@).len() as int,
                        old_cur.push(c),
                    ));
                } else {
                    assert(cur@ =~= seq![c]);
                }
            }
            in_tok = true;
        }
        i = i + 1;
    }
    if in_tok {
        let ghost old_toks = toks@;
        let ghost last = cur@;
        toks.push(cur);
        proof {
            assert(views(toks@) =~= views(old_toks).push(last));
        }
    }
    proof {
        assert(line@.subrange(0, line.len() as int) =~= line@);
    }
    toks
}

/// Bounds of `line` without its leading and trailing whitespace.
pub fn trimmed_bounds(line: &Vec<char>) -> (r: (usize, usize))
    ensures
        r.0 <= r.1 <= line.len(),
        line@.subrange(r.0 as int, r.1 as int) == trim(line@),
{
    let n = line.len();
    let mut lo: usize = 0;
    proof {
        assert(line@.subrange(0, n as int) =~= line@);
    }
    while lo < n && is_whitespace_char(line[lo])
        invariant
            lo <= n,
            n == line.len(),
            trim_start(line@) == trim_start(line@.subrange(lo as int, n as int)),
        decreases n - lo,
    {
        proof {
            assert(line@.subrange(lo as int, n as int).drop_first() =~= line@.subrange(
                lo + 1,
                n as int,
            ));
        }
        lo = lo + 1;
    }
    let ghost rest = line@.subrange(lo as int, n as int);
    proof {
        assert(trim_start(rest) == rest);
    }
    let mut hi: usize = n;
    while hi > lo && is_whitespace_char(line[hi - 1])
        invariant
            lo <= hi <= n,
            n == line.len(),
            trim_end(rest) == trim_end(line@.subrange(lo as int, hi as int)),
        decreases hi - lo,
    {
        proof {
            assert(line@.subrange(lo as int, hi as int).drop_last() =~= line@.subrange(
                lo as int,
                hi - 1,
            ));
        }
        hi = hi - 1;
    }
    proof {
        let t = line@.subrange(lo as int, hi as int);
        assert(trim_end(t) == t);
    }
    (lo, hi)
}

/// Whether `line[lo..hi]` is exactly `text`.
pub fn matches_text(line: &Vec<char>, lo: usize, hi: usize, text: &str) -> (r: bool)
    requires
        lo <= hi <= line.len(),
    ensures
        r == (line@.subrange(lo as int, hi as int) == text@),
{
    let len = text.unicode_len();
    if hi - lo != len {
        proof {
            assert(line@.subrange(lo as int, hi as int).len() != text@.len());
        }
        return false;
    }
    let mut i: usize = 0;
    while i < len
        invariant
            i <= len,
            len == text@.len(),
            hi - lo == len,
            lo <= hi <= line.len(),
            forall|k: int| 0 <= k < i ==> line@[lo + k] == text@[k],
        decreases len - i,
    {
        if line[lo + i] != text.get_char(i) {
            proof {
                assert(line@.subrange(lo as int, hi as int)[i as int] != text@[i as int]);
            }
            return false;
        }
        i = i + 1;
    }
    proof {
        assert(line@.subrange(lo as int, hi as int) =~= text@);
    }
    true
}

/// Reads `tok` as an unsigned decimal numeral, with an optional `+` sign, that is at
/// most `max`.
pub fn parse_numeral(tok: &Vec<char>, max: u64) -> (r: Option<u64>)
    ensures
        r == numeral_value(tok@, max),
{
    let n = tok.len();
    let mut i: usize = 0;
    if n > 0 && tok[0] == '+' {
        i = 1;
    }
    let first = i;
    let ghost d = numeral_digits(tok@);
    proof {
        assert(d =~= tok@.subrange(first as int, n as int));
    }
    if i == n {
        return None;
    }
    let mut acc: u64 = 0;
    let mut too_big = false;
    while i < n
        invariant
            first <= i <= n,
            n == tok.len(),
            d == tok@.subrange(first as int, n as int),
            d == numeral_digits(tok@),
            forall|k: int| first <= k < i ==> #[trigger] is_digit(tok@[k]),
            too_big ==> digits_value(tok@.subrange(first as int, i as int)) > max,
            !too_big ==> acc == digits_value(tok@.subrange(first as int, i as int)),
            !too_big ==> acc <= max,
        decreases n - i,
    {
        let c = tok[i];
        let v = c as u32;
        if v < 48 || v > 57 {
            proof {
                let k = i - first;
                assert(0 <= k < d.len());
                assert(d[k] == c);
                assert(!is_digit(d[k]));
                assert(numeral_digits(tok@) == d);
                assert(!(forall|j: int| 0 <= j < d.len() ==> #[trigger] is_digit(d[j])));
            }
            return None;
        }
        let ghost pre = tok@.subrange(first as int, i + 1);
        proof {
            assert(pre.drop_last() =~= tok@.subrange(first as int, i as int));
            assert(pre.last() == c);
        }
        let digit = (v - 48) as u64;
        if !too_big {
            if digit > max || acc > (max - digit) / 10 {
                too_big = true;
                proof {
                    if digit <= max {
                        assert(acc * 10 + digit > max) by (nonlinear_arith)
                            requires
                                acc > (max - digit) / 10,
                                digit <= max,
                        ;
                    }
                }
            } else {
                proof {
                    assert(acc * 10 + digit <= max) by (nonlinear_arith)
                        requires
                            acc <= (max - digit) / 10,
                            digit <= max,
                    ;
                }
                acc = acc * 10 + digit;
            }
        }
        i = i + 1;
    }
    proof {
        assert(tok@.subrange(first as int, n as int) =~= d);
        assert forall|k: int| 0 <= k < d.len() implies #[trigger] is_digit(d[k]) by {
            assert(d[k] == tok@[first + k]);
        }
    }
    if too_big {
        None
    } else {
        Some(acc)
    }
}

} // verus!
