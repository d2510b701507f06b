//! Character-level text helpers: ASCII lowercasing, whitespace trimming,
//! first-occurrence search, and unsigned-integer parsing, each as a spec
//! function over `Seq<char>` with a verified executable counterpart.

use vstd::prelude::*;
use vstd::string::*;

verus! {

/// What failed while reading an unsigned integer out of a text field.
#[derive(Debug, Clone, Copy, PartialEq, Eq, Structural)]
pub enum NumberError {
    Empty,
    InvalidDigit,
    PosOverflow,
}

/// The Unicode white-space characters, the ones `str::trim` ignores: the
/// padding the parsers strip from both ends of a field.
pub open spec fn is_space_char(c: char) -> bool {
    let u = c as u32;
    ||| u == 9
    ||| u == 10
    ||| u == 11
    ||| u == 12
    ||| u == 13
    ||| u == 32
    ||| u == 0x85
    ||| u == 0xa0
    ||| u == 0x1680
    ||| (0x2000 <= u && u <= 0x200a)
    ||| u == 0x2028
    ||| u == 0x2029
    ||| u == 0x202f
    ||| u == 0x205f
    ||| u == 0x3000
}

/// An ASCII capital letter mapped to its lower-case form; everything else is
/// left as it is.
pub open spec fn lower_char(c: char) -> char {
    if 65 <= c as u32 && c as u32 <= 90 {
        (((c as u32) + 32) as u8) as char
    } else {
        c
    }
}

/// The whole sequence lowercased character by character.
pub open spec fn lower_seq(s: Seq<char>) -> Seq<char> {
    s.map_values(|c: char| lower_char(c))
}

/// The sequence with its leading whitespace removed.
pub open spec fn trim_front(s: Seq<char>) -> Seq<char>
    decreases s.len(),
{
    if s.len() > 0 && is_space_char(s[0]) {
        trim_front(s.drop_first())
    } else {
        s
    }
}

/// The sequence with its trailing whitespace removed.
pub open spec fn trim_back(s: Seq<char>) -> Seq<char>
    decreases s.len(),
{
    if s.len() > 0 && is_space_char(s.last()) {
        trim_back(s.drop_last())
    } else {
        s
    }
}

/// The sequence with whitespace removed from both ends.
pub open spec fn trim_seq(s: Seq<char>) -> Seq<char> {
    trim_back(trim_front(s))
}

/// Index of the first occurrence of `c` in `s`, or -1 when absent.
pub open spec fn index_of_char(s: Seq<char>, c: char) -> int
    decreases s.len(),
{
    if s.len() == 0 {
        -1
    } else if s[0] == c {
        0
    } else {
        let r = index_of_char(s.drop_first(), c);
        if r < 0 {
            -1
        } else {
            r + 1
        }
    }
}

/// A decimal digit.
pub open spec fn is_digit_char(c: char) -> bool {
    48 <= c as u32 && c as u32 <= 57
}

/// The numeric value of a decimal digit.
pub open spec fn digit_val(c: char) -> int {
    c as u32 - 48
}

/// Left-to-right digit accumulation, reporting the first failure met: a
/// non-digit, or an accumulated value beyond `max`.
pub open spec fn parse_digits(s: Seq<char>, acc: int, max: int) -> Result<int, NumberError>
    decreases s.len(),
{
    if s.len() == 0 {
        Ok(acc)
    } else if !is_digit_char(s[0]) {
        Err(NumberError::InvalidDigit)
    } else if acc * 10 + digit_val(s[0]) > max {
        Err(NumberError::PosOverflow)
    } else {
        parse_digits(s.drop_first(), acc * 10 + digit_val(s[0]), max)
    }
}

/// An unsigned integer no larger than `max`: an optional leading `+`, then
/// one or more decimal digits and nothing else.
pub open spec fn parse_uint(s: Seq<char>, max: int) -> Result<int, NumberError> {
    if s.len() == 0 {
        Err(NumberError::Empty)
    } else {
        let d = if s[0] == '+' {
            s.drop_first()
        } else {
            s
        };
        if d.len() == 0 {
            Err(NumberError::InvalidDigit)
        } else {
            parse_digits(d, 0, max)
        }
    }
}

/// The sequence with every newline and closing parenthesis removed, order of
/// the remaining characters kept.
pub open spec fn strip_marks(s: Seq<char>) -> Seq<char>
    decreases s.len(),
{
    if s.len() == 0 {
        Seq::empty()
    } else {
        let rest = strip_marks(s.drop_last());
        if s.last() == '\n' || s.last() == ')' {
            rest
        } else {
            rest.push(s.last())
        }
    }
}

/// The characters of `s` as a vector, in order.
pub fn chars_of(s: &str) -> (v: Vec<char>)
    ensures
        v@ == s@,
{
    let n = s.unicode_len();
    let mut v: Vec<char> = Vec::new();
    let mut i: usize = 0;
    while i < n
        invariant
            i <= n,
            n == s@.len(),
            v@ == s@.subrange(0, i as int),
        decreases n - i,
    {
        let c = s.get_char(i);
        v.push(c);
        proof {
            assert(v@ =~= s@.subrange(0, i + 1));
        }
        i = i + 1;
    }
    proof {
        assert(v@ =~= s@);
    }
    v
}

/// Whether `c` is Unicode white space.
pub fn is_space(c: char) -> (b: bool)
    ensures
        b == is_space_char(c),
{
    let u = c as u32;
    u == 9 || u == 10 || u == 11 || u == 12 || u == 13 || u == 32 || u == 0x85 || u == 0xa0
        || u == 0x1680 || (0x2000 <= u && u <= 0x200a) || u == 0x2028 || u == 0x2029
        || u == 0x202f || u == 0x205f || u == 0x3000
}

/// The vector lowercased character by character.
pub fn lower_vec(v: &Vec<char>) -> (r: Vec<char>)
    ensures
        r@ == lower_seq(v@),
{
    let n = v.len();
    let mut r: Vec<char> = Vec::new();
    let mut i: usize = 0;
    while i < n
        invariant
            i <= n,
            n == v@.len(),
            r@.len() == i,
            forall|k: int| 0 <= k < i ==> r@[k] == lower_char(v@[k]),
        decreases n - i,
    {
        let c = v[i];
        let u = c as u32;
        if 65 <= u && u <= 90 {
            r.push(((u + 32) as u8) as char);
        } else {
            r.push(c);
        }
        i = i + 1;
    }
    proof {
        assert(r@ =~= lower_seq(v@));
    }
    r
}

/// The slice of `v` between `from` (inclusive) and `to` (exclusive).
pub fn sub_vec(v: &Vec<char>, from: usize, to: usize) -> (r: Vec<char>)
    requires
        from <= to <= v@.len(),
    ensures
        r@ == v@.subrange(from as int, to as int),
{
    let mut r: Vec<char> = Vec::new();
    let mut i: usize = from;
    while i < to
        invariant
            from <= i <= to <= v@.len(),
            r@ == v@.subrange(from as int, i as int),
        decreases to - i,
    {
        r.push(v[i]);
        proof {
            assert(r@ =~= v@.subrange(from as int, i + 1));
        }
        i = i + 1;
    }
    r
}

/// Skipping a prefix free of `c` shifts the index of the first occurrence.
proof fn lemma_index_of_skip(s: Seq<char>, c: char, k: int)
    requires
        0 <= k <= s.len(),
        forall|j: int| 0 <= j < k ==> s[j] != c,
    ensures
        index_of_char(s, c) == (if index_of_char(s.subrange(k, s.len() as int), c) < 0 {
            -1int
        } else {
            k + index_of_char(s.subrange(k, s.len() as int), c)
        }),
    decreases k,
{
    if k == 0 {
        assert(s.subrange(0, s.len() as int) =~= s);
    } else {
        lemma_index_of_skip(s.drop_first(), c, k - 1);
        assert(s.drop_first().subrange(k - 1, s.drop_first().len() as int) =~= s.subrange(
            k,
            s.len() as int,
        ));
    }
}

/// Index of the first occurrence of `c` in `v`, if any.
pub fn find_char_vec(v: &Vec<char>, c: char) -> (r: Option<usize>)
    ensures
        match r {
            Some(i) => index_of_char(v@, c) == i as int && i < v@.len() && v@[i as int] == c,
            None => index_of_char(v@, c) == -1,
        },
{
    let n = v.len();
    let mut i: usize = 0;
    while i < n
        invariant
            i <= n,
            n == v@.len(),
            forall|j: int| 0 <= j < i ==> v@[j] != c,
        decreases n - i,
    {
        if v[i] == c {
            proof {
                lemma_index_of_skip(v@, c, i as int);
                assert(v@.subrange(i as int, n as int)[0] == c);
            }
            return Some(i);
        }
        i = i + 1;
    }
    proof {
        lemma_index_of_skip(v@, c, n as int);
        assert(v@.subrange(n as int, n as int).len() == 0);
    }
    None
}

/// The vector with whitespace removed from both ends.
pub fn trim_vec(v: &Vec<char>) -> (r: Vec<char>)
    ensures
        r@ == trim_seq(v@),
{
    let n = v.len();
    proof {
        assert(v@.subrange(0, n as int) =~= v@);
    }
    let mut start: usize = 0;
    while start < n && is_space(v[start])
        invariant
            start <= n,
            n == v@.len(),
            trim_front(v@.subrange(start as int, n as int)) == trim_front(v@),
        decreases n - start,
    {
        proof {
            let cur = v@.subrange(start as int, n as int);
            assert(cur[0] == v@[start as int]);
            assert(cur.drop_first() =~= v@.subrange(start + 1, n as int));
        }
        start = start + 1;
    }
    proof {
        assert(v@.subrange(0, n as int) =~= v@);
        assert(trim_front(v@) == v@.subrange(start as int, n as int));
    }
    let mut end: usize = n;
    while end > start && is_space(v[end - 1])
        invariant
            start <= end <= n,
            n == v@.len(),
            trim_front(v@) == v@.subrange(start as int, n as int),
            trim_back(v@.subrange(start as int, end as int)) == trim_back(trim_front(v@)),
        decreases end,
    {
        proof {
            let cur = v@.subrange(start as int, end as int);
            assert(cur.last() == v@[end - 1]);
            assert(cur.drop_last() =~= v@.subrange(start as int, end - 1));
        }
        end = end - 1;
    }
    proof {
        assert(trim_back(v@.subrange(start as int, end as int)) == v@.subrange(
            start as int,
            end as int,
        ));
    }
    sub_vec(v, start, end)
}

/// The vector with every newline and closing parenthesis removed.
pub fn strip_vec(v: &Vec<char>) -> (r: Vec<char>)
    ensures
        r@ == strip_marks(v@),
{
    let n = v.len();
    let mut r: Vec<char> = Vec::new();
    let mut i: usize = 0;
    while i < n
        invariant
            i <= n,
            n == v@.len(),
            r@ == strip_marks(v@.subrange(0, i as int)),
        decreases n - i,
    {
        let c = v[i];
        proof {
            let nxt = v@.subrange(0, i + 1);
            assert(nxt.drop_last() =~= v@.subrange(0, i as int));
            assert(nxt.last() == v@[i as int]);
        }
        if !(c == '\n' || c == ')') {
            r.push(c);
        }
        i = i + 1;
    }
    proof {
        assert(v@.subrange(0, n as int) =~= v@);
    }
    r
}

/// A `Result` carrying a machine integer, widened to the mathematical result
/// the parsing spec functions speak of.
pub open spec fn as_int_result(r: Result<u32, NumberError>) -> Result<int, NumberError> {
    match r {
        Ok(x) => Ok(x as int),
        Err(e) => Err(e),
    }
}

/// Parse `v` as an unsigned integer no larger than `max`, reporting the first
/// failure met while scanning left to right.
pub fn parse_uint_vec(v: &Vec<char>, max: u32) -> (r: Result<u32, NumberError>)
    ensures
        as_int_result(r) == parse_uint(v@, max as int),
        r matches Ok(x) ==> x <= max,
{
    let n = v.len();
    if n == 0 {
        return Err(NumberError::Empty);
    }
    let mut i: usize = 0;
    if v[0] == '+' {
        i = 1;
    }
    if i == n {
        return Err(NumberError::InvalidDigit);
    }
    let ghost d: Seq<char> = v@.subrange(i as int, n as int);
    proof {
        if v@[0] == '+' {
            assert(d =~= v@.drop_first());
        } else {
            assert(d =~= v@);
        }
    }
    let mut acc: u32 = 0;
    while i < n
        invariant
            i <= n,
            n == v@.len(),
            acc <= max,
            parse_digits(d, 0, max as int) == parse_digits(
                v@.subrange(i as int, n as int),
                acc as int,
                max as int,
            ),
            parse_uint(v@, max as int) == parse_digits(d, 0, max as int),
        decreases n - i,
    {
        let c = v[i];
        let u = c as u32;
        proof {
            let cur = v@.subrange(i as int, n as int);
            assert(cur[0] == v@[i as int]);
            assert(cur.drop_first() =~= v@.subrange(i + 1, n as int));
        }
        if !(48 <= u && u <= 57) {
            return Err(NumberError::InvalidDigit);
        }
        let dv = u - 48;
        let wide: u64 = (acc as u64) * 10 + (dv as u64);
        if wide > max as u64 {
            return Err(NumberError::PosOverflow);
        }
        acc = wide as u32;
        i = i + 1;
    }
    proof {
        assert(v@.subrange(n as int, n as int).len() == 0);
    }
    Ok(acc)
}

} // verus!
