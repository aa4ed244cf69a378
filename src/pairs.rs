use vstd::prelude::*;
use vstd::string::StrSliceExecFns;

verus! {

/// Index of the first `sep` among the first `n` characters of `s`.
pub open spec fn first_in_prefix(s: Seq<char>, sep: char, n: int) -> Option<int>
    decreases n,
{
    if n <= 0 {
        None
    } else {
        match first_in_prefix(s, sep, n - 1) {
            Some(k) => Some(k),
            None => if s[n - 1] == sep {
                Some(n - 1)
            } else {
                None
            },
        }
    }
}

proof fn lemma_first_in_prefix_stays(s: Seq<char>, sep: char, a: int, b: int)
    requires
        a <= b,
        first_in_prefix(s, sep, a) is Some,
    ensures
        first_in_prefix(s, sep, b) == first_in_prefix(s, sep, a),
    decreases b - a,
{
    if a < b {
        lemma_first_in_prefix_stays(s, sep, a, b - 1);
    }
}

/// The text before and the text after the first `sep` of `s`, if `s` holds one.
pub open spec fn split_parts(s: Seq<char>, sep: char) -> Option<(Seq<char>, Seq<char>)> {
    match first_in_prefix(s, sep, s.len() as int) {
        Some(k) => Some((s.subrange(0, k), s.subrange(k + 1, s.len() as int))),
        None => None,
    }
}

/// `c` is one of the decimal digits `0` to `9`.
pub open spec fn is_digit(c: char) -> bool {
    '0' <= c <= '9'
}

/// `t` is one or more decimal digits.
pub open spec fn all_digits(t: Seq<char>) -> bool {
    &&& t.len() > 0
    &&& forall|i: int| 0 <= i < t.len() ==> is_digit(#[trigger] t[i])
}

/// The number that the decimal digits `t` write.
pub open spec fn digits_value(t: Seq<char>) -> int
    decreases t.len(),
{
    if t.len() == 0 {
        0
    } else {
        10 * digits_value(t.drop_last()) + (t.last() as u32 - '0' as u32)
    }
}

/// The integer that `t` writes in decimal: an optional `+` sign (or `-`,
/// where `signed`), then one or more digits, and nothing else.
pub open spec fn decimal_value(t: Seq<char>, signed: bool) -> Option<int> {
    if t.len() > 0 && t[0] == '+' {
        if all_digits(t.drop_first()) {
            Some(digits_value(t.drop_first()))
        } else {
            None
        }
    } else if signed && t.len() > 0 && t[0] == '-' {
        if all_digits(t.drop_first()) {
            Some(-digits_value(t.drop_first()))
        } else {
            None
        }
    } else if all_digits(t) {
        Some(digits_value(t))
    } else {
        None
    }
}

/// The integer that `t` writes in decimal, if it lies in `min ..= max`; a
/// sign `-` is read only where `min` is negative.
pub open spec fn decimal_in_range(t: Seq<char>, min: int, max: int) -> Option<int> {
    match decimal_value(t, min < 0) {
        Some(v) => if min <= v <= max {
            Some(v)
        } else {
            None
        },
        None => None,
    }
}

proof fn lemma_digits_value_prefix(t: Seq<char>, k: int)
    requires
        0 <= k <= t.len(),
        forall|i: int| 0 <= i < t.len() ==> is_digit(#[trigger] t[i]),
    ensures
        0 <= digits_value(t.subrange(0, k)) <= digits_value(t),
    decreases t.len(),
{
    if t.len() > 0 {
        let u = t.drop_last();
        if k == t.len() {
            assert(t.subrange(0, k) =~= t);
            lemma_digits_value_prefix(u, u.len() as int);
            assert(u.subrange(0, u.len() as int) =~= u);
        } else {
            lemma_digits_value_prefix(u, k);
            assert(u.subrange(0, k) =~= t.subrange(0, k));
            lemma_digits_value_prefix(u, u.len() as int);
            assert(u.subrange(0, u.len() as int) =~= u);
        }
    } else {
        assert(t.subrange(0, k) =~= t);
    }
}

/// Reads the integer that `s` writes in decimal, if it lies in `min ..= max`.
fn parse_decimal(s: &str, min: i128, max: i128) -> (r: Option<i128>)
    requires
        -0x1_0000_0000_0000_0000 <= min <= 0 <= max <= 0x1_0000_0000_0000_0000,
    ensures
        match r {
            Some(v) => decimal_in_range(s@, min as int, max as int) == Some(v as int),
            None => decimal_in_range(s@, min as int, max as int) is None,
        },
{
    let n = s.unicode_len();
    if n == 0 {
        return None;
    }
    let first = s.get_char(0);
    let negative = min < 0 && first == '-';
    let start: usize = if first == '+' || negative {
        1
    } else {
        0
    };
    if start == n {
        proof {
            assert(s@.drop_first().len() == 0);
        }
        return None;
    }
    let bound: i128 = if negative {
        -min
    } else {
        max
    };
    let ghost t = s@.subrange(start as int, n as int);
    proof {
        if start == 1 {
            assert(t =~= s@.drop_first());
        } else {
            assert(t =~= s@);
        }
    }
    let mut acc: i128 = 0;
    let mut i: usize = start;
    while i < n
        invariant
            n == s@.len(),
            start <= i <= n,
            t == s@.subrange(start as int, n as int),
            acc == digits_value(s@.subrange(start as int, i as int)),
            0 <= acc <= bound <= 0x1_0000_0000_0000_0000,
            decimal_value(s@, min < 0) == if all_digits(t) {
                Some(if negative { -digits_value(t) } else { digits_value(t) })
            } else {
                None
            },
            bound == if negative { -min } else { max as int },
            forall|j: int| start <= j < i ==> is_digit(#[trigger] s@[j]),
        decreases n - i,
    {
        let c = s.get_char(i);
        if !('0' <= c && c <= '9') {
            proof {
                assert(t[i - start] == c);
            }
            return None;
        }
        let ghost p = s@.subrange(start as int, i + 1);
        proof {
            assert(p.drop_last() =~= s@.subrange(start as int, i as int));
        }
        acc = acc * 10 + (c as u32 - '0' as u32) as i128;
        if acc > bound {
            proof {
                if all_digits(t) {
                    lemma_digits_value_prefix(t, i + 1 - start);
                    assert(t.subrange(0, i + 1 - start) =~= p);
                }
            }
            return None;
        }
        i = i + 1;
    }
    proof {
        assert(s@.subrange(start as int, i as int) =~= t);
    }
    if negative {
        Some(-acc)
    } else {
        Some(acc)
    }
}

/// A number that can stand on either side of a separator in a pair.
pub trait PairComponent: Sized {
    /// The value that `s` writes, if it writes one of this type.
    spec fn parsed(s: Seq<char>) -> Option<Self>;

    /// Reads the value that `s` writes.
    fn parse_component(s: &str) -> (r: Option<Self>)
        ensures
            r == Self::parsed(s@),
    ;
}

impl PairComponent for u8 {
    open spec fn parsed(s: Seq<char>) -> Option<u8> {
        match decimal_in_range(s, 0, u8::MAX as int) {
            Some(v) => Some(v as u8),
            None => None,
        }
    }

    fn parse_component(s: &str) -> (r: Option<u8>) {
        match parse_decimal(s, 0, u8::MAX as i128) {
            Some(v) => Some(v as u8),
            None => None,
        }
    }
}

impl PairComponent for u16 {
    open spec fn parsed(s: Seq<char>) -> Option<u16> {
        match decimal_in_range(s, 0, u16::MAX as int) {
            Some(v) => Some(v as u16),
            None => None,
        }
    }

    fn parse_component(s: &str) -> (r: Option<u16>) {
        match parse_decimal(s, 0, u16::MAX as i128) {
            Some(v) => Some(v as u16),
            None => None,
        }
    }
}

impl PairComponent for u32 {
    open spec fn parsed(s: Seq<char>) -> Option<u32> {
        match decimal_in_range(s, 0, u32::MAX as int) {
            Some(v) => Some(v as u32),
            None => None,
        }
    }

    fn parse_component(s: &str) -> (r: Option<u32>) {
        match parse_decimal(s, 0, u32::MAX as i128) {
            Some(v) => Some(v as u32),
            None => None,
        }
    }
}

impl PairComponent for u64 {
    open spec fn parsed(s: Seq<char>) -> Option<u64> {
        match decimal_in_range(s, 0, u64::MAX as int) {
            Some(v) => Some(v as u64),
            None => None,
        }
    }

    fn parse_component(s: &str) -> (r: Option<u64>) {
        match parse_decimal(s, 0, u64::MAX as i128) {
            Some(v) => Some(v as u64),
            None => None,
        }
    }
}

impl PairComponent for usize {
    open spec fn parsed(s: Seq<char>) -> Option<usize> {
        match decimal_in_range(s, 0, usize::MAX as int) {
            Some(v) => Some(v as usize),
            None => None,
        }
    }

    fn parse_component(s: &str) -> (r: Option<usize>) {
        match parse_decimal(s, 0, usize::MAX as i128) {
            Some(v) => Some(v as usize),
            None => None,
        }
    }
}

impl PairComponent for i32 {
    open spec fn parsed(s: Seq<char>) -> Option<i32> {
        match decimal_in_range(s, i32::MIN as int, i32::MAX as int) {
            Some(v) => Some(v as i32),
            None => None,
        }
    }

    fn parse_component(s: &str) -> (r: Option<i32>) {
        match parse_decimal(s, i32::MIN as i128, i32::MAX as i128) {
            Some(v) => Some(v as i32),
            None => None,
        }
    }
}

impl PairComponent for i64 {
    open spec fn parsed(s: Seq<char>) -> Option<i64> {
        match decimal_in_range(s, i64::MIN as int, i64::MAX as int) {
            Some(v) => Some(v as i64),
            None => None,
        }
    }

    fn parse_component(s: &str) -> (r: Option<i64>) {
        match parse_decimal(s, i64::MIN as i128, i64::MAX as i128) {
            Some(v) => Some(v as i64),
            None => None,
        }
    }
}

/// Splits `s` at its first `separator`.
pub fn split_pair<'a>(s: &'a str, separator: char) -> (r: Option<(&'a str, &'a str)>)
    ensures
        match r {
            Some((left, right)) => split_parts(s@, separator) == Some((left@, right@)),
            None => split_parts(s@, separator) is None,
        },
{
    let n = s.unicode_len();
    let mut i: usize = 0;
    while i < n
        invariant
            n == s@.len(),
            i <= n,
            first_in_prefix(s@, separator, i as int) is None,
        decreases n - i,
    {
        if s.get_char(i) == separator {
            proof {
                assert(first_in_prefix(s@, separator, i + 1) == Some(i as int));
                lemma_first_in_prefix_stays(s@, separator, i + 1, n as int);
            }
            let left = s.substring_char(0, i);
            let right = s.substring_char(i + 1, n);
            return Some((left, right));
        }
        i = i + 1;
    }
    None
}

/// The pair that `s` writes as two values separated by `sep`.
pub open spec fn parsed_pair<T: PairComponent>(s: Seq<char>, sep: char) -> Option<(T, T)> {
    match split_parts(s, sep) {
        Some((left, right)) => match (T::parsed(left), T::parsed(right)) {
            (Some(a), Some(b)) => Some((a, b)),
            _ => None,
        },
        None => None,
    }
}

/// Reads a pair of values written as `<left><separator><right>`, such as
/// `400x600` or `3,4`: the text is split at the first separator and each side
/// must be a value of `T` on its own.
pub fn parse_pair<T: PairComponent>(s: &str, separator: char) -> (r: Option<(T, T)>)
    ensures
        r == parsed_pair::<T>(s@, separator),
{
    match split_pair(s, separator) {
        Some((left, right)) => {
            match (T::parse_component(left), T::parse_component(right)) {
                (Some(a), Some(b)) => Some((a, b)),
                _ => None,
            }
        },
        None => None,
    }
}

} // verus!
