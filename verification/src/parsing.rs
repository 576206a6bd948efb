use vstd::prelude::*;
use vstd::string::StringSliceAdditionalSpecFns;

verus! {

/// The ways a header line can be rejected.
#[derive(Debug, PartialEq, Eq, Structural)]
pub enum ParseError {
    MissingLine,
    MissingField,
    BadNumber,
}

pub open spec fn is_digit(b: u8) -> bool {
    48 <= b <= 57
}

pub open spec fn all_digits(s: Seq<u8>) -> bool {
    forall|k: int| 0 <= k < s.len() ==> is_digit(#[trigger] s[k])
}

/// The number a sequence of decimal digit bytes denotes.
pub open spec fn digits_value(s: Seq<u8>) -> int
    decreases s.len(),
{
    if s.len() == 0 {
        0
    } else {
        digits_value(s.drop_last()) * 10 + (s.last() - 48)
    }
}

/// The bytes an unsigned decimal accepts: an optional leading plus sign,
/// then at least one digit, denoting a value that fits in `usize`.
pub open spec fn usize_digits(s: Seq<u8>) -> Seq<u8> {
    if s.len() >= 1 && s[0] == 43 {
        s.drop_first()
    } else {
        s
    }
}

pub open spec fn parses_to_usize(s: Seq<u8>) -> bool {
    let t = usize_digits(s);
    t.len() >= 1 && all_digits(t) && digits_value(t) <= usize::MAX
}

pub open spec fn usize_value(s: Seq<u8>) -> int {
    digits_value(usize_digits(s))
}

proof fn lemma_digits_value_nonneg(s: Seq<u8>)
    requires
        all_digits(s),
    ensures
        digits_value(s) >= 0,
    decreases s.len(),
{
    if s.len() > 0 {
        assert(is_digit(s[s.len() - 1]));
        lemma_digits_value_nonneg(s.drop_last());
    }
}

/// A prefix of a digit string never denotes more than the whole string.
proof fn lemma_digits_value_prefix(s: Seq<u8>, k: int)
    requires
        all_digits(s),
        0 <= k <= s.len(),
    ensures
        digits_value(s.take(k)) <= digits_value(s),
    decreases s.len(),
{
    if k == s.len() {
        assert(s.take(k) =~= s);
    } else {
        assert(all_digits(s.drop_last())) by {
            assert(forall|m: int|
                0 <= m < s.drop_last().len() ==> #[trigger] s.drop_last()[m] == s[m]);
        }
        assert(s.drop_last().take(k) =~= s.take(k));
        lemma_digits_value_prefix(s.drop_last(), k);
        lemma_digits_value_nonneg(s.drop_last());
        assert(is_digit(s[s.len() - 1]));
    }
}

/// Parses a decimal `usize` from raw bytes: an optional plus sign, then
/// digits; `None` on anything else or on overflow.
pub fn parse_usize_bytes(bytes: &Vec<u8>) -> (r: Option<usize>)
    ensures
        match r {
            Some(v) => parses_to_usize(bytes@) && v as int == usize_value(bytes@),
            None => !parses_to_usize(bytes@),
        },
{
    let len = bytes.len();
    let start: usize = if len >= 1 && bytes[0] == 43 {
        1
    } else {
        0
    };
    let ghost t = usize_digits(bytes@);
    proof {
        assert(t.len() == len - start);
        assert(forall|k: int| 0 <= k < t.len() ==> #[trigger] t[k] == bytes@[k + start]);
    }
    if start >= len {
        return None;
    }
    let mut val: usize = 0;
    let mut j: usize = start;
    while j < len
        invariant
            bytes@.len() == len as int,
            t == usize_digits(bytes@),
            t.len() == len - start,
            forall|k: int| 0 <= k < t.len() ==> #[trigger] t[k] == bytes@[k + start],
            start <= j <= len,
            start <= 1,
            forall|k: int| 0 <= k < j - start ==> is_digit(#[trigger] t[k]),
            val as int == digits_value(t.take(j - start)),
        decreases len - j,
    {
        let b = bytes[j];
        if b < 48 || b > 57 {
            proof {
                assert(!is_digit(t[j - start]));
            }
            return None;
        }
        let d = (b - 48) as u64;
        let next128 = (val as u128) * 10 + (d as u128);
        proof {
            assert(t.take(j - start + 1).drop_last() =~= t.take(j - start));
            assert(t.take(j - start + 1).last() == t[j - start]);
        }
        if next128 > (usize::MAX as u128) {
            proof {
                if parses_to_usize(bytes@) {
                    lemma_digits_value_prefix(t, j - start + 1);
                    assert(digits_value(t.take(j - start + 1)) == (val as int) * 10 + d);
                    assert(digits_value(t) > usize::MAX);
                }
            }
            return None;
        }
        val = next128 as usize;
        j += 1;
    }
    proof {
        assert(t.take(len - start) =~= t);
    }
    Some(val)
}

/// Parses a decimal `usize` from a string slice.
pub fn parse_usize(s: &str) -> (r: Option<usize>)
    ensures
        match r {
            Some(v) => parses_to_usize(s.spec_bytes()) && v as int == usize_value(s.spec_bytes()),
            None => !parses_to_usize(s.spec_bytes()),
        },
{
    let bytes = s.as_bytes_vec();
    parse_usize_bytes(&bytes)
}

/// Whether the separator `" : "` stands at position `i`.
pub open spec fn sep_at(s: Seq<u8>, i: int) -> bool {
    i + 3 <= s.len() && s[i] == 32 && s[i + 1] == 58 && s[i + 2] == 32
}

/// The position of the first `" : "` separator at or after `i`.
pub open spec fn find_sep_from(s: Seq<u8>, i: int) -> Option<int>
    decreases s.len() - i,
{
    if i + 3 > s.len() {
        None
    } else if sep_at(s, i) {
        Some(i)
    } else {
        find_sep_from(s, i + 1)
    }
}

proof fn lemma_find_sep_prefix(s: Seq<u8>, i: int)
    requires
        0 <= i,
        forall|j: int| 0 <= j < i ==> !sep_at(s, j),
    ensures
        find_sep_from(s, 0) == find_sep_from(s, i),
    decreases i,
{
    if i > 0 {
        lemma_find_sep_prefix(s, i - 1);
        assert(!sep_at(s, i - 1));
    }
}

proof fn lemma_find_sep_some(s: Seq<u8>, i: int)
    requires
        0 <= i,
        find_sep_from(s, i) is Some,
    ensures
        sep_at(s, find_sep_from(s, i)->Some_0),
        i <= find_sep_from(s, i)->Some_0,
    decreases s.len() - i,
{
    if i + 3 > s.len() {
    } else if sep_at(s, i) {
    } else {
        lemma_find_sep_some(s, i + 1);
    }
}

/// Whether the line has a second `" : "`-separated field at all.
pub open spec fn has_second_field(s: Seq<u8>) -> bool {
    find_sep_from(s, 0) is Some
}

/// Removes leading whitespace bytes.
pub open spec fn trim_front(s: Seq<u8>) -> Seq<u8>
    decreases s.len(),
{
    if s.len() >= 1 && is_space(s[0]) {
        trim_front(s.drop_first())
    } else {
        s
    }
}

/// Removes trailing whitespace bytes.
pub open spec fn trim_back(s: Seq<u8>) -> Seq<u8>
    decreases s.len(),
{
    if s.len() >= 1 && is_space(s.last()) {
        trim_back(s.drop_last())
    } else {
        s
    }
}

pub open spec fn is_space(b: u8) -> bool {
    b == 32 || b == 9 || b == 10 || b == 13
}

/// The second `" : "`-separated field of the line, whitespace-trimmed.
pub open spec fn second_field_trimmed(s: Seq<u8>) -> Seq<u8>
    recommends
        has_second_field(s),
{
    let i = find_sep_from(s, 0)->Some_0;
    let rest = s.subrange(i + 3, s.len() as int);
    let end = match find_sep_from(rest, 0) {
        Some(j) => j,
        None => rest.len() as int,
    };
    trim_back(trim_front(rest.subrange(0, end)))
}

proof fn lemma_trim_front_idx(s: Seq<u8>, a: int)
    requires
        0 <= a <= s.len(),
        forall|k: int| 0 <= k < a ==> is_space(#[trigger] s[k]),
        a < s.len() ==> !is_space(s[a]),
    ensures
        trim_front(s) == s.subrange(a, s.len() as int),
    decreases a,
{
    if a == 0 {
        assert(s.subrange(0, s.len() as int) =~= s);
    } else {
        assert(is_space(s[0]));
        lemma_trim_front_idx(s.drop_first(), a - 1);
        assert(s.drop_first().subrange(a - 1, s.drop_first().len() as int) =~= s.subrange(
            a,
            s.len() as int,
        ));
    }
}

proof fn lemma_trim_back_idx(s: Seq<u8>, b: int)
    requires
        0 <= b <= s.len(),
        forall|k: int| b <= k < s.len() ==> is_space(#[trigger] s[k]),
        b > 0 ==> !is_space(s[b - 1]),
    ensures
        trim_back(s) == s.subrange(0, b),
    decreases s.len() - b,
{
    if b == s.len() {
        if b > 0 {
            assert(!is_space(s.last()));
        }
        assert(s.subrange(0, b) =~= s);
    } else {
        assert(is_space(s.last()));
        lemma_trim_back_idx(s.drop_last(), b);
        assert(s.drop_last().subrange(0, b) =~= s.subrange(0, b));
    }
}

/// Finds the first `" : "` separator in the bytes, if any.
fn find_sep(bytes: &Vec<u8>) -> (r: Option<usize>)
    ensures
        match r {
            Some(i) => find_sep_from(bytes@, 0) == Some(i as int),
            None => find_sep_from(bytes@, 0) is None,
        },
{
    let len = bytes.len();
    let mut i: usize = 0;
    while len - i >= 3
        invariant
            bytes@.len() == len as int,
            0 <= i <= len,
            forall|j: int| 0 <= j < i ==> !sep_at(bytes@, j),
        decreases len - i,
    {
        if bytes[i] == 32 && bytes[i + 1] == 58 && bytes[i + 2] == 32 {
            proof {
                lemma_find_sep_prefix(bytes@, i as int);
                assert(sep_at(bytes@, i as int));
            }
            return Some(i);
        }
        i += 1;
    }
    proof {
        lemma_find_sep_prefix(bytes@, i as int);
    }
    None
}

/// Reads the vertex count out of the header line: the second field of a
/// `" : "`-separated line, trimmed, as a decimal number.
pub fn get_num_points(line: Option<&str>) -> (r: Result<usize, ParseError>)
    ensures
        match line {
            None => r == Err::<usize, ParseError>(ParseError::MissingLine),
            Some(l) => {
                if !has_second_field(l.spec_bytes()) {
                    r == Err::<usize, ParseError>(ParseError::MissingField)
                } else if parses_to_usize(second_field_trimmed(l.spec_bytes())) {
                    r == Ok::<usize, ParseError>(
                        usize_value(second_field_trimmed(l.spec_bytes())) as usize,
                    )
                } else {
                    r == Err::<usize, ParseError>(ParseError::BadNumber)
                }
            },
        },
{
    let l = match line {
        None => {
            return Err(ParseError::MissingLine);
        },
        Some(l) => l,
    };
    let bytes = l.as_bytes_vec();
    let sep = match find_sep(&bytes) {
        None => {
            return Err(ParseError::MissingField);
        },
        Some(i) => i,
    };
    proof {
        lemma_find_sep_prefix(bytes@, 0);
        lemma_find_sep_some(bytes@, 0);
        assert(sep + 3 <= bytes@.len());
    }
    // The field runs from past the separator to the next separator or the
    // end of the line.
    let blen = bytes.len();
    proof {
        assert(sep + 3 <= blen);
    }
    let mut rest: Vec<u8> = Vec::new();
    let mut k: usize = sep + 3;
    while k < bytes.len()
        invariant
            sep + 3 <= k <= bytes@.len(),
            rest@ =~= bytes@.subrange(sep + 3, k as int),
        decreases bytes@.len() - k,
    {
        rest.push(bytes[k]);
        k += 1;
    }
    proof {
        assert(rest@ =~= bytes@.subrange(sep + 3, bytes@.len() as int));
    }
    let end = match find_sep(&rest) {
        None => rest.len(),
        Some(j) => j,
    };
    proof {
        if find_sep_from(rest@, 0) is Some {
            lemma_find_sep_some(rest@, 0);
        }
    }
    let mut a: usize = 0;
    while a < end && is_space_byte(rest[a])
        invariant
            end <= rest@.len(),
            0 <= a <= end,
            forall|m: int| 0 <= m < a ==> is_space(#[trigger] rest@[m]),
        decreases end - a,
    {
        a += 1;
    }
    let mut b: usize = end;
    while b > a && is_space_byte(rest[b - 1])
        invariant
            end <= rest@.len(),
            a <= b <= end,
            forall|m: int| b <= m < end ==> is_space(#[trigger] rest@[m]),
        decreases b,
    {
        b -= 1;
    }
    let mut field: Vec<u8> = Vec::new();
    let mut m: usize = a;
    while m < b
        invariant
            a <= m <= b,
            b <= rest@.len(),
            field@ =~= rest@.subrange(a as int, m as int),
        decreases b - m,
    {
        field.push(rest[m]);
        m += 1;
    }
    proof {
        let full = rest@.subrange(0, end as int);
        lemma_trim_front_idx(full, a as int);
        assert(full.subrange(a as int, full.len() as int) =~= rest@.subrange(
            a as int,
            end as int,
        ));
        let fronted = rest@.subrange(a as int, end as int);
        lemma_trim_back_idx(fronted, b - a);
        assert(fronted.subrange(0, b - a) =~= rest@.subrange(a as int, b as int));
        assert(field@ =~= rest@.subrange(a as int, b as int));
        assert(second_field_trimmed(l.spec_bytes()) == field@);
    }
    match parse_usize_bytes(&field) {
        None => Err(ParseError::BadNumber),
        Some(v) => Ok(v),
    }
}

fn is_space_byte(b: u8) -> (r: bool)
    ensures
        r == is_space(b),
{
    b == 32 || b == 9 || b == 10 || b == 13
}

} // verus!
