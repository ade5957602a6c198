//! Character-level utilities: comparisons, searching, splitting and decimal
//! parsing, each proved against a direct specification over `Seq<char>`.

use vstd::prelude::*;

verus! {

/// Decimal digit class.
pub open spec fn is_digit(c: char) -> bool {
    '0' <= c && c <= '9'
}

/// Numeric value of a decimal digit.
pub open spec fn digit_val(c: char) -> int {
    (c as u32) - 48
}

/// Every character of `s` is a decimal digit.
pub open spec fn all_digits(s: Seq<char>) -> bool {
    forall|i: int| 0 <= i < s.len() ==> is_digit(#[trigger] s[i])
}

/// Value of a digit string read in base ten.
pub open spec fn digits_val(s: Seq<char>) -> int
    decreases s.len(),
{
    if s.len() == 0 {
        0
    } else {
        digits_val(s.drop_last()) * 10 + digit_val(s.last())
    }
}

/// `p` is a prefix of `s`.
pub open spec fn is_prefix_of(p: Seq<char>, s: Seq<char>) -> bool {
    p.len() <= s.len() && s.subrange(0, p.len() as int) == p
}

/// Index of the first occurrence of `c` in `s`, or -1 when absent.
pub open spec fn spec_find(s: Seq<char>, c: char) -> int
    decreases s.len(),
{
    if s.len() == 0 {
        -1
    } else if s[0] == c {
        0
    } else {
        let r = spec_find(s.drop_first(), c);
        if r < 0 {
            -1
        } else {
            r + 1
        }
    }
}

/// Index of the last occurrence of `c` in `s`, or -1 when absent.
pub open spec fn spec_rfind(s: Seq<char>, c: char) -> int
    decreases s.len(),
{
    if s.len() == 0 {
        -1
    } else if s.last() == c {
        s.len() - 1
    } else {
        spec_rfind(s.drop_last(), c)
    }
}

/// The pieces of `s` between occurrences of the separator `c`.
pub open spec fn spec_split(s: Seq<char>, c: char) -> Seq<Seq<char>>
    decreases s.len(),
{
    let i = spec_find(s, c);
    if 0 <= i < s.len() {
        seq![s.take(i)] + spec_split(s.skip(i + 1), c)
    } else {
        seq![s]
    }
}

/// Character-wise string equality.
pub fn str_eq(a: &str, b: &str) -> (r: bool)
    ensures
        r == (a@ == b@),
{
    let na = a.unicode_len();
    let nb = b.unicode_len();
    if na != nb {
        return false;
    }
    let mut i: usize = 0;
    while i < na
        invariant
            na == a@.len(),
            na == b@.len(),
            i <= na,
            forall|k: int| 0 <= k < i ==> a@[k] == b@[k],
        decreases na - i,
    {
        if a.get_char(i) != b.get_char(i) {
            return false;
        }
        i = i + 1;
    }
    proof {
        assert(a@ =~= b@);
    }
    true
}

/// Whether `p` is a prefix of `s`, compared character by character.
pub fn str_starts_with(s: &str, p: &str) -> (r: bool)
    ensures
        r == is_prefix_of(p@, s@),
{
    let np = p.unicode_len();
    let ns = s.unicode_len();
    if np > ns {
        return false;
    }
    let mut i: usize = 0;
    while i < np
        invariant
            np == p@.len(),
            ns == s@.len(),
            np <= ns,
            i <= np,
            forall|k: int| 0 <= k < i ==> s@[k] == p@[k],
        decreases np - i,
    {
        if s.get_char(i) != p.get_char(i) {
            proof {
                assert(s@.subrange(0, p@.len() as int)[i as int] == s@[i as int]);
            }
            return false;
        }
        i = i + 1;
    }
    proof {
        assert(s@.subrange(0, p@.len() as int) =~= p@);
    }
    true
}

/// First occurrence of `c` in `s` at or after position `from`.
pub fn str_find_from(s: &str, from: usize, c: char) -> (r: Option<usize>)
    requires
        from <= s@.len(),
    ensures
        match r {
            Some(j) => from <= j < s@.len() && spec_find(s@.skip(from as int), c) == j - from,
            None => spec_find(s@.skip(from as int), c) < 0,
        },
{
    let n = s.unicode_len();
    let mut i: usize = from;
    while i < n
        invariant
            n == s@.len(),
            from <= i <= n,
            spec_find(s@.skip(from as int), c) == if spec_find(s@.skip(i as int), c) < 0 {
                -1 as int
            } else {
                spec_find(s@.skip(i as int), c) + i - from
            },
        decreases n - i,
    {
        if s.get_char(i) == c {
            proof {
                assert(s@.skip(i as int)[0] == s@[i as int]);
            }
            return Some(i);
        }
        proof {
            assert(s@.skip(i as int).drop_first() =~= s@.skip(i + 1));
            assert(s@.skip(i as int)[0] == s@[i as int]);
        }
        i = i + 1;
    }
    proof {
        assert(s@.skip(n as int).len() == 0);
    }
    None
}

/// Last occurrence of `c` in `s`.
pub fn str_rfind(s: &str, c: char) -> (r: Option<usize>)
    ensures
        match r {
            Some(j) => j < s@.len() && spec_rfind(s@, c) == j,
            None => spec_rfind(s@, c) < 0,
        },
{
    let n = s.unicode_len();
    proof {
        assert(s@.take(n as int) =~= s@);
    }
    let mut i: usize = n;
    while i > 0
        invariant
            n == s@.len(),
            i <= n,
            spec_rfind(s@, c) == spec_rfind(s@.take(i as int), c),
        decreases i,
    {
        let ch = s.get_char(i - 1);
        proof {
            assert(s@.take(i as int).last() == s@[i - 1]);
            assert(s@.take(i as int).drop_last() =~= s@.take(i - 1));
        }
        if ch == c {
            return Some(i - 1);
        }
        i = i - 1;
    }
    None
}

/// Splits `s` at every occurrence of `c`.
pub fn str_split(s: &str, c: char) -> (r: Vec<String>)
    ensures
        r.deep_view() == spec_split(s@, c),
{
    let n = s.unicode_len();
    let mut parts: Vec<String> = Vec::new();
    proof {
        assert(s@.skip(0) =~= s@);
        assert(parts.deep_view() + spec_split(s@, c) =~= spec_split(s@, c));
    }
    let mut j: usize = 0;
    loop
        invariant
            n == s@.len(),
            j <= n,
            spec_split(s@, c) == parts.deep_view() + spec_split(s@.skip(j as int), c),
        decreases n - j,
    {
        let found = str_find_from(s, j, c);
        match found {
            Some(k) => {
                let piece = s.substring_char(j, k).to_owned();
                proof {
                    assert(s@.skip(j as int).take(k - j) =~= s@.subrange(j as int, k as int));
                    assert(s@.skip(j as int).skip(k - j + 1) =~= s@.skip(k + 1));
                    assert((parts.deep_view() + seq![piece@]) + spec_split(s@.skip(k + 1), c)
                        =~= parts.deep_view() + (seq![piece@] + spec_split(s@.skip(k + 1), c)));
                }
                parts.push(piece);
                proof {
                    assert(parts.deep_view() =~= parts.deep_view().drop_last().push(piece@));
                }
                j = k + 1;
            },
            None => {
                let piece = s.substring_char(j, n).to_owned();
                proof {
                    assert(s@.skip(j as int) =~= s@.subrange(j as int, n as int));
                }
                parts.push(piece);
                proof {
                    assert(parts.deep_view() =~= parts.deep_view().drop_last().push(piece@));
                    assert(parts.deep_view().drop_last() + seq![piece@] =~= parts.deep_view());
                }
                return parts;
            },
        }
    }
}

/// `digits_val` only grows as a digit string is extended to the right.
pub proof fn lemma_digits_val_bounds(s: Seq<char>, i: int)
    requires
        all_digits(s),
        0 <= i <= s.len(),
    ensures
        0 <= digits_val(s.take(i)) <= digits_val(s),
    decreases s.len() - i,
{
    if i == s.len() {
        assert(s.take(i) =~= s);
        lemma_digits_val_nonneg(s);
    } else {
        lemma_digits_val_bounds(s, i + 1);
        assert(s.take(i + 1).drop_last() =~= s.take(i));
        assert(s.take(i + 1).last() == s[i]);
        lemma_digits_val_nonneg(s.take(i));
    }
}

/// A digit string has a non-negative value.
pub proof fn lemma_digits_val_nonneg(s: Seq<char>)
    requires
        all_digits(s),
    ensures
        digits_val(s) >= 0,
    decreases s.len(),
{
    if s.len() > 0 {
        assert(all_digits(s.drop_last()));
        lemma_digits_val_nonneg(s.drop_last());
    }
}

/// Value of a decimal numeral that fits a 16-bit unsigned integer: one or
/// more digits whose value is at most 65535.
pub open spec fn spec_parse_u16(s: Seq<char>) -> Option<u16> {
    if s.len() > 0 && all_digits(s) && digits_val(s) <= 65535 {
        Some(digits_val(s) as u16)
    } else {
        None
    }
}

/// Parses a decimal numeral as a 16-bit unsigned integer.
pub fn parse_u16(s: &str) -> (r: Option<u16>)
    ensures
        r == spec_parse_u16(s@),
{
    let n = s.unicode_len();
    if n == 0 {
        return None;
    }
    let mut acc: u32 = 0;
    let mut i: usize = 0;
    while i < n
        invariant
            n == s@.len(),
            0 < n,
            i <= n,
            all_digits(s@.take(i as int)),
            acc == digits_val(s@.take(i as int)),
            acc <= 65535,
        decreases n - i,
    {
        let c = s.get_char(i);
        if c < '0' || c > '9' {
            return None;
        }
        let d: u32 = (c as u32) - 48;
        proof {
            assert(s@.take(i + 1).drop_last() =~= s@.take(i as int));
            assert(s@.take(i + 1).last() == s@[i as int]);
        }
        acc = acc * 10 + d;
        i = i + 1;
        if acc > 65535 {
            proof {
                if s@.len() > 0 && all_digits(s@) && digits_val(s@) <= 65535 {
                    lemma_digits_val_bounds(s@, i as int);
                }
            }
            return None;
        }
    }
    proof {
        assert(s@.take(n as int) =~= s@);
    }
    Some(acc as u16)
}

/// Value of a decimal numeral that fits a 32-bit unsigned integer.
pub open spec fn spec_parse_u32(s: Seq<char>) -> Option<u32> {
    if s.len() > 0 && all_digits(s) && digits_val(s) <= 0xFFFFFFFF {
        Some(digits_val(s) as u32)
    } else {
        None
    }
}

/// Parses a decimal numeral as a 32-bit unsigned integer.
pub fn parse_u32(s: &str) -> (r: Option<u32>)
    ensures
        r == spec_parse_u32(s@),
{
    let n = s.unicode_len();
    if n == 0 {
        return None;
    }
    let mut acc: u64 = 0;
    let mut i: usize = 0;
    while i < n
        invariant
            n == s@.len(),
            0 < n,
            i <= n,
            all_digits(s@.take(i as int)),
            acc == digits_val(s@.take(i as int)),
            acc <= 0xFFFFFFFF,
        decreases n - i,
    {
        let c = s.get_char(i);
        if c < '0' || c > '9' {
            return None;
        }
        let d: u64 = ((c as u32) - 48) as u64;
        proof {
            assert(s@.take(i + 1).drop_last() =~= s@.take(i as int));
            assert(s@.take(i + 1).last() == s@[i as int]);
        }
        acc = acc * 10 + d;
        i = i + 1;
        if acc > 0xFFFFFFFF {
            proof {
                if s@.len() > 0 && all_digits(s@) && digits_val(s@) <= 0xFFFFFFFF {
                    lemma_digits_val_bounds(s@, i as int);
                }
            }
            return None;
        }
    }
    proof {
        assert(s@.take(n as int) =~= s@);
    }
    Some(acc as u32)
}

/// Value of one dotted-quad octet: one to three digits, no leading zero
/// (except "0" itself), at most 255.
pub open spec fn spec_parse_octet(s: Seq<char>) -> Option<u8> {
    if 1 <= s.len() <= 3 && all_digits(s) && (s.len() > 1 ==> s[0] != '0') && digits_val(s)
        <= 255 {
        Some(digits_val(s) as u8)
    } else {
        None
    }
}

/// Value of a dotted-quad IPv4 literal, as one 32-bit integer with the first
/// octet highest.
pub open spec fn spec_parse_ipv4(s: Seq<char>) -> Option<u32> {
    let parts = spec_split(s, '.');
    if parts.len() == 4 {
        match (spec_parse_octet(parts[0]), spec_parse_octet(parts[1]), spec_parse_octet(parts[2]),
        spec_parse_octet(parts[3])) {
            (Some(a), Some(b), Some(c), Some(d)) => Some(
                ((a as int) * 0x1000000 + (b as int) * 0x10000 + (c as int) * 0x100 + (
                d as int)) as u32,
            ),
            _ => None,
        }
    } else {
        None
    }
}

/// Parses one dotted-quad octet.
pub fn parse_octet(s: &str) -> (r: Option<u8>)
    ensures
        r == spec_parse_octet(s@),
{
    let n = s.unicode_len();
    if n < 1 || n > 3 {
        return None;
    }
    if n > 1 && s.get_char(0) == '0' {
        return None;
    }
    let mut acc: u32 = 0;
    let mut i: usize = 0;
    while i < n
        invariant
            n == s@.len(),
            1 <= n <= 3,
            i <= n,
            all_digits(s@.take(i as int)),
            acc == digits_val(s@.take(i as int)),
            acc < 1000,
            i <= 2 ==> acc <= 99,
            i <= 1 ==> acc <= 9,
            i == 0 ==> acc == 0,
        decreases n - i,
    {
        let c = s.get_char(i);
        if c < '0' || c > '9' {
            return None;
        }
        let d: u32 = (c as u32) - 48;
        proof {
            assert(s@.take(i + 1).drop_last() =~= s@.take(i as int));
            assert(s@.take(i + 1).last() == s@[i as int]);
        }
        acc = acc * 10 + d;
        i = i + 1;
    }
    proof {
        assert(s@.take(n as int) =~= s@);
    }
    if acc > 255 {
        return None;
    }
    Some(acc as u8)
}

/// Parses a dotted-quad IPv4 literal.
pub fn parse_ipv4(s: &str) -> (r: Option<u32>)
    ensures
        r == spec_parse_ipv4(s@),
{
    let parts = str_split(s, '.');
    if parts.len() != 4 {
        return None;
    }
    proof {
        assert(parts.deep_view()[0] == parts@[0]@);
        assert(parts.deep_view()[1] == parts@[1]@);
        assert(parts.deep_view()[2] == parts@[2]@);
        assert(parts.deep_view()[3] == parts@[3]@);
    }
    let a = match parse_octet(parts[0].as_str()) {
        Some(v) => v,
        None => {
            return None;
        },
    };
    let b = match parse_octet(parts[1].as_str()) {
        Some(v) => v,
        None => {
            return None;
        },
    };
    let c = match parse_octet(parts[2].as_str()) {
        Some(v) => v,
        None => {
            return None;
        },
    };
    let d = match parse_octet(parts[3].as_str()) {
        Some(v) => v,
        None => {
            return None;
        },
    };
    Some((a as u32) * 0x1000000 + (b as u32) * 0x10000 + (c as u32) * 0x100 + (d as u32))
}


/// Hexadecimal digit class.
pub open spec fn is_hex_digit(c: char) -> bool {
    is_digit(c) || ('a' <= c && c <= 'f') || ('A' <= c && c <= 'F')
}

/// Numeric value of a hexadecimal digit.
pub open spec fn hex_digit_val(c: char) -> int {
    if is_digit(c) {
        (c as u32) - 48
    } else if 'a' <= c && c <= 'f' {
        (c as u32) - 87
    } else {
        (c as u32) - 55
    }
}

/// Every character of `s` is a hexadecimal digit.
pub open spec fn all_hex_digits(s: Seq<char>) -> bool {
    forall|i: int| 0 <= i < s.len() ==> is_hex_digit(#[trigger] s[i])
}

/// Value of a hexadecimal numeral.
pub open spec fn hex_val(s: Seq<char>) -> int
    decreases s.len(),
{
    if s.len() == 0 {
        0
    } else {
        hex_val(s.drop_last()) * 16 + hex_digit_val(s.last())
    }
}

/// One group of an IPv6 address: one to four hexadecimal digits.
pub open spec fn spec_hex_group(s: Seq<char>) -> Option<u16> {
    if 1 <= s.len() <= 4 && all_hex_digits(s) && hex_val(s) <= 0xFFFF {
        Some(hex_val(s) as u16)
    } else {
        None
    }
}

/// The group values of a colon-separated part list.
pub open spec fn spec_groups(parts: Seq<Seq<char>>) -> Option<Seq<u16>>
    decreases parts.len(),
{
    if parts.len() == 0 {
        Some(Seq::<u16>::empty())
    } else {
        match (spec_hex_group(parts[0]), spec_groups(parts.drop_first())) {
            (Some(g), Some(r)) => Some(seq![g] + r),
            _ => None,
        }
    }
}

/// The two groups a dotted-quad tail stands for.
pub open spec fn v4_groups(v: u32) -> Seq<u16> {
    seq![((v as int) / 0x10000) as u16, ((v as int) % 0x10000) as u16]
}

/// The group values of a colon-separated part list whose last part may be
/// a dotted-quad tail standing for the final two groups.
pub open spec fn spec_groups_v4(parts: Seq<Seq<char>>) -> Option<Seq<u16>>
    decreases parts.len(),
{
    if parts.len() == 0 {
        Some(Seq::<u16>::empty())
    } else if parts.len() == 1 {
        match spec_hex_group(parts[0]) {
            Some(g) => Some(seq![g]),
            None => match spec_parse_ipv4(parts[0]) {
                Some(v) => Some(v4_groups(v)),
                None => None,
            },
        }
    } else {
        match (spec_hex_group(parts[0]), spec_groups_v4(parts.drop_first())) {
            (Some(g), Some(r)) => Some(seq![g] + r),
            _ => None,
        }
    }
}

/// Index of the first `::` in `s`, or -1.
pub open spec fn spec_find2(s: Seq<char>) -> int
    decreases s.len(),
{
    if s.len() < 2 {
        -1
    } else if s[0] == ':' && s[1] == ':' {
        0
    } else {
        let r = spec_find2(s.drop_first());
        if r < 0 {
            -1
        } else {
            r + 1
        }
    }
}

/// The value of eight 16-bit groups as one 128-bit integer, first group
/// highest.
pub open spec fn spec_ipv6_val(g: Seq<u16>) -> u128 {
    ((g[0] as int) * 0x10000000000000000000000000000 + (g[1] as int)
        * 0x1000000000000000000000000 + (g[2] as int) * 0x100000000000000000000 + (g[3] as int)
        * 0x10000000000000000 + (g[4] as int) * 0x1000000000000 + (g[5] as int) * 0x100000000 + (
    g[6] as int) * 0x10000 + (g[7] as int)) as u128
}

/// Value of an IPv6 literal without brackets: eight hexadecimal groups, or
/// fewer with one `::` standing for the missing zero groups. A trailing
/// dotted-quad part stands for the last two groups; it may not appear
/// before the `::`. Zone identifiers belong to the socket-address form,
/// not to the address itself.
pub open spec fn spec_parse_ipv6(s: Seq<char>) -> Option<u128> {
    let j = spec_find2(s);
    if 0 <= j && j + 2 <= s.len() {
        let left = s.take(j);
        let right = s.skip(j + 2);
        let lg = if left.len() == 0 {
            Some(Seq::<u16>::empty())
        } else {
            spec_groups(spec_split(left, ':'))
        };
        let rg = if right.len() == 0 {
            Some(Seq::<u16>::empty())
        } else {
            spec_groups_v4(spec_split(right, ':'))
        };
        match (lg, rg) {
            (Some(l), Some(r)) => {
                if l.len() + r.len() <= 7 {
                    Some(
                        spec_ipv6_val(
                            l + Seq::<u16>::new((8 - l.len() - r.len()) as nat, |i: int| 0u16) + r,
                        ),
                    )
                } else {
                    None
                }
            },
            _ => None,
        }
    } else {
        match spec_groups_v4(spec_split(s, ':')) {
            Some(g) => {
                if g.len() == 8 {
                    Some(spec_ipv6_val(g))
                } else {
                    None
                }
            },
            None => None,
        }
    }
}

/// Parses one hexadecimal group.
pub fn parse_hex_group(s: &str) -> (r: Option<u16>)
    ensures
        r == spec_hex_group(s@),
{
    let n = s.unicode_len();
    if n < 1 || n > 4 {
        return None;
    }
    let mut acc: u32 = 0;
    let mut i: usize = 0;
    while i < n
        invariant
            n == s@.len(),
            1 <= n <= 4,
            i <= n,
            all_hex_digits(s@.take(i as int)),
            acc == hex_val(s@.take(i as int)),
            acc <= 0xFFFF,
            i <= 3 ==> acc <= 0xFFF,
            i <= 2 ==> acc <= 0xFF,
            i <= 1 ==> acc <= 0xF,
            i == 0 ==> acc == 0,
        decreases n - i,
    {
        let c = s.get_char(i);
        let d: u32 = if '0' <= c && c <= '9' {
            (c as u32) - 48
        } else if 'a' <= c && c <= 'f' {
            (c as u32) - 87
        } else if 'A' <= c && c <= 'F' {
            (c as u32) - 55
        } else {
            return None;
        };
        proof {
            assert(s@.take(i + 1).drop_last() =~= s@.take(i as int));
            assert(s@.take(i + 1).last() == s@[i as int]);
        }
        acc = acc * 16 + d;
        i = i + 1;
    }
    proof {
        assert(s@.take(n as int) =~= s@);
    }
    Some(acc as u16)
}

/// First occurrence of `::` in `s`.
pub fn str_find2(s: &str) -> (r: Option<usize>)
    ensures
        match r {
            Some(j) => j + 2 <= s@.len() && spec_find2(s@) == j as int,
            None => spec_find2(s@) < 0,
        },
{
    let n = s.unicode_len();
    if n < 2 {
        proof {
            assert(s@.skip(0) =~= s@);
        }
        return None;
    }
    let mut i: usize = 0;
    proof {
        assert(s@.skip(0) =~= s@);
    }
    while i + 1 < n
        invariant
            n == s@.len(),
            i + 1 <= n,
            spec_find2(s@) == (if spec_find2(s@.skip(i as int)) < 0 {
                -1 as int
            } else {
                spec_find2(s@.skip(i as int)) + i
            }),
        decreases n - i,
    {
        proof {
            assert(s@.skip(i as int)[0] == s@[i as int]);
            assert(s@.skip(i as int)[1] == s@[i + 1]);
            assert(s@.skip(i as int).drop_first() =~= s@.skip(i + 1));
        }
        if s.get_char(i) == ':' && s.get_char(i + 1) == ':' {
            return Some(i);
        }
        i = i + 1;
    }
    proof {
        assert(s@.skip(i as int).len() < 2);
    }
    None
}

/// Parses a colon-separated list of hexadecimal groups.
#[verifier::loop_isolation(false)]
fn parse_groups(s: &str) -> (r: Option<Vec<u16>>)
    ensures
        match r {
            Some(g) => spec_groups(spec_split(s@, ':')) == Some(g@),
            None => spec_groups(spec_split(s@, ':')) is None,
        },
{
    let parts = str_split(s, ':');
    let ghost pv = parts.deep_view();
    let n = parts.len();
    let mut out: Vec<u16> = Vec::new();
    let mut i: usize = 0;
    proof {
        assert(pv.skip(0) =~= pv);
        assert(out@ =~= Seq::<u16>::empty());
    }
    while i < n
        invariant
            i <= n,
            match spec_groups(pv.skip(i as int)) {
                Some(rest) => spec_groups(pv) == Some(out@ + rest),
                None => spec_groups(pv) is None,
            },
        decreases n - i,
    {
        proof {
            assert(pv.skip(i as int)[0] == pv[i as int]);
            assert(pv.skip(i as int).drop_first() =~= pv.skip(i + 1));
            assert(pv[i as int] == parts@[i as int]@);
        }
        let g = match parse_hex_group(parts[i].as_str()) {
            Some(g) => g,
            None => {
                return None;
            },
        };
        let ghost pre = out@;
        out.push(g);
        proof {
            assert(out@ =~= pre.push(g));
            assert(pre.push(g) =~= pre + seq![g]);
            match spec_groups(pv.skip(i + 1)) {
                Some(rest) => {
                    assert((pre + seq![g]) + rest =~= pre + (seq![g] + rest));
                },
                None => {},
            }
        }
        i = i + 1;
    }
    proof {
        assert(pv.skip(n as int).len() == 0);
        assert(out@ + Seq::<u16>::empty() =~= out@);
    }
    Some(out)
}

/// Parses a colon-separated group list whose last part may be a
/// dotted-quad tail.
#[verifier::loop_isolation(false)]
fn parse_groups_v4(s: &str) -> (r: Option<Vec<u16>>)
    ensures
        match r {
            Some(g) => spec_groups_v4(spec_split(s@, ':')) == Some(g@),
            None => spec_groups_v4(spec_split(s@, ':')) is None,
        },
{
    let parts = str_split(s, ':');
    let ghost pv = parts.deep_view();
    let n = parts.len();
    let mut out: Vec<u16> = Vec::new();
    let mut i: usize = 0;
    proof {
        assert(pv.skip(0) =~= pv);
        assert(out@ =~= Seq::<u16>::empty());
    }
    while i < n
        invariant
            i <= n,
            match spec_groups_v4(pv.skip(i as int)) {
                Some(rest) => spec_groups_v4(pv) == Some(out@ + rest),
                None => spec_groups_v4(pv) is None,
            },
        decreases n - i,
    {
        proof {
            assert(pv.skip(i as int)[0] == pv[i as int]);
            assert(pv.skip(i as int).drop_first() =~= pv.skip(i + 1));
            assert(pv[i as int] == parts@[i as int]@);
        }
        if i + 1 == n {
            let tail = match parse_hex_group(parts[i].as_str()) {
                Some(g) => {
                    let ghost pre = out@;
                    out.push(g);
                    proof {
                        assert(out@ =~= pre.push(g));
                        assert(pre.push(g) =~= pre + seq![g]);
                    }
                },
                None => {
                    match parse_ipv4(parts[i].as_str()) {
                        Some(v) => {
                            let hi: u16 = (v >> 16) as u16;
                            let lo: u16 = (v & 0xFFFF) as u16;
                            proof {
                                assert(v >> 16 == v / 0x10000) by (bit_vector);
                                assert((v & 0xFFFF) == v % 0x10000) by (bit_vector);
                                assert(v / 0x10000 <= 0xFFFF);
                                assert(v % 0x10000 <= 0xFFFF);
                                assert(hi == ((v as int) / 0x10000) as u16);
                                assert(lo == ((v as int) % 0x10000) as u16);
                            }
                            let ghost pre = out@;
                            out.push(hi);
                            out.push(lo);
                            proof {
                                assert(out@ =~= pre + v4_groups(v));
                            }
                        },
                        None => {
                            return None;
                        },
                    }
                },
            };
            proof {
                assert(pv.skip(i + 1).len() == 0);
                assert(spec_groups_v4(pv.skip(i + 1)) == Some(Seq::<u16>::empty()));
            }
        } else {
            let g = match parse_hex_group(parts[i].as_str()) {
                Some(g) => g,
                None => {
                    return None;
                },
            };
            let ghost pre = out@;
            out.push(g);
            proof {
                assert(out@ =~= pre.push(g));
                assert(pre.push(g) =~= pre + seq![g]);
                match spec_groups_v4(pv.skip(i + 1)) {
                    Some(rest) => {
                        assert((pre + seq![g]) + rest =~= pre + (seq![g] + rest));
                    },
                    None => {},
                }
            }
        }
        i = i + 1;
    }
    proof {
        assert(pv.skip(n as int).len() == 0);
        assert(out@ + Seq::<u16>::empty() =~= out@);
    }
    Some(out)
}

/// Parses an IPv6 literal (without brackets).
#[verifier::loop_isolation(false)]
pub fn parse_ipv6(s: &str) -> (r: Option<u128>)
    ensures
        r == spec_parse_ipv6(s@),
{
    let n = s.unicode_len();
    match str_find2(s) {
        Some(j) => {
            let left = s.substring_char(0, j);
            let right = s.substring_char(j + 2, n);
            proof {
                assert(left@ =~= s@.take(j as int));
                assert(right@ =~= s@.skip(j + 2));
            }
            let lg: Vec<u16> = if left.unicode_len() == 0 {
                Vec::new()
            } else {
                match parse_groups(left) {
                    Some(g) => g,
                    None => {
                        return None;
                    },
                }
            };
            proof {
                if left@.len() == 0 {
                    assert(lg@ =~= Seq::<u16>::empty());
                }
            }
            let rg: Vec<u16> = if right.unicode_len() == 0 {
                Vec::new()
            } else {
                match parse_groups_v4(right) {
                    Some(g) => g,
                    None => {
                        return None;
                    },
                }
            };
            proof {
                if right@.len() == 0 {
                    assert(rg@ =~= Seq::<u16>::empty());
                }
            }
            if lg.len() > 7 || rg.len() > 7 || lg.len() + rg.len() > 7 {
                return None;
            }
            let mut full: Vec<u16> = Vec::new();
            let mut i: usize = 0;
            let ln = lg.len();
            while i < ln
                invariant
                    ln == lg@.len(),
                    i <= ln,
                    full@ =~= lg@.take(i as int),
                decreases ln - i,
            {
                full.push(lg[i]);
                proof {
                    assert(full@ =~= lg@.take(i + 1));
                }
                i = i + 1;
            }
            proof {
                assert(lg@.take(ln as int) =~= lg@);
            }
            let zeros: usize = 8 - lg.len() - rg.len();
            let mut z: usize = 0;
            while z < zeros
                invariant
                    z <= zeros,
                    full@ =~= lg@ + Seq::<u16>::new(z as nat, |q: int| 0u16),
                decreases zeros - z,
            {
                full.push(0);
                proof {
                    assert(full@ =~= lg@ + Seq::<u16>::new((z + 1) as nat, |q: int| 0u16));
                }
                z = z + 1;
            }
            let rn = rg.len();
            let ghost mid = full@;
            let mut k: usize = 0;
            while k < rn
                invariant
                    rn == rg@.len(),
                    k <= rn,
                    full@ =~= mid + rg@.take(k as int),
                decreases rn - k,
            {
                full.push(rg[k]);
                proof {
                    assert(full@ =~= mid + rg@.take(k + 1));
                }
                k = k + 1;
            }
            proof {
                assert(rg@.take(rn as int) =~= rg@);
                assert(full@ =~= lg@ + Seq::<u16>::new((8 - lg@.len() - rg@.len()) as nat, |q: int| 0u16)
                    + rg@);
                assert(full@.len() == 8);
            }
            Some(combine_groups(&full))
        },
        None => {
            match parse_groups_v4(s) {
                Some(g) => {
                    if g.len() == 8 {
                        Some(combine_groups(&g))
                    } else {
                        None
                    }
                },
                None => None,
            }
        },
    }
}

/// Packs eight 16-bit groups into one 128-bit integer.
fn combine_groups(g: &Vec<u16>) -> (r: u128)
    requires
        g@.len() == 8,
    ensures
        r == spec_ipv6_val(g@),
{
    (g[0] as u128) * 0x10000000000000000000000000000 + (g[1] as u128)
        * 0x1000000000000000000000000 + (g[2] as u128) * 0x100000000000000000000 + (g[3] as u128)
        * 0x10000000000000000 + (g[4] as u128) * 0x1000000000000 + (g[5] as u128) * 0x100000000 + (
    g[6] as u128) * 0x10000 + (g[7] as u128)
}


/// Relies on std's String::push: appends the given character to the string.
pub assume_specification[ String::push ](s: &mut String, c: char)
    ensures
        final(s)@ == old(s)@.push(c),
;

/// ASCII lower-casing of a single character; server names are compared
/// case-insensitively after this folding.
pub open spec fn lower_char(c: char) -> char {
    if 'A' <= c && c <= 'Z' {
        (((c as u8) + 32) as char)
    } else {
        c
    }
}

/// ASCII lower-casing of a character sequence.
pub open spec fn lower_chars(s: Seq<char>) -> Seq<char> {
    s.map_values(|c: char| lower_char(c))
}

/// Lower-cases the ASCII letters of `s`, leaving every other character as it is.
pub fn ascii_lowercase(s: &str) -> (r: String)
    ensures
        r@ == lower_chars(s@),
{
    let n = s.unicode_len();
    let mut out = String::new();
    let mut i: usize = 0;
    while i < n
        invariant
            n == s@.len(),
            i <= n,
            out@ == lower_chars(s@.subrange(0, i as int)),
        decreases n - i,
    {
        let c = s.get_char(i);
        let lc: char = if 'A' <= c && c <= 'Z' {
            (((c as u8) + 32) as char)
        } else {
            c
        };
        out.push(lc);
        proof {
            assert(s@.subrange(0, i + 1) =~= s@.subrange(0, i as int).push(s@[i as int]));
            assert(lower_chars(s@.subrange(0, i + 1)) =~= lower_chars(
                s@.subrange(0, i as int),
            ).push(lower_char(s@[i as int])));
        }
        i = i + 1;
    }
    proof {
        assert(s@.subrange(0, n as int) =~= s@);
    }
    out
}

} // verus!
